//! One turn of an interactive session: a line of source text goes in, the
//! text to show comes out, and the environment keeps what the line bound.

use vstd::prelude::*;
use vstd::string::*;
use vstd::utf8::is_ascii_chars;
use crate::evaluator::{MAX_CALL_DEPTH, eval};
use crate::grammar::parse_program;
use crate::lexer::{chars_to_codes, tokens_from};
use crate::object::{Env, EnvView, render_error, render_object};
use crate::parser::parse;
use crate::semantics::eval_program;
use crate::text::string_views;

verus! {

/// Each message on a line of its own, behind a tab.
pub open spec fn parse_errors_text(errors: Seq<Seq<char>>) -> Seq<char>
    decreases errors.len(),
{
    if errors.len() == 0 {
        Seq::empty()
    } else {
        parse_errors_text(errors.drop_last()) + "\t"@ + errors.last() + "\n"@
    }
}

/// What a turn leaves behind: the environment, and the text to show.
pub struct Reply {
    pub env: EnvView,
    pub text: Seq<char>,
}

/// The reply to a line. A line with a character outside ASCII is refused.
/// A line with malformed parts gets the parser's messages and is not
/// evaluated. Any other line is evaluated, and the reply shows its value or
/// its error.
pub open spec fn reply(env: EnvView, line: Seq<char>) -> Reply {
    if !is_ascii_chars(line) {
        Reply { env, text: "[ERROR] please input only ASCII string\n"@ }
    } else {
        let parsed = parse_program(tokens_from(chars_to_codes(line), 0));
        if parsed.state.errors.len() > 0 {
            Reply { env, text: parse_errors_text(parsed.state.errors) }
        } else {
            let outcome = eval_program(env, parsed.stmts, MAX_CALL_DEPTH as nat);
            Reply {
                env: outcome.env,
                text: match outcome.result {
                    Ok(value) => render_object(value) + "\n"@,
                    Err(message) => render_error(message) + "\n"@,
                },
            }
        }
    }
}

/// Appends each message to `out`, on a line of its own behind a tab.
pub fn print_parse_errors(out: &mut String, errors: &Vec<String>)
    ensures
        final(out)@ == old(out)@ + parse_errors_text(string_views(errors@)),
{
    let ghost views = string_views(errors@);
    let mut i: usize = 0;
    assert(views.take(0) =~= Seq::<Seq<char>>::empty());
    while i < errors.len()
        invariant
            i <= errors.len(),
            views == string_views(errors@),
            out@ == old(out)@ + parse_errors_text(views.take(i as int)),
        decreases errors.len() - i,
    {
        proof {
            assert(views.take(i + 1).drop_last() =~= views.take(i as int));
            assert(views.take(i + 1).last() == errors@[i as int]@);
        }
        out.append("\t");
        out.append(errors[i].as_str());
        out.append("\n");
        assert(out@ =~= old(out)@ + parse_errors_text(views.take(i + 1)));
        i += 1;
    }
    assert(views.take(i as int) =~= views);
}

/// Takes one line of source text and gives the text to show for it; `env`
/// keeps the bindings that the line made.
pub fn respond(line: String, env: &mut Env) -> (text: String)
    requires
        old(env).wf(),
    ensures
        final(env).wf(),
        final(env)@ == reply(old(env)@, line@).env,
        text@ == reply(old(env)@, line@).text,
{
    match parse(line) {
        Ok((program, errors)) => {
            if errors.len() > 0 {
                let mut out = String::new();
                print_parse_errors(&mut out, &errors);
                assert(out@ =~= parse_errors_text(string_views(errors@)));
                return out;
            }
            match eval(program, env) {
                Ok(value) => {
                    let mut out = value.to_text();
                    out.append("\n");
                    out
                },
                Err(error) => {
                    let mut out = error.to_text();
                    out.append("\n");
                    out
                },
            }
        },
        Err(_) => String::from_str("[ERROR] please input only ASCII string\n"),
    }
}

} // verus!
