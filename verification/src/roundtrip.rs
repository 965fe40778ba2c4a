//! Rendering and reading back: the text of an expression is scanned into the
//! tokens that write it, and parsed into the expression again.

use vstd::prelude::*;
use vstd::utf8::is_ascii_chars;
use crate::ast::{
    ExprView, Infix, Literal, Prefix, StmtView, render_expr, render_exprs, render_program,
    render_stmt, render_stmts,
};
use crate::grammar::parse_program;
use crate::reading::{
    body_tokens, lemma_parse_program_inverts_tokens, more_params_tokens, opens_group,
    params_tokens, stmt_tokens, is_plain_body, is_plain_stmt,
};
use crate::reading::{
    args_tokens, expr_tokens, infix_token, is_plain, more_args_tokens, prefix_token,
};
use crate::lexer::{
    chars_to_codes, code_at, codes_to_chars, digits_end, digits_value, is_digit, is_letter,
    is_space, letters_end, lemma_lex_at_advances, lex_at, number_token, spaces_end, tokens_from,
    word_token,
};
use crate::text::{concat_all, digit_char, join, nat_decimal};
use crate::token::TokenView;

verus! {

/// One step of scanning: the tokens from a position inside the text are the
/// token found there and the tokens from where scanning goes on.
pub proof fn lemma_tokens_step(input: Seq<u8>, pos: int)
    requires
        0 <= pos < input.len(),
    ensures
        tokens_from(input, pos) == seq![lex_at(input, pos).token] + tokens_from(
            input,
            lex_at(input, pos).next,
        ),
{
    lemma_lex_at_advances(input, pos);
}

/// A white space character before a character that is none is skipped.
pub proof fn lemma_skip_space(input: Seq<u8>, pos: int)
    requires
        0 <= pos,
        pos + 1 < input.len(),
        is_space(input[pos]),
        !is_space(input[pos + 1]),
    ensures
        tokens_from(input, pos) == tokens_from(input, pos + 1),
{
    assert(spaces_end(input, pos + 1) == pos + 1);
    assert(spaces_end(input, pos) == pos + 1);
    assert(lex_at(input, pos) == lex_at(input, pos + 1));
    lemma_tokens_step(input, pos);
    lemma_tokens_step(input, pos + 1);
}

/// The token of a character that is a token by itself.
pub open spec fn symbol_token(c: u8) -> Option<TokenView> {
    if c == 59 {
        Some(TokenView::SEMICOLON)
    } else if c == 40 {
        Some(TokenView::LPAREN)
    } else if c == 41 {
        Some(TokenView::RPAREN)
    } else if c == 44 {
        Some(TokenView::COMMA)
    } else if c == 123 {
        Some(TokenView::LBRACE)
    } else if c == 125 {
        Some(TokenView::RBRACE)
    } else if c == 43 {
        Some(TokenView::PLUS)
    } else if c == 45 {
        Some(TokenView::MINUS)
    } else if c == 47 {
        Some(TokenView::SLASH)
    } else if c == 42 {
        Some(TokenView::ASTERISK)
    } else if c == 60 {
        Some(TokenView::LT)
    } else if c == 62 {
        Some(TokenView::GT)
    } else {
        None
    }
}

/// A character that is a token by itself is scanned as that token.
pub proof fn lemma_scan_symbol(input: Seq<u8>, pos: int)
    requires
        0 <= pos < input.len(),
        symbol_token(input[pos]) is Some,
    ensures
        tokens_from(input, pos) == seq![symbol_token(input[pos])->0] + tokens_from(input, pos + 1),
{
    assert(spaces_end(input, pos) == pos);
    lemma_tokens_step(input, pos);
}

/// `!` before a character other than `=` is scanned as `BANG`.
pub proof fn lemma_scan_bang(input: Seq<u8>, pos: int)
    requires
        0 <= pos < input.len(),
        input[pos] == 33,
        code_at(input, pos + 1) != 61,
    ensures
        tokens_from(input, pos) == seq![TokenView::BANG] + tokens_from(input, pos + 1),
{
    assert(spaces_end(input, pos) == pos);
    lemma_tokens_step(input, pos);
}

/// `==` and `!=` are scanned as one token each.
pub proof fn lemma_scan_equality(input: Seq<u8>, pos: int)
    requires
        0 <= pos,
        pos + 1 < input.len(),
        input[pos] == 61 || input[pos] == 33,
        input[pos + 1] == 61,
    ensures
        tokens_from(input, pos) == seq![
            if input[pos] == 61 {
                TokenView::EQ
            } else {
                TokenView::NOTEQ
            },
        ] + tokens_from(input, pos + 2),
{
    assert(spaces_end(input, pos) == pos);
    lemma_tokens_step(input, pos);
}

/// A run of letters.
pub open spec fn all_letters(codes: Seq<u8>) -> bool {
    forall|i: int| 0 <= i < codes.len() ==> is_letter(#[trigger] codes[i])
}

/// A run of digits.
pub open spec fn all_digits(codes: Seq<u8>) -> bool {
    forall|i: int| 0 <= i < codes.len() ==> is_digit(#[trigger] codes[i])
}

/// The text holds `part` from position `pos` on.
pub open spec fn holds_at(input: Seq<u8>, pos: int, part: Seq<u8>) -> bool {
    &&& 0 <= pos
    &&& pos + part.len() <= input.len()
    &&& input.subrange(pos, pos + part.len()) == part
}

proof fn lemma_letters_run(input: Seq<u8>, pos: int, n: int, k: int)
    requires
        0 <= pos,
        0 <= k <= n,
        pos + n <= input.len(),
        all_letters(input.subrange(pos, pos + n)),
        pos + n == input.len() || !is_letter(input[pos + n]),
    ensures
        letters_end(input, pos + k) == pos + n,
    decreases n - k,
{
    if k < n {
        assert(input.subrange(pos, pos + n)[k] == input[pos + k]);
        lemma_letters_run(input, pos, n, k + 1);
    }
}

proof fn lemma_digits_run(input: Seq<u8>, pos: int, n: int, k: int)
    requires
        0 <= pos,
        0 <= k <= n,
        pos + n <= input.len(),
        all_digits(input.subrange(pos, pos + n)),
        pos + n == input.len() || !is_digit(input[pos + n]),
    ensures
        digits_end(input, pos + k) == pos + n,
    decreases n - k,
{
    if k < n {
        assert(input.subrange(pos, pos + n)[k] == input[pos + k]);
        lemma_digits_run(input, pos, n, k + 1);
    }
}

/// A run of letters that no letter follows is scanned as one word.
pub proof fn lemma_scan_word(input: Seq<u8>, pos: int, word: Seq<u8>)
    requires
        word.len() > 0,
        all_letters(word),
        holds_at(input, pos, word),
        pos + word.len() == input.len() || !is_letter(input[pos + word.len()]),
    ensures
        tokens_from(input, pos) == seq![word_token(codes_to_chars(word))] + tokens_from(
            input,
            pos + word.len(),
        ),
{
    assert(input[pos] == word[0]);
    assert(is_letter(word[0]));
    assert(spaces_end(input, pos) == pos);
    lemma_letters_run(input, pos, word.len() as int, 0);
    lemma_tokens_step(input, pos);
}

/// A run of digits that no digit follows is scanned as one number.
pub proof fn lemma_scan_number(input: Seq<u8>, pos: int, digits: Seq<u8>)
    requires
        digits.len() > 0,
        all_digits(digits),
        holds_at(input, pos, digits),
        pos + digits.len() == input.len() || !is_digit(input[pos + digits.len()]),
    ensures
        tokens_from(input, pos) == seq![number_token(digits)] + tokens_from(
            input,
            pos + digits.len(),
        ),
{
    assert(input[pos] == digits[0]);
    assert(is_digit(digits[0]));
    assert(spaces_end(input, pos) == pos);
    lemma_digits_run(input, pos, digits.len() as int, 0);
    lemma_tokens_step(input, pos);
}

proof fn lemma_ascii_char_code(c: char)
    requires
        c <= '\u{7f}',
    ensures
        (c as u8) as char == c,
{
    assert(c as u32 <= 127);
    assert((c as u8) as u32 == c as u32);
    assert(((c as u8) as char) as u32 == c as u32);
}

proof fn lemma_digit_code(d: int)
    requires
        0 <= d <= 9,
    ensures
        digit_char(d) as u8 == 48 + d,
{
}

/// The codes of two texts written one after the other.
pub proof fn lemma_codes_of_concat(a: Seq<char>, b: Seq<char>)
    ensures
        chars_to_codes(a + b) == chars_to_codes(a) + chars_to_codes(b),
{
    assert(chars_to_codes(a + b) =~= chars_to_codes(a) + chars_to_codes(b));
}

/// A decimal numeral is a run of digits that is not empty.
pub proof fn lemma_decimal_is_digits(n: nat)
    ensures
        nat_decimal(n).len() > 0,
        all_digits(chars_to_codes(nat_decimal(n))),
    decreases n,
{
    if n >= 10 {
        lemma_decimal_is_digits(n / 10);
        let shorter = nat_decimal(n / 10);
        let last = digit_char((n % 10) as int);
        assert(chars_to_codes(shorter.push(last)) =~= chars_to_codes(shorter).push(last as u8));
        assert forall|i: int| 0 <= i < chars_to_codes(nat_decimal(n)).len() implies is_digit(
            #[trigger] chars_to_codes(nat_decimal(n))[i],
        ) by {
            if i < shorter.len() {
                assert(chars_to_codes(nat_decimal(n))[i] == chars_to_codes(shorter)[i]);
            }
        }
    }
}

/// The number that a decimal numeral writes is the number it was made from.
pub proof fn lemma_decimal_value(n: nat)
    ensures
        digits_value(chars_to_codes(nat_decimal(n))) == n,
    decreases n,
{
    if n >= 10 {
        lemma_decimal_value(n / 10);
        let shorter = nat_decimal(n / 10);
        let last = digit_char((n % 10) as int);
        let codes = chars_to_codes(nat_decimal(n));
        assert(codes =~= chars_to_codes(shorter).push(last as u8));
        assert(codes.drop_last() =~= chars_to_codes(shorter));
        assert(codes.last() == last as u8);
        lemma_digit_code((n % 10) as int);
        assert(digits_value(codes) == digits_value(codes.drop_last()) * 10 + (codes.last() - 48));
    } else {
        let codes = chars_to_codes(nat_decimal(n));
        assert(codes.len() == 1);
        assert(codes.drop_last() =~= Seq::<u8>::empty());
        assert(codes.last() == digit_char(n as int) as u8);
        lemma_digit_code(n as int);
        assert(digits_value(codes.drop_last()) == 0);
        assert(digits_value(codes) == digits_value(codes.drop_last()) * 10 + (codes.last() - 48));
    }
}

/// A name as source text can write it: letters and underscores, at least
/// one, and no keyword.
pub open spec fn is_name(name: Seq<char>) -> bool {
    &&& name.len() > 0
    &&& forall|i: int|
        0 <= i < name.len() ==> (#[trigger] name[i]) <= '\u{7f}' && is_letter(name[i] as u8)
    &&& word_token(name) == TokenView::IDENT(name)
}

/// The codes of a name are a run of letters, and stand for the name.
pub proof fn lemma_name_codes(name: Seq<char>)
    requires
        is_name(name),
    ensures
        all_letters(chars_to_codes(name)),
        codes_to_chars(chars_to_codes(name)) == name,
{
    assert forall|i: int| 0 <= i < name.len() implies is_letter(
        #[trigger] chars_to_codes(name)[i],
    ) by {
        assert(name[i] <= '\u{7f}');
    }
    assert forall|i: int| 0 <= i < name.len() implies codes_to_chars(chars_to_codes(name))[i]
        == name[i] by {
        assert(name[i] <= '\u{7f}');
        lemma_ascii_char_code(name[i]);
        assert(chars_to_codes(name)[i] == name[i] as u8);
    }
    assert(codes_to_chars(chars_to_codes(name)) =~= name);
}

/// The words `true` and `false` are runs of letters that stand for the
/// boolean tokens.
pub proof fn lemma_bool_words()
    ensures
        all_letters(chars_to_codes("true"@)),
        all_letters(chars_to_codes("false"@)),
        "true"@.len() == 4,
        "false"@.len() == 5,
        word_token(codes_to_chars(chars_to_codes("true"@))) == TokenView::TRUE,
        word_token(codes_to_chars(chars_to_codes("false"@))) == TokenView::FALSE,
{
    reveal_strlit("true");
    reveal_strlit("false");
    reveal_strlit("fn");
    reveal_strlit("let");
    assert(codes_to_chars(chars_to_codes("true"@)) =~= "true"@);
    assert(codes_to_chars(chars_to_codes("false"@)) =~= "false"@);
    assert("true"@[0] != "let"@[0]);
    assert("false"@[1] != "fn"@[1]);
}

/// An expression that source text can write as it is rendered: names are
/// names, integers are not negative, and besides there are only operators,
/// calls, and function literals whose parameters and bodies can be written.
pub open spec fn is_written(e: ExprView) -> bool
    decreases e,
{
    match e {
        ExprView::Ident(name) => is_name(name),
        ExprView::Literal(Literal::Int(value)) => value >= 0,
        ExprView::Literal(Literal::Bool(_)) => true,
        ExprView::Prefix(_, operand) => is_written(*operand),
        ExprView::Infix(left, _, right) => is_written(*left) && is_written(*right),
        ExprView::Call(callee, args) => is_written(*callee) && forall|i: int|
            0 <= i < args.len() ==> is_written(#[trigger] args[i]),
        ExprView::Function(params, body) => {
            &&& forall|i: int| 0 <= i < params.len() ==> is_name(#[trigger] params[i])
            &&& is_written_body(body)
        },
        _ => false,
    }
}

/// A statement that source text can write as it is rendered: no block, a
/// name where a name is bound, and an expression that source text can write.
pub open spec fn is_written_stmt(s: StmtView) -> bool
    decreases s,
{
    match s {
        StmtView::Let(name, value) => is_name(name) && is_written(value),
        StmtView::Return(value) => is_written(value),
        StmtView::Expr(value) => is_written(value),
        StmtView::Block(_) => false,
    }
}

/// The body of a function literal that source text can write as it is
/// rendered: statements that can be written, none but the first starting
/// with a parenthesis.
pub open spec fn is_written_body(stmts: Seq<StmtView>) -> bool
    decreases stmts,
{
    forall|i: int|
        0 <= i < stmts.len() ==> is_written_stmt(#[trigger] stmts[i]) && (i > 0 ==> !opens_group(
            stmts[i],
        ))
}

/// What source text can write is plain.
pub proof fn lemma_written_is_plain(e: ExprView)
    requires
        is_written(e),
    ensures
        is_plain(e),
    decreases e,
{
    match e {
        ExprView::Prefix(_, operand) => {
            lemma_written_is_plain(*operand);
        },
        ExprView::Infix(left, _, right) => {
            lemma_written_is_plain(*left);
            lemma_written_is_plain(*right);
        },
        ExprView::Call(callee, args) => {
            lemma_written_is_plain(*callee);
            assert forall|i: int| 0 <= i < args.len() implies is_plain(#[trigger] args[i]) by {
                lemma_written_is_plain(args[i]);
            }
        },
        ExprView::Function(_, body) => {
            assert(is_written_body(body));
            assert forall|i: int| 0 <= i < body.len() implies is_plain_stmt(#[trigger] body[i])
                && (i > 0 ==> !opens_group(body[i])) by {
                assert(is_written_stmt(body[i]));
                lemma_written_stmt_is_plain(body[i]);
            }
            assert(is_plain_body(body));
        },
        _ => {},
    }
}

/// A statement that source text can write is plain.
pub proof fn lemma_written_stmt_is_plain(stmt: StmtView)
    requires
        is_written_stmt(stmt),
    ensures
        is_plain_stmt(stmt),
    decreases stmt,
{
    match stmt {
        StmtView::Let(_, value) => {
            lemma_written_is_plain(value);
        },
        StmtView::Return(value) => {
            lemma_written_is_plain(value);
        },
        StmtView::Expr(value) => {
            lemma_written_is_plain(value);
        },
        StmtView::Block(_) => {},
    }
}

/// Nothing follows, or a character that is neither a letter nor a digit.
pub open spec fn breaks(after: Seq<u8>) -> bool {
    after.len() == 0 || !(is_letter(after[0]) || is_digit(after[0]))
}

/// The expression is written with a word last: a name, `true` or `false`.
pub open spec fn ends_in_word(e: ExprView) -> bool {
    e is Ident || e matches ExprView::Literal(Literal::Bool(_))
}

/// The expression is written with a number last.
pub open spec fn ends_in_number(e: ExprView) -> bool {
    e matches ExprView::Literal(Literal::Int(_))
}

/// What stands behind the text of `e` does not make its last token longer:
/// no letter follows a word, and no digit a number.
pub open spec fn fits_before(e: ExprView, after: Seq<u8>) -> bool {
    after.len() == 0 || {
        &&& ends_in_word(e) ==> !is_letter(after[0])
        &&& ends_in_number(e) ==> !is_digit(after[0])
    }
}

/// A character that the text of an expression can start with.
pub open spec fn starts_operand(c: u8) -> bool {
    is_letter(c) || is_digit(c) || c == 40
}

/// The codes of the text of an expression.
pub open spec fn expr_codes(e: ExprView) -> Seq<u8> {
    chars_to_codes(render_expr(e))
}

/// The texts of further items of a list, the separator before each.
pub open spec fn more_text(parts: Seq<Seq<char>>, sep: Seq<char>) -> Seq<char>
    decreases parts.len(),
{
    if parts.len() == 0 {
        Seq::empty()
    } else {
        sep + parts[0] + more_text(parts.drop_first(), sep)
    }
}

proof fn lemma_more_text_push(parts: Seq<Seq<char>>, last: Seq<char>, sep: Seq<char>)
    ensures
        more_text(parts.push(last), sep) == more_text(parts, sep) + sep + last,
    decreases parts.len(),
{
    let longer = parts.push(last);
    if parts.len() == 0 {
        assert(longer.drop_first() =~= Seq::<Seq<char>>::empty());
        assert(more_text(longer.drop_first(), sep) =~= Seq::<char>::empty());
        assert(longer[0] == last);
        assert(more_text(parts, sep) =~= Seq::<char>::empty());
        assert(more_text(longer, sep) =~= sep + last + more_text(longer.drop_first(), sep));
        assert(more_text(longer, sep) =~= more_text(parts, sep) + sep + last);
    } else {
        lemma_more_text_push(parts.drop_first(), last, sep);
        assert(longer.drop_first() =~= parts.drop_first().push(last));
        assert(more_text(longer, sep) =~= more_text(parts, sep) + sep + last);
    }
}

/// A joined list is its first item and then the others, the separator
/// before each.
pub proof fn lemma_join_from_the_front(parts: Seq<Seq<char>>, sep: Seq<char>)
    requires
        parts.len() > 0,
    ensures
        join(parts, sep) == parts[0] + more_text(parts.drop_first(), sep),
    decreases parts.len(),
{
    if parts.len() == 1 {
        assert(parts.drop_first() =~= Seq::<Seq<char>>::empty());
        assert(join(parts, sep) =~= parts[0] + more_text(parts.drop_first(), sep));
    } else {
        let shorter = parts.drop_last();
        lemma_join_from_the_front(shorter, sep);
        lemma_more_text_push(shorter.drop_first(), parts.last(), sep);
        assert(parts.drop_first() =~= shorter.drop_first().push(parts.last()));
        assert(join(parts, sep) =~= parts[0] + more_text(parts.drop_first(), sep));
    }
}

/// The codes of the text of a unary operator on an operand.
pub proof fn lemma_prefix_text(op: Prefix, operand: ExprView)
    ensures
        expr_codes(ExprView::Prefix(op, Box::new(operand))) == seq![40u8] + chars_to_codes(
            op.symbol(),
        ) + expr_codes(operand) + seq![41u8],
        chars_to_codes(op.symbol()).len() == 1,
        symbol_token(chars_to_codes(op.symbol())[0]) == Some(prefix_token(op)) || (op is Not
            && chars_to_codes(op.symbol())[0] == 33),
{
    reveal_strlit("(");
    reveal_strlit(")");
    reveal_strlit("+");
    reveal_strlit("-");
    reveal_strlit("!");
    let x = render_expr(operand);
    lemma_codes_of_concat("("@, op.symbol());
    lemma_codes_of_concat("("@ + op.symbol(), x);
    lemma_codes_of_concat("("@ + op.symbol() + x, ")"@);
    assert(chars_to_codes("("@) =~= seq![40u8]);
    assert(chars_to_codes(")"@) =~= seq![41u8]);
}

/// The codes of the text of a binary operator between two operands.
pub proof fn lemma_infix_text(left: ExprView, op: Infix, right: ExprView)
    ensures
        expr_codes(ExprView::Infix(Box::new(left), op, Box::new(right))) == seq![40u8] + expr_codes(
            left,
        ) + seq![32u8] + chars_to_codes(op.symbol()) + seq![32u8] + expr_codes(right)
            + seq![41u8],
{
    reveal_strlit("(");
    reveal_strlit(")");
    reveal_strlit(" ");
    let l = render_expr(left);
    let r = render_expr(right);
    let sym = op.symbol();
    lemma_codes_of_concat("("@, l);
    lemma_codes_of_concat("("@ + l, " "@);
    lemma_codes_of_concat("("@ + l + " "@, sym);
    lemma_codes_of_concat("("@ + l + " "@ + sym, " "@);
    lemma_codes_of_concat("("@ + l + " "@ + sym + " "@, r);
    lemma_codes_of_concat("("@ + l + " "@ + sym + " "@ + r, ")"@);
    assert(chars_to_codes("("@) =~= seq![40u8]);
    assert(chars_to_codes(")"@) =~= seq![41u8]);
    assert(chars_to_codes(" "@) =~= seq![32u8]);
}

/// The codes of the text of further arguments.
pub open spec fn more_codes(args: Seq<ExprView>) -> Seq<u8>
    decreases args,
{
    if args.len() == 0 {
        Seq::empty()
    } else {
        seq![44u8, 32u8] + expr_codes(args[0]) + more_codes(args.drop_first())
    }
}

proof fn lemma_more_codes(args: Seq<ExprView>)
    ensures
        chars_to_codes(more_text(render_exprs(args), ", "@)) == more_codes(args),
    decreases args.len(),
{
    if args.len() == 0 {
        assert(chars_to_codes(more_text(render_exprs(args), ", "@)) =~= more_codes(args));
    } else {
        reveal_strlit(", ");
        let parts = render_exprs(args);
        let rest = args.drop_first();
        lemma_more_codes(rest);
        assert(parts.drop_first() =~= render_exprs(rest));
        assert(parts[0] == render_expr(args[0]));
        lemma_codes_of_concat(", "@, parts[0]);
        lemma_codes_of_concat(", "@ + parts[0], more_text(parts.drop_first(), ", "@));
        assert(chars_to_codes(", "@) =~= seq![44u8, 32u8]);
    }
}

/// The codes of the text of the arguments of a call.
pub open spec fn args_codes(args: Seq<ExprView>) -> Seq<u8> {
    if args.len() == 0 {
        Seq::empty()
    } else {
        expr_codes(args[0]) + more_codes(args.drop_first())
    }
}

/// The codes of the text of a call.
pub proof fn lemma_call_text(callee: ExprView, args: Seq<ExprView>)
    ensures
        expr_codes(ExprView::Call(Box::new(callee), args)) == expr_codes(callee) + seq![40u8]
            + args_codes(args) + seq![41u8],
{
    reveal_strlit("(");
    reveal_strlit(")");
    let f = render_expr(callee);
    let parts = render_exprs(args);
    let list = join(parts, ", "@);
    lemma_codes_of_concat(f, "("@);
    lemma_codes_of_concat(f + "("@, list);
    lemma_codes_of_concat(f + "("@ + list, ")"@);
    assert(chars_to_codes("("@) =~= seq![40u8]);
    assert(chars_to_codes(")"@) =~= seq![41u8]);
    if args.len() == 0 {
        assert(chars_to_codes(list) =~= args_codes(args));
    } else {
        lemma_join_from_the_front(parts, ", "@);
        lemma_more_codes(args.drop_first());
        assert(parts.drop_first() =~= render_exprs(args.drop_first()));
        lemma_codes_of_concat(parts[0], more_text(parts.drop_first(), ", "@));
    }
}

/// Scanning from `from` gives the tokens `toks` and goes on at `to`.
pub open spec fn scans(input: Seq<u8>, from: int, to: int, toks: Seq<TokenView>) -> bool {
    tokens_from(input, from) == toks + tokens_from(input, to)
}

proof fn lemma_scans_then(
    input: Seq<u8>,
    a: int,
    b: int,
    c: int,
    first: Seq<TokenView>,
    second: Seq<TokenView>,
)
    requires
        scans(input, a, b, first),
        scans(input, b, c, second),
    ensures
        scans(input, a, c, first + second),
{
    let rest = tokens_from(input, c);
    assert(first + (second + rest) =~= (first + second) + rest);
}

/// The symbol of a binary operator before a space is scanned as the
/// operator's token.
pub proof fn lemma_scan_infix_symbol(input: Seq<u8>, pos: int, op: Infix)
    requires
        holds_at(input, pos, chars_to_codes(op.symbol())),
        pos + op.symbol().len() < input.len(),
        input[pos + op.symbol().len()] == 32,
    ensures
        op.symbol().len() >= 1,
        !is_space(chars_to_codes(op.symbol())[0]),
        scans(input, pos, pos + op.symbol().len(), seq![infix_token(op)]),
{
    reveal_strlit("+");
    reveal_strlit("-");
    reveal_strlit("/");
    reveal_strlit("*");
    reveal_strlit("==");
    reveal_strlit("!=");
    reveal_strlit(">");
    reveal_strlit("<");
    let sym = chars_to_codes(op.symbol());
    assert(input.subrange(pos, pos + sym.len())[0] == input[pos]);
    match op {
        Infix::Equal => {
            assert(input.subrange(pos, pos + sym.len())[1] == input[pos + 1]);
            lemma_scan_equality(input, pos);
        },
        Infix::NotEqual => {
            assert(input.subrange(pos, pos + sym.len())[1] == input[pos + 1]);
            lemma_scan_equality(input, pos);
        },
        _ => {
            lemma_scan_symbol(input, pos);
        },
    }
}

/// The symbol of a unary operator before the start of an operand is scanned
/// as the operator's token.
pub proof fn lemma_scan_prefix_symbol(input: Seq<u8>, pos: int, op: Prefix)
    requires
        holds_at(input, pos, chars_to_codes(op.symbol())),
        pos + 1 < input.len(),
        starts_operand(input[pos + 1]),
    ensures
        op.symbol().len() == 1,
        scans(input, pos, pos + 1, seq![prefix_token(op)]),
{
    reveal_strlit("+");
    reveal_strlit("-");
    reveal_strlit("!");
    let sym = chars_to_codes(op.symbol());
    assert(input.subrange(pos, pos + sym.len())[0] == input[pos]);
    match op {
        Prefix::Not => {
            lemma_scan_bang(input, pos);
        },
        _ => {
            lemma_scan_symbol(input, pos);
        },
    }
}

/// The text of an expression that source text can write is scanned into the
/// tokens that write the expression, whatever stands before it, where what
/// stands behind it does not make its last token longer.
pub proof fn lemma_scan_expr(before: Seq<u8>, e: ExprView, after: Seq<u8>)
    requires
        is_written(e),
        fits_before(e, after),
    ensures
        expr_codes(e).len() > 0,
        starts_operand(expr_codes(e)[0]),
        scans(
            before + expr_codes(e) + after,
            before.len() as int,
            (before.len() + expr_codes(e).len()) as int,
            expr_tokens(e),
        ),
    decreases e, 1nat,
{
    let text = expr_codes(e);
    let input = before + text + after;
    let p = before.len() as int;
    match e {
        ExprView::Ident(name) => {
            lemma_name_codes(name);
            assert(input.subrange(p, p + text.len()) =~= text);
            assert(after.len() > 0 ==> input[p + text.len()] == after[0]);
            lemma_scan_word(input, p, text);
        },
        ExprView::Literal(Literal::Int(value)) => {
            lemma_decimal_is_digits(value as nat);
            lemma_decimal_value(value as nat);
            assert(render_expr(e) == nat_decimal(value as nat));
            assert(input.subrange(p, p + text.len()) =~= text);
            assert(after.len() > 0 ==> input[p + text.len()] == after[0]);
            lemma_scan_number(input, p, text);
        },
        ExprView::Literal(Literal::Bool(value)) => {
            lemma_bool_words();
            assert(input.subrange(p, p + text.len()) =~= text);
            assert(after.len() > 0 ==> input[p + text.len()] == after[0]);
            lemma_scan_word(input, p, text);
        },
        ExprView::Prefix(op, operand) => {
            lemma_scan_prefix(before, op, *operand, after);
        },
        ExprView::Infix(left, op, right) => {
            lemma_scan_infix(before, *left, op, *right, after);
        },
        ExprView::Call(callee, args) => {
            lemma_scan_call(before, *callee, args, after);
        },
        ExprView::Function(params, body) => {
            lemma_scan_function(before, params, body, after);
        },
        _ => {},
    }
}

proof fn lemma_prefix_layout(
    before: Seq<u8>,
    sym: Seq<u8>,
    x: Seq<u8>,
    after: Seq<u8>,
)
    requires
        sym.len() == 1,
        x.len() > 0,
    ensures
        ({
            let text = seq![40u8] + sym + x + seq![41u8];
            let input = before + text + after;
            let p = before.len() as int;
            &&& input == (before + seq![40u8] + sym) + x + (seq![41u8] + after)
            &&& (before + seq![40u8] + sym).len() == p + 2
            &&& text.len() == x.len() + 3
            &&& text[0] == 40
            &&& input.len() == p + text.len() + after.len()
            &&& input[p] == 40
            &&& holds_at(input, p + 1, sym)
            &&& input[p + 2] == x[0]
            &&& input[p + 2 + x.len()] == 41
            &&& (seq![41u8] + after)[0] == 41
        }),
{
    let text = seq![40u8] + sym + x + seq![41u8];
    let input = before + text + after;
    let p = before.len() as int;
    assert(input =~= (before + seq![40u8] + sym) + x + (seq![41u8] + after));
    assert(input.subrange(p + 1, p + 1 + sym.len()) =~= sym);
}

proof fn lemma_scan_prefix(before: Seq<u8>, op: Prefix, operand: ExprView, after: Seq<u8>)
    requires
        is_written(operand),
    ensures
        ({
            let e = ExprView::Prefix(op, Box::new(operand));
            &&& expr_codes(e).len() > 0
            &&& starts_operand(expr_codes(e)[0])
            &&& scans(
                before + expr_codes(e) + after,
                before.len() as int,
                (before.len() + expr_codes(e).len()) as int,
                expr_tokens(e),
            )
        }),
    decreases (ExprView::Prefix(op, Box::new(operand))), 0nat,
{
    let e = ExprView::Prefix(op, Box::new(operand));
    let sym = chars_to_codes(op.symbol());
    let x = expr_codes(operand);
    let input = before + expr_codes(e) + after;
    let p = before.len() as int;
    lemma_prefix_text(op, operand);
    lemma_scan_expr(before + seq![40u8] + sym, operand, seq![41u8] + after);
    lemma_prefix_layout(before, sym, x, after);
    lemma_scan_symbol(input, p);
    lemma_scan_prefix_symbol(input, p + 1, op);
    lemma_scan_symbol(input, p + 2 + x.len());
    let lp = seq![TokenView::LPAREN];
    let t_op = seq![prefix_token(op)];
    let t_x = expr_tokens(operand);
    let rp = seq![TokenView::RPAREN];
    assert(scans(input, p, p + 1, lp));
    assert(scans(input, p + 1, p + 2, t_op));
    assert(scans(input, p + 2, p + 2 + x.len(), t_x));
    assert(scans(input, p + 2 + x.len(), p + 3 + x.len(), rp));
    lemma_scans_then(input, p, p + 1, p + 2, lp, t_op);
    lemma_scans_then(input, p, p + 2, p + 2 + x.len(), lp + t_op, t_x);
    lemma_scans_then(input, p, p + 2 + x.len(), p + 3 + x.len(), lp + t_op + t_x, rp);
    assert(lp + t_op =~= seq![TokenView::LPAREN, prefix_token(op)]);
}

proof fn lemma_infix_layout(
    before: Seq<u8>,
    l: Seq<u8>,
    sym: Seq<u8>,
    r: Seq<u8>,
    after: Seq<u8>,
)
    requires
        sym.len() > 0,
        l.len() > 0,
        r.len() > 0,
    ensures
        ({
            let text = seq![40u8] + l + seq![32u8] + sym + seq![32u8] + r + seq![41u8];
            let input = before + text + after;
            let p = before.len() as int;
            let q = p + 1 + l.len();
            let w = q + 1 + sym.len();
            &&& input == (before + seq![40u8]) + l + (seq![32u8] + sym + seq![32u8] + r
                + seq![41u8] + after)
            &&& input == (before + seq![40u8] + l + seq![32u8] + sym + seq![32u8]) + r + (seq![
                41u8,
            ] + after)
            &&& (before + seq![40u8]).len() == p + 1
            &&& (before + seq![40u8] + l + seq![32u8] + sym + seq![32u8]).len() == w + 1
            &&& text.len() == l.len() + sym.len() + r.len() + 4
            &&& input.len() == p + text.len() + after.len()
            &&& text[0] == 40
            &&& input[p] == 40
            &&& input[q] == 32
            &&& input[q + 1] == sym[0]
            &&& holds_at(input, q + 1, sym)
            &&& input[w] == 32
            &&& input[w + 1] == r[0]
            &&& input[w + 1 + r.len()] == 41
            &&& (seq![32u8] + sym + seq![32u8] + r + seq![41u8] + after)[0] == 32
            &&& (seq![41u8] + after)[0] == 41
        }),
{
    let text = seq![40u8] + l + seq![32u8] + sym + seq![32u8] + r + seq![41u8];
    let input = before + text + after;
    let p = before.len() as int;
    let q = p + 1 + l.len();
    assert(input =~= (before + seq![40u8]) + l + (seq![32u8] + sym + seq![32u8] + r + seq![41u8]
        + after));
    assert(input =~= (before + seq![40u8] + l + seq![32u8] + sym + seq![32u8]) + r + (seq![41u8]
        + after));
    assert(input.subrange(q + 1, q + 1 + sym.len()) =~= sym);
}

#[verifier::rlimit(100)]
proof fn lemma_scan_infix(
    before: Seq<u8>,
    left: ExprView,
    op: Infix,
    right: ExprView,
    after: Seq<u8>,
)
    requires
        is_written(left),
        is_written(right),
    ensures
        ({
            let e = ExprView::Infix(Box::new(left), op, Box::new(right));
            &&& expr_codes(e).len() > 0
            &&& starts_operand(expr_codes(e)[0])
            &&& scans(
                before + expr_codes(e) + after,
                before.len() as int,
                (before.len() + expr_codes(e).len()) as int,
                expr_tokens(e),
            )
        }),
    decreases (ExprView::Infix(Box::new(left), op, Box::new(right))), 0nat,
{
    let e = ExprView::Infix(Box::new(left), op, Box::new(right));
    let sym = chars_to_codes(op.symbol());
    let l = expr_codes(left);
    let r = expr_codes(right);
    let input = before + expr_codes(e) + after;
    let p = before.len() as int;
    let q = p + 1 + l.len();
    let w = q + 1 + sym.len();
    lemma_infix_text(left, op, right);
    lemma_scan_expr(
        before + seq![40u8],
        left,
        seq![32u8] + sym + seq![32u8] + r + seq![41u8] + after,
    );
    lemma_scan_expr(
        before + seq![40u8] + l + seq![32u8] + sym + seq![32u8],
        right,
        seq![41u8] + after,
    );
    assert(sym.len() > 0) by {
        reveal_strlit("+");
        reveal_strlit("-");
        reveal_strlit("/");
        reveal_strlit("*");
        reveal_strlit("==");
        reveal_strlit("!=");
        reveal_strlit(">");
        reveal_strlit("<");
    }
    lemma_infix_layout(before, l, sym, r, after);
    lemma_scan_symbol(input, p);
    lemma_scan_infix_symbol(input, q + 1, op);
    lemma_skip_space(input, q);
    lemma_skip_space(input, w);
    lemma_scan_symbol(input, w + 1 + r.len());
    let lp = seq![TokenView::LPAREN];
    let t_l = expr_tokens(left);
    let t_op = seq![infix_token(op)];
    let t_r = expr_tokens(right);
    let rp = seq![TokenView::RPAREN];
    assert(scans(input, p, p + 1, lp));
    assert(scans(input, p + 1, q, t_l));
    assert(scans(input, q, w, t_op));
    assert(scans(input, w, w + 1 + r.len(), t_r));
    assert(scans(input, w + 1 + r.len(), w + 2 + r.len(), rp));
    lemma_scans_then(input, p, p + 1, q, lp, t_l);
    lemma_scans_then(input, p, q, w, lp + t_l, t_op);
    lemma_scans_then(input, p, w, w + 1 + r.len(), lp + t_l + t_op, t_r);
    lemma_scans_then(input, p, w + 1 + r.len(), w + 2 + r.len(), lp + t_l + t_op + t_r, rp);
}

proof fn lemma_call_layout(before: Seq<u8>, f: Seq<u8>, a: Seq<u8>, after: Seq<u8>)
    requires
        f.len() > 0,
    ensures
        ({
            let text = f + seq![40u8] + a + seq![41u8];
            let input = before + text + after;
            let p = before.len() as int;
            &&& input == before + f + (seq![40u8] + a + seq![41u8] + after)
            &&& input == (before + f + seq![40u8]) + a + (seq![41u8] + after)
            &&& (before + f + seq![40u8]).len() == p + f.len() + 1
            &&& text.len() == f.len() + a.len() + 2
            &&& input.len() == p + text.len() + after.len()
            &&& text[0] == f[0]
            &&& input[p + f.len()] == 40
            &&& input[p + f.len() + 1 + a.len()] == 41
            &&& (seq![40u8] + a + seq![41u8] + after)[0] == 40
            &&& (seq![41u8] + after)[0] == 41
        }),
{
    let text = f + seq![40u8] + a + seq![41u8];
    let input = before + text + after;
    assert(input =~= before + f + (seq![40u8] + a + seq![41u8] + after));
    assert(input =~= (before + f + seq![40u8]) + a + (seq![41u8] + after));
}

proof fn lemma_scan_call(before: Seq<u8>, callee: ExprView, args: Seq<ExprView>, after: Seq<u8>)
    requires
        is_written(callee),
        forall|i: int| 0 <= i < args.len() ==> is_written(#[trigger] args[i]),
    ensures
        ({
            let e = ExprView::Call(Box::new(callee), args);
            &&& expr_codes(e).len() > 0
            &&& starts_operand(expr_codes(e)[0])
            &&& scans(
                before + expr_codes(e) + after,
                before.len() as int,
                (before.len() + expr_codes(e).len()) as int,
                expr_tokens(e),
            )
        }),
    decreases (ExprView::Call(Box::new(callee), args)), 0nat,
{
    let e = ExprView::Call(Box::new(callee), args);
    let f = expr_codes(callee);
    let a = args_codes(args);
    let input = before + expr_codes(e) + after;
    let p = before.len() as int;
    lemma_call_text(callee, args);
    lemma_scan_expr(before, callee, seq![40u8] + a + seq![41u8] + after);
    lemma_scan_args(before + f + seq![40u8], args, seq![41u8] + after);
    lemma_call_layout(before, f, a, after);
    lemma_scan_symbol(input, p + f.len());
    lemma_scan_symbol(input, p + f.len() + 1 + a.len());
    let t_f = expr_tokens(callee);
    let lp = seq![TokenView::LPAREN];
    let t_a = args_tokens(args);
    let rp = seq![TokenView::RPAREN];
    assert(scans(input, p, p + f.len(), t_f));
    assert(scans(input, p + f.len(), p + f.len() + 1, lp));
    assert(scans(input, p + f.len() + 1, p + f.len() + 1 + a.len(), t_a));
    assert(scans(input, p + f.len() + 1 + a.len(), p + f.len() + 2 + a.len(), rp));
    lemma_scans_then(input, p, p + f.len(), p + f.len() + 1, t_f, lp);
    lemma_scans_then(input, p, p + f.len() + 1, p + f.len() + 1 + a.len(), t_f + lp, t_a);
    lemma_scans_then(
        input,
        p,
        p + f.len() + 1 + a.len(),
        p + f.len() + 2 + a.len(),
        t_f + lp + t_a,
        rp,
    );
}

/// The text of the arguments of a call, before the closing parenthesis, is
/// scanned into the tokens that write them.
proof fn lemma_scan_args(before: Seq<u8>, args: Seq<ExprView>, after: Seq<u8>)
    requires
        forall|i: int| 0 <= i < args.len() ==> is_written(#[trigger] args[i]),
        after.len() > 0,
        after[0] == 41,
    ensures
        scans(
            before + args_codes(args) + after,
            before.len() as int,
            (before.len() + args_codes(args).len()) as int,
            args_tokens(args),
        ),
    decreases args, 1nat,
{
    let input = before + args_codes(args) + after;
    let p = before.len() as int;
    if args.len() == 0 {
        assert(args_tokens(args) + tokens_from(input, p) =~= tokens_from(input, p));
    } else {
        let first = args[0];
        let rest = args.drop_first();
        let x = expr_codes(first);
        let m = more_codes(rest);
        assert forall|i: int| 0 <= i < rest.len() implies is_written(#[trigger] rest[i]) by {
            assert(rest[i] == args[i + 1]);
        }
        assert(input =~= before + x + (m + after));
        assert(breaks(m + after)) by {
            if rest.len() > 0 {
                assert(m[0] == 44);
                assert((m + after)[0] == 44);
            } else {
                assert((m + after)[0] == after[0]);
            }
        }
        lemma_scan_expr(before, first, m + after);
        assert(input =~= (before + x) + m + after);
        lemma_scan_more_args(before + x, rest, after);
        lemma_scans_then(
            input,
            p,
            p + x.len(),
            p + x.len() + m.len(),
            expr_tokens(first),
            more_args_tokens(rest),
        );
    }
}

/// The text of further arguments, a comma and a space before each, is
/// scanned into the tokens that write them.
proof fn lemma_scan_more_args(before: Seq<u8>, rest: Seq<ExprView>, after: Seq<u8>)
    requires
        forall|i: int| 0 <= i < rest.len() ==> is_written(#[trigger] rest[i]),
        after.len() > 0,
        after[0] == 41,
    ensures
        scans(
            before + more_codes(rest) + after,
            before.len() as int,
            (before.len() + more_codes(rest).len()) as int,
            more_args_tokens(rest),
        ),
    decreases rest, 0nat,
{
    let input = before + more_codes(rest) + after;
    let p = before.len() as int;
    if rest.len() == 0 {
        assert(more_args_tokens(rest) + tokens_from(input, p) =~= tokens_from(input, p));
    } else {
        let first = rest[0];
        let later = rest.drop_first();
        let x = expr_codes(first);
        let m = more_codes(later);
        let sep = seq![44u8, 32u8];
        assert forall|i: int| 0 <= i < later.len() implies is_written(#[trigger] later[i]) by {
            assert(later[i] == rest[i + 1]);
        }
        assert(input =~= (before + sep) + x + (m + after));
        assert(breaks(m + after)) by {
            if later.len() > 0 {
                assert(m[0] == 44);
                assert((m + after)[0] == 44);
            } else {
                assert((m + after)[0] == after[0]);
            }
        }
        lemma_scan_expr(before + sep, first, m + after);
        assert(input =~= (before + sep + x) + m + after);
        lemma_scan_more_args(before + sep + x, later, after);
        assert(input[p] == 44);
        assert(input[p + 1] == 32);
        assert(input[p + 2] == x[0]);
        lemma_scan_symbol(input, p);
        lemma_skip_space(input, p + 1);
        let comma = seq![TokenView::COMMA];
        assert(scans(input, p, p + 1, comma));
        assert(scans(input, p + 1, p + 2 + x.len(), expr_tokens(first)));
        assert(scans(input, p + 2 + x.len(), p + 2 + x.len() + m.len(), more_args_tokens(later)));
        lemma_scans_then(input, p, p + 1, p + 2 + x.len(), comma, expr_tokens(first));
        lemma_scans_then(
            input,
            p,
            p + 2 + x.len(),
            p + 2 + x.len() + m.len(),
            comma + expr_tokens(first),
            more_args_tokens(later),
        );
    }
}

proof fn lemma_char_is_not_negative(c: char)
    ensures
        '\0' <= c,
{
}

proof fn lemma_ascii_concat(a: Seq<char>, b: Seq<char>)
    requires
        is_ascii_chars(a),
        is_ascii_chars(b),
    ensures
        is_ascii_chars(a + b),
{
    assert forall|i: int| 0 <= i < (a + b).len() implies '\0' <= #[trigger] (a + b)[i]
        <= '\u{7f}' by {
        if i < a.len() {
            assert((a + b)[i] == a[i]);
        } else {
            assert((a + b)[i] == b[i - a.len()]);
        }
    }
}

proof fn lemma_decimal_is_ascii(n: nat)
    ensures
        is_ascii_chars(nat_decimal(n)),
    decreases n,
{
    if n >= 10 {
        lemma_decimal_is_ascii(n / 10);
        let shorter = nat_decimal(n / 10);
        let last = digit_char((n % 10) as int);
        assert forall|i: int| 0 <= i < nat_decimal(n).len() implies '\0' <= #[trigger] nat_decimal(
            n,
        )[i] <= '\u{7f}' by {
            if i < shorter.len() {
                assert(nat_decimal(n)[i] == shorter[i]);
            }
        }
    }
}

proof fn lemma_symbols_are_ascii()
    ensures
        is_ascii_chars("("@),
        is_ascii_chars(")"@),
        is_ascii_chars(" "@),
        is_ascii_chars(", "@),
        is_ascii_chars("true"@),
        is_ascii_chars("false"@),
        forall|op: Prefix| is_ascii_chars(#[trigger] op.symbol()),
        forall|op: Infix| is_ascii_chars(#[trigger] op.symbol()),
{
    reveal_strlit("(");
    reveal_strlit(")");
    reveal_strlit(" ");
    reveal_strlit(", ");
    reveal_strlit("true");
    reveal_strlit("false");
    reveal_strlit("+");
    reveal_strlit("-");
    reveal_strlit("!");
    reveal_strlit("/");
    reveal_strlit("*");
    reveal_strlit("==");
    reveal_strlit("!=");
    reveal_strlit(">");
    reveal_strlit("<");
}

proof fn lemma_more_text_is_ascii(parts: Seq<Seq<char>>, sep: Seq<char>)
    requires
        forall|i: int| 0 <= i < parts.len() ==> is_ascii_chars(#[trigger] parts[i]),
        is_ascii_chars(sep),
    ensures
        is_ascii_chars(more_text(parts, sep)),
    decreases parts.len(),
{
    if parts.len() > 0 {
        lemma_symbols_are_ascii();
        let rest = parts.drop_first();
        assert forall|i: int| 0 <= i < rest.len() implies is_ascii_chars(#[trigger] rest[i]) by {
            assert(rest[i] == parts[i + 1]);
        }
        lemma_more_text_is_ascii(rest, sep);
        lemma_ascii_concat(sep, parts[0]);
        lemma_ascii_concat(sep + parts[0], more_text(rest, sep));
    }
}

proof fn lemma_name_is_ascii(name: Seq<char>)
    requires
        is_name(name),
    ensures
        is_ascii_chars(name),
{
    assert forall|i: int| 0 <= i < name.len() implies '\0' <= #[trigger] name[i] <= '\u{7f}' by {
        assert(name[i] <= '\u{7f}');
        lemma_char_is_not_negative(name[i]);
    }
}

proof fn lemma_join_is_ascii(parts: Seq<Seq<char>>, sep: Seq<char>)
    requires
        forall|i: int| 0 <= i < parts.len() ==> is_ascii_chars(#[trigger] parts[i]),
        is_ascii_chars(sep),
    ensures
        is_ascii_chars(join(parts, sep)),
{
    if parts.len() > 0 {
        lemma_join_from_the_front(parts, sep);
        let rest = parts.drop_first();
        assert forall|i: int| 0 <= i < rest.len() implies is_ascii_chars(#[trigger] rest[i]) by {
            assert(rest[i] == parts[i + 1]);
        }
        lemma_more_text_is_ascii(rest, sep);
        lemma_ascii_concat(parts[0], more_text(rest, sep));
    } else {
        assert(join(parts, sep) =~= Seq::<char>::empty());
    }
}

/// The text of an expression that source text can write is ASCII.
pub proof fn lemma_rendered_is_ascii(e: ExprView)
    requires
        is_written(e),
    ensures
        is_ascii_chars(render_expr(e)),
    decreases e,
{
    lemma_symbols_are_ascii();
    match e {
        ExprView::Ident(name) => {
            lemma_name_is_ascii(name);
        },
        ExprView::Literal(Literal::Int(value)) => {
            lemma_decimal_is_ascii(value as nat);
        },
        ExprView::Literal(Literal::Bool(_)) => {},
        ExprView::Prefix(op, operand) => {
            lemma_rendered_is_ascii(*operand);
            let x = render_expr(*operand);
            lemma_ascii_concat("("@, op.symbol());
            lemma_ascii_concat("("@ + op.symbol(), x);
            lemma_ascii_concat("("@ + op.symbol() + x, ")"@);
        },
        ExprView::Infix(left, op, right) => {
            lemma_rendered_is_ascii(*left);
            lemma_rendered_is_ascii(*right);
            let l = render_expr(*left);
            let r = render_expr(*right);
            let sym = op.symbol();
            lemma_ascii_concat("("@, l);
            lemma_ascii_concat("("@ + l, " "@);
            lemma_ascii_concat("("@ + l + " "@, sym);
            lemma_ascii_concat("("@ + l + " "@ + sym, " "@);
            lemma_ascii_concat("("@ + l + " "@ + sym + " "@, r);
            lemma_ascii_concat("("@ + l + " "@ + sym + " "@ + r, ")"@);
        },
        ExprView::Call(callee, args) => {
            lemma_rendered_is_ascii(*callee);
            let f = render_expr(*callee);
            let parts = render_exprs(args);
            let list = join(parts, ", "@);
            assert forall|i: int| 0 <= i < parts.len() implies is_ascii_chars(
                #[trigger] parts[i],
            ) by {
                lemma_rendered_is_ascii(args[i]);
            }
            if args.len() > 0 {
                lemma_join_from_the_front(parts, ", "@);
                let rest = parts.drop_first();
                assert forall|i: int| 0 <= i < rest.len() implies is_ascii_chars(
                    #[trigger] rest[i],
                ) by {
                    assert(rest[i] == parts[i + 1]);
                }
                lemma_more_text_is_ascii(rest, ", "@);
                lemma_ascii_concat(parts[0], more_text(rest, ", "@));
            } else {
                assert(list =~= Seq::<char>::empty());
            }
            lemma_ascii_concat(f, "("@);
            lemma_ascii_concat(f + "("@, list);
            lemma_ascii_concat(f + "("@ + list, ")"@);
        },
        ExprView::Function(params, body) => {
            lemma_keyword_words();
            let names = join(params, ", "@);
            let parts = render_stmts(body);
            let lines = join(parts, "\n"@);
            assert forall|i: int| 0 <= i < params.len() implies is_ascii_chars(
                #[trigger] params[i],
            ) by {
                lemma_name_is_ascii(params[i]);
            }
            assert(is_written_body(body));
            assert forall|i: int| 0 <= i < parts.len() implies is_ascii_chars(
                #[trigger] parts[i],
            ) by {
                assert(is_written_stmt(body[i]));
                lemma_rendered_stmt_is_ascii(body[i]);
            }
            lemma_join_is_ascii(params, ", "@);
            lemma_join_is_ascii(parts, "\n"@);
            lemma_ascii_concat("fn ("@, names);
            lemma_ascii_concat("fn ("@ + names, ") {\n "@);
            lemma_ascii_concat("fn ("@ + names + ") {\n "@, lines);
            lemma_ascii_concat("fn ("@ + names + ") {\n "@ + lines, " }"@);
        },
        _ => {},
    }
}

/// `=` before a character other than `=` is scanned as `ASSIGN`.
pub proof fn lemma_scan_assign(input: Seq<u8>, pos: int)
    requires
        0 <= pos < input.len(),
        input[pos] == 61,
        code_at(input, pos + 1) != 61,
    ensures
        scans(input, pos, pos + 1, seq![TokenView::ASSIGN]),
{
    assert(spaces_end(input, pos) == pos);
    lemma_tokens_step(input, pos);
}

/// A run of white space before a character that is none is skipped.
pub proof fn lemma_skip_spaces(input: Seq<u8>, pos: int, n: int)
    requires
        0 <= pos,
        0 <= n,
        pos + n < input.len(),
        forall|i: int| pos <= i < pos + n ==> is_space(#[trigger] input[i]),
        !is_space(input[pos + n]),
    ensures
        tokens_from(input, pos) == tokens_from(input, pos + n),
    decreases n,
{
    if n > 0 {
        lemma_skip_spaces(input, pos + 1, n - 1);
        if n == 1 {
            lemma_skip_space(input, pos);
        } else {
            assert(is_space(input[pos]));
            assert(is_space(input[pos + 1]));
            lemma_spaces_run(input, pos, n, 0);
            lemma_spaces_run(input, pos, n, 1);
            assert(lex_at(input, pos) == lex_at(input, pos + 1));
            lemma_tokens_step(input, pos);
            lemma_tokens_step(input, pos + 1);
        }
    }
}

proof fn lemma_spaces_run(input: Seq<u8>, pos: int, n: int, k: int)
    requires
        0 <= pos,
        0 <= k <= n,
        pos + n < input.len(),
        forall|i: int| pos <= i < pos + n ==> is_space(#[trigger] input[i]),
        !is_space(input[pos + n]),
    ensures
        spaces_end(input, pos + k) == pos + n,
    decreases n - k,
{
    if k < n {
        assert(is_space(input[pos + k]));
        lemma_spaces_run(input, pos, n, k + 1);
    }
}

/// The codes of the text of a statement.
pub open spec fn stmt_codes(s: StmtView) -> Seq<u8> {
    chars_to_codes(render_stmt(s))
}

/// The codes of the text of the parameter names of a function literal.
pub open spec fn params_codes(params: Seq<Seq<char>>) -> Seq<u8> {
    if params.len() == 0 {
        Seq::empty()
    } else {
        chars_to_codes(params[0]) + more_params_codes(params.drop_first())
    }
}

/// The codes of the text of further parameter names.
pub open spec fn more_params_codes(params: Seq<Seq<char>>) -> Seq<u8>
    decreases params.len(),
{
    if params.len() == 0 {
        Seq::empty()
    } else {
        seq![44u8, 32u8] + chars_to_codes(params[0]) + more_params_codes(params.drop_first())
    }
}

/// The codes of the text of the statements of a body.
pub open spec fn body_codes(body: Seq<StmtView>) -> Seq<u8> {
    if body.len() == 0 {
        Seq::empty()
    } else {
        stmt_codes(body[0]) + more_body_codes(body.drop_first())
    }
}

/// The codes of the text of further statements of a body, each on a new
/// line.
pub open spec fn more_body_codes(body: Seq<StmtView>) -> Seq<u8>
    decreases body.len(),
{
    if body.len() == 0 {
        Seq::empty()
    } else {
        seq![10u8] + stmt_codes(body[0]) + more_body_codes(body.drop_first())
    }
}

proof fn lemma_more_params_codes(params: Seq<Seq<char>>)
    ensures
        chars_to_codes(more_text(params, ", "@)) == more_params_codes(params),
    decreases params.len(),
{
    if params.len() == 0 {
        assert(chars_to_codes(more_text(params, ", "@)) =~= more_params_codes(params));
    } else {
        reveal_strlit(", ");
        lemma_more_params_codes(params.drop_first());
        lemma_codes_of_concat(", "@, params[0]);
        lemma_codes_of_concat(", "@ + params[0], more_text(params.drop_first(), ", "@));
        assert(chars_to_codes(", "@) =~= seq![44u8, 32u8]);
    }
}

proof fn lemma_more_body_codes(body: Seq<StmtView>)
    ensures
        chars_to_codes(more_text(render_stmts(body), "\n"@)) == more_body_codes(body),
    decreases body.len(),
{
    if body.len() == 0 {
        assert(chars_to_codes(more_text(render_stmts(body), "\n"@)) =~= more_body_codes(body));
    } else {
        reveal_strlit("\n");
        let parts = render_stmts(body);
        let rest = body.drop_first();
        lemma_more_body_codes(rest);
        assert(parts.drop_first() =~= render_stmts(rest));
        assert(parts[0] == render_stmt(body[0]));
        lemma_codes_of_concat("\n"@, parts[0]);
        lemma_codes_of_concat("\n"@ + parts[0], more_text(parts.drop_first(), "\n"@));
        assert(chars_to_codes("\n"@) =~= seq![10u8]);
    }
}

/// The codes of the text of a function literal.
pub proof fn lemma_function_text(params: Seq<Seq<char>>, body: Seq<StmtView>)
    ensures
        expr_codes(ExprView::Function(params, body)) == seq![102u8, 110u8, 32u8, 40u8]
            + params_codes(params) + seq![41u8, 32u8, 123u8, 10u8, 32u8] + body_codes(body)
            + seq![32u8, 125u8],
{
    reveal_strlit("fn (");
    reveal_strlit(") {\n ");
    reveal_strlit(" }");
    let names = join(params, ", "@);
    let parts = render_stmts(body);
    let lines = join(parts, "\n"@);
    lemma_codes_of_concat("fn ("@, names);
    lemma_codes_of_concat("fn ("@ + names, ") {\n "@);
    lemma_codes_of_concat("fn ("@ + names + ") {\n "@, lines);
    lemma_codes_of_concat("fn ("@ + names + ") {\n "@ + lines, " }"@);
    assert(chars_to_codes("fn ("@) =~= seq![102u8, 110u8, 32u8, 40u8]);
    assert(chars_to_codes(") {\n "@) =~= seq![41u8, 32u8, 123u8, 10u8, 32u8]);
    assert(chars_to_codes(" }"@) =~= seq![32u8, 125u8]);
    if params.len() == 0 {
        assert(chars_to_codes(names) =~= params_codes(params));
    } else {
        lemma_join_from_the_front(params, ", "@);
        lemma_more_params_codes(params.drop_first());
        lemma_codes_of_concat(params[0], more_text(params.drop_first(), ", "@));
    }
    if body.len() == 0 {
        assert(chars_to_codes(lines) =~= body_codes(body));
    } else {
        lemma_join_from_the_front(parts, "\n"@);
        lemma_more_body_codes(body.drop_first());
        assert(parts.drop_first() =~= render_stmts(body.drop_first()));
        assert(parts[0] == render_stmt(body[0]));
        lemma_codes_of_concat(parts[0], more_text(parts.drop_first(), "\n"@));
    }
}

proof fn lemma_keyword_words()
    ensures
        chars_to_codes("let "@) == seq![108u8, 101u8, 116u8, 32u8],
        chars_to_codes(" = "@) == seq![32u8, 61u8, 32u8],
        chars_to_codes("return "@) == seq![114u8, 101u8, 116u8, 117u8, 114u8, 110u8, 32u8],
        word_token(codes_to_chars(seq![108u8, 101u8, 116u8])) == TokenView::LET,
        word_token(codes_to_chars(seq![114u8, 101u8, 116u8, 117u8, 114u8, 110u8]))
            == TokenView::RETURN,
        word_token(codes_to_chars(seq![102u8, 110u8])) == TokenView::FUNCTION,
        is_ascii_chars("let "@),
        is_ascii_chars(" = "@),
        is_ascii_chars("return "@),
        is_ascii_chars("fn ("@),
        is_ascii_chars(") {\n "@),
        is_ascii_chars(" }"@),
        is_ascii_chars("\n"@),
{
    reveal_strlit("let ");
    reveal_strlit(" = ");
    reveal_strlit("return ");
    reveal_strlit("fn (");
    reveal_strlit(") {\n ");
    reveal_strlit(" }");
    reveal_strlit("\n");
    reveal_strlit("fn");
    reveal_strlit("let");
    reveal_strlit("true");
    reveal_strlit("false");
    reveal_strlit("if");
    reveal_strlit("else");
    reveal_strlit("return");
    assert(chars_to_codes("let "@) =~= seq![108u8, 101u8, 116u8, 32u8]);
    assert(chars_to_codes(" = "@) =~= seq![32u8, 61u8, 32u8]);
    assert(chars_to_codes("return "@) =~= seq![114u8, 101u8, 116u8, 117u8, 114u8, 110u8, 32u8]);
    assert(codes_to_chars(seq![108u8, 101u8, 116u8]) =~= "let"@);
    assert(codes_to_chars(seq![114u8, 101u8, 116u8, 117u8, 114u8, 110u8]) =~= "return"@);
    assert(codes_to_chars(seq![102u8, 110u8]) =~= "fn"@);
    assert("let"@[0] != "fn"@[0]);
    assert("return"@[0] != "fn"@[0]);
    assert("return"@.len() != "let"@.len());
    assert("return"@.len() != "true"@.len());
    assert("return"@.len() != "false"@.len());
    assert("return"@.len() != "if"@.len());
    assert("return"@.len() != "else"@.len());
}

proof fn lemma_let_layout(before: Seq<u8>, name: Seq<u8>, x: Seq<u8>, after: Seq<u8>)
    requires
        name.len() > 0,
        x.len() > 0,
    ensures
        ({
            let text = seq![108u8, 101u8, 116u8, 32u8] + name + seq![32u8, 61u8, 32u8] + x;
            let input = before + text + after;
            let p = before.len() as int;
            let n = name.len() as int;
            &&& input == (before + seq![108u8, 101u8, 116u8, 32u8] + name + seq![
                32u8,
                61u8,
                32u8,
            ]) + x + after
            &&& (before + seq![108u8, 101u8, 116u8, 32u8] + name + seq![32u8, 61u8, 32u8]).len()
                == p + n + 7
            &&& text.len() == n + 7 + x.len()
            &&& text[0] == 108
            &&& input.len() == p + text.len() + after.len()
            &&& holds_at(input, p, seq![108u8, 101u8, 116u8])
            &&& input[p + 3] == 32
            &&& input[p + 4] == name[0]
            &&& holds_at(input, p + 4, name)
            &&& input[p + 4 + n] == 32
            &&& input[p + 5 + n] == 61
            &&& input[p + 6 + n] == 32
            &&& input[p + 7 + n] == x[0]
        }),
{
    let text = seq![108u8, 101u8, 116u8, 32u8] + name + seq![32u8, 61u8, 32u8] + x;
    let input = before + text + after;
    let p = before.len() as int;
    assert(input =~= (before + seq![108u8, 101u8, 116u8, 32u8] + name + seq![32u8, 61u8, 32u8])
        + x + after);
    assert(input.subrange(p, p + 3) =~= seq![108u8, 101u8, 116u8]);
    assert(input.subrange(p + 4, p + 4 + name.len()) =~= name);
}

proof fn lemma_return_layout(before: Seq<u8>, x: Seq<u8>, after: Seq<u8>)
    requires
        x.len() > 0,
    ensures
        ({
            let head = seq![114u8, 101u8, 116u8, 117u8, 114u8, 110u8, 32u8];
            let text = head + x;
            let input = before + text + after;
            let p = before.len() as int;
            &&& input == (before + head) + x + after
            &&& (before + head).len() == p + 7
            &&& text.len() == 7 + x.len()
            &&& text[0] == 114
            &&& input.len() == p + text.len() + after.len()
            &&& holds_at(input, p, seq![114u8, 101u8, 116u8, 117u8, 114u8, 110u8])
            &&& input[p + 6] == 32
            &&& input[p + 7] == x[0]
        }),
{
    let head = seq![114u8, 101u8, 116u8, 117u8, 114u8, 110u8, 32u8];
    let input = before + (head + x) + after;
    let p = before.len() as int;
    assert(input =~= (before + head) + x + after);
    assert(input.subrange(p, p + 6) =~= seq![114u8, 101u8, 116u8, 117u8, 114u8, 110u8]);
}

/// The expression of a statement.
pub open spec fn stmt_value(s: StmtView) -> ExprView {
    match s {
        StmtView::Let(_, value) => value,
        StmtView::Return(value) => value,
        StmtView::Expr(value) => value,
        StmtView::Block(_) => ExprView::Literal(Literal::Bool(false)),
    }
}

/// The text of a statement that source text can write is scanned into the
/// tokens that write the statement, whatever stands before it, where what
/// stands behind it does not make its last token longer.
pub proof fn lemma_scan_stmt(before: Seq<u8>, stmt: StmtView, after: Seq<u8>)
    requires
        is_written_stmt(stmt),
        fits_before(stmt_value(stmt), after),
    ensures
        stmt_codes(stmt).len() > 0,
        !is_space(stmt_codes(stmt)[0]),
        scans(
            before + stmt_codes(stmt) + after,
            before.len() as int,
            (before.len() + stmt_codes(stmt).len()) as int,
            stmt_tokens(stmt),
        ),
    decreases stmt, 1nat,
{
    match stmt {
        StmtView::Let(name, value) => {
            lemma_scan_let(before, name, value, after);
        },
        StmtView::Return(value) => {
            lemma_scan_return(before, value, after);
        },
        StmtView::Expr(value) => {
            lemma_scan_expr(before, value, after);
        },
        StmtView::Block(_) => {},
    }
}

proof fn lemma_scan_let(before: Seq<u8>, name: Seq<char>, value: ExprView, after: Seq<u8>)
    requires
        is_name(name),
        is_written(value),
        fits_before(value, after),
    ensures
        ({
            let stmt = StmtView::Let(name, value);
            &&& stmt_codes(stmt).len() > 0
            &&& !is_space(stmt_codes(stmt)[0])
            &&& scans(
                before + stmt_codes(stmt) + after,
                before.len() as int,
                (before.len() + stmt_codes(stmt).len()) as int,
                stmt_tokens(stmt),
            )
        }),
    decreases (StmtView::Let(name, value)), 0nat,
{
    let stmt = StmtView::Let(name, value);
    let input = before + stmt_codes(stmt) + after;
    let p = before.len() as int;
    let word = seq![108u8, 101u8, 116u8];
    let head = seq![108u8, 101u8, 116u8, 32u8];
    let mid = seq![32u8, 61u8, 32u8];
    let id = chars_to_codes(name);
    let x = expr_codes(value);
    let n = id.len() as int;
    lemma_keyword_words();
    lemma_name_codes(name);
    lemma_codes_of_concat("let "@, name);
    lemma_codes_of_concat("let "@ + name, " = "@);
    lemma_codes_of_concat("let "@ + name + " = "@, render_expr(value));
    assert(stmt_codes(stmt) == head + id + mid + x);
    lemma_scan_expr(before + head + id + mid, value, after);
    lemma_let_layout(before, id, x, after);
    assert(all_letters(word));
    lemma_scan_word(input, p, word);
    lemma_skip_space(input, p + 3);
    lemma_scan_word(input, p + 4, id);
    lemma_skip_space(input, p + 4 + n);
    lemma_scan_assign(input, p + 5 + n);
    lemma_skip_space(input, p + 6 + n);
    let t_let = seq![TokenView::LET];
    let t_id = seq![TokenView::IDENT(name)];
    let t_eq = seq![TokenView::ASSIGN];
    let t_x = expr_tokens(value);
    let end = p + 7 + n + x.len() as int;
    assert(scans(input, p, p + 3, t_let));
    assert(scans(input, p + 3, p + 4 + n, t_id));
    assert(scans(input, p + 4 + n, p + 6 + n, t_eq));
    assert(scans(input, p + 6 + n, end, t_x));
    lemma_scans_then(input, p, p + 3, p + 4 + n, t_let, t_id);
    lemma_scans_then(input, p, p + 4 + n, p + 6 + n, t_let + t_id, t_eq);
    lemma_scans_then(input, p, p + 6 + n, end, t_let + t_id + t_eq, t_x);
    assert(t_let + t_id + t_eq =~= seq![
        TokenView::LET,
        TokenView::IDENT(name),
        TokenView::ASSIGN,
    ]);
}

proof fn lemma_scan_return(before: Seq<u8>, value: ExprView, after: Seq<u8>)
    requires
        is_written(value),
        fits_before(value, after),
    ensures
        ({
            let stmt = StmtView::Return(value);
            &&& stmt_codes(stmt).len() > 0
            &&& !is_space(stmt_codes(stmt)[0])
            &&& scans(
                before + stmt_codes(stmt) + after,
                before.len() as int,
                (before.len() + stmt_codes(stmt).len()) as int,
                stmt_tokens(stmt),
            )
        }),
    decreases (StmtView::Return(value)), 0nat,
{
    let stmt = StmtView::Return(value);
    let input = before + stmt_codes(stmt) + after;
    let p = before.len() as int;
    let word = seq![114u8, 101u8, 116u8, 117u8, 114u8, 110u8];
    let head = seq![114u8, 101u8, 116u8, 117u8, 114u8, 110u8, 32u8];
    let x = expr_codes(value);
    lemma_keyword_words();
    lemma_codes_of_concat("return "@, render_expr(value));
    assert(stmt_codes(stmt) == head + x);
    lemma_scan_expr(before + head, value, after);
    lemma_return_layout(before, x, after);
    assert(all_letters(word));
    lemma_scan_word(input, p, word);
    lemma_skip_space(input, p + 6);
    let t_ret = seq![TokenView::RETURN];
    let t_x = expr_tokens(value);
    let end = p + 7 + x.len() as int;
    assert(scans(input, p, p + 6, t_ret));
    assert(scans(input, p + 6, end, t_x));
    lemma_scans_then(input, p, p + 6, end, t_ret, t_x);
}

/// The text of the parameter names of a function literal, before the
/// closing parenthesis, is scanned into the tokens that write them.
proof fn lemma_scan_params(before: Seq<u8>, params: Seq<Seq<char>>, after: Seq<u8>)
    requires
        forall|i: int| 0 <= i < params.len() ==> is_name(#[trigger] params[i]),
        after.len() > 0,
        after[0] == 41,
    ensures
        scans(
            before + params_codes(params) + after,
            before.len() as int,
            (before.len() + params_codes(params).len()) as int,
            params_tokens(params),
        ),
{
    let input = before + params_codes(params) + after;
    let p = before.len() as int;
    if params.len() == 0 {
        assert(params_tokens(params) + tokens_from(input, p) =~= tokens_from(input, p));
    } else {
        let name = params[0];
        let rest = params.drop_first();
        let id = chars_to_codes(name);
        let m = more_params_codes(rest);
        assert forall|i: int| 0 <= i < rest.len() implies is_name(#[trigger] rest[i]) by {
            assert(rest[i] == params[i + 1]);
        }
        lemma_name_codes(name);
        assert(input =~= before + id + (m + after));
        assert(input.subrange(p, p + id.len()) =~= id);
        assert((m + after)[0] == 44 || (m + after)[0] == 41) by {
            if rest.len() > 0 {
                assert(m[0] == 44);
            }
        }
        assert(input[p + id.len()] == (m + after)[0]);
        lemma_scan_word(input, p, id);
        assert(input =~= (before + id) + m + after);
        lemma_scan_more_params(before + id, rest, after);
        lemma_scans_then(
            input,
            p,
            p + id.len(),
            p + id.len() + m.len(),
            seq![TokenView::IDENT(name)],
            more_params_tokens(rest),
        );
    }
}

proof fn lemma_scan_more_params(before: Seq<u8>, rest: Seq<Seq<char>>, after: Seq<u8>)
    requires
        forall|i: int| 0 <= i < rest.len() ==> is_name(#[trigger] rest[i]),
        after.len() > 0,
        after[0] == 41,
    ensures
        scans(
            before + more_params_codes(rest) + after,
            before.len() as int,
            (before.len() + more_params_codes(rest).len()) as int,
            more_params_tokens(rest),
        ),
    decreases rest.len(),
{
    let input = before + more_params_codes(rest) + after;
    let p = before.len() as int;
    if rest.len() == 0 {
        assert(more_params_tokens(rest) + tokens_from(input, p) =~= tokens_from(input, p));
    } else {
        let name = rest[0];
        let later = rest.drop_first();
        let id = chars_to_codes(name);
        let m = more_params_codes(later);
        let sep = seq![44u8, 32u8];
        assert forall|i: int| 0 <= i < later.len() implies is_name(#[trigger] later[i]) by {
            assert(later[i] == rest[i + 1]);
        }
        lemma_name_codes(name);
        assert(input =~= (before + sep) + id + (m + after));
        assert(input.subrange(p + 2, p + 2 + id.len()) =~= id);
        assert((m + after)[0] == 44 || (m + after)[0] == 41) by {
            if later.len() > 0 {
                assert(m[0] == 44);
            }
        }
        assert(input[p + 2 + id.len()] == (m + after)[0]);
        assert(input[p] == 44);
        assert(input[p + 1] == 32);
        assert(input[p + 2] == id[0]);
        lemma_scan_symbol(input, p);
        lemma_skip_space(input, p + 1);
        lemma_scan_word(input, p + 2, id);
        assert(input =~= (before + sep + id) + m + after);
        lemma_scan_more_params(before + sep + id, later, after);
        let comma = seq![TokenView::COMMA];
        let t_id = seq![TokenView::IDENT(name)];
        assert(scans(input, p, p + 1, comma));
        assert(scans(input, p + 1, p + 2 + id.len(), t_id));
        lemma_scans_then(input, p, p + 1, p + 2 + id.len(), comma, t_id);
        lemma_scans_then(
            input,
            p,
            p + 2 + id.len(),
            p + 2 + id.len() + m.len(),
            comma + t_id,
            more_params_tokens(later),
        );
        assert(comma + t_id =~= seq![TokenView::COMMA, TokenView::IDENT(name)]);
    }
}

/// The text of further statements of a body, each on a new line, before
/// the space in front of the closing brace, is scanned into the tokens that
/// write them.
proof fn lemma_scan_more_body(before: Seq<u8>, rest: Seq<StmtView>, after: Seq<u8>)
    requires
        forall|i: int| 0 <= i < rest.len() ==> is_written_stmt(#[trigger] rest[i]),
        after.len() > 0,
        after[0] == 32,
    ensures
        scans(
            before + more_body_codes(rest) + after,
            before.len() as int,
            (before.len() + more_body_codes(rest).len()) as int,
            body_tokens(rest),
        ),
    decreases rest, 2nat,
{
    let input = before + more_body_codes(rest) + after;
    let p = before.len() as int;
    if rest.len() == 0 {
        assert(body_tokens(rest) + tokens_from(input, p) =~= tokens_from(input, p));
    } else {
        let first = rest[0];
        let later = rest.drop_first();
        let x = stmt_codes(first);
        let m = more_body_codes(later);
        let nl = seq![10u8];
        assert forall|i: int| 0 <= i < later.len() implies is_written_stmt(
            #[trigger] later[i],
        ) by {
            assert(later[i] == rest[i + 1]);
        }
        assert(breaks(m + after)) by {
            if later.len() > 0 {
                assert(m[0] == 10);
                assert((m + after)[0] == 10);
            } else {
                assert((m + after)[0] == after[0]);
            }
        }
        assert(input =~= (before + nl) + x + (m + after));
        lemma_scan_stmt(before + nl, first, m + after);
        assert(input =~= (before + nl + x) + m + after);
        lemma_scan_more_body(before + nl + x, later, after);
        assert(input[p] == 10);
        assert(input[p + 1] == x[0]);
        lemma_skip_space(input, p);
        assert(scans(input, p, p + 1 + x.len(), stmt_tokens(first)));
        lemma_scans_then(
            input,
            p,
            p + 1 + x.len(),
            p + 1 + x.len() + m.len(),
            stmt_tokens(first),
            body_tokens(later),
        );
    }
}

/// The text between the braces of a function literal, from the line break
/// behind the opening brace, is scanned into the tokens that write the body
/// and leads to the closing brace.
proof fn lemma_scan_body(before: Seq<u8>, body: Seq<StmtView>, after: Seq<u8>)
    requires
        forall|i: int| 0 <= i < body.len() ==> is_written_stmt(#[trigger] body[i]),
    ensures
        scans(
            before + seq![10u8, 32u8] + body_codes(body) + seq![32u8, 125u8] + after,
            before.len() as int,
            (before.len() + 2 + body_codes(body).len() + 1) as int,
            body_tokens(body),
        ),
    decreases body, 3nat,
{
    let lead = seq![10u8, 32u8];
    let tail = seq![32u8, 125u8];
    let bc = body_codes(body);
    let input = before + lead + bc + tail + after;
    let p = before.len() as int;
    if body.len() == 0 {
        assert(input[p] == 10);
        assert(input[p + 1] == 32);
        assert(input[p + 2] == 32);
        assert(input[p + 3] == 125);
        assert forall|i: int| p <= i < p + 3 implies is_space(#[trigger] input[i]) by {
            if i == p {
            } else if i == p + 1 {
            } else {
                assert(i == p + 2);
            }
        }
        lemma_skip_spaces(input, p, 3);
        assert(body_tokens(body) + tokens_from(input, p + 3) =~= tokens_from(input, p + 3));
    } else {
        let first = body[0];
        let rest = body.drop_first();
        let x = stmt_codes(first);
        let m = more_body_codes(rest);
        assert forall|i: int| 0 <= i < rest.len() implies is_written_stmt(#[trigger] rest[i]) by {
            assert(rest[i] == body[i + 1]);
        }
        assert(breaks(m + (tail + after))) by {
            if rest.len() > 0 {
                assert(m[0] == 10);
                assert((m + (tail + after))[0] == 10);
            } else {
                assert((m + (tail + after))[0] == 32);
            }
        }
        assert(input =~= (before + lead) + x + (m + (tail + after)));
        lemma_scan_stmt(before + lead, first, m + (tail + after));
        assert(input =~= (before + lead + x) + m + (tail + after));
        assert((tail + after)[0] == 32);
        lemma_scan_more_body(before + lead + x, rest, tail + after);
        let end = p + 2 + x.len() + m.len();
        assert(input[p] == 10);
        assert(input[p + 1] == 32);
        assert(input[p + 2] == x[0]);
        assert(input[end] == 32);
        assert(input[end + 1] == 125);
        assert forall|i: int| p <= i < p + 2 implies is_space(#[trigger] input[i]) by {
            if i == p {
            } else {
                assert(i == p + 1);
            }
        }
        lemma_skip_spaces(input, p, 2);
        lemma_skip_space(input, end);
        assert(scans(input, p, p + 2 + x.len(), stmt_tokens(first)));
        assert(scans(input, p + 2 + x.len(), end + 1, body_tokens(rest)));
        lemma_scans_then(
            input,
            p,
            p + 2 + x.len(),
            end + 1,
            stmt_tokens(first),
            body_tokens(rest),
        );
    }
}

proof fn lemma_function_text_layout(
    before: Seq<u8>,
    pc: Seq<u8>,
    bc: Seq<u8>,
    after: Seq<u8>,
)
    ensures
        ({
            let text = seq![102u8, 110u8, 32u8, 40u8] + pc + seq![
                41u8,
                32u8,
                123u8,
                10u8,
                32u8,
            ] + bc + seq![32u8, 125u8];
            let input = before + text + after;
            let p = before.len() as int;
            let q = p + 4 + pc.len();
            &&& input == (before + seq![102u8, 110u8, 32u8, 40u8]) + pc + (seq![
                41u8,
                32u8,
                123u8,
                10u8,
                32u8,
            ] + bc + seq![32u8, 125u8] + after)
            &&& input == (before + seq![102u8, 110u8, 32u8, 40u8] + pc + seq![41u8, 32u8, 123u8])
                + seq![10u8, 32u8] + bc + seq![32u8, 125u8] + after
            &&& (before + seq![102u8, 110u8, 32u8, 40u8]).len() == p + 4
            &&& (before + seq![102u8, 110u8, 32u8, 40u8] + pc + seq![41u8, 32u8, 123u8]).len()
                == q + 3
            &&& text.len() == pc.len() + bc.len() + 11
            &&& input.len() == p + text.len() + after.len()
            &&& text[0] == 102
            &&& holds_at(input, p, seq![102u8, 110u8])
            &&& input[p + 2] == 32
            &&& input[p + 3] == 40
            &&& input[q] == 41
            &&& input[q + 1] == 32
            &&& input[q + 2] == 123
            &&& input[q + 6 + bc.len()] == 125
            &&& (seq![41u8, 32u8, 123u8, 10u8, 32u8] + bc + seq![32u8, 125u8] + after)[0] == 41
        }),
{
    let text = seq![102u8, 110u8, 32u8, 40u8] + pc + seq![41u8, 32u8, 123u8, 10u8, 32u8] + bc
        + seq![32u8, 125u8];
    let input = before + text + after;
    let p = before.len() as int;
    assert(input =~= (before + seq![102u8, 110u8, 32u8, 40u8]) + pc + (seq![
        41u8,
        32u8,
        123u8,
        10u8,
        32u8,
    ] + bc + seq![32u8, 125u8] + after));
    assert(input =~= (before + seq![102u8, 110u8, 32u8, 40u8] + pc + seq![41u8, 32u8, 123u8])
        + seq![10u8, 32u8] + bc + seq![32u8, 125u8] + after);
    assert(input.subrange(p, p + 2) =~= seq![102u8, 110u8]);
}

#[verifier::rlimit(100)]
proof fn lemma_scan_function(
    before: Seq<u8>,
    params: Seq<Seq<char>>,
    body: Seq<StmtView>,
    after: Seq<u8>,
)
    requires
        forall|i: int| 0 <= i < params.len() ==> is_name(#[trigger] params[i]),
        is_written_body(body),
    ensures
        ({
            let e = ExprView::Function(params, body);
            &&& expr_codes(e).len() > 0
            &&& starts_operand(expr_codes(e)[0])
            &&& scans(
                before + expr_codes(e) + after,
                before.len() as int,
                (before.len() + expr_codes(e).len()) as int,
                expr_tokens(e),
            )
        }),
    decreases (ExprView::Function(params, body)), 0nat,
{
    let e = ExprView::Function(params, body);
    let pc = params_codes(params);
    let bc = body_codes(body);
    let input = before + expr_codes(e) + after;
    let p = before.len() as int;
    let q = p + 4 + pc.len();
    let r = q + 6 + bc.len();
    let word = seq![102u8, 110u8];
    lemma_keyword_words();
    lemma_function_text(params, body);
    assert forall|i: int| 0 <= i < body.len() implies is_written_stmt(#[trigger] body[i]) by {}
    lemma_scan_params(
        before + seq![102u8, 110u8, 32u8, 40u8],
        params,
        seq![41u8, 32u8, 123u8, 10u8, 32u8] + bc + seq![32u8, 125u8] + after,
    );
    lemma_scan_body(
        before + seq![102u8, 110u8, 32u8, 40u8] + pc + seq![41u8, 32u8, 123u8],
        body,
        after,
    );
    lemma_function_text_layout(before, pc, bc, after);
    assert(all_letters(word));
    lemma_scan_word(input, p, word);
    lemma_skip_space(input, p + 2);
    lemma_scan_symbol(input, p + 3);
    lemma_scan_symbol(input, q);
    lemma_skip_space(input, q + 1);
    lemma_scan_symbol(input, q + 2);
    lemma_scan_symbol(input, r);
    let t_fn = seq![TokenView::FUNCTION];
    let t_lp = seq![TokenView::LPAREN];
    let t_p = params_tokens(params);
    let t_rp = seq![TokenView::RPAREN];
    let t_lb = seq![TokenView::LBRACE];
    let t_b = body_tokens(body);
    let t_rb = seq![TokenView::RBRACE];
    assert(scans(input, p, p + 2, t_fn));
    assert(scans(input, p + 2, p + 4, t_lp));
    assert(scans(input, p + 4, q, t_p));
    assert(scans(input, q, q + 1, t_rp));
    assert(scans(input, q + 1, q + 3, t_lb));
    assert(scans(input, q + 3, r, t_b));
    assert(scans(input, r, r + 1, t_rb));
    lemma_scans_then(input, p, p + 2, p + 4, t_fn, t_lp);
    lemma_scans_then(input, p, p + 4, q, t_fn + t_lp, t_p);
    lemma_scans_then(input, p, q, q + 1, t_fn + t_lp + t_p, t_rp);
    lemma_scans_then(input, p, q + 1, q + 3, t_fn + t_lp + t_p + t_rp, t_lb);
    lemma_scans_then(input, p, q + 3, r, t_fn + t_lp + t_p + t_rp + t_lb, t_b);
    lemma_scans_then(input, p, r, r + 1, t_fn + t_lp + t_p + t_rp + t_lb + t_b, t_rb);
    assert(t_fn + t_lp + t_p + t_rp + t_lb + t_b + t_rb =~= expr_tokens(e));
}

/// The text of a statement that source text can write is ASCII.
pub proof fn lemma_rendered_stmt_is_ascii(stmt: StmtView)
    requires
        is_written_stmt(stmt),
    ensures
        is_ascii_chars(render_stmt(stmt)),
    decreases stmt,
{
    lemma_keyword_words();
    match stmt {
        StmtView::Let(name, value) => {
            lemma_rendered_is_ascii(value);
            lemma_name_is_ascii(name);
            lemma_ascii_concat("let "@, name);
            lemma_ascii_concat("let "@ + name, " = "@);
            lemma_ascii_concat("let "@ + name + " = "@, render_expr(value));
        },
        StmtView::Return(value) => {
            lemma_rendered_is_ascii(value);
            lemma_ascii_concat("return "@, render_expr(value));
        },
        StmtView::Expr(value) => {
            lemma_rendered_is_ascii(value);
        },
        StmtView::Block(_) => {},
    }
}

/// A program that source text can write as it is rendered: statements that
/// can be written, of which none but the first starts with a parenthesis or
/// with a character that makes the last token of the statement before it
/// longer. Statements are rendered one after another with nothing between
/// them.
pub open spec fn is_written_program(program: Seq<StmtView>) -> bool {
    forall|i: int|
        0 <= i < program.len() ==> is_written_stmt(#[trigger] program[i]) && (i > 0 ==> {
            &&& !opens_group(program[i])
            &&& fits_before(stmt_value(program[i - 1]), stmt_codes(program[i]))
        })
}

/// The codes of the text of a program.
pub open spec fn program_codes(program: Seq<StmtView>) -> Seq<u8>
    decreases program.len(),
{
    if program.len() == 0 {
        Seq::empty()
    } else {
        stmt_codes(program[0]) + program_codes(program.drop_first())
    }
}

proof fn lemma_concat_all_push(parts: Seq<Seq<char>>, last: Seq<char>)
    ensures
        concat_all(parts.push(last)) == concat_all(parts) + last,
{
    assert(parts.push(last).drop_last() =~= parts);
}

proof fn lemma_concat_all_from_the_front(parts: Seq<Seq<char>>)
    requires
        parts.len() > 0,
    ensures
        concat_all(parts) == parts[0] + concat_all(parts.drop_first()),
    decreases parts.len(),
{
    if parts.len() == 1 {
        assert(parts.drop_last() =~= Seq::<Seq<char>>::empty());
        assert(parts.drop_first() =~= Seq::<Seq<char>>::empty());
        assert(concat_all(parts) =~= parts[0] + concat_all(parts.drop_first()));
    } else {
        let shorter = parts.drop_last();
        lemma_concat_all_from_the_front(shorter);
        lemma_concat_all_push(shorter.drop_first(), parts.last());
        assert(parts.drop_first() =~= shorter.drop_first().push(parts.last()));
        assert(concat_all(parts) =~= parts[0] + concat_all(parts.drop_first()));
    }
}

proof fn lemma_program_codes(program: Seq<StmtView>)
    ensures
        chars_to_codes(render_program(program)) == program_codes(program),
    decreases program.len(),
{
    let parts = render_stmts(program);
    if program.len() == 0 {
        assert(chars_to_codes(render_program(program)) =~= program_codes(program));
    } else {
        let rest = program.drop_first();
        lemma_program_codes(rest);
        lemma_concat_all_from_the_front(parts);
        assert(parts.drop_first() =~= render_stmts(rest));
        assert(parts[0] == render_stmt(program[0]));
        lemma_codes_of_concat(parts[0], concat_all(parts.drop_first()));
    }
}

/// The text of a program that source text can write is scanned into the
/// tokens that write its statements.
proof fn lemma_scan_program(before: Seq<u8>, rest: Seq<StmtView>)
    requires
        is_written_program(rest),
    ensures
        scans(
            before + program_codes(rest),
            before.len() as int,
            (before.len() + program_codes(rest).len()) as int,
            body_tokens(rest),
        ),
    decreases rest.len(),
{
    let input = before + program_codes(rest);
    let p = before.len() as int;
    if rest.len() == 0 {
        assert(body_tokens(rest) + tokens_from(input, p) =~= tokens_from(input, p));
    } else {
        let first = rest[0];
        let later = rest.drop_first();
        let x = stmt_codes(first);
        let m = program_codes(later);
        assert(is_written_stmt(first));
        assert forall|i: int| 0 <= i < later.len() implies is_written_stmt(#[trigger] later[i])
            && (i > 0 ==> {
            &&& !opens_group(later[i])
            &&& fits_before(stmt_value(later[i - 1]), stmt_codes(later[i]))
        }) by {
            assert(later[i] == rest[i + 1]);
            assert(is_written_stmt(rest[i + 1]));
            if i > 0 {
                assert(later[i - 1] == rest[i]);
            }
        }
        assert(fits_before(stmt_value(first), m)) by {
            if later.len() > 0 {
                assert(later[0] == rest[1]);
                assert(is_written_stmt(rest[1]));
                lemma_scan_stmt(Seq::empty(), later[0], Seq::empty());
                assert(m[0] == stmt_codes(later[0])[0]);
            }
        }
        assert(input =~= before + x + m);
        lemma_scan_stmt(before, first, m);
        assert(input =~= (before + x) + m);
        lemma_scan_program(before + x, later);
        lemma_scans_then(
            input,
            p,
            p + x.len(),
            p + x.len() + m.len(),
            stmt_tokens(first),
            body_tokens(later),
        );
    }
}

proof fn lemma_program_is_ascii(program: Seq<StmtView>)
    requires
        forall|i: int| 0 <= i < program.len() ==> is_written_stmt(#[trigger] program[i]),
    ensures
        is_ascii_chars(render_program(program)),
    decreases program.len(),
{
    let parts = render_stmts(program);
    if program.len() == 0 {
        assert(render_program(program) =~= Seq::<char>::empty());
    } else {
        let rest = program.drop_first();
        assert forall|i: int| 0 <= i < rest.len() implies is_written_stmt(#[trigger] rest[i]) by {
            assert(rest[i] == program[i + 1]);
        }
        lemma_program_is_ascii(rest);
        lemma_rendered_stmt_is_ascii(program[0]);
        lemma_concat_all_from_the_front(parts);
        assert(parts.drop_first() =~= render_stmts(rest));
        assert(parts[0] == render_stmt(program[0]));
        lemma_ascii_concat(parts[0], concat_all(parts.drop_first()));
    }
}

/// Rendering and reading back: the text of a program that source text can
/// write is ASCII, and scanning and parsing it gives the same program, with
/// no message, which therefore renders to the same text.
pub proof fn lemma_render_then_parse(program: Seq<StmtView>)
    requires
        is_written_program(program),
    ensures
        ({
            let text = render_program(program);
            let reread = parse_program(tokens_from(chars_to_codes(text), 0));
            &&& is_ascii_chars(text)
            &&& reread.state.errors == Seq::<Seq<char>>::empty()
            &&& reread.stmts == program
            &&& render_program(reread.stmts) == text
        }),
{
    let text = render_program(program);
    let none = Seq::<u8>::empty();
    let codes = program_codes(program);
    assert forall|i: int| 0 <= i < program.len() implies is_written_stmt(#[trigger] program[i])
        && is_plain_stmt(program[i]) by {
        lemma_written_stmt_is_plain(program[i]);
    }
    assert forall|i: int| 1 <= i < program.len() implies !opens_group(#[trigger] program[i]) by {}
    lemma_program_is_ascii(program);
    lemma_program_codes(program);
    lemma_scan_program(none, program);
    assert(none + codes =~= codes);
    assert(tokens_from(codes, codes.len() as int) =~= Seq::<TokenView>::empty());
    assert(tokens_from(codes, 0) =~= body_tokens(program));
    lemma_parse_program_inverts_tokens(program);
}

/// Rendering and reading back, for the text alone: a program whose text is
/// also the text of a program that source text can write is read back as
/// that program, with no message, and so renders to the same text again,
/// whether or not it is that program itself.
pub proof fn lemma_text_comes_back(program: Seq<StmtView>, written: Seq<StmtView>)
    requires
        is_written_program(written),
        render_program(program) == render_program(written),
    ensures
        ({
            let text = render_program(program);
            let reread = parse_program(tokens_from(chars_to_codes(text), 0));
            &&& is_ascii_chars(text)
            &&& reread.state.errors == Seq::<Seq<char>>::empty()
            &&& reread.stmts == written
            &&& render_program(reread.stmts) == text
        }),
{
    lemma_render_then_parse(written);
}

/// A block at the top of a program is written as its statements are: the
/// text of a program that is one block around statements that source text
/// can write comes back the same, read as the statements without the block.
pub proof fn lemma_block_text_comes_back(stmts: Seq<StmtView>)
    requires
        is_written_program(stmts),
    ensures
        ({
            let program = seq![StmtView::Block(stmts)];
            let text = render_program(program);
            let reread = parse_program(tokens_from(chars_to_codes(text), 0));
            &&& text == render_program(stmts)
            &&& reread.state.errors == Seq::<Seq<char>>::empty()
            &&& reread.stmts == stmts
            &&& render_program(reread.stmts) == text
        }),
{
    let program = seq![StmtView::Block(stmts)];
    let parts = render_stmts(program);
    assert(parts[0] == render_stmt(StmtView::Block(stmts)));
    assert(parts.drop_last() =~= Seq::<Seq<char>>::empty());
    assert(concat_all(parts.drop_last()) =~= Seq::<char>::empty());
    assert(concat_all(parts) =~= parts[0]);
    lemma_text_comes_back(program, stmts);
}

/// Two names one after the other are written as one name: where that is a
/// name and no keyword, the text of the two statements comes back the same,
/// read as the one name.
pub proof fn lemma_names_run_together(a: Seq<char>, b: Seq<char>)
    requires
        is_name(a + b),
    ensures
        ({
            let program = seq![StmtView::Expr(ExprView::Ident(a)), StmtView::Expr(ExprView::Ident(b))];
            let joined = seq![StmtView::Expr(ExprView::Ident(a + b))];
            let text = render_program(program);
            let reread = parse_program(tokens_from(chars_to_codes(text), 0));
            &&& text == a + b
            &&& reread.state.errors == Seq::<Seq<char>>::empty()
            &&& reread.stmts == joined
            &&& render_program(reread.stmts) == text
        }),
{
    let program = seq![StmtView::Expr(ExprView::Ident(a)), StmtView::Expr(ExprView::Ident(b))];
    let joined = seq![StmtView::Expr(ExprView::Ident(a + b))];
    let parts = render_stmts(program);
    let one = render_stmts(joined);
    assert(render_program(program) == a + b) by {
        assert(parts[0] == render_stmt(program[0]));
        assert(parts[1] == render_stmt(program[1]));
        assert(render_stmt(program[0]) == render_expr(ExprView::Ident(a)));
        assert(render_stmt(program[1]) == render_expr(ExprView::Ident(b)));
        assert(parts[0] == a);
        assert(parts[1] == b);
        let front = parts.drop_last();
        assert(front.len() == 1 && front[0] == a);
        assert(front.drop_last() =~= Seq::<Seq<char>>::empty());
        assert(concat_all(front.drop_last()) =~= Seq::<char>::empty());
        assert(concat_all(front) =~= a);
        assert(concat_all(parts) =~= a + b);
    }
    assert(render_program(joined) == a + b) by {
        assert(one[0] == render_stmt(joined[0]));
        assert(render_stmt(joined[0]) == render_expr(ExprView::Ident(a + b)));
        assert(one[0] == a + b);
        assert(one.drop_last() =~= Seq::<Seq<char>>::empty());
        assert(concat_all(one.drop_last()) =~= Seq::<char>::empty());
        assert(concat_all(one) =~= a + b);
    }
    assert(is_written_program(joined)) by {
        assert forall|i: int| 0 <= i < joined.len() implies is_written_stmt(#[trigger] joined[i])
            && (i > 0 ==> {
            &&& !opens_group(joined[i])
            &&& fits_before(stmt_value(joined[i - 1]), stmt_codes(joined[i]))
        }) by {
            assert(joined[i] == StmtView::Expr(ExprView::Ident(a + b)));
        }
    }
    lemma_text_comes_back(program, joined);
}

} // verus!
