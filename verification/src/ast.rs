//! The syntax tree: programs, statements and expressions, their mathematical
//! views and how they are written back as text.

use vstd::prelude::*;
use vstd::string::*;
use crate::text::{
    bool_text, bool_word, concat_all, int_decimal, join, push_int, push_joined, string_views,
};
use crate::token::{Token, TokenView};

verus! {

/// A parsed program: its statements in source order.
#[derive(PartialEq, Debug)]
pub struct Program {
    pub statements: Vec<Stmt>,
}

/// A name.
#[derive(PartialEq, Debug)]
pub struct Ident(pub String);

/// A statement.
#[derive(PartialEq, Debug)]
pub enum Stmt {
    Let(Ident, Expr),
    Return(Expr),
    Expr(Expr),
    Block(BlockStmt),
}

/// The statements between a pair of braces.
pub type BlockStmt = Vec<Stmt>;

/// An expression.
#[derive(PartialEq, Debug)]
pub enum Expr {
    Ident(Ident),
    Literal(Literal),
    /// Operator and operand.
    Prefix(Prefix, Box<Expr>),
    /// Left operand, operator and right operand.
    Infix(Box<Expr>, Infix, Box<Expr>),
    /// Condition, consequence and alternative.
    If(Box<Expr>, Box<Stmt>, Option<Box<Stmt>>),
    /// Parameter names and body.
    Function(Vec<Ident>, BlockStmt),
    /// Callee and arguments.
    Call(Box<Expr>, Vec<Expr>),
}

/// A constant written in the source.
#[derive(PartialEq, Clone, Copy, Debug)]
pub enum Literal {
    Int(i64),
    Bool(bool),
}

/// A unary operator.
#[derive(PartialEq, Clone, Copy, Debug)]
pub enum Prefix {
    Plus,
    Minus,
    Not,
}

/// A binary operator.
#[derive(PartialEq, Clone, Copy, Debug)]
pub enum Infix {
    Plus,
    Minus,
    Divide,
    Multiply,
    Equal,
    NotEqual,
    GreaterThan,
    LessThan,
}

/// A statement as contracts see it.
pub enum StmtView {
    Let(Seq<char>, ExprView),
    Return(ExprView),
    Expr(ExprView),
    Block(Seq<StmtView>),
}

/// An expression as contracts see it.
pub enum ExprView {
    Ident(Seq<char>),
    Literal(Literal),
    Prefix(Prefix, Box<ExprView>),
    Infix(Box<ExprView>, Infix, Box<ExprView>),
    If(Box<ExprView>, Box<StmtView>, Option<Box<StmtView>>),
    Function(Seq<Seq<char>>, Seq<StmtView>),
    Call(Box<ExprView>, Seq<ExprView>),
}

/// The view of an expression.
pub open spec fn expr_view(e: Expr) -> ExprView
    decreases e,
{
    match e {
        Expr::Ident(name) => ExprView::Ident(name.0@),
        Expr::Literal(literal) => ExprView::Literal(literal),
        Expr::Prefix(op, operand) => ExprView::Prefix(op, Box::new(expr_view(*operand))),
        Expr::Infix(left, op, right) => ExprView::Infix(
            Box::new(expr_view(*left)),
            op,
            Box::new(expr_view(*right)),
        ),
        Expr::If(cond, cons, alt) => ExprView::If(
            Box::new(expr_view(*cond)),
            Box::new(stmt_view(*cons)),
            match alt {
                Some(stmt) => Some(Box::new(stmt_view(*stmt))),
                None => None,
            },
        ),
        Expr::Function(params, body) => ExprView::Function(idents_view(params@), stmts_view(body@)),
        Expr::Call(callee, args) => ExprView::Call(Box::new(expr_view(*callee)), exprs_view(args@)),
    }
}

/// The view of a statement.
pub open spec fn stmt_view(s: Stmt) -> StmtView
    decreases s,
{
    match s {
        Stmt::Let(name, value) => StmtView::Let(name.0@, expr_view(value)),
        Stmt::Return(value) => StmtView::Return(expr_view(value)),
        Stmt::Expr(value) => StmtView::Expr(expr_view(value)),
        Stmt::Block(stmts) => StmtView::Block(stmts_view(stmts@)),
    }
}

/// The views of a sequence of expressions.
pub open spec fn exprs_view(es: Seq<Expr>) -> Seq<ExprView>
    decreases es,
{
    Seq::new(
        es.len(),
        |i: int|
            if 0 <= i < es.len() {
                expr_view(es[i])
            } else {
                arbitrary()
            },
    )
}

/// The views of a sequence of statements.
pub open spec fn stmts_view(ss: Seq<Stmt>) -> Seq<StmtView>
    decreases ss,
{
    Seq::new(
        ss.len(),
        |i: int|
            if 0 <= i < ss.len() {
                stmt_view(ss[i])
            } else {
                arbitrary()
            },
    )
}

/// The names of a sequence of identifiers.
pub open spec fn idents_view(names: Seq<Ident>) -> Seq<Seq<char>> {
    Seq::new(names.len(), |i: int| names[i].0@)
}

impl View for Ident {
    type V = Seq<char>;

    open spec fn view(&self) -> Seq<char> {
        self.0@
    }
}

impl View for Expr {
    type V = ExprView;

    open spec fn view(&self) -> ExprView {
        expr_view(*self)
    }
}

impl View for Stmt {
    type V = StmtView;

    open spec fn view(&self) -> StmtView {
        stmt_view(*self)
    }
}

impl View for Program {
    type V = Seq<StmtView>;

    open spec fn view(&self) -> Seq<StmtView> {
        stmts_view(self.statements@)
    }
}

impl Literal {
    /// The literal as text: a decimal numeral, or `true` or `false`.
    pub open spec fn render(self) -> Seq<char> {
        match self {
            Literal::Int(value) => int_decimal(value as int),
            Literal::Bool(value) => bool_word(value),
        }
    }

    /// The literal as text.
    pub fn to_text(&self) -> (r: String)
        ensures
            r@ == self.render(),
    {
        let mut out = String::new();
        match self {
            Literal::Int(value) => {
                push_int(&mut out, *value);
            },
            Literal::Bool(value) => {
                out.append(bool_text(*value));
            },
        }
        assert(out@ =~= self.render());
        out
    }
}

impl Prefix {
    /// The operator's symbol.
    pub open spec fn symbol(self) -> Seq<char> {
        match self {
            Prefix::Plus => "+"@,
            Prefix::Minus => "-"@,
            Prefix::Not => "!"@,
        }
    }

    /// The unary operator that a token stands for, if any.
    pub open spec fn of_token(tok: TokenView) -> Option<Prefix> {
        match tok {
            TokenView::PLUS => Some(Prefix::Plus),
            TokenView::MINUS => Some(Prefix::Minus),
            TokenView::BANG => Some(Prefix::Not),
            _ => None,
        }
    }

    /// The unary operator that `tok` stands for, or a message that names
    /// the token when it stands for none.
    pub fn from_token(tok: &Token) -> (r: Result<Prefix, String>)
        ensures
            match Prefix::of_token(tok@) {
                Some(op) => r == Ok::<Prefix, String>(op),
                None => r is Err && r->Err_0@ == not_an_operator(tok@),
            },
    {
        match tok {
            Token::PLUS => Ok(Prefix::Plus),
            Token::MINUS => Ok(Prefix::Minus),
            Token::BANG => Ok(Prefix::Not),
            _ => Err(not_an_operator_text(tok)),
        }
    }

    /// The operator's symbol.
    pub fn to_text(&self) -> (r: &'static str)
        ensures
            r@ == self.symbol(),
    {
        match self {
            Prefix::Plus => "+",
            Prefix::Minus => "-",
            Prefix::Not => "!",
        }
    }
}

impl Infix {
    /// The operator's symbol.
    pub open spec fn symbol(self) -> Seq<char> {
        match self {
            Infix::Plus => "+"@,
            Infix::Minus => "-"@,
            Infix::Divide => "/"@,
            Infix::Multiply => "*"@,
            Infix::Equal => "=="@,
            Infix::NotEqual => "!="@,
            Infix::GreaterThan => ">"@,
            Infix::LessThan => "<"@,
        }
    }

    /// The binary operator that a token stands for, if any.
    pub open spec fn of_token(tok: TokenView) -> Option<Infix> {
        match tok {
            TokenView::PLUS => Some(Infix::Plus),
            TokenView::MINUS => Some(Infix::Minus),
            TokenView::SLASH => Some(Infix::Divide),
            TokenView::ASTERISK => Some(Infix::Multiply),
            TokenView::EQ => Some(Infix::Equal),
            TokenView::NOTEQ => Some(Infix::NotEqual),
            TokenView::GT => Some(Infix::GreaterThan),
            TokenView::LT => Some(Infix::LessThan),
            _ => None,
        }
    }

    /// The binary operator that `tok` stands for, or a message that names
    /// the token when it stands for none.
    pub fn from_token(tok: &Token) -> (r: Result<Infix, String>)
        ensures
            match Infix::of_token(tok@) {
                Some(op) => r == Ok::<Infix, String>(op),
                None => r is Err && r->Err_0@ == not_an_operator(tok@),
            },
    {
        match tok {
            Token::PLUS => Ok(Infix::Plus),
            Token::MINUS => Ok(Infix::Minus),
            Token::SLASH => Ok(Infix::Divide),
            Token::ASTERISK => Ok(Infix::Multiply),
            Token::EQ => Ok(Infix::Equal),
            Token::NOTEQ => Ok(Infix::NotEqual),
            Token::GT => Ok(Infix::GreaterThan),
            Token::LT => Ok(Infix::LessThan),
            _ => Err(not_an_operator_text(tok)),
        }
    }

    /// The operator's symbol.
    pub fn to_text(&self) -> (r: &'static str)
        ensures
            r@ == self.symbol(),
    {
        match self {
            Infix::Plus => "+",
            Infix::Minus => "-",
            Infix::Divide => "/",
            Infix::Multiply => "*",
            Infix::Equal => "==",
            Infix::NotEqual => "!=",
            Infix::GreaterThan => ">",
            Infix::LessThan => "<",
        }
    }
}

/// The message for a token that stands for no operator.
pub open spec fn not_an_operator(tok: TokenView) -> Seq<char> {
    "this is not prefix token. got "@ + tok.debug_text()
}

fn not_an_operator_text(tok: &Token) -> (r: String)
    ensures
        r@ == not_an_operator(tok@),
{
    let mut out = String::from_str("this is not prefix token. got ");
    let name = tok.debug_text();
    out.append(name.as_str());
    out
}

/// An expression as text. Operators with their operands stand in
/// parentheses, so the text shows how the expression was grouped.
pub open spec fn render_expr(e: ExprView) -> Seq<char>
    decreases e,
{
    match e {
        ExprView::Ident(name) => name,
        ExprView::Literal(literal) => literal.render(),
        ExprView::Prefix(op, operand) => "("@ + op.symbol() + render_expr(*operand) + ")"@,
        ExprView::Infix(left, op, right) => "("@ + render_expr(*left) + " "@ + op.symbol() + " "@
            + render_expr(*right) + ")"@,
        ExprView::If(cond, cons, alt) => match alt {
            Some(stmt) => "if "@ + render_expr(*cond) + " "@ + render_stmt(*cons) + " else "@
                + render_stmt(*stmt),
            None => "if "@ + render_expr(*cond) + " "@ + render_stmt(*cons),
        },
        ExprView::Function(params, body) => "fn ("@ + join(params, ", "@) + ") {\n "@ + join(
            render_stmts(body),
            "\n"@,
        ) + " }"@,
        ExprView::Call(callee, args) => render_expr(*callee) + "("@ + join(
            render_exprs(args),
            ", "@,
        ) + ")"@,
    }
}

/// A statement as text.
pub open spec fn render_stmt(s: StmtView) -> Seq<char>
    decreases s,
{
    match s {
        StmtView::Let(name, value) => "let "@ + name + " = "@ + render_expr(value),
        StmtView::Return(value) => "return "@ + render_expr(value),
        StmtView::Expr(value) => render_expr(value),
        StmtView::Block(stmts) => concat_all(render_stmts(stmts)),
    }
}

/// The text of each expression of a sequence.
pub open spec fn render_exprs(es: Seq<ExprView>) -> Seq<Seq<char>>
    decreases es,
{
    Seq::new(
        es.len(),
        |i: int|
            if 0 <= i < es.len() {
                render_expr(es[i])
            } else {
                Seq::empty()
            },
    )
}

/// The text of each statement of a sequence.
pub open spec fn render_stmts(ss: Seq<StmtView>) -> Seq<Seq<char>>
    decreases ss,
{
    Seq::new(
        ss.len(),
        |i: int|
            if 0 <= i < ss.len() {
                render_stmt(ss[i])
            } else {
                Seq::empty()
            },
    )
}

/// A program as text: its statements one after another.
pub open spec fn render_program(p: Seq<StmtView>) -> Seq<char> {
    concat_all(render_stmts(p))
}

impl Clone for Ident {
    fn clone(&self) -> (r: Ident)
        ensures
            r@ == self@,
    {
        Ident(self.0.clone())
    }
}

impl Ident {
    /// The name.
    pub fn to_text(&self) -> (r: String)
        ensures
            r@ == self@,
    {
        self.0.clone()
    }
}

/// A copy of a list of names.
pub fn clone_idents(names: &Vec<Ident>) -> (r: Vec<Ident>)
    ensures
        idents_view(r@) == idents_view(names@),
{
    let mut out: Vec<Ident> = Vec::new();
    let mut i: usize = 0;
    while i < names.len()
        invariant
            i <= names.len(),
            out.len() == i,
            forall|j: int| 0 <= j < i ==> out@[j]@ == names@[j]@,
        decreases names.len() - i,
    {
        out.push(names[i].clone());
        i += 1;
    }
    assert(idents_view(out@) =~= idents_view(names@));
    out
}

/// The names of a list of identifiers, each as a string.
pub fn ident_texts(names: &Vec<Ident>) -> (r: Vec<String>)
    ensures
        string_views(r@) == idents_view(names@),
{
    let mut out: Vec<String> = Vec::new();
    let mut i: usize = 0;
    while i < names.len()
        invariant
            i <= names.len(),
            out.len() == i,
            forall|j: int| 0 <= j < i ==> out@[j]@ == names@[j]@,
        decreases names.len() - i,
    {
        out.push(names[i].0.clone());
        i += 1;
    }
    assert(string_views(out@) =~= idents_view(names@));
    out
}

/// A copy of a list of statements.
pub fn clone_stmts(stmts: &Vec<Stmt>) -> (r: Vec<Stmt>)
    ensures
        stmts_view(r@) == stmts_view(stmts@),
    decreases stmts,
{
    let mut out: Vec<Stmt> = Vec::new();
    let mut i: usize = 0;
    while i < stmts.len()
        invariant
            i <= stmts.len(),
            out.len() == i,
            forall|j: int| 0 <= j < i ==> out@[j]@ == stmts@[j]@,
        decreases stmts.len() - i,
    {
        proof {
            assert(decreases_to!(stmts => stmts@));
            assert(decreases_to!(stmts@ => stmts@[i as int]));
        }
        out.push(stmts[i].clone());
        i += 1;
    }
    assert(stmts_view(out@) =~= stmts_view(stmts@));
    out
}

/// A copy of a list of expressions.
pub fn clone_exprs(exprs: &Vec<Expr>) -> (r: Vec<Expr>)
    ensures
        exprs_view(r@) == exprs_view(exprs@),
    decreases exprs,
{
    let mut out: Vec<Expr> = Vec::new();
    let mut i: usize = 0;
    while i < exprs.len()
        invariant
            i <= exprs.len(),
            out.len() == i,
            forall|j: int| 0 <= j < i ==> out@[j]@ == exprs@[j]@,
        decreases exprs.len() - i,
    {
        proof {
            assert(decreases_to!(exprs => exprs@));
            assert(decreases_to!(exprs@ => exprs@[i as int]));
        }
        out.push(exprs[i].clone());
        i += 1;
    }
    assert(exprs_view(out@) =~= exprs_view(exprs@));
    out
}

impl Clone for Stmt {
    fn clone(&self) -> (r: Stmt)
        ensures
            r@ == self@,
        decreases self,
    {
        match self {
            Stmt::Let(name, value) => Stmt::Let(name.clone(), value.clone()),
            Stmt::Return(value) => Stmt::Return(value.clone()),
            Stmt::Expr(value) => Stmt::Expr(value.clone()),
            Stmt::Block(stmts) => Stmt::Block(clone_stmts(stmts)),
        }
    }
}

impl Clone for Expr {
    fn clone(&self) -> (r: Expr)
        ensures
            r@ == self@,
        decreases self,
    {
        match self {
            Expr::Ident(name) => Expr::Ident(name.clone()),
            Expr::Literal(literal) => Expr::Literal(*literal),
            Expr::Prefix(op, operand) => Expr::Prefix(*op, Box::new((**operand).clone())),
            Expr::Infix(left, op, right) => Expr::Infix(
                Box::new((**left).clone()),
                *op,
                Box::new((**right).clone()),
            ),
            Expr::If(cond, cons, alt) => {
                let alt_copy = match alt {
                    Some(stmt) => Some(Box::new((**stmt).clone())),
                    None => None,
                };
                Expr::If(Box::new((**cond).clone()), Box::new((**cons).clone()), alt_copy)
            },
            Expr::Function(params, body) => Expr::Function(clone_idents(params), clone_stmts(body)),
            Expr::Call(callee, args) => Expr::Call(Box::new((**callee).clone()), clone_exprs(args)),
        }
    }
}

impl Clone for Program {
    fn clone(&self) -> (r: Program)
        ensures
            r@ == self@,
    {
        Program { statements: clone_stmts(&self.statements) }
    }
}

/// The text of each statement of a list.
pub fn stmt_texts(stmts: &Vec<Stmt>) -> (r: Vec<String>)
    ensures
        string_views(r@) == render_stmts(stmts_view(stmts@)),
    decreases stmts,
{
    let mut out: Vec<String> = Vec::new();
    let mut i: usize = 0;
    while i < stmts.len()
        invariant
            i <= stmts.len(),
            out.len() == i,
            forall|j: int| 0 <= j < i ==> out@[j]@ == render_stmt(stmts@[j]@),
        decreases stmts.len() - i,
    {
        proof {
            assert(decreases_to!(stmts => stmts@));
            assert(decreases_to!(stmts@ => stmts@[i as int]));
        }
        out.push(stmts[i].to_text());
        i += 1;
    }
    assert(string_views(out@) =~= render_stmts(stmts_view(stmts@)));
    out
}

/// The text of each expression of a list.
pub fn expr_texts(exprs: &Vec<Expr>) -> (r: Vec<String>)
    ensures
        string_views(r@) == render_exprs(exprs_view(exprs@)),
    decreases exprs,
{
    let mut out: Vec<String> = Vec::new();
    let mut i: usize = 0;
    while i < exprs.len()
        invariant
            i <= exprs.len(),
            out.len() == i,
            forall|j: int| 0 <= j < i ==> out@[j]@ == render_expr(exprs@[j]@),
        decreases exprs.len() - i,
    {
        proof {
            assert(decreases_to!(exprs => exprs@));
            assert(decreases_to!(exprs@ => exprs@[i as int]));
        }
        out.push(exprs[i].to_text());
        i += 1;
    }
    assert(string_views(out@) =~= render_exprs(exprs_view(exprs@)));
    out
}

impl Stmt {
    /// The statement as text.
    pub fn to_text(&self) -> (r: String)
        ensures
            r@ == render_stmt(self@),
        decreases self,
    {
        match self {
            Stmt::Let(name, value) => {
                let mut out = String::from_str("let ");
                out.append(name.0.as_str());
                out.append(" = ");
                let value_text = value.to_text();
                out.append(value_text.as_str());
                out
            },
            Stmt::Return(value) => {
                let mut out = String::from_str("return ");
                let value_text = value.to_text();
                out.append(value_text.as_str());
                out
            },
            Stmt::Expr(value) => value.to_text(),
            Stmt::Block(stmts) => {
                let parts = stmt_texts(stmts);
                let mut out = String::new();
                push_joined(&mut out, &parts, "");
                proof {
                    reveal_strlit("");
                    assert(""@ =~= Seq::<char>::empty());
                    lemma_join_empty_separator(string_views(parts@));
                    assert(out@ =~= render_stmt(self@));
                }
                out
            },
        }
    }
}

/// Joining with an empty separator is writing the pieces one after another.
pub proof fn lemma_join_empty_separator(parts: Seq<Seq<char>>)
    ensures
        join(parts, Seq::empty()) == concat_all(parts),
    decreases parts.len(),
{
    if parts.len() == 0 {
    } else if parts.len() == 1 {
        assert(parts.drop_last() =~= Seq::<Seq<char>>::empty());
        assert(concat_all(parts.drop_last()) =~= Seq::<char>::empty());
        assert(concat_all(parts) =~= parts[0]);
    } else {
        lemma_join_empty_separator(parts.drop_last());
        assert(join(parts, Seq::empty()) =~= concat_all(parts));
    }
}

impl Expr {
    /// The expression as text.
    pub fn to_text(&self) -> (r: String)
        ensures
            r@ == render_expr(self@),
        decreases self,
    {
        match self {
            Expr::Ident(name) => name.0.clone(),
            Expr::Literal(literal) => literal.to_text(),
            Expr::Prefix(op, operand) => {
                let mut out = String::from_str("(");
                out.append(op.to_text());
                let operand_text = operand.to_text();
                out.append(operand_text.as_str());
                out.append(")");
                out
            },
            Expr::Infix(left, op, right) => {
                let mut out = String::from_str("(");
                let left_text = left.to_text();
                out.append(left_text.as_str());
                out.append(" ");
                out.append(op.to_text());
                out.append(" ");
                let right_text = right.to_text();
                out.append(right_text.as_str());
                out.append(")");
                out
            },
            Expr::If(cond, cons, alt) => {
                let mut out = String::from_str("if ");
                let cond_text = cond.to_text();
                out.append(cond_text.as_str());
                out.append(" ");
                let cons_text = cons.to_text();
                out.append(cons_text.as_str());
                match alt {
                    Some(stmt) => {
                        out.append(" else ");
                        let alt_text = stmt.to_text();
                        out.append(alt_text.as_str());
                    },
                    None => {},
                }
                out
            },
            Expr::Function(params, body) => {
                let mut out = String::from_str("fn (");
                let names = ident_texts(params);
                push_joined(&mut out, &names, ", ");
                out.append(") {\n ");
                let lines = stmt_texts(body);
                push_joined(&mut out, &lines, "\n");
                out.append(" }");
                out
            },
            Expr::Call(callee, args) => {
                let mut out = callee.to_text();
                out.append("(");
                let parts = expr_texts(args);
                push_joined(&mut out, &parts, ", ");
                out.append(")");
                out
            },
        }
    }
}

impl Program {
    /// A program without statements.
    pub fn new() -> (r: Program)
        ensures
            r@ == Seq::<StmtView>::empty(),
    {
        let r = Program { statements: Vec::new() };
        assert(r@ =~= Seq::<StmtView>::empty());
        r
    }

    /// The program as text: its statements one after another.
    pub fn to_text(&self) -> (r: String)
        ensures
            r@ == render_program(self@),
    {
        let parts = stmt_texts(&self.statements);
        let mut out = String::new();
        push_joined(&mut out, &parts, "");
        proof {
            reveal_strlit("");
            assert(""@ =~= Seq::<char>::empty());
            lemma_join_empty_separator(string_views(parts@));
            assert(out@ =~= render_program(self@));
        }
        out
    }
}

} // verus!
