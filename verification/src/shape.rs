//! Questions about the shape of a syntax tree: is this expression that
//! literal, is that statement this comparison.

use vstd::prelude::*;
use vstd::string::*;
use crate::ast::{Expr, ExprView, Ident, Infix, Literal, Stmt, StmtView};

verus! {

/// A plain value that can be written as an expression of one node: an
/// integer or a boolean as a literal, a string slice as a name.
pub trait Literable: Sized {
    /// The expression that writes the value.
    spec fn as_expr(self) -> ExprView;

    /// Whether `expr` is the expression that writes the value.
    fn check_expr(self, expr: &Expr) -> (r: bool)
        ensures
            r == (expr@ == self.as_expr()),
    ;

    /// Whether `stmt` is an expression statement of the expression that
    /// writes the value.
    fn check_stmt(self, stmt: &Stmt) -> (r: bool)
        ensures
            r == (stmt@ == StmtView::Expr(self.as_expr())),
    {
        match stmt {
            Stmt::Expr(expr) => self.check_expr(expr),
            _ => false,
        }
    }
}

impl Literable for i64 {
    open spec fn as_expr(self) -> ExprView {
        ExprView::Literal(Literal::Int(self))
    }

    fn check_expr(self, expr: &Expr) -> (r: bool) {
        match expr {
            Expr::Literal(Literal::Int(value)) => *value == self,
            _ => false,
        }
    }
}

impl Literable for &str {
    open spec fn as_expr(self) -> ExprView {
        ExprView::Ident(self@)
    }

    fn check_expr(self, expr: &Expr) -> (r: bool) {
        match expr {
            Expr::Ident(name) => {
                let wanted = String::from_str(self);
                name.0 == wanted
            },
            _ => false,
        }
    }
}

impl Literable for bool {
    open spec fn as_expr(self) -> ExprView {
        ExprView::Literal(Literal::Bool(self))
    }

    fn check_expr(self, expr: &Expr) -> (r: bool) {
        match expr {
            Expr::Literal(Literal::Bool(value)) => *value == self,
            _ => false,
        }
    }
}

/// Whether `expr` is the expression that writes `val`.
pub fn check_expr<T: Literable>(expr: &Expr, val: T) -> (r: bool)
    ensures
        r == (expr@ == val.as_expr()),
{
    val.check_expr(expr)
}

/// Whether `stmt` is an expression statement of the expression that writes
/// `val`.
pub fn check_stmt<T: Literable>(stmt: &Stmt, val: T) -> (r: bool)
    ensures
        r == (stmt@ == StmtView::Expr(val.as_expr())),
{
    val.check_stmt(stmt)
}

/// Whether two binary operators are the same.
pub fn same_infix(a: Infix, b: Infix) -> (r: bool)
    ensures
        r == (a == b),
{
    match (a, b) {
        (Infix::Plus, Infix::Plus) => true,
        (Infix::Minus, Infix::Minus) => true,
        (Infix::Divide, Infix::Divide) => true,
        (Infix::Multiply, Infix::Multiply) => true,
        (Infix::Equal, Infix::Equal) => true,
        (Infix::NotEqual, Infix::NotEqual) => true,
        (Infix::GreaterThan, Infix::GreaterThan) => true,
        (Infix::LessThan, Infix::LessThan) => true,
        _ => false,
    }
}

/// Whether `expr` is the operator `expected_infix` between the expressions
/// that write `expected_left` and `expected_right`.
pub fn check_infix_expr<T: Literable>(
    expr: &Expr,
    expected_left: T,
    expected_infix: Infix,
    expected_right: T,
) -> (r: bool)
    ensures
        r == (expr@ == ExprView::Infix(
            Box::new(expected_left.as_expr()),
            expected_infix,
            Box::new(expected_right.as_expr()),
        )),
{
    match expr {
        Expr::Infix(left, infix, right) => {
            let left_ok = expected_left.check_expr(left);
            let infix_ok = same_infix(expected_infix, *infix);
            let right_ok = expected_right.check_expr(right);
            left_ok && infix_ok && right_ok
        },
        _ => false,
    }
}

/// Whether `stmt` is an expression statement of the operator `expect_infix`
/// between the expressions that write `expect_left` and `expect_right`.
pub fn check_infix_stmt<T: Literable>(
    stmt: &Stmt,
    expect_left: T,
    expect_infix: Infix,
    expect_right: T,
) -> (r: bool)
    ensures
        r == (stmt@ == StmtView::Expr(
            ExprView::Infix(
                Box::new(expect_left.as_expr()),
                expect_infix,
                Box::new(expect_right.as_expr()),
            ),
        )),
{
    match stmt {
        Stmt::Expr(expr) => check_infix_expr(expr, expect_left, expect_infix, expect_right),
        _ => false,
    }
}

/// Whether `stmt` is a `let` statement that binds `expected_name`.
pub fn check_let_stmt(stmt: &Stmt, expected_name: &str) -> (r: bool)
    ensures
        r == (stmt@ is Let && stmt@->Let_0 == expected_name@),
{
    match stmt {
        Stmt::Let(Ident(name), _) => {
            let wanted = String::from_str(expected_name);
            *name == wanted
        },
        _ => false,
    }
}

} // verus!
