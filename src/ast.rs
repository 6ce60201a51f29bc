use vstd::prelude::*;
use std::rc::Rc;

verus! {

/// An immutable singly linked list, the sequence type of the syntax tree.
#[derive(PartialEq, Eq, Debug)]
pub enum List<T> {
    Nil,
    Cons(Box<T>, Box<List<T>>),
}

impl<T> List<T> {
    pub open spec fn len(&self) -> nat
        decreases self,
    {
        match self {
            List::Nil => 0,
            List::Cons(_, rest) => 1 + rest.len(),
        }
    }

    /// Number of items, counted by walking the list.
    pub fn length(&self) -> (n: usize)
        requires
            self.len() <= usize::MAX,
        ensures
            n == self.len(),
        decreases self,
    {
        match self {
            List::Nil => 0,
            List::Cons(_, rest) => 1 + rest.length(),
        }
    }
}

#[derive(PartialEq, Eq, Structural, Debug, Clone, Copy)]
pub enum Prefix {
    PrefixMinus,
    Not,
}

#[derive(PartialEq, Eq, Structural, Debug, Clone, Copy)]
pub enum Infix {
    Plus,
    Minus,
    Divide,
    Multiply,
    Equal,
    NotEqual,
    GreaterThan,
    LessThan,
}

/// How a prefix operator is written.
pub open spec fn prefix_symbol(op: Prefix) -> Seq<char> {
    match op {
        Prefix::PrefixMinus => seq!['-'],
        Prefix::Not => seq!['!'],
    }
}

/// How an infix operator is written.
pub open spec fn infix_symbol(op: Infix) -> Seq<char> {
    match op {
        Infix::Plus => seq!['+'],
        Infix::Minus => seq!['-'],
        Infix::Multiply => seq!['*'],
        Infix::Divide => seq!['/'],
        Infix::LessThan => seq!['<'],
        Infix::GreaterThan => seq!['>'],
        Infix::Equal => seq!['=', '='],
        Infix::NotEqual => seq!['!', '='],
    }
}

impl Prefix {
    /// The operator as written in source.
    pub fn symbol(&self) -> (r: &'static str)
        ensures
            r@ == prefix_symbol(*self),
    {
        match self {
            Prefix::PrefixMinus => {
                proof {
                    reveal_strlit("-");
                }
                "-"
            },
            Prefix::Not => {
                proof {
                    reveal_strlit("!");
                }
                "!"
            },
        }
    }
}

impl Infix {
    /// The operator as written in source.
    pub fn symbol(&self) -> (r: &'static str)
        ensures
            r@ == infix_symbol(*self),
    {
        match self {
            Infix::Plus => {
                proof {
                    reveal_strlit("+");
                }
                "+"
            },
            Infix::Minus => {
                proof {
                    reveal_strlit("-");
                }
                "-"
            },
            Infix::Multiply => {
                proof {
                    reveal_strlit("*");
                }
                "*"
            },
            Infix::Divide => {
                proof {
                    reveal_strlit("/");
                }
                "/"
            },
            Infix::LessThan => {
                proof {
                    reveal_strlit("<");
                }
                "<"
            },
            Infix::GreaterThan => {
                proof {
                    reveal_strlit(">");
                }
                ">"
            },
            Infix::Equal => {
                proof {
                    reveal_strlit("==");
                }
                "=="
            },
            Infix::NotEqual => {
                proof {
                    reveal_strlit("!=");
                }
                "!="
            },
        }
    }
}

/// A function literal: its parameters, absent when there are none, and its
/// body.
#[derive(PartialEq, Eq, Debug)]
pub struct FnDef<'a> {
    pub params: Option<List<&'a [u8]>>,
    pub body: List<Statement<'a>>,
}

#[derive(PartialEq, Eq, Debug)]
pub enum Expression<'a> {
    Ident(&'a [u8]),
    Int(u64),
    Bool(bool),
    IfExpression(Box<Expression<'a>>, List<Statement<'a>>, Option<List<Statement<'a>>>),
    FunctionLiteral(Rc<FnDef<'a>>),
    CallExpression(Box<Expression<'a>>, Option<List<Expression<'a>>>),
    PrefixExpression(Prefix, Box<Expression<'a>>),
    InfixExpression(Box<Expression<'a>>, Infix, Box<Expression<'a>>),
}

#[derive(PartialEq, Eq, Debug)]
pub enum Statement<'a> {
    LetStatement(&'a [u8], Box<Expression<'a>>),
    ReturnStatement(Box<Expression<'a>>),
    ExpressionStatement(Box<Expression<'a>>),
}

#[derive(PartialEq, Eq, Debug)]
pub struct Program<'a> {
    pub statements: List<Statement<'a>>,
}

/// Two name lists spell the same names in the same order.
pub open spec fn names_equal(a: List<&[u8]>, b: List<&[u8]>) -> bool
    decreases a,
{
    match (a, b) {
        (List::Nil, List::Nil) => true,
        (List::Cons(x, xs), List::Cons(y, ys)) => x@ == y@ && names_equal(*xs, *ys),
        _ => false,
    }
}

/// Two function literals have the same parameters and the same body.
pub open spec fn def_equal(a: FnDef, b: FnDef) -> bool
    decreases a,
{
    (match (a.params, b.params) {
        (None, None) => true,
        (Some(x), Some(y)) => names_equal(x, y),
        _ => false,
    }) && stmts_equal(a.body, b.body)
}

/// Structural equality of expressions, names compared by their bytes.
pub open spec fn expr_equal(a: Expression, b: Expression) -> bool
    decreases a,
{
    match (a, b) {
        (Expression::Ident(x), Expression::Ident(y)) => x@ == y@,
        (Expression::Int(x), Expression::Int(y)) => x == y,
        (Expression::Bool(x), Expression::Bool(y)) => x == y,
        (Expression::IfExpression(c1, t1, e1), Expression::IfExpression(c2, t2, e2)) => expr_equal(
            *c1,
            *c2,
        ) && stmts_equal(t1, t2) && match (e1, e2) {
            (None, None) => true,
            (Some(x), Some(y)) => stmts_equal(x, y),
            _ => false,
        },
        (Expression::FunctionLiteral(d1), Expression::FunctionLiteral(d2)) => def_equal(*d1, *d2),
        (Expression::CallExpression(f1, a1), Expression::CallExpression(f2, a2)) => expr_equal(
            *f1,
            *f2,
        ) && match (a1, a2) {
            (None, None) => true,
            (Some(x), Some(y)) => exprs_equal(x, y),
            _ => false,
        },
        (Expression::PrefixExpression(o1, r1), Expression::PrefixExpression(o2, r2)) => o1 == o2
            && expr_equal(*r1, *r2),
        (Expression::InfixExpression(l1, o1, r1), Expression::InfixExpression(l2, o2, r2)) => o1
            == o2 && expr_equal(*l1, *l2) && expr_equal(*r1, *r2),
        _ => false,
    }
}

pub open spec fn exprs_equal(a: List<Expression>, b: List<Expression>) -> bool
    decreases a,
{
    match (a, b) {
        (List::Nil, List::Nil) => true,
        (List::Cons(x, xs), List::Cons(y, ys)) => expr_equal(*x, *y) && exprs_equal(*xs, *ys),
        _ => false,
    }
}

pub open spec fn stmt_equal(a: Statement, b: Statement) -> bool
    decreases a,
{
    match (a, b) {
        (Statement::LetStatement(n1, e1), Statement::LetStatement(n2, e2)) => n1@ == n2@
            && expr_equal(*e1, *e2),
        (Statement::ReturnStatement(e1), Statement::ReturnStatement(e2)) => expr_equal(*e1, *e2),
        (Statement::ExpressionStatement(e1), Statement::ExpressionStatement(e2)) => expr_equal(
            *e1,
            *e2,
        ),
        _ => false,
    }
}

pub open spec fn stmts_equal(a: List<Statement>, b: List<Statement>) -> bool
    decreases a,
{
    match (a, b) {
        (List::Nil, List::Nil) => true,
        (List::Cons(x, xs), List::Cons(y, ys)) => stmt_equal(*x, *y) && stmts_equal(*xs, *ys),
        _ => false,
    }
}

/// Whether two byte strings are equal.
pub fn same_bytes(a: &[u8], b: &[u8]) -> (r: bool)
    ensures
        r == (a@ == b@),
{
    if a.len() != b.len() {
        return false;
    }
    let mut i: usize = 0;
    while i < a.len()
        invariant
            a@.len() == b@.len(),
            i <= a@.len(),
            forall|k: int| 0 <= k < i ==> a@[k] == b@[k],
        decreases a@.len() - i,
    {
        if a[i] != b[i] {
            return false;
        }
        i = i + 1;
    }
    proof {
        assert(a@ =~= b@);
    }
    true
}

fn names_eq(a: &List<&[u8]>, b: &List<&[u8]>) -> (r: bool)
    ensures
        r == names_equal(*a, *b),
    decreases a,
{
    match (a, b) {
        (List::Nil, List::Nil) => true,
        (List::Cons(x, xs), List::Cons(y, ys)) => same_bytes(x, y) && names_eq(xs, ys),
        _ => false,
    }
}

/// Whether two function literals have the same parameters and body.
pub fn def_eq(a: &FnDef, b: &FnDef) -> (r: bool)
    ensures
        r == def_equal(*a, *b),
    decreases a,
{
    let params = match (&a.params, &b.params) {
        (None, None) => true,
        (Some(x), Some(y)) => names_eq(x, y),
        _ => false,
    };
    params && stmts_eq(&a.body, &b.body)
}

/// Whether two expressions are structurally equal.
pub fn expr_eq(a: &Expression, b: &Expression) -> (r: bool)
    ensures
        r == expr_equal(*a, *b),
    decreases a,
{
    match (a, b) {
        (Expression::Ident(x), Expression::Ident(y)) => same_bytes(x, y),
        (Expression::Int(x), Expression::Int(y)) => *x == *y,
        (Expression::Bool(x), Expression::Bool(y)) => *x == *y,
        (Expression::IfExpression(c1, t1, e1), Expression::IfExpression(c2, t2, e2)) => {
            expr_eq(c1, c2) && stmts_eq(t1, t2) && match (e1, e2) {
                (None, None) => true,
                (Some(x), Some(y)) => stmts_eq(x, y),
                _ => false,
            }
        },
        (Expression::FunctionLiteral(d1), Expression::FunctionLiteral(d2)) => def_eq(d1, d2),
        (Expression::CallExpression(f1, a1), Expression::CallExpression(f2, a2)) => {
            expr_eq(f1, f2) && match (a1, a2) {
                (None, None) => true,
                (Some(x), Some(y)) => exprs_eq(x, y),
                _ => false,
            }
        },
        (Expression::PrefixExpression(o1, r1), Expression::PrefixExpression(o2, r2)) => *o1 == *o2
            && expr_eq(r1, r2),
        (Expression::InfixExpression(l1, o1, r1), Expression::InfixExpression(l2, o2, r2)) => *o1
            == *o2 && expr_eq(l1, l2) && expr_eq(r1, r2),
        _ => false,
    }
}

fn exprs_eq(a: &List<Expression>, b: &List<Expression>) -> (r: bool)
    ensures
        r == exprs_equal(*a, *b),
    decreases a,
{
    match (a, b) {
        (List::Nil, List::Nil) => true,
        (List::Cons(x, xs), List::Cons(y, ys)) => expr_eq(x, y) && exprs_eq(xs, ys),
        _ => false,
    }
}

fn stmt_eq(a: &Statement, b: &Statement) -> (r: bool)
    ensures
        r == stmt_equal(*a, *b),
    decreases a,
{
    match (a, b) {
        (Statement::LetStatement(n1, e1), Statement::LetStatement(n2, e2)) => same_bytes(n1, n2)
            && expr_eq(e1, e2),
        (Statement::ReturnStatement(e1), Statement::ReturnStatement(e2)) => expr_eq(e1, e2),
        (Statement::ExpressionStatement(e1), Statement::ExpressionStatement(e2)) => expr_eq(e1, e2),
        _ => false,
    }
}

fn stmts_eq(a: &List<Statement>, b: &List<Statement>) -> (r: bool)
    ensures
        r == stmts_equal(*a, *b),
    decreases a,
{
    match (a, b) {
        (List::Nil, List::Nil) => true,
        (List::Cons(x, xs), List::Cons(y, ys)) => stmt_eq(x, y) && stmts_eq(xs, ys),
        _ => false,
    }
}

} // verus!
