use vstd::prelude::*;
use std::rc::Rc;
use crate::ast::{def_eq, def_equal, FnDef};

verus! {

/// A runtime value. `Return` wraps the value of a `return` statement while it
/// unwinds the blocks of one function body.
#[derive(PartialEq, Eq, Debug)]
pub enum Object<'a> {
    Integer(i64),
    Boolean(bool),
    /// A closure: the literal it was made from and the frame it captured.
    Function(Rc<FnDef<'a>>, usize),
    Return(Box<Object<'a>>),
    Null,
}

/// Why evaluation stopped.
#[derive(PartialEq, Eq, Debug, Clone, Copy)]
pub enum EvalError<'a> {
    NotFound(&'a [u8]),
    TypeMismatch,
    NotAFunction,
    ArityMismatch,
    DivisionByZero,
    IntegerOverflow,
    CallDepthExceeded,
    TooManyFrames,
}

/// Structural equality of values; two closures are equal when their literals
/// have the same parameters and body and they captured the same frame.
pub open spec fn values_equal<'a>(a: Object<'a>, b: Object<'a>) -> bool
    decreases a,
{
    match (a, b) {
        (Object::Integer(x), Object::Integer(y)) => x == y,
        (Object::Boolean(x), Object::Boolean(y)) => x == y,
        (Object::Function(d1, e1), Object::Function(d2, e2)) => def_equal(*d1, *d2) && e1 == e2,
        (Object::Return(x), Object::Return(y)) => values_equal(*x, *y),
        (Object::Null, Object::Null) => true,
        _ => false,
    }
}

impl<'a> Object<'a> {
    /// A copy of this value; closures share their literal.
    pub fn duplicate(&self) -> (r: Object<'a>)
        ensures
            r == *self,
        decreases self,
    {
        match self {
            Object::Integer(i) => Object::Integer(*i),
            Object::Boolean(b) => Object::Boolean(*b),
            Object::Function(d, e) => Object::Function(Rc::clone(d), *e),
            Object::Return(v) => Object::Return(Box::new(v.duplicate())),
            Object::Null => Object::Null,
        }
    }

    /// Whether two values are equal, as the `==` operator decides.
    pub fn equals(&self, other: &Object<'a>) -> (r: bool)
        ensures
            r == values_equal(*self, *other),
        decreases self,
    {
        match (self, other) {
            (Object::Integer(x), Object::Integer(y)) => *x == *y,
            (Object::Boolean(x), Object::Boolean(y)) => *x == *y,
            (Object::Function(d1, e1), Object::Function(d2, e2)) => *e1 == *e2 && def_eq(d1, d2),
            (Object::Return(x), Object::Return(y)) => x.equals(y),
            (Object::Null, Object::Null) => true,
            _ => false,
        }
    }
}

} // verus!
