//! Integer arithmetic as primitives: addition, subtraction and
//! multiplication, which wrap around, and the constants zero and one.

use crate::context::{BuiltIn, Context, Reduction};
use crate::term::{Term, Value};
use crate::types::{Identifier, Type};
use vstd::prelude::*;
use vstd::wrapping::i32_specs;

verus! {

/// The name of the type of the integers.
pub const NAT: Identifier = 1000;

/// The name of addition.
pub const PLUS: Identifier = 1001;

/// The name of subtraction.
pub const MINUS: Identifier = 1002;

/// The name of multiplication.
pub const MULT: Identifier = 1003;

/// The name of the constant zero.
pub const ZERO: Identifier = 1004;

/// The name of the constant one.
pub const ONE: Identifier = 1005;

/// The reduction rules of integer arithmetic.
#[derive(Clone, Copy, Debug, PartialEq, Eq, Structural)]
pub enum Arith {
    Plus,
    Minus,
    Mult,
    Zero,
    One,
}

/// The integer that `t` is, where it is a value leaf that holds one.
pub open spec fn int_of(t: Term) -> Option<i32> {
    match t {
        Term::Val(Value::Int(n)) => Some(n),
        _ => None,
    }
}

/// The two integers that `args` are, where they are two value leaves that
/// hold integers.
pub open spec fn two_ints(args: Seq<Term>) -> Option<(i32, i32)> {
    if args.len() == 2 {
        match (int_of(args[0]), int_of(args[1])) {
            (Some(x), Some(y)) => Some((x, y)),
            _ => None,
        }
    } else {
        None
    }
}

/// The integer that `t` is, where it is a value leaf that holds one.
pub fn as_int(t: &Term) -> (r: Option<i32>)
    ensures
        r == int_of(*t),
{
    match t {
        Term::Val(Value::Int(n)) => Some(*n),
        _ => None,
    }
}

/// The two integers that `args` are: see [`two_ints`].
pub fn as_two_ints(args: &Vec<Term>) -> (r: Option<(i32, i32)>)
    ensures
        r == two_ints(args@),
{
    if args.len() != 2 {
        return None;
    }
    match (as_int(&args[0]), as_int(&args[1])) {
        (Some(x), Some(y)) => Some((x, y)),
        _ => None,
    }
}

impl Reduction for Arith {
    /// A constant rewrites to its value. An operation on two integer values
    /// rewrites to the result, which wraps around; on anything else it does
    /// not rewrite.
    open spec fn reduce_spec(&self, args: Seq<Term>) -> Option<Term> {
        match *self {
            Arith::Zero => if args.len() == 0 {
                Some(Term::Val(Value::Int(0)))
            } else {
                None
            },
            Arith::One => if args.len() == 0 {
                Some(Term::Val(Value::Int(1)))
            } else {
                None
            },
            Arith::Plus => match two_ints(args) {
                Some((x, y)) => Some(Term::Val(Value::Int(i32_specs::wrapping_add(x, y)))),
                None => None,
            },
            Arith::Minus => match two_ints(args) {
                Some((x, y)) => Some(Term::Val(Value::Int(i32_specs::wrapping_sub(x, y)))),
                None => None,
            },
            Arith::Mult => match two_ints(args) {
                Some((x, y)) => Some(Term::Val(Value::Int(i32_specs::wrapping_mul(x, y)))),
                None => None,
            },
        }
    }

    fn reduce(&self, args: &Vec<Term>) -> (r: Option<Term>) {
        match self {
            Arith::Zero => if args.len() == 0 {
                Some(Term::val(Value::Int(0)))
            } else {
                None
            },
            Arith::One => if args.len() == 0 {
                Some(Term::val(Value::Int(1)))
            } else {
                None
            },
            Arith::Plus => match as_two_ints(args) {
                Some((x, y)) => Some(Term::val(Value::Int(x.wrapping_add(y)))),
                None => None,
            },
            Arith::Minus => match as_two_ints(args) {
                Some((x, y)) => Some(Term::val(Value::Int(x.wrapping_sub(y)))),
                None => None,
            },
            Arith::Mult => match as_two_ints(args) {
                Some((x, y)) => Some(Term::val(Value::Int(x.wrapping_mul(y)))),
                None => None,
            },
        }
    }
}

/// The type of the integers.
pub open spec fn number_type() -> Type {
    Type::Ground(NAT)
}

/// The type of an operation on two integers.
pub open spec fn binary_type() -> Type {
    Type::Fun(
        Box::new(number_type()),
        Box::new(Type::Fun(Box::new(number_type()), Box::new(number_type()))),
    )
}

/// The primitives of the polynomials: addition, multiplication, zero and
/// one, in this order.
pub open spec fn polynomial_prims() -> Seq<(Identifier, BuiltIn<Arith>)> {
    seq![
        (PLUS, BuiltIn { n_args: 2, func: Arith::Plus, ty: binary_type() }),
        (MULT, BuiltIn { n_args: 2, func: Arith::Mult, ty: binary_type() }),
        (ZERO, BuiltIn { n_args: 0, func: Arith::Zero, ty: number_type() }),
        (ONE, BuiltIn { n_args: 0, func: Arith::One, ty: number_type() }),
    ]
}

/// The type of the integers.
pub fn number() -> (t: Type)
    ensures
        t == number_type(),
{
    Type::ground(NAT)
}

/// The type of an operation on two integers.
pub fn binary() -> (t: Type)
    ensures
        t == binary_type(),
{
    Type::fun(number(), Type::fun(number(), number()))
}

/// The context of the polynomials: see [`polynomial_prims`].
pub fn polynomial_context() -> (c: Context<Arith>)
    ensures
        c@ == polynomial_prims(),
{
    let mut entries: Vec<(Identifier, BuiltIn<Arith>)> = Vec::new();
    entries.push((PLUS, BuiltIn::new(2, Arith::Plus, binary())));
    entries.push((MULT, BuiltIn::new(2, Arith::Mult, binary())));
    entries.push((ZERO, BuiltIn::new(0, Arith::Zero, number())));
    entries.push((ONE, BuiltIn::new(0, Arith::One, number())));
    proof {
        assert(entries@ =~= polynomial_prims());
    }
    Context::new(entries)
}

} // verus!
