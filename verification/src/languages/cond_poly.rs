//! The language of the conditional polynomials: programs that pick one of
//! several polynomials by conditions on polynomials.

use crate::context::{BuiltIn, Context, Reduction};
use crate::language::{Analysis, Language};
use crate::languages::arith::{as_int, as_two_ints, int_of, two_ints, NAT};
use crate::languages::poly::{Order, Sum};
use crate::term::{Term, Value};
use crate::types::{Identifier, Type};
use vstd::prelude::*;
use vstd::wrapping::i32_specs;

verus! {

/// The name of the type of the polynomials.
pub const POLY: Identifier = 1100;

/// The name of the type of the conditions.
pub const COND: Identifier = 1101;

/// The name of the type of the lists of cases.
pub const CASES: Identifier = 1102;

/// The name of addition, `(+)`.
pub const ADD: Identifier = 1110;

/// The name of subtraction, `(-)`.
pub const SUB: Identifier = 1111;

/// The name of multiplication, `(*)`.
pub const MUL: Identifier = 1112;

/// The name of the constant `'1'`.
pub const UNIT: Identifier = 1113;

/// The name of the constant `'0'`.
pub const NULL: Identifier = 1114;

/// The name of `case`: a condition, a polynomial and the cases that follow.
pub const CASE: Identifier = 1115;

/// The name of `eval`: the value of a list of cases.
pub const EVAL: Identifier = 1116;

/// The name of `orelse`: the polynomial where no case holds.
pub const ORELSE: Identifier = 1117;

/// The name of `eqz`: a polynomial is zero.
pub const EQZ: Identifier = 1118;

/// The name of `pos`: a polynomial is positive.
pub const POS: Identifier = 1119;

/// The name of `and`: both conditions hold.
pub const AND: Identifier = 1120;

/// The name of `def`: a polynomial gets a name in what follows.
pub const DEF: Identifier = 1121;

/// The variable of the selectors that `case` rewrites to, which is taken.
pub const TAKEN: Identifier = 15;

/// The variable of the selectors that `case` rewrites to, which is left.
pub const LEFT: Identifier = 16;

/// The reduction rules of the conditional polynomials.
#[derive(Clone, Copy, Debug, PartialEq, Eq, Structural)]
pub enum CondPrim {
    Plus,
    Sub,
    Mult,
    One,
    Zero,
    Case,
    Eval,
    OrElse,
    Eqz,
    Pos,
    And,
    Def,
}

/// The truth value that `t` is, where it is a value leaf that holds one.
pub open spec fn bool_of(t: Term) -> Option<bool> {
    match t {
        Term::Val(Value::Bool(b)) => Some(b),
        _ => None,
    }
}

/// The selector of the first of two branches, or of the second.
pub open spec fn selector(first: bool) -> Term {
    Term::Lam(
        TAKEN,
        Box::new(
            Term::Lam(
                LEFT,
                Box::new(
                    Term::Var(
                        if first {
                            TAKEN
                        } else {
                            LEFT
                        },
                    ),
                ),
            ),
        ),
    )
}

/// The truth value that `t` is, where it is a value leaf that holds one.
pub fn as_bool(t: &Term) -> (r: Option<bool>)
    ensures
        r == bool_of(*t),
{
    match t {
        Term::Val(Value::Bool(b)) => Some(*b),
        _ => None,
    }
}

impl Reduction for CondPrim {
    /// The operations of arithmetic rewrite two integer values to the
    /// result, which wraps around, and the constants to their values.
    /// `case` rewrites a truth value to the selector of the branch that it
    /// picks; the branches are not touched. `orelse` and `eval` hand an
    /// integer value on. `eqz` and `pos` rewrite an integer value to the
    /// truth value of the test, `and` two truth values to their conjunction.
    /// `def` applies its second argument to its first.
    open spec fn reduce_spec(&self, args: Seq<Term>) -> Option<Term> {
        match *self {
            CondPrim::Zero => if args.len() == 0 {
                Some(Term::Val(Value::Int(0)))
            } else {
                None
            },
            CondPrim::One => if args.len() == 0 {
                Some(Term::Val(Value::Int(1)))
            } else {
                None
            },
            CondPrim::Plus => match two_ints(args) {
                Some((x, y)) => Some(Term::Val(Value::Int(i32_specs::wrapping_add(x, y)))),
                None => None,
            },
            CondPrim::Sub => match two_ints(args) {
                Some((x, y)) => Some(Term::Val(Value::Int(i32_specs::wrapping_sub(x, y)))),
                None => None,
            },
            CondPrim::Mult => match two_ints(args) {
                Some((x, y)) => Some(Term::Val(Value::Int(i32_specs::wrapping_mul(x, y)))),
                None => None,
            },
            CondPrim::Case => if args.len() == 1 {
                match bool_of(args[0]) {
                    Some(b) => Some(selector(b)),
                    None => None,
                }
            } else {
                None
            },
            CondPrim::Eval => if args.len() == 1 {
                match int_of(args[0]) {
                    Some(n) => Some(Term::Val(Value::Int(n))),
                    None => None,
                }
            } else {
                None
            },
            CondPrim::OrElse => if args.len() == 1 {
                match int_of(args[0]) {
                    Some(n) => Some(Term::Val(Value::Int(n))),
                    None => None,
                }
            } else {
                None
            },
            CondPrim::Eqz => if args.len() == 1 {
                match int_of(args[0]) {
                    Some(n) => Some(Term::Val(Value::Bool(n == 0))),
                    None => None,
                }
            } else {
                None
            },
            CondPrim::Pos => if args.len() == 1 {
                match int_of(args[0]) {
                    Some(n) => Some(Term::Val(Value::Bool(n > 0))),
                    None => None,
                }
            } else {
                None
            },
            CondPrim::And => if args.len() == 2 {
                match (bool_of(args[0]), bool_of(args[1])) {
                    (Some(a), Some(b)) => Some(Term::Val(Value::Bool(a && b))),
                    _ => None,
                }
            } else {
                None
            },
            CondPrim::Def => if args.len() == 2 {
                Some(Term::App(Box::new(args[1]), Box::new(args[0])))
            } else {
                None
            },
        }
    }

    fn reduce(&self, args: &Vec<Term>) -> (r: Option<Term>) {
        match self {
            CondPrim::Zero => if args.len() == 0 {
                Some(Term::val(Value::Int(0)))
            } else {
                None
            },
            CondPrim::One => if args.len() == 0 {
                Some(Term::val(Value::Int(1)))
            } else {
                None
            },
            CondPrim::Plus => match as_two_ints(args) {
                Some((x, y)) => Some(Term::val(Value::Int(x.wrapping_add(y)))),
                None => None,
            },
            CondPrim::Sub => match as_two_ints(args) {
                Some((x, y)) => Some(Term::val(Value::Int(x.wrapping_sub(y)))),
                None => None,
            },
            CondPrim::Mult => match as_two_ints(args) {
                Some((x, y)) => Some(Term::val(Value::Int(x.wrapping_mul(y)))),
                None => None,
            },
            CondPrim::Case => if args.len() == 1 {
                match as_bool(&args[0]) {
                    Some(b) => Some(
                        Term::lam(
                            TAKEN,
                            Term::lam(
                                LEFT,
                                Term::var(
                                    if b {
                                        TAKEN
                                    } else {
                                        LEFT
                                    },
                                ),
                            ),
                        ),
                    ),
                    None => None,
                }
            } else {
                None
            },
            CondPrim::Eval => if args.len() == 1 {
                match as_int(&args[0]) {
                    Some(n) => Some(Term::val(Value::Int(n))),
                    None => None,
                }
            } else {
                None
            },
            CondPrim::OrElse => if args.len() == 1 {
                match as_int(&args[0]) {
                    Some(n) => Some(Term::val(Value::Int(n))),
                    None => None,
                }
            } else {
                None
            },
            CondPrim::Eqz => if args.len() == 1 {
                match as_int(&args[0]) {
                    Some(n) => Some(Term::val(Value::Bool(n == 0))),
                    None => None,
                }
            } else {
                None
            },
            CondPrim::Pos => if args.len() == 1 {
                match as_int(&args[0]) {
                    Some(n) => Some(Term::val(Value::Bool(n > 0))),
                    None => None,
                }
            } else {
                None
            },
            CondPrim::And => if args.len() == 2 {
                match (as_bool(&args[0]), as_bool(&args[1])) {
                    (Some(a), Some(b)) => Some(Term::val(Value::Bool(a && b))),
                    _ => None,
                }
            } else {
                None
            },
            CondPrim::Def => if args.len() == 2 {
                Some(Term::app(args[1].deep_clone(), args[0].deep_clone()))
            } else {
                None
            },
        }
    }
}

/// A list of polynomials.
#[derive(Debug)]
pub enum SumList {
    Nil,
    Cons(Sum, Box<SumList>),
}

impl SumList {
    /// The two lists, one after the other.
    pub open spec fn append(self, other: SumList) -> SumList
        decreases self,
    {
        match self {
            SumList::Nil => other,
            SumList::Cons(p, r) => SumList::Cons(p, Box::new(r.append(other))),
        }
    }

    /// The list with `p` put before the first polynomial that is greater.
    pub open spec fn insert(self, p: Sum) -> SumList
        decreases self,
    {
        match self {
            SumList::Nil => SumList::Cons(p, Box::new(SumList::Nil)),
            SumList::Cons(q, r) => if p.compare(q) == Order::Less {
                SumList::Cons(p, Box::new(self))
            } else {
                SumList::Cons(q, Box::new(r.insert(p)))
            },
        }
    }

    /// The polynomials of the list in ascending order.
    pub open spec fn sort(self) -> SumList
        decreases self,
    {
        match self {
            SumList::Nil => SumList::Nil,
            SumList::Cons(p, r) => r.sort().insert(p),
        }
    }

    /// Every polynomial with `p` in the place of the variable `x`.
    pub open spec fn subst(self, x: Identifier, p: Sum) -> SumList
        decreases self,
    {
        match self {
            SumList::Nil => SumList::Nil,
            SumList::Cons(q, r) => SumList::Cons(q.subst(x, p), Box::new(r.subst(x, p))),
        }
    }

    /// An independent copy.
    pub fn copy(&self) -> (r: SumList)
        ensures
            r == *self,
        decreases *self,
    {
        match self {
            SumList::Nil => SumList::Nil,
            SumList::Cons(p, r) => SumList::Cons(p.copy(), Box::new(r.copy())),
        }
    }

    /// Whether the two are the same.
    pub fn same(&self, other: &SumList) -> (r: bool)
        ensures
            r == (*self == *other),
        decreases *self,
    {
        match self {
            SumList::Nil => match other {
                SumList::Nil => true,
                SumList::Cons(_, _) => false,
            },
            SumList::Cons(p, r) => match other {
                SumList::Nil => false,
                SumList::Cons(q, s) => p.same(q) && r.same(s),
            },
        }
    }

    /// The two lists, one after the other.
    pub fn appended(self, other: SumList) -> (r: SumList)
        ensures
            r == self.append(other),
        decreases self,
    {
        match self {
            SumList::Nil => other,
            SumList::Cons(p, r) => SumList::Cons(p, Box::new(r.appended(other))),
        }
    }

    /// The list with `p` put before the first polynomial that is greater.
    pub fn inserted(self, p: Sum) -> (r: SumList)
        ensures
            r == self.insert(p),
        decreases self,
    {
        match self {
            SumList::Nil => SumList::Cons(p, Box::new(SumList::Nil)),
            SumList::Cons(q, r) => if p.order(&q) == Order::Less {
                SumList::Cons(p, Box::new(SumList::Cons(q, r)))
            } else {
                SumList::Cons(q, Box::new(r.inserted(p)))
            },
        }
    }

    /// The polynomials of the list in ascending order.
    pub fn sorted(self) -> (r: SumList)
        ensures
            r == self.sort(),
        decreases self,
    {
        match self {
            SumList::Nil => SumList::Nil,
            SumList::Cons(p, r) => r.sorted().inserted(p),
        }
    }

    /// Every polynomial with `p` in the place of the variable `x`.
    pub fn replaced(&self, x: Identifier, p: &Sum) -> (r: SumList)
        ensures
            r == self.subst(x, *p),
        decreases *self,
    {
        match self {
            SumList::Nil => SumList::Nil,
            SumList::Cons(q, r) => SumList::Cons(q.replaced(x, p), Box::new(r.replaced(x, p))),
        }
    }
}

/// A condition: every polynomial of `eqzs` is zero and every one of `poss`
/// is positive.
#[derive(Debug)]
pub struct Cond {
    pub eqzs: SumList,
    pub poss: SumList,
}

impl Cond {
    /// Both conditions: the polynomials of the two put together, in
    /// ascending order.
    pub open spec fn both(self, other: Cond) -> Cond {
        Cond {
            eqzs: self.eqzs.append(other.eqzs).sort(),
            poss: self.poss.append(other.poss).sort(),
        }
    }

    /// The condition with `p` in the place of the variable `x`.
    pub open spec fn subst(self, x: Identifier, p: Sum) -> Cond {
        Cond { eqzs: self.eqzs.subst(x, p), poss: self.poss.subst(x, p) }
    }

    /// An independent copy.
    pub fn copy(&self) -> (r: Cond)
        ensures
            r == *self,
    {
        Cond { eqzs: self.eqzs.copy(), poss: self.poss.copy() }
    }

    /// Whether the two are the same.
    pub fn same(&self, other: &Cond) -> (r: bool)
        ensures
            r == (*self == *other),
    {
        self.eqzs.same(&other.eqzs) && self.poss.same(&other.poss)
    }

    /// Both conditions: see [`Cond::both`].
    pub fn and(self, other: Cond) -> (r: Cond)
        ensures
            r == self.both(other),
    {
        Cond {
            eqzs: self.eqzs.appended(other.eqzs).sorted(),
            poss: self.poss.appended(other.poss).sorted(),
        }
    }

    /// The condition with `p` in the place of the variable `x`.
    pub fn replaced(&self, x: Identifier, p: &Sum) -> (r: Cond)
        ensures
            r == self.subst(x, *p),
    {
        Cond { eqzs: self.eqzs.replaced(x, p), poss: self.poss.replaced(x, p) }
    }
}

/// A list of cases: a condition and the polynomial that it picks.
#[derive(Debug)]
pub enum CaseList {
    Nil,
    Cons(Cond, Sum, Box<CaseList>),
}

impl CaseList {
    /// The list with one more case at the end.
    pub open spec fn push(self, c: Cond, p: Sum) -> CaseList
        decreases self,
    {
        match self {
            CaseList::Nil => CaseList::Cons(c, p, Box::new(CaseList::Nil)),
            CaseList::Cons(d, q, r) => CaseList::Cons(d, q, Box::new(r.push(c, p))),
        }
    }

    /// Every case with `p` in the place of the variable `x`.
    pub open spec fn subst(self, x: Identifier, p: Sum) -> CaseList
        decreases self,
    {
        match self {
            CaseList::Nil => CaseList::Nil,
            CaseList::Cons(d, q, r) => CaseList::Cons(
                d.subst(x, p),
                q.subst(x, p),
                Box::new(r.subst(x, p)),
            ),
        }
    }

    /// An independent copy.
    pub fn copy(&self) -> (r: CaseList)
        ensures
            r == *self,
        decreases *self,
    {
        match self {
            CaseList::Nil => CaseList::Nil,
            CaseList::Cons(d, q, r) => CaseList::Cons(d.copy(), q.copy(), Box::new(r.copy())),
        }
    }

    /// Whether the two are the same.
    pub fn same(&self, other: &CaseList) -> (r: bool)
        ensures
            r == (*self == *other),
        decreases *self,
    {
        match self {
            CaseList::Nil => match other {
                CaseList::Nil => true,
                CaseList::Cons(_, _, _) => false,
            },
            CaseList::Cons(d, q, r) => match other {
                CaseList::Nil => false,
                CaseList::Cons(e, p, s) => d.same(e) && q.same(p) && r.same(s),
            },
        }
    }

    /// The list with one more case at the end.
    pub fn pushed(self, c: Cond, p: Sum) -> (r: CaseList)
        ensures
            r == self.push(c, p),
        decreases self,
    {
        match self {
            CaseList::Nil => CaseList::Cons(c, p, Box::new(CaseList::Nil)),
            CaseList::Cons(d, q, r) => CaseList::Cons(d, q, Box::new(r.pushed(c, p))),
        }
    }

    /// Every case with `p` in the place of the variable `x`.
    pub fn replaced(&self, x: Identifier, p: &Sum) -> (r: CaseList)
        ensures
            r == self.subst(x, *p),
        decreases *self,
    {
        match self {
            CaseList::Nil => CaseList::Nil,
            CaseList::Cons(d, q, r) => CaseList::Cons(
                d.replaced(x, p),
                q.replaced(x, p),
                Box::new(r.replaced(x, p)),
            ),
        }
    }
}

/// A program: the polynomial of the first case whose condition holds, or
/// `default` where none does.
#[derive(Debug)]
pub struct Program {
    pub cases: CaseList,
    pub default: Sum,
}

impl Program {
    /// The program with `p` in the place of the variable `x`.
    pub open spec fn subst(self, x: Identifier, p: Sum) -> Program {
        Program { cases: self.cases.subst(x, p), default: self.default.subst(x, p) }
    }

    /// An independent copy.
    pub fn copy(&self) -> (r: Program)
        ensures
            r == *self,
    {
        Program { cases: self.cases.copy(), default: self.default.copy() }
    }

    /// Whether the two are the same.
    pub fn same(&self, other: &Program) -> (r: bool)
        ensures
            r == (*self == *other),
    {
        self.cases.same(&other.cases) && self.default.same(&other.default)
    }

    /// The program with `p` in the place of the variable `x`.
    pub fn replaced(&self, x: Identifier, p: &Sum) -> (r: Program)
        ensures
            r == self.subst(x, *p),
    {
        Program { cases: self.cases.replaced(x, p), default: self.default.replaced(x, p) }
    }
}

/// What a term of the conditional polynomials means.
#[derive(Debug)]
pub enum CondPolySems {
    /// A function of the variable, with what its body means.
    Func(Identifier, Box<CondPolySems>),
    /// A condition.
    Case(Cond),
    /// A polynomial in normal form.
    Poly(Sum),
    /// A program.
    Prog(Program),
    /// A primitive with the arguments that it has so far.
    Appl(Identifier, SemList),
}

/// A list of meanings.
#[derive(Debug)]
pub enum SemList {
    Nil,
    Cons(Box<CondPolySems>, Box<SemList>),
}

impl SemList {
    /// The list with one more meaning at the end.
    pub open spec fn push(self, s: CondPolySems) -> SemList
        decreases self,
    {
        match self {
            SemList::Nil => SemList::Cons(Box::new(s), Box::new(SemList::Nil)),
            SemList::Cons(t, r) => SemList::Cons(t, Box::new(r.push(s))),
        }
    }

    /// An independent copy.
    pub fn copy(&self) -> (r: SemList)
        ensures
            r == *self,
        decreases *self,
    {
        match self {
            SemList::Nil => SemList::Nil,
            SemList::Cons(t, r) => SemList::Cons(Box::new(t.copy()), Box::new(r.copy())),
        }
    }

    /// Whether the two are the same.
    pub fn same(&self, other: &SemList) -> (r: bool)
        ensures
            r == (*self == *other),
        decreases *self,
    {
        match self {
            SemList::Nil => match other {
                SemList::Nil => true,
                SemList::Cons(_, _) => false,
            },
            SemList::Cons(t, r) => match other {
                SemList::Nil => false,
                SemList::Cons(u, s) => t.same(u) && r.same(s),
            },
        }
    }

    /// The list with one more meaning at the end.
    pub fn pushed(self, s: CondPolySems) -> (r: SemList)
        ensures
            r == self.push(s),
        decreases self,
    {
        match self {
            SemList::Nil => SemList::Cons(Box::new(s), Box::new(SemList::Nil)),
            SemList::Cons(t, r) => SemList::Cons(t, Box::new(r.pushed(s))),
        }
    }
}

impl CondPolySems {
    /// An independent copy.
    pub fn copy(&self) -> (r: CondPolySems)
        ensures
            r == *self,
        decreases *self,
    {
        match self {
            CondPolySems::Func(x, b) => CondPolySems::Func(*x, Box::new(b.copy())),
            CondPolySems::Case(c) => CondPolySems::Case(c.copy()),
            CondPolySems::Poly(p) => CondPolySems::Poly(p.copy()),
            CondPolySems::Prog(p) => CondPolySems::Prog(p.copy()),
            CondPolySems::Appl(v, args) => CondPolySems::Appl(*v, args.copy()),
        }
    }

    /// Whether the two are the same.
    pub fn same(&self, other: &CondPolySems) -> (r: bool)
        ensures
            r == (*self == *other),
        decreases *self,
    {
        match self {
            CondPolySems::Func(x, b) => match other {
                CondPolySems::Func(y, c) => *x == *y && b.same(c),
                _ => false,
            },
            CondPolySems::Case(c) => match other {
                CondPolySems::Case(d) => c.same(d),
                _ => false,
            },
            CondPolySems::Poly(p) => match other {
                CondPolySems::Poly(q) => p.same(q),
                _ => false,
            },
            CondPolySems::Prog(p) => match other {
                CondPolySems::Prog(q) => p.same(q),
                _ => false,
            },
            CondPolySems::Appl(v, args) => match other {
                CondPolySems::Appl(w, more) => *v == *w && args.same(more),
                _ => false,
            },
        }
    }
}

/// `v` is the name of an operation of arithmetic.
pub open spec fn is_arith(v: Identifier) -> bool {
    v == ADD || v == SUB || v == MUL
}

/// `v` is the name of a test of a polynomial.
pub open spec fn is_test(v: Identifier) -> bool {
    v == EQZ || v == POS
}

/// `v` is the name of a primitive that is complete with one argument.
pub open spec fn takes_one(v: Identifier) -> bool {
    v == EVAL || v == ORELSE || is_test(v)
}

/// What an operation of arithmetic makes of two polynomials.
pub open spec fn arith_spec(v: Identifier, a: Sum, b: Sum) -> Sum {
    if v == ADD {
        a.add(b)
    } else if v == SUB {
        a.add(b.mul(Sum::constant(-1i32)))
    } else {
        a.mul(b)
    }
}

/// The condition that the test `v` puts on the polynomial `p`.
pub open spec fn test_spec(v: Identifier, p: Sum) -> Cond {
    let one = SumList::Cons(p, Box::new(SumList::Nil));
    if v == EQZ {
        Cond { eqzs: one, poss: SumList::Nil }
    } else {
        Cond { eqzs: SumList::Nil, poss: one }
    }
}

/// What the conditional polynomials make of a variable or the name of a
/// primitive.
pub open spec fn cond_var(v: Identifier) -> CondPolySems {
    if v == UNIT {
        CondPolySems::Poly(Sum::constant(1))
    } else if v == NULL {
        CondPolySems::Poly(Sum::constant(0))
    } else if v == ADD || v == SUB || v == MUL || v == CASE || v == EVAL || v == ORELSE || v == EQZ
        || v == POS || v == AND || v == DEF {
        CondPolySems::Appl(v, SemList::Nil)
    } else {
        CondPolySems::Poly(Sum::variable(v))
    }
}

/// What the primitive `v` makes of one more argument, where it has none yet.
pub open spec fn apply_first(v: Identifier, arg: CondPolySems) -> Analysis<CondPolySems> {
    if v == EVAL {
        Analysis::Canonical(arg)
    } else if v == ORELSE {
        match arg {
            CondPolySems::Poly(p) => Analysis::Canonical(
                CondPolySems::Prog(Program { cases: CaseList::Nil, default: p }),
            ),
            _ => Analysis::Malformed,
        }
    } else if is_test(v) {
        match arg {
            CondPolySems::Poly(p) => Analysis::Canonical(CondPolySems::Case(test_spec(v, p))),
            _ => Analysis::Malformed,
        }
    } else {
        Analysis::Canonical(
            CondPolySems::Appl(v, SemList::Cons(Box::new(arg), Box::new(SemList::Nil))),
        )
    }
}

/// What the primitive `v` makes of one more argument, where it has `first`.
pub open spec fn apply_second(v: Identifier, first: CondPolySems, arg: CondPolySems) -> Analysis<
    CondPolySems,
> {
    if is_arith(v) {
        match (first, arg) {
            (CondPolySems::Poly(a), CondPolySems::Poly(b)) => Analysis::Canonical(
                CondPolySems::Poly(arith_spec(v, a, b)),
            ),
            _ => Analysis::Malformed,
        }
    } else if takes_one(v) {
        Analysis::Malformed
    } else if v == AND {
        match (arg, first) {
            (CondPolySems::Case(c), CondPolySems::Case(d)) => Analysis::Canonical(
                CondPolySems::Case(c.both(d)),
            ),
            _ => Analysis::Malformed,
        }
    } else if v == DEF {
        match arg {
            CondPolySems::Func(x, body) => match (*body, first) {
                (CondPolySems::Prog(prog), CondPolySems::Poly(p)) => Analysis::Canonical(
                    CondPolySems::Prog(prog.subst(x, p)),
                ),
                _ => Analysis::Malformed,
            },
            _ => Analysis::Malformed,
        }
    } else {
        Analysis::Canonical(
            CondPolySems::Appl(
                v,
                SemList::Cons(
                    Box::new(first),
                    Box::new(SemList::Cons(Box::new(arg), Box::new(SemList::Nil))),
                ),
            ),
        )
    }
}

/// What the primitive `v` makes of one more argument, where it has `first`
/// and `second`.
pub open spec fn apply_third(
    v: Identifier,
    first: CondPolySems,
    second: CondPolySems,
    arg: CondPolySems,
) -> Analysis<CondPolySems> {
    if takes_one(v) {
        Analysis::Malformed
    } else if v == CASE {
        match (arg, second, first) {
            (
                CondPolySems::Prog(prog),
                CondPolySems::Poly(p),
                CondPolySems::Case(c),
            ) => Analysis::Canonical(
                CondPolySems::Prog(Program { cases: prog.cases.push(c, p), default: prog.default }),
            ),
            _ => Analysis::Malformed,
        }
    } else {
        Analysis::Canonical(
            CondPolySems::Appl(
                v,
                SemList::Cons(
                    Box::new(first),
                    Box::new(
                        SemList::Cons(
                            Box::new(second),
                            Box::new(SemList::Cons(Box::new(arg), Box::new(SemList::Nil))),
                        ),
                    ),
                ),
            ),
        )
    }
}

/// What the conditional polynomials make of an application.
///
/// A primitive collects its arguments. An operation of arithmetic with two
/// polynomials is their sum, difference or product. `eval` is what its
/// argument is. `orelse` with a polynomial is the program without cases.
/// `case` with a condition, a polynomial and a program is the program with
/// one more case. `and` with two conditions is their conjunction. `def` with
/// a polynomial and a function to a program is the program with the
/// polynomial in the place of the variable. A test with a polynomial is the
/// condition that it puts on the polynomial. `eval`, `orelse` and the tests
/// take no second argument. Everything else is malformed.
pub open spec fn cond_app(fun: Analysis<CondPolySems>, arg: Analysis<CondPolySems>) -> Analysis<
    CondPolySems,
> {
    match (fun, arg) {
        (Analysis::Canonical(CondPolySems::Appl(v, args)), Analysis::Canonical(a)) => match args {
            SemList::Nil => apply_first(v, a),
            SemList::Cons(first, rest) => match *rest {
                SemList::Nil => apply_second(v, *first, a),
                SemList::Cons(second, more) => match *more {
                    SemList::Nil => apply_third(v, *first, *second, a),
                    SemList::Cons(_, _) => if takes_one(v) {
                        Analysis::Malformed
                    } else {
                        Analysis::Canonical(CondPolySems::Appl(v, args.push(a)))
                    },
                },
            },
        },
        _ => Analysis::Malformed,
    }
}

/// An application has no meaning where one of its parts has none, and an
/// abstraction has none where its body has none.
pub proof fn lemma_malformed_parts(
    v: Identifier,
    fun: Analysis<CondPolySems>,
    arg: Analysis<CondPolySems>,
    ty: Type,
)
    ensures
        fun is Malformed || arg is Malformed ==> CondPolyLang.sapp_spec(fun, arg, ty) is Malformed,
        arg is Malformed ==> CondPolyLang.slam_spec(v, arg, ty) is Malformed,
{
}

/// A test of a polynomial is the condition that it puts on the polynomial.
pub proof fn lemma_test_is_condition(v: Identifier, p: Sum, ty: Type)
    requires
        is_test(v),
    ensures
        CondPolyLang.sapp_spec(
            CondPolyLang.svar_spec(v, ty),
            Analysis::Canonical(CondPolySems::Poly(p)),
            ty,
        ) == Analysis::Canonical(CondPolySems::Case(test_spec(v, p))),
{
}

/// The language of the conditional polynomials.
#[derive(Clone, Copy, Debug)]
pub struct CondPolyLang;

/// The type named `name`.
pub open spec fn ground(name: Identifier) -> Type {
    Type::Ground(name)
}

/// The type of a function of one argument.
pub open spec fn arrow(arg: Type, ret: Type) -> Type {
    Type::Fun(Box::new(arg), Box::new(ret))
}

/// The primitives of the conditional polynomials.
pub open spec fn cond_prims() -> Seq<(Identifier, BuiltIn<CondPrim>)> {
    let poly = ground(POLY);
    let cond = ground(COND);
    let cases = ground(CASES);
    let n = ground(NAT);
    let op = arrow(poly, arrow(poly, poly));
    seq![
        (ADD, BuiltIn { n_args: 2, func: CondPrim::Plus, ty: op }),
        (SUB, BuiltIn { n_args: 2, func: CondPrim::Sub, ty: op }),
        (MUL, BuiltIn { n_args: 2, func: CondPrim::Mult, ty: op }),
        (UNIT, BuiltIn { n_args: 0, func: CondPrim::One, ty: poly }),
        (NULL, BuiltIn { n_args: 0, func: CondPrim::Zero, ty: poly }),
        (
            CASE,
            BuiltIn {
                n_args: 1,
                func: CondPrim::Case,
                ty: arrow(cond, arrow(poly, arrow(cases, cases))),
            },
        ),
        (EVAL, BuiltIn { n_args: 1, func: CondPrim::Eval, ty: arrow(cases, n) }),
        (ORELSE, BuiltIn { n_args: 1, func: CondPrim::OrElse, ty: arrow(poly, cases) }),
        (EQZ, BuiltIn { n_args: 1, func: CondPrim::Eqz, ty: arrow(poly, cond) }),
        (POS, BuiltIn { n_args: 1, func: CondPrim::Pos, ty: arrow(poly, cond) }),
        (AND, BuiltIn { n_args: 2, func: CondPrim::And, ty: arrow(cond, arrow(cond, cond)) }),
        (
            DEF,
            BuiltIn { n_args: 2, func: CondPrim::Def, ty: arrow(poly, arrow(arrow(poly, n), n)) },
        ),
    ]
}

/// What an operation of arithmetic makes of two polynomials.
fn arith(v: Identifier, a: &Sum, b: &Sum) -> (r: Sum)
    requires
        is_arith(v),
    ensures
        r == arith_spec(v, *a, *b),
{
    if v == ADD {
        a.plus(b)
    } else if v == SUB {
        a.plus(&b.times(&Sum::from_constant(-1)))
    } else {
        a.times(b)
    }
}

/// The condition that a test puts on a polynomial.
fn test(v: Identifier, p: Sum) -> (r: Cond)
    ensures
        r == test_spec(v, p),
{
    let one = SumList::Cons(p, Box::new(SumList::Nil));
    if v == EQZ {
        Cond { eqzs: one, poss: SumList::Nil }
    } else {
        Cond { eqzs: SumList::Nil, poss: one }
    }
}

/// What a primitive makes of its first argument: see [`apply_first`].
fn first_arg(v: Identifier, arg: CondPolySems) -> (r: Analysis<CondPolySems>)
    ensures
        r == apply_first(v, arg),
{
    if v == EVAL {
        Analysis::Canonical(arg)
    } else if v == ORELSE {
        match arg {
            CondPolySems::Poly(p) => Analysis::Canonical(
                CondPolySems::Prog(Program { cases: CaseList::Nil, default: p }),
            ),
            _ => Analysis::Malformed,
        }
    } else if v == EQZ || v == POS {
        match arg {
            CondPolySems::Poly(p) => Analysis::Canonical(CondPolySems::Case(test(v, p))),
            _ => Analysis::Malformed,
        }
    } else {
        Analysis::Canonical(
            CondPolySems::Appl(v, SemList::Cons(Box::new(arg), Box::new(SemList::Nil))),
        )
    }
}

/// What a primitive makes of its second argument: see [`apply_second`].
fn second_arg(v: Identifier, first: CondPolySems, arg: CondPolySems) -> (r: Analysis<CondPolySems>)
    ensures
        r == apply_second(v, first, arg),
{
    if v == ADD || v == SUB || v == MUL {
        match (first, arg) {
            (CondPolySems::Poly(a), CondPolySems::Poly(b)) => Analysis::Canonical(
                CondPolySems::Poly(arith(v, &a, &b)),
            ),
            _ => Analysis::Malformed,
        }
    } else if v == EVAL || v == ORELSE || v == EQZ || v == POS {
        Analysis::Malformed
    } else if v == AND {
        match (arg, first) {
            (CondPolySems::Case(c), CondPolySems::Case(d)) => Analysis::Canonical(
                CondPolySems::Case(c.and(d)),
            ),
            _ => Analysis::Malformed,
        }
    } else if v == DEF {
        match arg {
            CondPolySems::Func(x, body) => match (*body, first) {
                (CondPolySems::Prog(prog), CondPolySems::Poly(p)) => Analysis::Canonical(
                    CondPolySems::Prog(prog.replaced(x, &p)),
                ),
                _ => Analysis::Malformed,
            },
            _ => Analysis::Malformed,
        }
    } else {
        Analysis::Canonical(
            CondPolySems::Appl(
                v,
                SemList::Cons(
                    Box::new(first),
                    Box::new(SemList::Cons(Box::new(arg), Box::new(SemList::Nil))),
                ),
            ),
        )
    }
}

/// What a primitive makes of its third argument: see [`apply_third`].
fn third_arg(v: Identifier, first: CondPolySems, second: CondPolySems, arg: CondPolySems) -> (r:
    Analysis<CondPolySems>)
    ensures
        r == apply_third(v, first, second, arg),
{
    if v == EVAL || v == ORELSE || v == EQZ || v == POS {
        Analysis::Malformed
    } else if v == CASE {
        match (arg, second, first) {
            (
                CondPolySems::Prog(prog),
                CondPolySems::Poly(p),
                CondPolySems::Case(c),
            ) => Analysis::Canonical(
                CondPolySems::Prog(
                    Program { cases: prog.cases.pushed(c, p), default: prog.default },
                ),
            ),
            _ => Analysis::Malformed,
        }
    } else {
        Analysis::Canonical(
            CondPolySems::Appl(
                v,
                SemList::Cons(
                    Box::new(first),
                    Box::new(
                        SemList::Cons(
                            Box::new(second),
                            Box::new(SemList::Cons(Box::new(arg), Box::new(SemList::Nil))),
                        ),
                    ),
                ),
            ),
        )
    }
}

impl Language for CondPolyLang {
    type Semantics = CondPolySems;

    type Prim = CondPrim;

    open spec fn small_size_spec(&self) -> usize {
        10
    }

    open spec fn large_size_spec(&self) -> usize {
        20
    }

    open spec fn context_spec(&self) -> Seq<(Identifier, BuiltIn<CondPrim>)> {
        cond_prims()
    }

    /// A value has no meaning among the conditional polynomials.
    open spec fn sval_spec(&self, value: Value, ty: Type) -> Analysis<CondPolySems> {
        Analysis::Malformed
    }

    /// The constants are polynomials, a primitive is an application without
    /// arguments, any other name is the polynomial that is the variable.
    open spec fn svar_spec(&self, ident: Identifier, ty: Type) -> Analysis<CondPolySems> {
        Analysis::Canonical(cond_var(ident))
    }

    /// A function of the variable, where its body has a canonical meaning.
    open spec fn slam_spec(
        &self,
        ident: Identifier,
        body: Analysis<CondPolySems>,
        ty: Type,
    ) -> Analysis<CondPolySems> {
        match body {
            Analysis::Canonical(b) => Analysis::Canonical(CondPolySems::Func(ident, Box::new(b))),
            _ => Analysis::Malformed,
        }
    }

    open spec fn sapp_spec(
        &self,
        fun: Analysis<CondPolySems>,
        arg: Analysis<CondPolySems>,
        ty: Type,
    ) -> Analysis<CondPolySems> {
        cond_app(fun, arg)
    }

    fn small_size(&self) -> (n: usize) {
        10
    }

    fn large_size(&self) -> (n: usize) {
        20
    }

    fn context(&self) -> (c: Context<CondPrim>) {
        let poly = || -> (t: Type)
            ensures
                t == ground(POLY),
            { Type::ground(POLY) };
        let cond = || -> (t: Type)
            ensures
                t == ground(COND),
            { Type::ground(COND) };
        let cases = || -> (t: Type)
            ensures
                t == ground(CASES),
            { Type::ground(CASES) };
        let n = || -> (t: Type)
            ensures
                t == ground(NAT),
            { Type::ground(NAT) };
        let op = || -> (t: Type)
            ensures
                t == arrow(ground(POLY), arrow(ground(POLY), ground(POLY))),
            { Type::fun(Type::ground(POLY), Type::fun(Type::ground(POLY), Type::ground(POLY))) };
        let mut entries: Vec<(Identifier, BuiltIn<CondPrim>)> = Vec::new();
        entries.push((ADD, BuiltIn::new(2, CondPrim::Plus, op())));
        entries.push((SUB, BuiltIn::new(2, CondPrim::Sub, op())));
        entries.push((MUL, BuiltIn::new(2, CondPrim::Mult, op())));
        entries.push((UNIT, BuiltIn::new(0, CondPrim::One, poly())));
        entries.push((NULL, BuiltIn::new(0, CondPrim::Zero, poly())));
        entries.push(
            (
                CASE,
                BuiltIn::new(
                    1,
                    CondPrim::Case,
                    Type::fun(cond(), Type::fun(poly(), Type::fun(cases(), cases()))),
                ),
            ),
        );
        entries.push((EVAL, BuiltIn::new(1, CondPrim::Eval, Type::fun(cases(), n()))));
        entries.push((ORELSE, BuiltIn::new(1, CondPrim::OrElse, Type::fun(poly(), cases()))));
        entries.push((EQZ, BuiltIn::new(1, CondPrim::Eqz, Type::fun(poly(), cond()))));
        entries.push((POS, BuiltIn::new(1, CondPrim::Pos, Type::fun(poly(), cond()))));
        entries.push(
            (AND, BuiltIn::new(2, CondPrim::And, Type::fun(cond(), Type::fun(cond(), cond())))),
        );
        entries.push(
            (
                DEF,
                BuiltIn::new(
                    2,
                    CondPrim::Def,
                    Type::fun(poly(), Type::fun(Type::fun(poly(), n()), n())),
                ),
            ),
        );
        proof {
            assert(entries@ =~= cond_prims());
        }
        Context::new(entries)
    }

    fn sval(&self, value: &Value, ty: &Type) -> (a: Analysis<CondPolySems>) {
        Analysis::Malformed
    }

    fn svar(&self, ident: Identifier, ty: &Type) -> (a: Analysis<CondPolySems>) {
        if ident == UNIT {
            Analysis::Canonical(CondPolySems::Poly(Sum::from_constant(1)))
        } else if ident == NULL {
            Analysis::Canonical(CondPolySems::Poly(Sum::from_constant(0)))
        } else if ident == ADD || ident == SUB || ident == MUL || ident == CASE || ident == EVAL
            || ident == ORELSE || ident == EQZ || ident == POS || ident == AND || ident == DEF {
            Analysis::Canonical(CondPolySems::Appl(ident, SemList::Nil))
        } else {
            Analysis::Canonical(CondPolySems::Poly(Sum::from_variable(ident)))
        }
    }

    fn slam(&self, ident: Identifier, body: Analysis<CondPolySems>, ty: &Type) -> (a: Analysis<
        CondPolySems,
    >) {
        match body {
            Analysis::Canonical(b) => Analysis::Canonical(CondPolySems::Func(ident, Box::new(b))),
            _ => Analysis::Malformed,
        }
    }

    fn sapp(&self, fun: Analysis<CondPolySems>, arg: Analysis<CondPolySems>, ty: &Type) -> (a:
        Analysis<CondPolySems>) {
        match (fun, arg) {
            (Analysis::Canonical(CondPolySems::Appl(v, args)), Analysis::Canonical(a)) => {
                match args {
                    SemList::Nil => first_arg(v, a),
                    SemList::Cons(first, rest) => match *rest {
                        SemList::Nil => second_arg(v, *first, a),
                        SemList::Cons(second, more) => match *more {
                            SemList::Nil => third_arg(v, *first, *second, a),
                            SemList::Cons(third, others) => {
                                if v == EVAL || v == ORELSE || v == EQZ || v == POS {
                                    Analysis::Malformed
                                } else {
                                    let args = SemList::Cons(
                                        first,
                                        Box::new(
                                            SemList::Cons(
                                                second,
                                                Box::new(SemList::Cons(third, others)),
                                            ),
                                        ),
                                    );
                                    Analysis::Canonical(CondPolySems::Appl(v, args.pushed(a)))
                                }
                            },
                        },
                    },
                }
            },
            _ => Analysis::Malformed,
        }
    }

    fn same(&self, a: &CondPolySems, b: &CondPolySems) -> (r: bool) {
        a.same(b)
    }

    fn copy(&self, a: &CondPolySems) -> (r: CondPolySems) {
        a.copy()
    }
}

} // verus!
