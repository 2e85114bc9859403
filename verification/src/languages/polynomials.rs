//! The language of the polynomials: sums and products of zero, one and the
//! variables, told apart by their normal form.

use crate::analysis::{analysis, neutral_analysis};
use crate::annotate::{declared, synth};
use crate::context::{BuiltIn, Context};
use crate::language::{Analysis, Language};
use crate::languages::arith::{polynomial_context, polynomial_prims, Arith, MULT, ONE, PLUS, ZERO};
use crate::languages::poly::{
    congruent, lemma_congruent, lemma_congruent_chain, lemma_congruent_refl, Mono, Sum,
};
use crate::search::Env;
use crate::term::{Term, Value};
use crate::types::{Identifier, Type};
use vstd::prelude::*;

verus! {

/// What a term of the polynomials means.
#[derive(Debug)]
pub enum PolySem {
    /// A polynomial in normal form.
    Poly(Sum),
    /// An operation that has no argument yet.
    Op(Identifier),
    /// An operation with its first argument.
    Partial(Identifier, Sum),
    /// A function of the variable, with what its body means.
    Func(Identifier, Box<PolySem>),
}

impl PolySem {
    /// An independent copy.
    pub fn copy(&self) -> (s: PolySem)
        ensures
            s == *self,
        decreases *self,
    {
        match self {
            PolySem::Poly(p) => PolySem::Poly(p.copy()),
            PolySem::Op(op) => PolySem::Op(*op),
            PolySem::Partial(op, p) => PolySem::Partial(*op, p.copy()),
            PolySem::Func(x, b) => PolySem::Func(*x, Box::new(b.copy())),
        }
    }

    /// Whether two meanings are the same.
    pub fn same(&self, other: &PolySem) -> (r: bool)
        ensures
            r == (*self == *other),
        decreases *self,
    {
        match self {
            PolySem::Poly(p) => match other {
                PolySem::Poly(q) => p.same(q),
                _ => false,
            },
            PolySem::Op(a) => match other {
                PolySem::Op(b) => *a == *b,
                _ => false,
            },
            PolySem::Partial(a, p) => match other {
                PolySem::Partial(b, q) => *a == *b && p.same(q),
                _ => false,
            },
            PolySem::Func(x, b) => match other {
                PolySem::Func(y, c) => *x == *y && b.same(c),
                _ => false,
            },
        }
    }
}

/// The language of the polynomials over addition, multiplication, zero and
/// one.
///
/// A term means the polynomial in normal form that it computes, in the
/// variables in scope. A term that is no polynomial is malformed, but for an
/// operation that still lacks arguments and for an abstraction.
#[derive(Clone, Copy, Debug)]
pub struct Polynomials;

/// What the polynomials make of a variable or the name of a primitive.
pub open spec fn poly_var(ident: Identifier) -> PolySem {
    if ident == ZERO {
        PolySem::Poly(Sum::constant(0))
    } else if ident == ONE {
        PolySem::Poly(Sum::constant(1))
    } else if ident == PLUS || ident == MULT {
        PolySem::Op(ident)
    } else {
        PolySem::Poly(Sum::variable(ident))
    }
}

/// What the polynomials make of an application.
pub open spec fn poly_app(fun: Analysis<PolySem>, arg: Analysis<PolySem>) -> Analysis<PolySem> {
    match (fun, arg) {
        (Analysis::Canonical(PolySem::Op(op)), Analysis::Canonical(PolySem::Poly(p))) => {
            Analysis::Canonical(PolySem::Partial(op, p))
        },
        (Analysis::Canonical(PolySem::Partial(op, a)), Analysis::Canonical(PolySem::Poly(b))) => {
            if op == PLUS {
                Analysis::Canonical(PolySem::Poly(a.add(b)))
            } else {
                Analysis::Canonical(PolySem::Poly(a.mul(b)))
            }
        },
        _ => Analysis::Malformed,
    }
}

/// Every polynomial in `s` is in normal form.
pub open spec fn sem_normal(s: PolySem) -> bool
    decreases s,
{
    match s {
        PolySem::Poly(p) => p.normal(),
        PolySem::Op(_) => true,
        PolySem::Partial(_, p) => p.normal(),
        PolySem::Func(_, b) => sem_normal(*b),
    }
}

/// Every polynomial in a canonical analysis is in normal form.
pub open spec fn analysis_normal(a: Analysis<PolySem>) -> bool {
    match a {
        Analysis::Canonical(s) => sem_normal(s),
        _ => true,
    }
}

/// The polynomials of the leaves are in normal form, and the hooks keep
/// polynomials in normal form: what a term means does not depend on how it
/// is written, where two ways of writing give one polynomial.
pub proof fn lemma_hooks_keep_normal(
    lang: Polynomials,
    value: Value,
    ident: Identifier,
    fun: Analysis<PolySem>,
    arg: Analysis<PolySem>,
    ty: Type,
)
    requires
        analysis_normal(fun),
        analysis_normal(arg),
    ensures
        analysis_normal(lang.sval_spec(value, ty)),
        analysis_normal(lang.svar_spec(ident, ty)),
        analysis_normal(lang.slam_spec(ident, arg, ty)),
        analysis_normal(lang.sapp_spec(fun, arg, ty)),
{
    Sum::lemma_single_normal(0, crate::languages::poly::Mono::One);
    Sum::lemma_single_normal(1, crate::languages::poly::Mono::One);
    match value {
        Value::Int(n) => {
            Sum::lemma_single_normal(n, crate::languages::poly::Mono::One);
        },
        Value::Bool(_) => {},
    }
    assert(crate::languages::poly::Mono::One.sorted());
    Sum::lemma_single_normal(
        1,
        crate::languages::poly::Mono::Times(ident, Box::new(crate::languages::poly::Mono::One)),
    );
    match (fun, arg) {
        (Analysis::Canonical(PolySem::Partial(op, a)), Analysis::Canonical(PolySem::Poly(b))) => {
            a.lemma_add_normal(b);
            a.lemma_mul_normal(b);
        },
        _ => {},
    }
}

/// The integer that the term computes where `at` gives the values of the
/// variables, in exact arithmetic; `None` where the term is no sum or
/// product of constants, variables and integer values.
pub open spec fn denote(t: Term, at: spec_fn(Identifier) -> int) -> Option<int>
    decreases t,
{
    match t {
        Term::Val(Value::Int(n)) => Some(n as int),
        Term::Var(x) => if x == ZERO {
            Some(0)
        } else if x == ONE {
            Some(1)
        } else if x == PLUS || x == MULT {
            None
        } else {
            Some(at(x))
        },
        Term::App(f, b) => match *f {
            Term::App(op, a) => match (*op, denote(*a, at), denote(*b, at)) {
                (Term::Var(o), Some(x), Some(y)) => if o == PLUS {
                    Some(x + y)
                } else if o == MULT {
                    Some(x * y)
                } else {
                    None
                },
                _ => None,
            },
            _ => None,
        },
        _ => None,
    }
}

/// The polynomial that the language makes of a term has the value that the
/// term computes, as an integer of 32 bits.
pub proof fn lemma_analysis_denotes(
    env: Env<Polynomials>,
    t: Term,
    ty: Type,
    p: Sum,
    at: spec_fn(Identifier) -> int,
)
    requires
        analysis(env, t, ty) == Analysis::Canonical(PolySem::Poly(p)),
    ensures
        denote(t, at) is Some,
        congruent(p.value(at), denote(t, at).unwrap()),
    decreases t,
{
    match t {
        Term::Val(v) => {
            assert(analysis(env, t, ty) == env.lang.sval_spec(v, ty));
            match v {
                Value::Int(n) => {
                    assert(p == Sum::constant(n));
                    Sum::lemma_single_value(n, Mono::One, at);
                    assert(Mono::One.value(at) == 1);
                    lemma_congruent_refl(n as int);
                },
                Value::Bool(_) => {},
            }
        },
        Term::Var(x) => {
            assert(analysis(env, t, ty) == neutral_analysis(env, t));
            match declared(env.cx(), env.vars, x) {
                Some(dty) => {
                    assert(neutral_analysis(env, t) == env.lang.svar_spec(x, dty));
                    assert(env.lang.svar_spec(x, dty) == Analysis::Canonical(poly_var(x)));
                    assert(poly_var(x) == PolySem::Poly(p));
                    assert(Mono::One.value(at) == 1);
                    Sum::lemma_single_value(0, Mono::One, at);
                    Sum::lemma_single_value(1, Mono::One, at);
                    let m = Mono::Times(x, Box::new(Mono::One));
                    assert(m.value(at) == at(x) * 1);
                    assert(Sum::variable(x).value(at) == 1 * m.value(at) + Sum::Zero.value(at));
                    assert(denote(t, at) is Some);
                    lemma_congruent_refl(denote(t, at).unwrap());
                },
                None => {},
            }
        },
        Term::Lam(v, b) => {
            match ty {
                Type::Fun(arg, ret) => {
                    let ba = analysis(
                        Env { lang: env.lang, vars: env.vars.push((v, *arg)) },
                        *b,
                        *ret,
                    );
                    if !(ba is Malformed) {
                        assert(analysis(env, t, ty) == env.lang.slam_spec(v, ba, ty));
                    }
                },
                Type::Ground(_) => {},
            }
        },
        Term::App(f, b) => {
            assert(analysis(env, t, ty) == neutral_analysis(env, t));
            match synth(env.cx(), env.vars, *f) {
                Some(Type::Fun(arg, ret)) => {
                    let fa = neutral_analysis(env, *f);
                    let ba = analysis(env, *b, *arg);
                    assert(!(fa is Malformed) && !(ba is Malformed));
                    assert(neutral_analysis(env, t) == env.lang.sapp_spec(fa, ba, *ret));
                    assert(poly_app(fa, ba) == Analysis::Canonical(PolySem::Poly(p)));
                    match (fa, ba) {
                        (
                            Analysis::Canonical(PolySem::Partial(op, pa)),
                            Analysis::Canonical(PolySem::Poly(pb)),
                        ) => {
                            lemma_analysis_denotes(env, *b, *arg, pb, at);
                            match *f {
                                Term::App(g, a) => {
                                    match synth(env.cx(), env.vars, *g) {
                                        Some(Type::Fun(arg2, ret2)) => {
                                            let ga = neutral_analysis(env, *g);
                                            let aa = analysis(env, *a, *arg2);
                                            assert(!(ga is Malformed) && !(aa is Malformed));
                                            assert(fa == env.lang.sapp_spec(ga, aa, *ret2));
                                            assert(poly_app(ga, aa) == fa);
                                            assert(aa == Analysis::Canonical(PolySem::Poly(pa)));
                                            assert(ga == Analysis::Canonical(PolySem::Op(op)));
                                            lemma_analysis_denotes(env, *a, *arg2, pa, at);
                                            lemma_op_head(env, *g, op);
                                            let x = denote(*a, at).unwrap();
                                            let y = denote(*b, at).unwrap();
                                            if op == PLUS {
                                                pa.lemma_add_value(pb, at);
                                                lemma_congruent(pa.value(at), x, pb.value(at), y);
                                                lemma_congruent_chain(
                                                    p.value(at),
                                                    pa.value(at) + pb.value(at),
                                                    x + y,
                                                );
                                            } else {
                                                pa.lemma_mul_value(pb, at);
                                                lemma_congruent(pa.value(at), x, pb.value(at), y);
                                                lemma_congruent_chain(
                                                    p.value(at),
                                                    pa.value(at) * pb.value(at),
                                                    x * y,
                                                );
                                            }
                                        },
                                        _ => {},
                                    }
                                },
                                _ => {},
                            }
                        },
                        _ => {},
                    }
                },
                _ => {},
            }
        },
    }
}

/// A term that the language finds to be an operation without arguments is
/// the name of the operation.
pub proof fn lemma_op_head(env: Env<Polynomials>, g: Term, op: Identifier)
    requires
        neutral_analysis(env, g) == Analysis::Canonical(PolySem::Op(op)),
    ensures
        g == Term::Var(op),
        op == PLUS || op == MULT,
{
    match g {
        Term::Var(x) => {
            match declared(env.cx(), env.vars, x) {
                Some(dty) => {
                    assert(neutral_analysis(env, g) == env.lang.svar_spec(x, dty));
                    assert(poly_var(x) == PolySem::Op(op));
                },
                None => {},
            }
        },
        Term::App(f, a) => {
            match synth(env.cx(), env.vars, *f) {
                Some(Type::Fun(arg, ret)) => {
                    let fa = neutral_analysis(env, *f);
                    let aa = analysis(env, *a, *arg);
                    if !(fa is Malformed) && !(aa is Malformed) {
                        assert(neutral_analysis(env, g) == env.lang.sapp_spec(fa, aa, *ret));
                        assert(poly_app(fa, aa) == neutral_analysis(env, g));
                    }
                },
                _ => {},
            }
        },
        _ => {},
    }
}

/// Two terms of which the language makes the same polynomial compute the
/// same integer of 32 bits, whatever the values of the variables: a term that
/// the enumeration leaves out as a repeat computes what the term that it is a
/// repeat of computes.
pub proof fn lemma_same_meaning(
    env: Env<Polynomials>,
    t: Term,
    u: Term,
    ty: Type,
    p: Sum,
    at: spec_fn(Identifier) -> int,
)
    requires
        analysis(env, t, ty) == Analysis::Canonical(PolySem::Poly(p)),
        analysis(env, u, ty) == analysis(env, t, ty),
    ensures
        denote(t, at) is Some,
        denote(u, at) is Some,
        congruent(denote(t, at).unwrap(), denote(u, at).unwrap()),
{
    lemma_analysis_denotes(env, t, ty, p, at);
    lemma_analysis_denotes(env, u, ty, p, at);
    let x = denote(t, at).unwrap();
    let y = denote(u, at).unwrap();
    lemma_congruent_refl(0);
    lemma_congruent(p.value(at), x, 0, 0);
    lemma_congruent_chain(x, p.value(at), y);
}

impl Language for Polynomials {
    type Semantics = PolySem;

    type Prim = Arith;

    open spec fn small_size_spec(&self) -> usize {
        10
    }

    open spec fn large_size_spec(&self) -> usize {
        20
    }

    open spec fn context_spec(&self) -> Seq<(Identifier, BuiltIn<Arith>)> {
        polynomial_prims()
    }

    /// An integer is the constant polynomial; any other value is malformed.
    open spec fn sval_spec(&self, value: Value, ty: Type) -> Analysis<PolySem> {
        match value {
            Value::Int(n) => Analysis::Canonical(PolySem::Poly(Sum::constant(n))),
            Value::Bool(_) => Analysis::Malformed,
        }
    }

    /// Zero and one are the constants, addition and multiplication are
    /// operations without arguments, any other name is the polynomial that
    /// is the variable.
    open spec fn svar_spec(&self, ident: Identifier, ty: Type) -> Analysis<PolySem> {
        Analysis::Canonical(poly_var(ident))
    }

    /// A function of the variable, where its body has a canonical meaning.
    open spec fn slam_spec(&self, ident: Identifier, body: Analysis<PolySem>, ty: Type) -> Analysis<
        PolySem,
    > {
        match body {
            Analysis::Canonical(b) => Analysis::Canonical(PolySem::Func(ident, Box::new(b))),
            _ => Analysis::Malformed,
        }
    }

    /// An operation takes a polynomial as its first argument; with a
    /// polynomial as its second it is their sum or product. Everything else
    /// is malformed.
    open spec fn sapp_spec(
        &self,
        fun: Analysis<PolySem>,
        arg: Analysis<PolySem>,
        ty: Type,
    ) -> Analysis<PolySem> {
        poly_app(fun, arg)
    }

    fn small_size(&self) -> (n: usize) {
        10
    }

    fn large_size(&self) -> (n: usize) {
        20
    }

    fn context(&self) -> (c: Context<Arith>) {
        polynomial_context()
    }

    fn sval(&self, value: &Value, ty: &Type) -> (a: Analysis<PolySem>) {
        match value {
            Value::Int(n) => Analysis::Canonical(PolySem::Poly(Sum::from_constant(*n))),
            Value::Bool(_) => Analysis::Malformed,
        }
    }

    fn svar(&self, ident: Identifier, ty: &Type) -> (a: Analysis<PolySem>) {
        if ident == ZERO {
            Analysis::Canonical(PolySem::Poly(Sum::from_constant(0)))
        } else if ident == ONE {
            Analysis::Canonical(PolySem::Poly(Sum::from_constant(1)))
        } else if ident == PLUS || ident == MULT {
            Analysis::Canonical(PolySem::Op(ident))
        } else {
            Analysis::Canonical(PolySem::Poly(Sum::from_variable(ident)))
        }
    }

    fn slam(&self, ident: Identifier, body: Analysis<PolySem>, ty: &Type) -> (a: Analysis<
        PolySem,
    >) {
        match body {
            Analysis::Canonical(b) => Analysis::Canonical(PolySem::Func(ident, Box::new(b))),
            _ => Analysis::Malformed,
        }
    }

    fn sapp(&self, fun: Analysis<PolySem>, arg: Analysis<PolySem>, ty: &Type) -> (a: Analysis<
        PolySem,
    >) {
        match (fun, arg) {
            (Analysis::Canonical(PolySem::Op(op)), Analysis::Canonical(PolySem::Poly(p))) => {
                Analysis::Canonical(PolySem::Partial(op, p))
            },
            (
                Analysis::Canonical(PolySem::Partial(op, a)),
                Analysis::Canonical(PolySem::Poly(b)),
            ) => {
                if op == PLUS {
                    Analysis::Canonical(PolySem::Poly(a.plus(&b)))
                } else {
                    Analysis::Canonical(PolySem::Poly(a.times(&b)))
                }
            },
            _ => Analysis::Malformed,
        }
    }

    fn same(&self, a: &PolySem, b: &PolySem) -> (r: bool) {
        a.same(b)
    }

    fn copy(&self, a: &PolySem) -> (r: PolySem) {
        a.copy()
    }
}

} // verus!
