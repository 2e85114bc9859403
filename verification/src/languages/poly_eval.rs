//! The polynomial that the language makes of a term is what the term
//! evaluates to: terms that the enumeration takes for repeats of each other
//! cannot be told apart by evaluating them.

use crate::analysis::{analysis, neutral_analysis};
use crate::annotate::{declared, synth};
use crate::assoc::find;
use crate::context::prim_decls;
use crate::eval::{delta, eval_iter, eval_step, lemma_eval_iter_add};
use crate::language::{Analysis, Language};
use crate::languages::arith::{int_of, polynomial_prims, two_ints, Arith, MULT, ONE, PLUS, ZERO};
use crate::languages::poly::{
    congruent, lemma_congruent, lemma_congruent_chain, lemma_congruent_refl,
    lemma_wrapping_congruent, Sum,
};
use crate::languages::polynomials::{
    denote, lemma_analysis_denotes, lemma_op_head, poly_app, poly_var, PolySem, Polynomials,
};
use crate::search::Env;
use crate::term::{Term, Value};
use crate::types::{Identifier, Type};
use vstd::prelude::*;
use vstd::wrapping::i32_specs;

verus! {

/// A sum or product of constants and integer values, without variables.
pub open spec fn ground(t: Term) -> bool
    decreases t,
{
    match t {
        Term::Val(Value::Int(_)) => true,
        Term::Var(x) => x == ZERO || x == ONE,
        Term::App(f, b) => match *f {
            Term::App(op, a) => (*op == Term::Var(PLUS) || *op == Term::Var(MULT)) && ground(*a)
                && ground(*b),
            _ => false,
        },
        _ => false,
    }
}

/// The integer of 32 bits that a ground term computes, in arithmetic that
/// wraps around.
pub open spec fn compute(t: Term) -> i32
    decreases t,
{
    match t {
        Term::Val(Value::Int(n)) => n,
        Term::Var(x) => if x == ONE {
            1
        } else {
            0
        },
        Term::App(f, b) => match *f {
            Term::App(op, a) => if *op == Term::Var(PLUS) {
                i32_specs::wrapping_add(compute(*a), compute(*b))
            } else {
                i32_specs::wrapping_mul(compute(*a), compute(*b))
            },
            _ => 0,
        },
        _ => 0,
    }
}

/// What a ground term computes is what it denotes, as an integer of 32 bits.
pub proof fn lemma_compute_denotes(t: Term, at: spec_fn(Identifier) -> int)
    requires
        ground(t),
    ensures
        denote(t, at) is Some,
        congruent(compute(t) as int, denote(t, at).unwrap()),
    decreases t,
{
    match t {
        Term::App(f, b) => match *f {
            Term::App(op, a) => {
                lemma_compute_denotes(*a, at);
                lemma_compute_denotes(*b, at);
                let x = compute(*a);
                let y = compute(*b);
                lemma_wrapping_congruent(x, y);
                lemma_congruent(
                    x as int,
                    denote(*a, at).unwrap(),
                    y as int,
                    denote(*b, at).unwrap(),
                );
                if *op == Term::Var(PLUS) {
                    lemma_congruent_chain(
                        compute(t) as int,
                        x + y,
                        denote(*a, at).unwrap() + denote(*b, at).unwrap(),
                    );
                } else {
                    lemma_congruent_chain(
                        compute(t) as int,
                        x * y,
                        denote(*a, at).unwrap() * denote(*b, at).unwrap(),
                    );
                }
            },
            _ => {},
        },
        _ => {
            lemma_congruent_refl(compute(t) as int);
        },
    }
}

/// The primitives of the polynomials, looked up by name.
pub proof fn lemma_polynomial_lookup()
    ensures
        find(polynomial_prims(), PLUS) matches Some(b) && b.n_args == 2 && b.func == Arith::Plus,
        find(polynomial_prims(), MULT) matches Some(b) && b.n_args == 2 && b.func == Arith::Mult,
        find(polynomial_prims(), ZERO) matches Some(b) && b.n_args == 0 && b.func == Arith::Zero,
        find(polynomial_prims(), ONE) matches Some(b) && b.n_args == 0 && b.func == Arith::One,
{
    let p = polynomial_prims();
    reveal_with_fuel(find, 5);
    assert(p.skip(1)[0] == p[1]);
    assert(p.skip(1).skip(1)[0] == p[2]);
    assert(p.skip(1).skip(1).skip(1)[0] == p[3]);
}

/// `op` is the name of addition or of multiplication.
pub open spec fn is_op(op: Term) -> bool {
    op == Term::Var(PLUS) || op == Term::Var(MULT)
}

/// `op` applied to `a` and `b`.
pub open spec fn binary(op: Term, a: Term, b: Term) -> Term {
    Term::App(Box::new(Term::App(Box::new(op), Box::new(a))), Box::new(b))
}

/// A step of the first argument of an operation is a step of the whole.
proof fn lemma_step_left(op: Term, a: Term, b: Term)
    requires
        is_op(op),
        eval_step(polynomial_prims(), Seq::empty(), a) is Some,
    ensures
        eval_step(polynomial_prims(), Seq::empty(), binary(op, a, b)) == Some(
            binary(op, eval_step(polynomial_prims(), Seq::empty(), a).unwrap(), b),
        ),
{
    lemma_polynomial_lookup();
    reveal_with_fuel(eval_step, 3);
    let prims = polynomial_prims();
    let none = Seq::<Identifier>::empty();
    let f = Term::App(Box::new(op), Box::new(a));
    assert(op.spine_args() =~= Seq::<Term>::empty());
    assert(delta(prims, none, op) is None);
    assert(f.spine_args() =~= seq![a]);
    assert(delta(prims, none, f) is None);
}

/// Once the first argument of an operation is an integer, a step of the
/// second is a step of the whole.
proof fn lemma_step_right(op: Term, x: i32, b: Term)
    requires
        is_op(op),
        eval_step(polynomial_prims(), Seq::empty(), b) is Some,
    ensures
        eval_step(polynomial_prims(), Seq::empty(), binary(op, Term::Val(Value::Int(x)), b))
            == Some(
            binary(
                op,
                Term::Val(Value::Int(x)),
                eval_step(polynomial_prims(), Seq::empty(), b).unwrap(),
            ),
        ),
{
    lemma_polynomial_lookup();
    reveal_with_fuel(eval_step, 3);
    let prims = polynomial_prims();
    let none = Seq::<Identifier>::empty();
    let a = Term::Val(Value::Int(x));
    let f = Term::App(Box::new(op), Box::new(a));
    let t = binary(op, a, b);
    assert(op.spine_args() =~= Seq::<Term>::empty());
    assert(delta(prims, none, op) is None);
    assert(f.spine_args() =~= seq![a]);
    assert(delta(prims, none, f) is None);
    assert(eval_step(prims, none, f) is None);
    assert(t.spine_args() =~= seq![a, b]);
    assert(int_of(b) is None);
    assert(two_ints(t.spine_args()) is None);
    assert(delta(prims, none, t) is None);
}

/// An operation on two integers takes one step to its result.
proof fn lemma_step_both(op: Term, x: i32, y: i32)
    requires
        is_op(op),
    ensures
        eval_step(
            polynomial_prims(),
            Seq::empty(),
            binary(op, Term::Val(Value::Int(x)), Term::Val(Value::Int(y))),
        ) == Some(
            Term::Val(
                Value::Int(
                    if op == Term::Var(PLUS) {
                        i32_specs::wrapping_add(x, y)
                    } else {
                        i32_specs::wrapping_mul(x, y)
                    },
                ),
            ),
        ),
{
    lemma_polynomial_lookup();
    reveal_with_fuel(eval_step, 3);
    let prims = polynomial_prims();
    let none = Seq::<Identifier>::empty();
    let a = Term::Val(Value::Int(x));
    let b = Term::Val(Value::Int(y));
    let f = Term::App(Box::new(op), Box::new(a));
    let t = binary(op, a, b);
    assert(op.spine_args() =~= Seq::<Term>::empty());
    assert(delta(prims, none, op) is None);
    assert(f.spine_args() =~= seq![a]);
    assert(delta(prims, none, f) is None);
    assert(eval_step(prims, none, f) is None);
    assert(t.spine_args() =~= seq![a, b]);
    assert(two_ints(t.spine_args()) == Some((x, y)));
}

/// Where the first argument of an operation evaluates to an integer, the
/// whole evaluates to the operation on that integer.
proof fn lemma_lift_left(op: Term, a: Term, b: Term, x: i32, k: nat) -> (n: nat)
    requires
        is_op(op),
        eval_iter(polynomial_prims(), a, k) == Term::Val(Value::Int(x)),
    ensures
        eval_iter(polynomial_prims(), binary(op, a, b), n) == binary(
            op,
            Term::Val(Value::Int(x)),
            b,
        ),
    decreases k,
{
    let prims = polynomial_prims();
    if k == 0 {
        0
    } else {
        match eval_step(prims, Seq::empty(), a) {
            Some(next) => {
                lemma_step_left(op, a, b);
                let n = lemma_lift_left(op, next, b, x, (k - 1) as nat);
                n + 1
            },
            None => 0,
        }
    }
}

/// Where the second argument of an operation on an integer evaluates to an
/// integer, the whole evaluates to the operation on the two integers.
proof fn lemma_lift_right(op: Term, x: i32, b: Term, y: i32, k: nat) -> (n: nat)
    requires
        is_op(op),
        eval_iter(polynomial_prims(), b, k) == Term::Val(Value::Int(y)),
    ensures
        eval_iter(polynomial_prims(), binary(op, Term::Val(Value::Int(x)), b), n) == binary(
            op,
            Term::Val(Value::Int(x)),
            Term::Val(Value::Int(y)),
        ),
    decreases k,
{
    let prims = polynomial_prims();
    if k == 0 {
        0
    } else {
        match eval_step(prims, Seq::empty(), b) {
            Some(next) => {
                lemma_step_right(op, x, b);
                let n = lemma_lift_right(op, x, next, y, (k - 1) as nat);
                n + 1
            },
            None => 0,
        }
    }
}

/// A ground term evaluates to the integer that it computes.
pub proof fn lemma_eval_ground(t: Term) -> (k: nat)
    requires
        ground(t),
    ensures
        eval_iter(polynomial_prims(), t, k) == Term::Val(Value::Int(compute(t))),
    decreases t,
{
    let prims = polynomial_prims();
    let none = Seq::<Identifier>::empty();
    match t {
        Term::Var(x) => {
            lemma_polynomial_lookup();
            assert(t.spine_args() =~= Seq::<Term>::empty());
            assert(eval_step(prims, none, t) == Some(Term::Val(Value::Int(compute(t)))));
            assert(eval_iter(prims, Term::Val(Value::Int(compute(t))), 0) == Term::Val(
                Value::Int(compute(t)),
            ));
            1
        },
        Term::App(f, b) => match *f {
            Term::App(op, a) => {
                let x = compute(*a);
                let y = compute(*b);
                let ka = lemma_eval_ground(*a);
                let kb = lemma_eval_ground(*b);
                let first = lemma_lift_left(*op, *a, *b, x, ka);
                let second = lemma_lift_right(*op, x, *b, y, kb);
                lemma_step_both(*op, x, y);
                let mid = binary(*op, Term::Val(Value::Int(x)), *b);
                let last = binary(*op, Term::Val(Value::Int(x)), Term::Val(Value::Int(y)));
                let done = Term::Val(Value::Int(compute(t)));
                assert(eval_iter(prims, last, 1) == done) by {
                    assert(eval_iter(prims, done, 0) == done);
                }
                lemma_eval_iter_add(prims, mid, second, 1);
                lemma_eval_iter_add(prims, t, first, second + 1);
                first + second + 1
            },
            _ => 0,
        },
        _ => 0,
    }
}

/// `x` is the name of a primitive of the polynomials.
pub open spec fn is_prim(x: Identifier) -> bool {
    x == PLUS || x == MULT || x == ZERO || x == ONE
}

/// A sum or product of constants, integer values and the variable `a`.
pub open spec fn arith_in(t: Term, a: Identifier) -> bool
    decreases t,
{
    match t {
        Term::Val(Value::Int(_)) => true,
        Term::Var(x) => x == ZERO || x == ONE || x == a,
        Term::App(f, b) => match *f {
            Term::App(op, l) => is_op(*op) && arith_in(*l, a) && arith_in(*b, a),
            _ => false,
        },
        _ => false,
    }
}

/// Only the four primitives are declared by the polynomials.
pub proof fn lemma_polynomial_names(x: Identifier)
    requires
        find(prim_decls(polynomial_prims()), x) is Some,
    ensures
        is_prim(x),
{
    let d = prim_decls(polynomial_prims());
    reveal_with_fuel(find, 5);
    assert(d.skip(1)[0] == d[1]);
    assert(d.skip(1).skip(1)[0] == d[2]);
    assert(d.skip(1).skip(1).skip(1)[0] == d[3]);
    assert(d.skip(1).skip(1).skip(1).skip(1).len() == 0);
}

/// A term in the scope of one variable of which the language makes a
/// polynomial is a sum or product of constants, integer values and the
/// variable.
pub proof fn lemma_analysis_arith(
    env: Env<Polynomials>,
    t: Term,
    ty: Type,
    p: Sum,
    a: Identifier,
    aty: Type,
)
    requires
        env.vars == seq![(a, aty)],
        !is_prim(a),
        analysis(env, t, ty) == Analysis::Canonical(PolySem::Poly(p)),
    ensures
        arith_in(t, a),
    decreases t,
{
    match t {
        Term::Val(v) => {
            assert(analysis(env, t, ty) == env.lang.sval_spec(v, ty));
        },
        Term::Var(x) => {
            assert(analysis(env, t, ty) == neutral_analysis(env, t));
            match declared(env.cx(), env.vars, x) {
                Some(dty) => {
                    assert(neutral_analysis(env, t) == env.lang.svar_spec(x, dty));
                    assert(poly_var(x) == PolySem::Poly(p));
                    reveal_with_fuel(find, 2);
                    if x != a {
                        assert(find(env.vars, x) is None);
                        lemma_polynomial_names(x);
                    }
                },
                None => {},
            }
        },
        Term::Lam(v, b) => {
            match ty {
                Type::Fun(arg, ret) => {
                    let ba = analysis(
                        Env { lang: env.lang, vars: env.vars.push((v, *arg)) },
                        *b,
                        *ret,
                    );
                    if !(ba is Malformed) {
                        assert(analysis(env, t, ty) == env.lang.slam_spec(v, ba, ty));
                    }
                },
                Type::Ground(_) => {},
            }
        },
        Term::App(f, b) => {
            assert(analysis(env, t, ty) == neutral_analysis(env, t));
            match synth(env.cx(), env.vars, *f) {
                Some(Type::Fun(arg, ret)) => {
                    let fa = neutral_analysis(env, *f);
                    let ba = analysis(env, *b, *arg);
                    assert(!(fa is Malformed) && !(ba is Malformed));
                    assert(neutral_analysis(env, t) == env.lang.sapp_spec(fa, ba, *ret));
                    assert(poly_app(fa, ba) == Analysis::Canonical(PolySem::Poly(p)));
                    match (fa, ba) {
                        (
                            Analysis::Canonical(PolySem::Partial(op, pa)),
                            Analysis::Canonical(PolySem::Poly(pb)),
                        ) => {
                            lemma_analysis_arith(env, *b, *arg, pb, a, aty);
                            match *f {
                                Term::App(g, l) => {
                                    match synth(env.cx(), env.vars, *g) {
                                        Some(Type::Fun(arg2, ret2)) => {
                                            let ga = neutral_analysis(env, *g);
                                            let la = analysis(env, *l, *arg2);
                                            assert(!(ga is Malformed) && !(la is Malformed));
                                            assert(fa == env.lang.sapp_spec(ga, la, *ret2));
                                            assert(poly_app(ga, la) == fa);
                                            lemma_op_head(env, *g, op);
                                            lemma_analysis_arith(env, *l, *arg2, pa, a, aty);
                                        },
                                        _ => {},
                                    }
                                },
                                Term::Var(x) => {
                                    match declared(env.cx(), env.vars, x) {
                                        Some(dty) => {
                                            assert(fa == env.lang.svar_spec(x, dty));
                                        },
                                        None => {},
                                    }
                                },
                                _ => {},
                            }
                        },
                        _ => {},
                    }
                },
                _ => {},
            }
        },
    }
}

/// An integer in the place of the variable makes a ground term, which
/// denotes what the term denotes where the variable has that value.
pub proof fn lemma_subst_arith(t: Term, a: Identifier, n: i32, at: spec_fn(Identifier) -> int)
    requires
        arith_in(t, a),
        !is_prim(a),
        at(a) == n,
    ensures
        ground(t.subst(a, Term::Val(Value::Int(n)))),
        denote(t.subst(a, Term::Val(Value::Int(n))), at) == denote(t, at),
    decreases t,
{
    let s = Term::Val(Value::Int(n));
    match t {
        Term::App(f, b) => match *f {
            Term::App(op, l) => {
                lemma_subst_arith(*l, a, n, at);
                lemma_subst_arith(*b, a, n, at);
                assert(f.subst(a, s) == Term::App(
                    Box::new(op.subst(a, s)),
                    Box::new(l.subst(a, s)),
                ));
                assert(op.subst(a, s) == *op);
            },
            _ => {},
        },
        _ => {},
    }
}

/// Two integers of 32 bits that are congruent are the same.
pub proof fn lemma_congruent_same(x: i32, y: i32)
    requires
        congruent(x as int, y as int),
    ensures
        x == y,
{
    let q = choose|q: int| x - y == #[trigger] (q * 0x1_0000_0000);
    assert(q == 0) by {
        if q >= 1 {
            assert(q * 0x1_0000_0000 >= 0x1_0000_0000);
        }
        if q <= -1 {
            assert(q * 0x1_0000_0000 <= -0x1_0000_0000);
        }
    }
}

/// A function of which the language makes a polynomial evaluates, on every
/// integer, to the value of the polynomial at that integer, as an integer of
/// 32 bits.
pub proof fn lemma_function_value(
    a: Identifier,
    body: Term,
    ty: Type,
    p: Sum,
    n: i32,
    at: spec_fn(Identifier) -> int,
) -> (k: nat)
    requires
        !is_prim(a),
        at(a) == n,
        analysis(
            Env { lang: Polynomials, vars: Seq::empty() },
            Term::Lam(a, Box::new(body)),
            ty,
        ) == Analysis::Canonical(PolySem::Func(a, Box::new(PolySem::Poly(p)))),
    ensures
        eval_iter(
            polynomial_prims(),
            Term::App(
                Box::new(Term::Lam(a, Box::new(body))),
                Box::new(Term::Val(Value::Int(n))),
            ),
            k,
        ) == Term::Val(Value::Int(compute(body.subst(a, Term::Val(Value::Int(n)))))),
        congruent(compute(body.subst(a, Term::Val(Value::Int(n)))) as int, p.value(at)),
{
    let env = Env { lang: Polynomials, vars: Seq::<(Identifier, Type)>::empty() };
    let fun = Term::Lam(a, Box::new(body));
    let arg_term = Term::Val(Value::Int(n));
    let whole = Term::App(Box::new(fun), Box::new(arg_term));
    let prims = polynomial_prims();
    match ty {
        Type::Fun(arg, ret) => {
            let inner = Env { lang: Polynomials, vars: env.vars.push((a, *arg)) };
            let ba = analysis(inner, body, *ret);
            assert(!(ba is Malformed));
            assert(analysis(env, fun, ty) == env.lang.slam_spec(a, ba, ty));
            assert(ba == Analysis::Canonical(PolySem::Poly(p)));
            assert(inner.vars =~= seq![(a, *arg)]);
            lemma_analysis_arith(inner, body, *ret, p, a, *arg);
            lemma_analysis_denotes(inner, body, *ret, p, at);
            lemma_subst_arith(body, a, n, at);
            let ground_body = body.subst(a, arg_term);
            lemma_compute_denotes(ground_body, at);
            let k1 = lemma_eval_ground(ground_body);
            assert(eval_step(prims, Seq::empty(), whole) == Some(ground_body));
            assert(eval_iter(prims, whole, k1 + 1) == eval_iter(prims, ground_body, k1));
            lemma_congruent_refl(0);
            lemma_congruent(p.value(at), denote(body, at).unwrap(), 0, 0);
            lemma_congruent_chain(
                compute(ground_body) as int,
                denote(body, at).unwrap(),
                p.value(at),
            );
            k1 + 1
        },
        Type::Ground(_) => 0,
    }
}

/// Two functions of which the language makes the same polynomial evaluate to
/// the same integer on every integer: a function that the enumeration leaves
/// out as a repeat cannot be told from the one that it yields by applying
/// them.
pub proof fn lemma_repeats_agree(a: Identifier, t: Term, u: Term, ty: Type, p: Sum, n: i32) -> (r: (
    nat,
    nat,
))
    requires
        !is_prim(a),
        analysis(Env { lang: Polynomials, vars: Seq::empty() }, Term::Lam(a, Box::new(t)), ty)
            == Analysis::Canonical(PolySem::Func(a, Box::new(PolySem::Poly(p)))),
        analysis(Env { lang: Polynomials, vars: Seq::empty() }, Term::Lam(a, Box::new(u)), ty)
            == Analysis::Canonical(PolySem::Func(a, Box::new(PolySem::Poly(p)))),
    ensures
        eval_iter(
            polynomial_prims(),
            Term::App(Box::new(Term::Lam(a, Box::new(t))), Box::new(Term::Val(Value::Int(n)))),
            r.0,
        ) == eval_iter(
            polynomial_prims(),
            Term::App(Box::new(Term::Lam(a, Box::new(u))), Box::new(Term::Val(Value::Int(n)))),
            r.1,
        ),
        eval_iter(
            polynomial_prims(),
            Term::App(Box::new(Term::Lam(a, Box::new(t))), Box::new(Term::Val(Value::Int(n)))),
            r.0,
        ) is Val,
{
    let at = |x: Identifier| n as int;
    let kt = lemma_function_value(a, t, ty, p, n, at);
    let ku = lemma_function_value(a, u, ty, p, n, at);
    let s = Term::Val(Value::Int(n));
    let x = compute(t.subst(a, s));
    let y = compute(u.subst(a, s));
    lemma_congruent_refl(0);
    lemma_congruent(y as int, p.value(at), 0, 0);
    lemma_congruent_chain(x as int, p.value(at), y as int);
    lemma_congruent_same(x, y);
    (kt, ku)
}

} // verus!
