//! The enumeration leaves out no meaning: every term that can be enumerated
//! at all is yielded, or stands behind a term that is.

use crate::analysis::{analysis, neutral_analysis};
use crate::annotate::{check, declared, synth};
use crate::assoc::{find, lemma_find_index};
use crate::language::{Analysis, Language};
use crate::search::{
    all_terms, arg_to, extend, fresh_items, head_terms, lam_terms, one_head, repeats, splits,
    with_args, wrap, wrap_one, Env, Item,
};
use crate::search_laws::{
    good_item, lemma_all_good, lemma_heads_good, lemma_lam_good, lemma_under_ok, neutral, scope_ok,
};
use crate::term::Term;
use crate::types::{Identifier, Type};
use vstd::prelude::*;

verus! {

/// The binders of `t` have the names that the enumeration gives them, and
/// `t` holds no value leaf, where `t` is wanted at the type `ty`.
pub open spec fn canon<L: Language>(env: Env<L>, t: Term, ty: Type) -> bool
    decreases t, 1nat,
{
    match t {
        Term::Val(_) => false,
        Term::Lam(v, b) => match ty {
            Type::Fun(arg, ret) => v == env.binder() && canon(env.under(*arg), *b, *ret),
            Type::Ground(_) => false,
        },
        _ => canon_neutral(env, t),
    }
}

/// [`canon`] for a variable applied to arguments.
pub open spec fn canon_neutral<L: Language>(env: Env<L>, t: Term) -> bool
    decreases t, 0nat,
{
    match t {
        Term::Var(_) => true,
        Term::App(f, a) => canon_neutral(env, *f) && match synth(env.cx(), env.vars, *f) {
            Some(Type::Fun(arg, _)) => canon(env, *a, *arg),
            _ => false,
        },
        _ => false,
    }
}

/// `t` is a term that the enumeration can build for the type `ty`: it is
/// beta-normal and has type `ty`, its binders have the names that the
/// enumeration gives them, it holds no value leaf, and the language does not
/// find it malformed.
pub open spec fn enumerable<L: Language>(env: Env<L>, t: Term, ty: Type) -> bool {
    &&& t.is_normal()
    &&& check(env.cx(), env.vars, t, ty)
    &&& canon(env, t, ty)
    &&& !(analysis(env, t, ty) is Malformed)
}

/// `r` stands for `t`: the language makes the same of both, and where that
/// is not canonical, `r` is `t` but for the parts of `t` that something
/// stands for.
pub open spec fn stands_for<L: Language>(env: Env<L>, r: Term, t: Term, ty: Type) -> bool
    decreases t, 1nat,
{
    &&& analysis(env, r, ty) == analysis(env, t, ty)
    &&& analysis(env, t, ty) is Canonical || match t {
        Term::Val(_) => r == t,
        Term::Lam(w, c) => match (r, ty) {
            (Term::Lam(v, b), Type::Fun(arg, ret)) => v == w && stands_for(
                Env { lang: env.lang, vars: env.vars.push((w, *arg)) },
                *b,
                *c,
                *ret,
            ),
            _ => false,
        },
        _ => stands_for_neutral(env, r, t),
    }
}

/// [`stands_for`] for a variable applied to arguments: `r` has the head of
/// `t`, and each argument of `r` has the type of the argument of `t` that it
/// stands for.
pub open spec fn stands_for_neutral<L: Language>(env: Env<L>, r: Term, t: Term) -> bool
    decreases t, 0nat,
{
    match t {
        Term::Var(_) => r == t,
        Term::App(g, b) => match r {
            Term::App(f, a) => stands_for_neutral(env, *f, *g) && match synth(
                env.cx(),
                env.vars,
                *g,
            ) {
                Some(Type::Fun(arg, _)) => stands_for(env, *a, *b, *arg) && check(
                    env.cx(),
                    env.vars,
                    *a,
                    *arg,
                ),
                _ => false,
            },
            _ => false,
        },
        _ => false,
    }
}

/// `pt` applied to `args`, one after the other.
pub open spec fn apply_all(pt: Term, args: Seq<Term>) -> Term
    decreases args.len(),
{
    if args.len() == 0 {
        pt
    } else {
        apply_all(Term::App(Box::new(pt), Box::new(args[0])), args.skip(1))
    }
}

/// The nodes that `args` take as arguments: their own and one application
/// node each.
pub open spec fn args_size(args: Seq<Term>) -> nat
    decreases args.len(),
{
    if args.len() == 0 {
        0
    } else {
        args[0].size() + 1 + args_size(args.skip(1))
    }
}

/// A variable applied to arguments that the enumeration can build: it has a
/// type, its arguments are [`canon`], and the language does not find it
/// malformed.
pub open spec fn fit<L: Language>(env: Env<L>, u: Term) -> bool {
    &&& neutral(u)
    &&& synth(env.cx(), env.vars, u) is Some
    &&& canon_neutral(env, u)
    &&& !(neutral_analysis(env, u) is Malformed)
}

/// Number of arrows in a type.
pub open spec fn arrows(ty: Type) -> nat
    decreases ty,
{
    match ty {
        Type::Ground(_) => 0,
        Type::Fun(a, r) => 1 + arrows(*a) + arrows(*r),
    }
}

/// A type that another produces has no more arrows.
pub proof fn lemma_produces_arrows(ty: Type, target: Type)
    requires
        ty.produces(target),
    ensures
        arrows(target) <= arrows(ty),
    decreases ty,
{
    if ty != target {
        match ty {
            Type::Fun(_, r) => {
                lemma_produces_arrows(*r, target);
            },
            Type::Ground(_) => {},
        }
    }
}

/// One more argument at the end is one more application around the whole.
pub proof fn lemma_apply_push(pt: Term, args: Seq<Term>, a: Term)
    ensures
        apply_all(pt, args.push(a)) == Term::App(Box::new(apply_all(pt, args)), Box::new(a)),
        args_size(args.push(a)) == args_size(args) + a.size() + 1,
    decreases args.len(),
{
    let more = args.push(a);
    if args.len() == 0 {
        assert(more.skip(1) =~= Seq::<Term>::empty());
        assert(more[0] == a);
        let whole = Term::App(Box::new(pt), Box::new(a));
        assert(apply_all(whole, more.skip(1)) == whole);
        assert(args_size(more.skip(1)) == 0);
    } else {
        assert(more.skip(1) =~= args.skip(1).push(a));
        assert(more[0] == args[0]);
        lemma_apply_push(Term::App(Box::new(pt), Box::new(args[0])), args.skip(1), a);
    }
}

/// A term is its head applied to its arguments.
pub proof fn lemma_spine(t: Term)
    ensures
        apply_all(t.spine_head(), t.spine_args()) == t,
        t.size() == t.spine_head().size() + args_size(t.spine_args()),
    decreases t,
{
    match t {
        Term::App(f, a) => {
            lemma_spine(*f);
            lemma_apply_push(f.spine_head(), f.spine_args(), *a);
        },
        _ => {},
    }
}

/// The head of a variable applied to arguments is a variable.
pub proof fn lemma_neutral_head(t: Term)
    requires
        neutral(t),
    ensures
        t.spine_head() is Var,
    decreases t,
{
    match t {
        Term::App(f, _) => {
            lemma_neutral_head(*f);
        },
        _ => {},
    }
}

/// What can be built can be built up to any argument: the function part of
/// an application that is [`fit`] is, and its argument is [`enumerable`].
pub proof fn lemma_fit_app<L: Language>(env: Env<L>, f: Term, a: Term)
    requires
        fit(env, Term::App(Box::new(f), Box::new(a))),
    ensures
        fit(env, f),
        synth(env.cx(), env.vars, f) matches Some(Type::Fun(arg, ret)) && enumerable(env, a, *arg)
            && synth(env.cx(), env.vars, Term::App(Box::new(f), Box::new(a))) == Some(*ret),
{
}

/// What [`lemma_fit_app`] tells, for any number of arguments.
pub proof fn lemma_fit_prefix<L: Language>(env: Env<L>, pt: Term, args: Seq<Term>)
    requires
        fit(env, apply_all(pt, args)),
    ensures
        fit(env, pt),
        synth(env.cx(), env.vars, pt).unwrap().produces(
            synth(env.cx(), env.vars, apply_all(pt, args)).unwrap(),
        ),
    decreases args.len(),
{
    if args.len() > 0 {
        let next = Term::App(Box::new(pt), Box::new(args[0]));
        lemma_fit_prefix(env, next, args.skip(1));
        lemma_fit_app(env, pt, args[0]);
    }
}

/// Terms of which one stands for the other have one type and one analysis.
pub proof fn lemma_neutral_agree<L: Language>(env: Env<L>, r: Term, t: Term)
    requires
        stands_for_neutral(env, r, t),
        synth(env.cx(), env.vars, t) is Some,
    ensures
        synth(env.cx(), env.vars, r) == synth(env.cx(), env.vars, t),
        neutral_analysis(env, r) == neutral_analysis(env, t),
        r is Var <==> t is Var,
        r is App <==> t is App,
    decreases t,
{
    match t {
        Term::App(g, b) => match r {
            Term::App(f, a) => {
                lemma_neutral_agree(env, *f, *g);
                match synth(env.cx(), env.vars, *g) {
                    Some(Type::Fun(arg, ret)) => {
                        assert(stands_for(env, *a, *b, *arg));
                        assert(analysis(env, *a, *arg) == analysis(env, *b, *arg));
                    },
                    _ => {},
                }
            },
            _ => {},
        },
        _ => {},
    }
}

/// A name that is declared is one of the heads, with the type that it is
/// declared with.
pub proof fn lemma_declared_head<L: Language>(env: Env<L>, x: Identifier) -> (i: int)
    requires
        declared(env.cx(), env.vars, x) is Some,
    ensures
        0 <= i < env.heads().len(),
        env.heads()[i] == (x, declared(env.cx(), env.vars, x).unwrap()),
{
    let in_vars = lemma_find_index(env.vars, x);
    match find(env.vars, x) {
        Some(ty) => {
            assert(env.heads()[env.cx().len() + in_vars] == env.vars[in_vars]);
            env.cx().len() + in_vars
        },
        None => {
            let in_cx = lemma_find_index(env.cx(), x);
            assert(env.heads()[in_cx] == env.cx()[in_cx]);
            in_cx
        },
    }
}

/// What one argument leads to is among what all of them lead to.
pub proof fn lemma_in_with_args<L: Language>(
    env: Env<L>,
    targ: Type,
    pt: Term,
    pa: Analysis<L::Semantics>,
    ret: Type,
    size: nat,
    m: nat,
    args: Seq<Item<L::Semantics>>,
    j: int,
    k: int,
) -> (idx: int)
    requires
        1 <= m < size,
        0 <= j < args.len(),
        0 <= k < extend(env, targ, pt, pa, ret, size, m, args[j]).len(),
    ensures
        0 <= idx < with_args(env, targ, pt, pa, ret, size, m, args).len(),
        with_args(env, targ, pt, pa, ret, size, m, args)[idx] == extend(
            env,
            targ,
            pt,
            pa,
            ret,
            size,
            m,
            args[j],
        )[k],
    decreases j,
{
    if j == 0 {
        k
    } else {
        assert(args.skip(1)[j - 1] == args[j]);
        let i = lemma_in_with_args(env, targ, pt, pa, ret, size, m, args.skip(1), j - 1, k);
        extend(env, targ, pt, pa, ret, size, m, args[0]).len() + i
    }
}

/// What the arguments of one size lead to is among what those of all sizes
/// lead to.
pub proof fn lemma_in_splits<L: Language>(
    env: Env<L>,
    targ: Type,
    pt: Term,
    pa: Analysis<L::Semantics>,
    arg: Type,
    ret: Type,
    size: nat,
    from: nat,
    n: nat,
    k: int,
) -> (idx: int)
    requires
        1 <= from <= n < size,
        0 <= k < with_args(env, targ, pt, pa, ret, size, n, all_terms(env, arg, n)).len(),
    ensures
        0 <= idx < splits(env, targ, pt, pa, arg, ret, size, from).len(),
        splits(env, targ, pt, pa, arg, ret, size, from)[idx] == with_args(
            env,
            targ,
            pt,
            pa,
            ret,
            size,
            n,
            all_terms(env, arg, n),
        )[k],
    decreases n - from,
{
    if from == n {
        k
    } else {
        let i = lemma_in_splits(env, targ, pt, pa, arg, ret, size, from + 1, n, k);
        with_args(env, targ, pt, pa, ret, size, from, all_terms(env, arg, from)).len() + i
    }
}

/// The terms of one head are among those of all heads.
pub proof fn lemma_in_heads<L: Language>(
    env: Env<L>,
    targ: Type,
    size: nat,
    from: nat,
    i: nat,
    k: int,
) -> (idx: int)
    requires
        from <= i < env.heads().len(),
        0 <= k < one_head(env, targ, size, i).len(),
    ensures
        0 <= idx < head_terms(env, targ, size, from).len(),
        head_terms(env, targ, size, from)[idx] == one_head(env, targ, size, i)[k],
    decreases i - from,
{
    if from == i {
        k
    } else {
        let j = lemma_in_heads(env, targ, size, from + 1, i, k);
        one_head(env, targ, size, from).len() + j
    }
}

/// The abstraction over one body is among those over all bodies, unless it
/// is malformed.
pub proof fn lemma_in_wrap<L: Language>(
    lang: L,
    v: Identifier,
    targ: Type,
    bodies: Seq<Item<L::Semantics>>,
    j: int,
) -> (idx: int)
    requires
        0 <= j < bodies.len(),
        !(lang.slam_spec(v, bodies[j].1, targ) is Malformed),
    ensures
        0 <= idx < wrap(lang, v, targ, bodies).len(),
        wrap(lang, v, targ, bodies)[idx] == (
            Term::Lam(v, Box::new(bodies[j].0)),
            lang.slam_spec(v, bodies[j].1, targ),
        ),
    decreases j,
{
    if j == 0 {
        0
    } else {
        assert(bodies.skip(1)[j - 1] == bodies[j]);
        let i = lemma_in_wrap(lang, v, targ, bodies.skip(1), j - 1);
        wrap_one(lang, v, targ, bodies[0]).len() + i
    }
}

/// Every term is left after repeats are left out, or one before it with the
/// same canonical analysis is.
pub proof fn lemma_in_fresh<S>(kept: Seq<Item<S>>, raw: Seq<Item<S>>, j: int) -> (idx: int)
    requires
        0 <= j < raw.len(),
        !repeats(kept, raw[j].1),
    ensures
        0 <= idx < fresh_items(kept, raw).len(),
        fresh_items(kept, raw)[idx] == raw[j] || (raw[j].1 is Canonical && fresh_items(
            kept,
            raw,
        )[idx].1 == raw[j].1),
    decreases raw.len(),
{
    if j == 0 {
        0
    } else {
        assert(raw.skip(1)[j - 1] == raw[j]);
        if repeats(kept, raw[0].1) {
            lemma_in_fresh(kept, raw.skip(1), j - 1)
        } else {
            let more = kept.push(raw[0]);
            if repeats(more, raw[j].1) {
                let k = choose|k: int| 0 <= k < more.len() && more[k].1 == raw[j].1;
                if k < kept.len() {
                    assert(kept[k].1 == raw[j].1);
                }
                0
            } else {
                1 + lemma_in_fresh(more, raw.skip(1), j - 1)
            }
        }
    }
}

/// A beta-normal term that has a type of its own is a variable applied to
/// arguments.
pub proof fn lemma_normal_neutral<L: Language>(env: Env<L>, t: Term)
    requires
        t.is_normal(),
        synth(env.cx(), env.vars, t) is Some,
    ensures
        neutral(t),
    decreases t,
{
    match t {
        Term::App(f, _) => {
            lemma_normal_neutral(env, *f);
        },
        _ => {},
    }
}

/// [`lemma_complete`] for the terms that give a partial application further
/// arguments: where `pr` stands for `pt`, a term that stands for `pt`
/// applied to `args` is among those that the enumeration builds from `pr`.
proof fn lemma_chain<L: Language>(
    env: Env<L>,
    targ: Type,
    pr: Term,
    pt: Term,
    args: Seq<Term>,
    l_ty: Type,
    size: nat,
) -> (k: int)
    requires
        scope_ok(env, size),
        neutral(pr),
        stands_for_neutral(env, pr, pt),
        fit(env, apply_all(pt, args)),
        synth(env.cx(), env.vars, pt) == Some(l_ty),
        synth(env.cx(), env.vars, apply_all(pt, args)) == Some(targ),
        args_size(args) == size,
    ensures
        0 <= k < arg_to(env, targ, pr, neutral_analysis(env, pr), l_ty, size).len(),
        stands_for_neutral(
            env,
            arg_to(env, targ, pr, neutral_analysis(env, pr), l_ty, size)[k].0,
            apply_all(pt, args),
        ),
    decreases size, 0nat,
{
    let pa = neutral_analysis(env, pr);
    lemma_neutral_agree(env, pr, pt);
    if args.len() == 0 {
        0
    } else {
        let a1 = args[0];
        let rest = args.skip(1);
        let pt1 = Term::App(Box::new(pt), Box::new(a1));
        lemma_fit_prefix(env, pt1, rest);
        lemma_fit_app(env, pt, a1);
        match l_ty {
            Type::Fun(arg, ret) => {
                lemma_produces_arrows(*ret, targ);
                let m = a1.size();
                let k1 = lemma_complete(env, a1, *arg);
                let found = all_terms(env, *arg, m);
                lemma_all_good(env, *arg, m);
                assert(good_item(env, found[k1], *arg, m));
                let r1 = found[k1].0;
                let pr1 = Term::App(Box::new(pr), Box::new(r1));
                assert(analysis(env, r1, *arg) == analysis(env, a1, *arg));
                assert(neutral_analysis(env, pr1) == neutral_analysis(env, pt1));
                assert(stands_for_neutral(env, pr1, pt1));
                let k2 = lemma_chain(env, targ, pr1, pt1, rest, *ret, (size - m - 1) as nat);
                let step = extend(env, targ, pr, pa, *ret, size, m, found[k1]);
                assert(step == arg_to(
                    env,
                    targ,
                    pr1,
                    neutral_analysis(env, pr1),
                    *ret,
                    (size - m - 1) as nat,
                ));
                let in_size = lemma_in_with_args(env, targ, pr, pa, *ret, size, m, found, k1, k2);
                lemma_in_splits(env, targ, pr, pa, *arg, *ret, size, 1, m, in_size)
            },
            Type::Ground(_) => 0,
        }
    }
}

/// The enumeration leaves out no meaning: for every term that can be
/// enumerated, a term that stands for it is yielded at its type and size.
/// With what [`crate::search_laws::lemma_yields_distinct`] tells, every
/// canonical meaning has exactly one term.
pub proof fn lemma_complete<L: Language>(env: Env<L>, t: Term, ty: Type) -> (k: int)
    requires
        scope_ok(env, t.size()),
        enumerable(env, t, ty),
    ensures
        0 <= k < all_terms(env, ty, t.size()).len(),
        stands_for(env, all_terms(env, ty, t.size())[k].0, t, ty),
    decreases t.size(), 1nat,
{
    let size = t.size();
    let heads = head_terms(env, ty, size, 0);
    let lams = lam_terms(env, ty, size);
    let raw = heads + lams;
    lemma_heads_good(env, ty, size, 0);
    lemma_lam_good(env, ty, size);
    lemma_all_good(env, ty, size);
    let at: int = match t {
        Term::Val(_) => 0,
        Term::Lam(v, b) => match ty {
            Type::Fun(arg, ret) => {
                let inner = env.under(*arg);
                lemma_under_ok(env, *arg, size);
                let k1 = lemma_complete(inner, *b, *ret);
                let bodies = all_terms(inner, *ret, b.size());
                lemma_all_good(inner, *ret, b.size());
                assert(good_item(inner, bodies[k1], *ret, b.size()));
                assert(bodies[k1].1 == analysis(inner, *b, *ret));
                let in_lams = lemma_in_wrap(env.lang, v, ty, bodies, k1);
                heads.len() + in_lams
            },
            Type::Ground(_) => 0,
        },
        _ => {
            lemma_normal_neutral(env, t);
            lemma_neutral_head(t);
            lemma_spine(t);
            let args = t.spine_args();
            match t.spine_head() {
                Term::Var(h) => {
                    lemma_fit_prefix(env, Term::Var(h), args);
                    let i = lemma_declared_head(env, h);
                    let hty = declared(env.cx(), env.vars, h).unwrap();
                    let k2 = lemma_chain(
                        env,
                        ty,
                        Term::Var(h),
                        Term::Var(h),
                        args,
                        hty,
                        (size - 1) as nat,
                    );
                    lemma_in_heads(env, ty, size, 0, i as nat, k2)
                },
                _ => 0,
            }
        },
    };
    assert(0 <= at < raw.len());
    assert(good_item(env, raw[at], ty, size));
    assert(stands_for(env, raw[at].0, t, ty)) by {
        match t {
            Term::Val(_) => {},
            Term::Lam(_, _) => {},
            _ => {
                lemma_neutral_agree(env, raw[at].0, t);
            },
        }
    }
    let k = lemma_in_fresh(Seq::empty(), raw, at);
    assert(good_item(env, all_terms(env, ty, size)[k], ty, size));
    k
}

} // verus!
