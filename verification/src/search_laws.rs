//! What holds of every term that the enumeration yields.

use crate::analysis::{analysis, neutral_analysis};
use crate::annotate::{annotations, check, declared, lemma_check_annotates, synth};
use crate::assoc::{lemma_find_at, lemma_find_none};
use crate::cache::{recorded, Search, SearchResult};
use crate::language::{Analysis, Language};
use crate::search::{
    all_terms, arg_to, cache_sound, extend, fresh_items, head_terms, lam_terms, one_head,
    repeats, splits, with_args, wrap, Env, Item,
};
use crate::term::{lemma_fresh_outside, Term};
use crate::types::{decl_names, lemma_decl_names_push, Identifier, Type, VarDecl};
use vstd::prelude::*;

verus! {

/// No name is declared twice.
pub open spec fn distinct(decls: Seq<VarDecl>) -> bool {
    forall|i: int, j: int| 0 <= i < j < decls.len() ==> decls[i].0 != decls[j].0
}

/// A scope that terms of up to `size` nodes can be built in: no name is
/// declared twice, by a primitive or a variable in scope, and there are
/// names left for as many binders as such a term can have.
pub open spec fn scope_ok<L: Language>(env: Env<L>, size: nat) -> bool {
    &&& distinct(env.heads())
    &&& env.heads().len() + size <= usize::MAX
}

/// A variable applied to beta-normal arguments.
pub open spec fn neutral(t: Term) -> bool
    decreases t,
{
    match t {
        Term::Var(_) => true,
        Term::App(f, a) => neutral(*f) && a.is_normal(),
        _ => false,
    }
}

/// `t` is beta-normal, has `size` nodes and has type `targ` in `env`.
pub open spec fn good_term<L: Language>(env: Env<L>, t: Term, targ: Type, size: nat) -> bool {
    &&& t.is_normal()
    &&& t.size() == size
    &&& check(env.cx(), env.vars, t, targ)
}

/// The term of `item` is [`good_term`], and its analysis is what the
/// language makes of the term, which is not malformed.
pub open spec fn good_item<L: Language>(
    env: Env<L>,
    item: Item<L::Semantics>,
    targ: Type,
    size: nat,
) -> bool {
    &&& good_term(env, item.0, targ, size)
    &&& item.1 == analysis(env, item.0, targ)
    &&& !(item.1 is Malformed)
}

/// Every one of `items` is [`good_item`].
pub open spec fn good_items<L: Language>(
    env: Env<L>,
    items: Seq<Item<L::Semantics>>,
    targ: Type,
    size: nat,
) -> bool {
    forall|k: int| 0 <= k < items.len() ==> good_item(env, #[trigger] items[k], targ, size)
}

/// A neutral term is beta-normal and no abstraction.
pub proof fn lemma_neutral_normal(t: Term)
    requires
        neutral(t),
    ensures
        t.is_normal(),
        !t.is_lam(),
    decreases t,
{
    match t {
        Term::App(f, _) => {
            lemma_neutral_normal(*f);
        },
        _ => {},
    }
}

/// The names that declarations declare are finitely many, no more than the
/// declarations.
pub proof fn lemma_decl_names_finite(decls: Seq<VarDecl>)
    ensures
        decl_names(decls).finite(),
        decl_names(decls).len() <= decls.len(),
    decreases decls.len(),
{
    if decls.len() == 0 {
        assert(decl_names(decls) =~= Set::<Identifier>::empty());
    } else {
        lemma_decl_names_finite(decls.drop_last());
        lemma_decl_names_push(decls.drop_last(), decls.last());
        assert(decls.drop_last().push(decls.last()) =~= decls);
    }
}

/// The names of two lists of declarations, one after the other.
pub proof fn lemma_decl_names_add(a: Seq<VarDecl>, b: Seq<VarDecl>)
    ensures
        decl_names(a + b) == decl_names(a).union(decl_names(b)),
    decreases b.len(),
{
    if b.len() == 0 {
        assert(a + b =~= a);
        assert(decl_names(b) =~= Set::<Identifier>::empty());
        assert(decl_names(a).union(decl_names(b)) =~= decl_names(a));
    } else {
        lemma_decl_names_add(a, b.drop_last());
        lemma_decl_names_push(a + b.drop_last(), b.last());
        lemma_decl_names_push(b.drop_last(), b.last());
        assert((a + b.drop_last()).push(b.last()) =~= a + b);
        assert(b.drop_last().push(b.last()) =~= b);
        assert(decl_names(a + b) =~= decl_names(a).union(decl_names(b)));
    }
}

/// The name of the next binder is not declared yet, so the scope below the
/// binder declares no name twice.
pub proof fn lemma_under_ok<L: Language>(env: Env<L>, arg: Type, size: nat)
    requires
        scope_ok(env, size),
        size >= 1,
    ensures
        scope_ok(env.under(arg), (size - 1) as nat),
        !decl_names(env.heads()).contains(env.binder()),
{
    let names = decl_names(env.cx()).union(decl_names(env.vars));
    lemma_decl_names_add(env.cx(), env.vars);
    lemma_decl_names_finite(env.heads());
    lemma_fresh_outside(names);
    let v = env.binder();
    let inner = env.under(arg);
    assert(inner.heads() =~= env.heads().push((v, arg)));
    assert forall|i: int, j: int| 0 <= i < j < inner.heads().len() implies inner.heads()[i].0
        != inner.heads()[j].0 by {
        if j == env.heads().len() {
            assert(decl_names(env.heads()).contains(env.heads()[i].0));
        }
    }
}

/// A head is declared with the type that the list of heads gives it.
pub proof fn lemma_head_declared<L: Language>(env: Env<L>, i: int)
    requires
        distinct(env.heads()),
        0 <= i < env.heads().len(),
    ensures
        declared(env.cx(), env.vars, env.heads()[i].0) == Some(env.heads()[i].1),
{
    let h = env.heads()[i].0;
    let cx = env.cx();
    let vars = env.vars;
    if i < cx.len() {
        assert forall|j: int| 0 <= j < vars.len() implies vars[j].0 != h by {
            assert(env.heads()[cx.len() + j] == vars[j]);
        }
        lemma_find_none(vars, h);
        assert forall|j: int| 0 <= j < i implies cx[j].0 != h by {
            assert(env.heads()[j] == cx[j]);
        }
        lemma_find_at(cx, h, i);
    } else {
        let k = i - cx.len();
        assert forall|j: int| 0 <= j < k implies vars[j].0 != h by {
            assert(env.heads()[cx.len() + j] == vars[j]);
        }
        lemma_find_at(vars, h, k);
    }
}

/// Leaving out repeats keeps only terms that were there.
pub proof fn lemma_fresh_good<L: Language>(
    env: Env<L>,
    kept: Seq<Item<L::Semantics>>,
    raw: Seq<Item<L::Semantics>>,
    targ: Type,
    size: nat,
)
    requires
        good_items(env, raw, targ, size),
    ensures
        good_items(env, fresh_items(kept, raw), targ, size),
    decreases raw.len(),
{
    if raw.len() > 0 {
        assert forall|k: int| 0 <= k < raw.skip(1).len() implies good_item(
            env,
            #[trigger] raw.skip(1)[k],
            targ,
            size,
        ) by {
            assert(raw.skip(1)[k] == raw[k + 1]);
        }
        assert(good_item(env, raw[0], targ, size));
        if repeats(kept, raw[0].1) {
            lemma_fresh_good(env, kept, raw.skip(1), targ, size);
        } else {
            lemma_fresh_good(env, kept.push(raw[0]), raw.skip(1), targ, size);
        }
    }
}

/// Every term that the enumeration yields is beta-normal, has the size that
/// was asked for and has the type that was asked for.
pub proof fn lemma_all_good<L: Language>(env: Env<L>, targ: Type, size: nat)
    requires
        scope_ok(env, size),
    ensures
        good_items(env, all_terms(env, targ, size), targ, size),
    decreases size, 5nat, 0nat,
{
    lemma_heads_good(env, targ, size, 0);
    lemma_lam_good(env, targ, size);
    let raw = head_terms(env, targ, size, 0) + lam_terms(env, targ, size);
    assert(good_items(env, raw, targ, size));
    lemma_fresh_good(env, Seq::empty(), raw, targ, size);
}

/// Every abstraction that the enumeration builds is [`good_item`].
pub proof fn lemma_lam_good<L: Language>(env: Env<L>, targ: Type, size: nat)
    requires
        scope_ok(env, size),
    ensures
        good_items(env, lam_terms(env, targ, size), targ, size),
    decreases size, 4nat, 0nat,
{
    match targ {
        Type::Fun(arg, ret) => {
            if size >= 1 {
                lemma_under_ok(env, *arg, size);
                lemma_all_good(env.under(*arg), *ret, (size - 1) as nat);
                lemma_wrap_good(
                    env,
                    *arg,
                    *ret,
                    size,
                    all_terms(env.under(*arg), *ret, (size - 1) as nat),
                );
            }
        },
        Type::Ground(_) => {},
    }
}

/// [`lemma_lam_good`] over given bodies.
proof fn lemma_wrap_good<L: Language>(
    env: Env<L>,
    arg: Type,
    ret: Type,
    size: nat,
    bodies: Seq<Item<L::Semantics>>,
)
    requires
        size >= 1,
        good_items(env.under(arg), bodies, ret, (size - 1) as nat),
    ensures
        good_items(
            env,
            wrap(env.lang, env.binder(), Type::Fun(Box::new(arg), Box::new(ret)), bodies),
            Type::Fun(Box::new(arg), Box::new(ret)),
            size,
        ),
    decreases bodies.len(),
{
    if bodies.len() > 0 {
        assert forall|k: int| 0 <= k < bodies.skip(1).len() implies good_item(
            env.under(arg),
            #[trigger] bodies.skip(1)[k],
            ret,
            (size - 1) as nat,
        ) by {
            assert(bodies.skip(1)[k] == bodies[k + 1]);
        }
        lemma_wrap_good(env, arg, ret, size, bodies.skip(1));
        assert(good_item(env.under(arg), bodies[0], ret, (size - 1) as nat));
    }
}

/// Every application of a head that the enumeration builds is
/// [`good_item`].
pub proof fn lemma_heads_good<L: Language>(env: Env<L>, targ: Type, size: nat, i: nat)
    requires
        scope_ok(env, size),
    ensures
        good_items(env, head_terms(env, targ, size, i), targ, size),
    decreases size, 4nat, env.heads().len() - i,
{
    if i < env.heads().len() {
        lemma_heads_good(env, targ, size, i + 1);
        lemma_one_head_good(env, targ, size, i);
    }
}

/// [`lemma_heads_good`] for one head.
proof fn lemma_one_head_good<L: Language>(env: Env<L>, targ: Type, size: nat, i: nat)
    requires
        scope_ok(env, size),
    ensures
        good_items(env, one_head(env, targ, size, i), targ, size),
    decreases size, 3nat, 1nat,
{
    if i < env.heads().len() && size >= 1 && env.heads()[i as int].1.produces(targ) {
        let (h, ty) = env.heads()[i as int];
        let a = env.lang.svar_spec(h, ty);
        if !(a is Malformed) {
            lemma_head_declared(env, i as int);
            lemma_arg_to_good(env, targ, Term::Var(h), a, ty, (size - 1) as nat, size);
        }
    }
}

/// Every term that gives a partial application further arguments is
/// [`good_item`].
proof fn lemma_arg_to_good<L: Language>(
    env: Env<L>,
    targ: Type,
    pt: Term,
    pa: Analysis<L::Semantics>,
    l_ty: Type,
    size: nat,
    total: nat,
)
    requires
        scope_ok(env, size),
        neutral(pt),
        synth(env.cx(), env.vars, pt) == Some(l_ty),
        pa == neutral_analysis(env, pt),
        !(pa is Malformed),
        total == pt.size() + size,
    ensures
        good_items(env, arg_to(env, targ, pt, pa, l_ty, size), targ, total),
    decreases size, 3nat, 0nat,
{
    if l_ty == targ {
        if size == 0 {
            lemma_neutral_normal(pt);
        }
    } else if size == 0 {
    } else {
        match l_ty {
            Type::Fun(arg, ret) => {
                lemma_splits_good(env, targ, pt, pa, *arg, *ret, size, 1, total);
            },
            Type::Ground(_) => {},
        }
    }
}

/// [`lemma_arg_to_good`] over the sizes of the next argument.
proof fn lemma_splits_good<L: Language>(
    env: Env<L>,
    targ: Type,
    pt: Term,
    pa: Analysis<L::Semantics>,
    arg: Type,
    ret: Type,
    size: nat,
    n: nat,
    total: nat,
)
    requires
        scope_ok(env, size),
        neutral(pt),
        synth(env.cx(), env.vars, pt) == Some(Type::Fun(Box::new(arg), Box::new(ret))),
        pa == neutral_analysis(env, pt),
        !(pa is Malformed),
        total == pt.size() + size,
    ensures
        good_items(env, splits(env, targ, pt, pa, arg, ret, size, n), targ, total),
    decreases size, 2nat, size - n,
{
    if n < 1 || n >= size {
    } else {
        lemma_splits_good(env, targ, pt, pa, arg, ret, size, n + 1, total);
        lemma_all_good(env, arg, n);
        lemma_with_args_good(env, targ, pt, pa, arg, ret, size, n, all_terms(env, arg, n), total);
    }
}

/// [`lemma_arg_to_good`] over given next arguments.
proof fn lemma_with_args_good<L: Language>(
    env: Env<L>,
    targ: Type,
    pt: Term,
    pa: Analysis<L::Semantics>,
    arg: Type,
    ret: Type,
    size: nat,
    m: nat,
    args: Seq<Item<L::Semantics>>,
    total: nat,
)
    requires
        scope_ok(env, size),
        neutral(pt),
        synth(env.cx(), env.vars, pt) == Some(Type::Fun(Box::new(arg), Box::new(ret))),
        pa == neutral_analysis(env, pt),
        !(pa is Malformed),
        total == pt.size() + size,
        good_items(env, args, arg, m),
    ensures
        good_items(env, with_args(env, targ, pt, pa, ret, size, m, args), targ, total),
    decreases size, 1nat, args.len(),
{
    if args.len() == 0 || m < 1 || m >= size {
    } else {
        assert forall|k: int| 0 <= k < args.skip(1).len() implies good_item(
            env,
            #[trigger] args.skip(1)[k],
            arg,
            m,
        ) by {
            assert(args.skip(1)[k] == args[k + 1]);
        }
        lemma_with_args_good(env, targ, pt, pa, arg, ret, size, m, args.skip(1), total);
        let last = args[0];
        assert(good_item(env, last, arg, m));
        let a = env.lang.sapp_spec(pa, last.1, ret);
        if !(a is Malformed) {
            lemma_arg_to_good(
                env,
                targ,
                Term::App(Box::new(pt), Box::new(last.0)),
                a,
                ret,
                (size - m - 1) as nat,
                total,
            );
        }
        assert(good_items(env, extend(env, targ, pt, pa, ret, size, m, last), targ, total));
    }
}

/// None of the terms that are left after repeats were left out repeats one
/// of those that were kept before.
pub proof fn lemma_fresh_not_kept<S>(kept: Seq<Item<S>>, raw: Seq<Item<S>>, j: int)
    requires
        0 <= j < fresh_items(kept, raw).len(),
    ensures
        !repeats(kept, fresh_items(kept, raw)[j].1),
    decreases raw.len(),
{
    if raw.len() > 0 {
        if repeats(kept, raw[0].1) {
            lemma_fresh_not_kept(kept, raw.skip(1), j);
        } else if j > 0 {
            let more = kept.push(raw[0]);
            lemma_fresh_not_kept(more, raw.skip(1), j - 1);
            let a = fresh_items(more, raw.skip(1))[j - 1].1;
            if repeats(kept, a) {
                let k = choose|k: int| 0 <= k < kept.len() && kept[k].1 == a;
                assert(more[k].1 == a);
            }
        }
    }
}

/// No two terms that are left after repeats were left out have the same
/// canonical analysis.
pub proof fn lemma_fresh_distinct<S>(kept: Seq<Item<S>>, raw: Seq<Item<S>>, i: int, j: int)
    requires
        0 <= i < j < fresh_items(kept, raw).len(),
        fresh_items(kept, raw)[i].1 is Canonical,
    ensures
        fresh_items(kept, raw)[i].1 != fresh_items(kept, raw)[j].1,
    decreases raw.len(),
{
    if raw.len() > 0 {
        if repeats(kept, raw[0].1) {
            lemma_fresh_distinct(kept, raw.skip(1), i, j);
        } else {
            let more = kept.push(raw[0]);
            if i == 0 {
                lemma_fresh_not_kept(more, raw.skip(1), j - 1);
                assert(more[kept.len() as int] == raw[0]);
            } else {
                lemma_fresh_distinct(more, raw.skip(1), i - 1, j - 1);
            }
        }
    }
}

/// Every one of `items` is beta-normal and has `size` nodes.
pub open spec fn shaped<S>(items: Seq<Item<S>>, size: nat) -> bool {
    forall|k: int|
        0 <= k < items.len() ==> (#[trigger] items[k]).0.is_normal() && items[k].0.size() == size
}

/// Leaving out repeats keeps the shape of what is left.
pub proof fn lemma_fresh_shaped<S>(kept: Seq<Item<S>>, raw: Seq<Item<S>>, size: nat)
    requires
        shaped(raw, size),
    ensures
        shaped(fresh_items(kept, raw), size),
    decreases raw.len(),
{
    if raw.len() > 0 {
        assert forall|k: int| 0 <= k < raw.skip(1).len() implies (#[trigger] raw.skip(
            1,
        )[k]).0.is_normal() && raw.skip(1)[k].0.size() == size by {
            assert(raw.skip(1)[k] == raw[k + 1]);
        }
        assert(raw[0].0.is_normal() && raw[0].0.size() == size);
        if repeats(kept, raw[0].1) {
            lemma_fresh_shaped(kept, raw.skip(1), size);
        } else {
            lemma_fresh_shaped(kept.push(raw[0]), raw.skip(1), size);
        }
    }
}

/// Every term that the enumeration yields is beta-normal and has the size
/// that was asked for, in any scope.
pub proof fn lemma_all_shaped<L: Language>(env: Env<L>, targ: Type, size: nat)
    ensures
        shaped(all_terms(env, targ, size), size),
    decreases size, 5nat, 0nat,
{
    lemma_heads_shaped(env, targ, size, 0);
    lemma_lam_shaped(env, targ, size);
    let raw = head_terms(env, targ, size, 0) + lam_terms(env, targ, size);
    assert(shaped(raw, size));
    lemma_fresh_shaped(Seq::empty(), raw, size);
}

/// Every abstraction that the enumeration builds is [`shaped`].
proof fn lemma_lam_shaped<L: Language>(env: Env<L>, targ: Type, size: nat)
    ensures
        shaped(lam_terms(env, targ, size), size),
    decreases size, 4nat, 0nat,
{
    match targ {
        Type::Fun(arg, ret) => {
            if size >= 1 {
                lemma_all_shaped(env.under(*arg), *ret, (size - 1) as nat);
                lemma_wrap_shaped(
                    env.lang,
                    env.binder(),
                    targ,
                    all_terms(env.under(*arg), *ret, (size - 1) as nat),
                    size,
                );
            }
        },
        Type::Ground(_) => {},
    }
}

/// [`lemma_lam_shaped`] over given bodies.
proof fn lemma_wrap_shaped<L: Language>(
    lang: L,
    v: Identifier,
    targ: Type,
    bodies: Seq<Item<L::Semantics>>,
    size: nat,
)
    requires
        size >= 1,
        shaped(bodies, (size - 1) as nat),
    ensures
        shaped(wrap(lang, v, targ, bodies), size),
    decreases bodies.len(),
{
    if bodies.len() > 0 {
        assert forall|k: int| 0 <= k < bodies.skip(1).len() implies (#[trigger] bodies.skip(
            1,
        )[k]).0.is_normal() && bodies.skip(1)[k].0.size() == (size - 1) as nat by {
            assert(bodies.skip(1)[k] == bodies[k + 1]);
        }
        lemma_wrap_shaped(lang, v, targ, bodies.skip(1), size);
        assert(bodies[0].0.is_normal() && bodies[0].0.size() == (size - 1) as nat);
    }
}

/// Every application of a head that the enumeration builds is [`shaped`].
proof fn lemma_heads_shaped<L: Language>(env: Env<L>, targ: Type, size: nat, i: nat)
    ensures
        shaped(head_terms(env, targ, size, i), size),
    decreases size, 4nat, env.heads().len() - i,
{
    if i < env.heads().len() {
        lemma_heads_shaped(env, targ, size, i + 1);
        if size >= 1 && env.heads()[i as int].1.produces(targ) {
            let (h, ty) = env.heads()[i as int];
            let a = env.lang.svar_spec(h, ty);
            if !(a is Malformed) {
                lemma_arg_to_shaped(env, targ, Term::Var(h), a, ty, (size - 1) as nat, size);
            }
        }
        assert(shaped(one_head(env, targ, size, i), size));
    }
}

/// Every term that gives a partial application further arguments is
/// [`shaped`].
proof fn lemma_arg_to_shaped<L: Language>(
    env: Env<L>,
    targ: Type,
    pt: Term,
    pa: Analysis<L::Semantics>,
    l_ty: Type,
    size: nat,
    total: nat,
)
    requires
        neutral(pt),
        total == pt.size() + size,
    ensures
        shaped(arg_to(env, targ, pt, pa, l_ty, size), total),
    decreases size, 3nat, 0nat,
{
    if l_ty == targ {
        if size == 0 {
            lemma_neutral_normal(pt);
        }
    } else if size == 0 {
    } else {
        match l_ty {
            Type::Fun(arg, ret) => {
                lemma_splits_shaped(env, targ, pt, pa, *arg, *ret, size, 1, total);
            },
            Type::Ground(_) => {},
        }
    }
}

/// [`lemma_arg_to_shaped`] over the sizes of the next argument.
proof fn lemma_splits_shaped<L: Language>(
    env: Env<L>,
    targ: Type,
    pt: Term,
    pa: Analysis<L::Semantics>,
    arg: Type,
    ret: Type,
    size: nat,
    n: nat,
    total: nat,
)
    requires
        neutral(pt),
        total == pt.size() + size,
    ensures
        shaped(splits(env, targ, pt, pa, arg, ret, size, n), total),
    decreases size, 2nat, size - n,
{
    if n < 1 || n >= size {
    } else {
        lemma_splits_shaped(env, targ, pt, pa, arg, ret, size, n + 1, total);
        lemma_all_shaped(env, arg, n);
        lemma_with_args_shaped(env, targ, pt, pa, ret, size, n, all_terms(env, arg, n), total);
    }
}

/// [`lemma_arg_to_shaped`] over given next arguments.
proof fn lemma_with_args_shaped<L: Language>(
    env: Env<L>,
    targ: Type,
    pt: Term,
    pa: Analysis<L::Semantics>,
    ret: Type,
    size: nat,
    m: nat,
    args: Seq<Item<L::Semantics>>,
    total: nat,
)
    requires
        neutral(pt),
        total == pt.size() + size,
        shaped(args, m),
    ensures
        shaped(with_args(env, targ, pt, pa, ret, size, m, args), total),
    decreases size, 1nat, args.len(),
{
    if args.len() == 0 || m < 1 || m >= size {
    } else {
        assert forall|k: int| 0 <= k < args.skip(1).len() implies (#[trigger] args.skip(
            1,
        )[k]).0.is_normal() && args.skip(1)[k].0.size() == m by {
            assert(args.skip(1)[k] == args[k + 1]);
        }
        lemma_with_args_shaped(env, targ, pt, pa, ret, size, m, args.skip(1), total);
        let last = args[0];
        assert(last.0.is_normal() && last.0.size() == m);
        let a = env.lang.sapp_spec(pa, last.1, ret);
        if !(a is Malformed) {
            lemma_arg_to_shaped(
                env,
                targ,
                Term::App(Box::new(pt), Box::new(last.0)),
                a,
                ret,
                (size - m - 1) as nat,
                total,
            );
        }
        assert(shaped(extend(env, targ, pt, pa, ret, size, m, last), total));
    }
}

/// Every term that the enumeration yields is beta-normal: a step of beta
/// reduction finds nothing to contract in it.
pub proof fn lemma_yields_normal<L: Language>(env: Env<L>, targ: Type, size: nat, k: int)
    requires
        0 <= k < all_terms(env, targ, size).len(),
    ensures
        all_terms(env, targ, size)[k].0.is_normal(),
        all_terms(env, targ, size)[k].0.beta_step() == all_terms(env, targ, size)[k].0,
{
    lemma_all_shaped(env, targ, size);
    all_terms(env, targ, size)[k].0.lemma_normal_step();
}

/// Every term that the enumeration yields has the type that was asked for,
/// and annotation gives its root that type.
pub proof fn lemma_yields_typed<L: Language>(env: Env<L>, targ: Type, size: nat, k: int)
    requires
        scope_ok(env, size),
        0 <= k < all_terms(env, targ, size).len(),
    ensures
        check(env.cx(), env.vars, all_terms(env, targ, size)[k].0, targ),
        annotations(env.cx(), env.vars, all_terms(env, targ, size)[k].0, Some(targ)) is Some,
        annotations(env.cx(), env.vars, all_terms(env, targ, size)[k].0, Some(targ)).unwrap()[0].ty
            == targ,
{
    lemma_all_good(env, targ, size);
    lemma_check_annotates(env.cx(), env.vars, all_terms(env, targ, size)[k].0, targ);
}

/// The analysis that the enumeration yields with a term is what the language
/// makes of the term, and is not malformed.
pub proof fn lemma_yields_analysis<L: Language>(env: Env<L>, targ: Type, size: nat, k: int)
    requires
        scope_ok(env, size),
        0 <= k < all_terms(env, targ, size).len(),
    ensures
        all_terms(env, targ, size)[k].1 == analysis(env, all_terms(env, targ, size)[k].0, targ),
        !(all_terms(env, targ, size)[k].1 is Malformed),
{
    lemma_all_good(env, targ, size);
}

/// Every term that the enumeration yields has exactly the size that was
/// asked for.
pub proof fn lemma_yields_size<L: Language>(env: Env<L>, targ: Type, size: nat, k: int)
    requires
        0 <= k < all_terms(env, targ, size).len(),
    ensures
        all_terms(env, targ, size)[k].0.size() == size,
{
    lemma_all_shaped(env, targ, size);
}

/// No two terms that one enumeration yields have the same canonical
/// analysis.
pub proof fn lemma_yields_distinct<L: Language>(env: Env<L>, targ: Type, size: nat, i: int, j: int)
    requires
        0 <= i < j < all_terms(env, targ, size).len(),
    ensures
        !(all_terms(env, targ, size)[i].1 is Canonical && all_terms(env, targ, size)[i].1
            == all_terms(env, targ, size)[j].1),
{
    if all_terms(env, targ, size)[i].1 is Canonical {
        lemma_fresh_distinct(
            Seq::empty(),
            head_terms(env, targ, size, 0) + lam_terms(env, targ, size),
            i,
            j,
        );
    }
}

/// What a sound cache holds as uninhabited stays without a term: the
/// enumeration of that type and size in the same scope yields nothing.
pub proof fn lemma_uninhabited_yields_nothing<L: Language>(
    env: Env<L>,
    scope: Map<Search, SearchResult>,
    targ: Type,
    size: usize,
)
    requires
        cache_sound(env, scope),
        recorded(scope, (targ, size)) == SearchResult::Uninhabited,
    ensures
        all_terms(env, targ, size as nat) == Seq::<Item<L::Semantics>>::empty(),
{
    assert(all_terms(env, targ, size as nat) =~= Seq::<Item<L::Semantics>>::empty());
}

} // verus!
