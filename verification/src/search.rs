//! Enumeration of the beta-normal terms of a type and an exact size, one per
//! meaning that the language tells apart.

use crate::cache::{either, prune_arg_spec, prune_splits_spec, recorded, Search, SearchResult};
use crate::context::prim_decls;
use crate::language::{Analysis, Language};
use crate::term::{fresh, Term};
use crate::types::{decl_names, produces, Identifier, Type, VarDecl};
use vstd::prelude::*;

verus! {

/// A term together with what the language makes of it.
pub type Item<S> = (Term, Analysis<S>);

/// Where a search takes place: the language and the variables in scope,
/// outermost first.
pub struct Env<L> {
    pub lang: L,
    pub vars: Seq<VarDecl>,
}

impl<L: Language> Env<L> {
    /// The primitives of the language, as declarations.
    pub open spec fn cx(self) -> Seq<VarDecl> {
        prim_decls(self.lang.context_spec())
    }

    /// What can stand at the head of a term: the primitives, then the
    /// variables in scope.
    pub open spec fn heads(self) -> Seq<VarDecl> {
        self.cx() + self.vars
    }

    /// The name that the next binder gets: the least identifier that neither
    /// a primitive nor a variable in scope has.
    pub open spec fn binder(self) -> Identifier {
        fresh(decl_names(self.cx()).union(decl_names(self.vars)))
    }

    /// The scope below a binder of a variable of type `arg`.
    pub open spec fn under(self, arg: Type) -> Env<L> {
        Env { lang: self.lang, vars: self.vars.push((self.binder(), arg)) }
    }
}

/// `a` is canonical and the analysis of one of `kept`.
pub open spec fn repeats<S>(kept: Seq<Item<S>>, a: Analysis<S>) -> bool {
    a is Canonical && exists|k: int| 0 <= k < kept.len() && kept[k].1 == a
}

/// Those of `raw`, in order, whose canonical analysis neither one of `kept`
/// has nor an earlier one of `raw` that is itself among them.
pub open spec fn fresh_items<S>(kept: Seq<Item<S>>, raw: Seq<Item<S>>) -> Seq<Item<S>>
    decreases raw.len(),
{
    if raw.len() == 0 {
        Seq::empty()
    } else if repeats(kept, raw[0].1) {
        fresh_items(kept, raw.skip(1))
    } else {
        seq![raw[0]] + fresh_items(kept.push(raw[0]), raw.skip(1))
    }
}

/// The abstractions `v -> body` over `bodies`, in order, without those that
/// the language finds malformed.
pub open spec fn wrap<L: Language>(lang: L, v: Identifier, targ: Type, bodies: Seq<
    Item<L::Semantics>,
>) -> Seq<Item<L::Semantics>>
    decreases bodies.len(),
{
    if bodies.len() == 0 {
        Seq::empty()
    } else {
        wrap_one(lang, v, targ, bodies[0]) + wrap(lang, v, targ, bodies.skip(1))
    }
}

/// The abstraction `v -> body`, unless the language finds it malformed.
pub open spec fn wrap_one<L: Language>(lang: L, v: Identifier, targ: Type, body: Item<
    L::Semantics,
>) -> Seq<Item<L::Semantics>> {
    let a = lang.slam_spec(v, body.1, targ);
    if a is Malformed {
        Seq::empty()
    } else {
        seq![(Term::Lam(v, Box::new(body.0)), a)]
    }
}

/// Every term of type `targ` and exactly `size` nodes that the enumeration
/// yields in `env`, in the order it yields them: the applications of a head
/// to arguments, then the abstractions; of two with the same canonical
/// analysis only the first.
pub open spec fn all_terms<L: Language>(env: Env<L>, targ: Type, size: nat) -> Seq<
    Item<L::Semantics>,
>
    decreases size, 5nat, 0nat,
{
    fresh_items(Seq::empty(), head_terms(env, targ, size, 0) + lam_terms(env, targ, size))
}

/// The abstractions of type `targ` and `size` nodes: a fresh variable over
/// each body of the result type that has one node less.
pub open spec fn lam_terms<L: Language>(env: Env<L>, targ: Type, size: nat) -> Seq<
    Item<L::Semantics>,
>
    decreases size, 4nat, 0nat,
{
    match targ {
        Type::Fun(arg, ret) => if size >= 1 {
            wrap(env.lang, env.binder(), targ, all_terms(env.under(*arg), *ret, (size - 1) as nat))
        } else {
            Seq::empty()
        },
        Type::Ground(_) => Seq::empty(),
    }
}

/// The terms of type `targ` and `size` nodes whose head is the `i`-th head
/// or a later one, head by head. A head takes part where its type produces
/// `targ` and the language does not find it malformed.
pub open spec fn head_terms<L: Language>(env: Env<L>, targ: Type, size: nat, i: nat) -> Seq<
    Item<L::Semantics>,
>
    decreases size, 4nat, env.heads().len() - i,
{
    if i >= env.heads().len() {
        Seq::empty()
    } else {
        one_head(env, targ, size, i) + head_terms(env, targ, size, i + 1)
    }
}

/// The terms of type `targ` and `size` nodes whose head is the `i`-th head.
pub open spec fn one_head<L: Language>(env: Env<L>, targ: Type, size: nat, i: nat) -> Seq<
    Item<L::Semantics>,
>
    decreases size, 3nat, 1nat,
{
    if i < env.heads().len() && size >= 1 && env.heads()[i as int].1.produces(targ) {
        let (h, ty) = env.heads()[i as int];
        let a = env.lang.svar_spec(h, ty);
        if a is Malformed {
            Seq::empty()
        } else {
            arg_to(env, targ, Term::Var(h), a, ty, (size - 1) as nat)
        }
    } else {
        Seq::empty()
    }
}

/// The terms of type `targ` that give the partial application `pt`, of type
/// `l_ty` and analysis `pa`, further arguments that take `size` nodes in
/// all, an application node counted with each.
pub open spec fn arg_to<L: Language>(
    env: Env<L>,
    targ: Type,
    pt: Term,
    pa: Analysis<L::Semantics>,
    l_ty: Type,
    size: nat,
) -> Seq<Item<L::Semantics>>
    decreases size, 3nat, 0nat,
{
    if l_ty == targ {
        if size == 0 {
            seq![(pt, pa)]
        } else {
            Seq::empty()
        }
    } else if size == 0 {
        Seq::empty()
    } else {
        match l_ty {
            Type::Fun(arg, ret) => splits(env, targ, pt, pa, *arg, *ret, size, 1),
            Type::Ground(_) => Seq::empty(),
        }
    }
}

/// [`arg_to`] for a next argument of `n` nodes or more, the smaller
/// arguments first.
pub open spec fn splits<L: Language>(
    env: Env<L>,
    targ: Type,
    pt: Term,
    pa: Analysis<L::Semantics>,
    arg: Type,
    ret: Type,
    size: nat,
    n: nat,
) -> Seq<Item<L::Semantics>>
    decreases size, 2nat, size - n,
{
    if n < 1 || n >= size {
        Seq::empty()
    } else {
        with_args(env, targ, pt, pa, ret, size, n, all_terms(env, arg, n)) + splits(
            env,
            targ,
            pt,
            pa,
            arg,
            ret,
            size,
            n + 1,
        )
    }
}

/// [`arg_to`] for a next argument that is one of `args`, each of `m` nodes,
/// argument by argument.
pub open spec fn with_args<L: Language>(
    env: Env<L>,
    targ: Type,
    pt: Term,
    pa: Analysis<L::Semantics>,
    ret: Type,
    size: nat,
    m: nat,
    args: Seq<Item<L::Semantics>>,
) -> Seq<Item<L::Semantics>>
    decreases size, 1nat, args.len(),
{
    if args.len() == 0 || m < 1 || m >= size {
        Seq::empty()
    } else {
        extend(env, targ, pt, pa, ret, size, m, args[0]) + with_args(
            env,
            targ,
            pt,
            pa,
            ret,
            size,
            m,
            args.skip(1),
        )
    }
}

/// [`arg_to`] for the next argument `arg`, of `m` nodes. Nothing where the
/// language finds the application malformed.
pub open spec fn extend<L: Language>(
    env: Env<L>,
    targ: Type,
    pt: Term,
    pa: Analysis<L::Semantics>,
    ret: Type,
    size: nat,
    m: nat,
    arg: Item<L::Semantics>,
) -> Seq<Item<L::Semantics>>
    decreases size, 0nat, 0nat,
{
    if 1 <= m < size {
        let a = env.lang.sapp_spec(pa, arg.1, ret);
        if a is Malformed {
            Seq::empty()
        } else {
            arg_to(
                env,
                targ,
                Term::App(Box::new(pt), Box::new(arg.0)),
                a,
                ret,
                (size - m - 1) as nat,
            )
        }
    } else {
        Seq::empty()
    }
}

/// None of `items` is malformed.
pub open spec fn formed<S>(items: Seq<Item<S>>) -> bool {
    forall|k: int| 0 <= k < items.len() ==> !(#[trigger] items[k].1 is Malformed)
}

/// What `scope` holds as uninhabited has no term in `env`.
pub open spec fn cache_sound<L: Language>(env: Env<L>, scope: Map<Search, SearchResult>) -> bool {
    forall|ty: Type, n: usize| #[trigger]
        recorded(scope, (ty, n)) == SearchResult::Uninhabited ==> all_terms(env, ty, n as nat).len()
            == 0
}

/// What `scope` holds as uninhabited has no term in `env`: then a chain of
/// arguments that `scope` tells to be uninhabited has no term either.
pub proof fn lemma_prune_arg_sound<L: Language>(
    env: Env<L>,
    scope: Map<Search, SearchResult>,
    targ: Type,
    pt: Term,
    pa: Analysis<L::Semantics>,
    l_ty: Type,
    size: nat,
)
    requires
        cache_sound(env, scope),
        size <= usize::MAX,
        prune_arg_spec(scope, targ, l_ty, size) == SearchResult::Uninhabited,
    ensures
        arg_to(env, targ, pt, pa, l_ty, size).len() == 0,
    decreases size, 2nat, 0nat,
{
    if size == 0 || l_ty == targ {
    } else {
        match l_ty {
            Type::Fun(arg, ret) => {
                lemma_prune_splits_sound(env, scope, targ, pt, pa, *arg, *ret, size, 1);
            },
            Type::Ground(_) => {},
        }
    }
}

/// [`lemma_prune_arg_sound`] for the sizes from `n` on of the next argument.
proof fn lemma_prune_splits_sound<L: Language>(
    env: Env<L>,
    scope: Map<Search, SearchResult>,
    targ: Type,
    pt: Term,
    pa: Analysis<L::Semantics>,
    arg: Type,
    ret: Type,
    size: nat,
    n: nat,
)
    requires
        cache_sound(env, scope),
        size <= usize::MAX,
        1 <= n,
        prune_splits_spec(scope, targ, arg, ret, size, n) == SearchResult::Uninhabited,
    ensures
        splits(env, targ, pt, pa, arg, ret, size, n).len() == 0,
    decreases size, 1nat, size - n,
{
    if n < size {
        lemma_prune_splits_sound(env, scope, targ, pt, pa, arg, ret, size, n + 1);
        let args = all_terms(env, arg, n);
        if recorded(scope, (arg, n as usize)) == SearchResult::Uninhabited {
        } else {
            assert(prune_arg_spec(scope, targ, ret, (size - n - 1) as nat)
                == SearchResult::Uninhabited);
            lemma_prune_with_args(env, scope, targ, pt, pa, ret, size, n, args);
        }
    }
}

/// Where the scope tells what follows an argument to be uninhabited, no
/// argument leads to a term.
proof fn lemma_prune_with_args<L: Language>(
    env: Env<L>,
    scope: Map<Search, SearchResult>,
    targ: Type,
    pt: Term,
    pa: Analysis<L::Semantics>,
    ret: Type,
    size: nat,
    m: nat,
    args: Seq<Item<L::Semantics>>,
)
    requires
        cache_sound(env, scope),
        size <= usize::MAX,
        1 <= m < size,
        prune_arg_spec(scope, targ, ret, (size - m - 1) as nat) == SearchResult::Uninhabited,
    ensures
        with_args(env, targ, pt, pa, ret, size, m, args).len() == 0,
    decreases size, 0nat, args.len(),
{
    if args.len() > 0 {
        lemma_prune_with_args(env, scope, targ, pt, pa, ret, size, m, args.skip(1));
        let a = env.lang.sapp_spec(pa, args[0].1, ret);
        lemma_prune_arg_sound(
            env,
            scope,
            targ,
            Term::App(Box::new(pt), Box::new(args[0].0)),
            a,
            ret,
            (size - m - 1) as nat,
        );
        assert(extend(env, targ, pt, pa, ret, size, m, args[0]).len() == 0);
    }
}

} // verus!
