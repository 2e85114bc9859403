//! The opaque language over any primitives: it tells no two terms apart by
//! meaning, so that no term is left out of an enumeration.

use crate::analysis::{analysis, neutral_analysis};
use crate::annotate::synth;
use crate::cache::Cache;
use crate::context::{BuiltIn, Context, Reduction};
use crate::generator::{AllNode, SearchContext};
use crate::language::{Analysis, Language};
use crate::search::{all_terms, Env};
use crate::search_complete::{enumerable, lemma_complete, stands_for, stands_for_neutral};
use crate::search_laws::{lemma_yields_normal, lemma_yields_size, scope_ok};
use crate::term::{Term, Value};
use crate::types::{Identifier, Type, VarDecl};
use vstd::prelude::*;

verus! {

/// A language that makes nothing of its terms: every analysis is `Unique`.
pub struct Opaque<R> {
    context: Context<R>,
    small_size: usize,
    large_size: usize,
}

impl<R: Reduction> Opaque<R> {
    /// The primitives.
    pub closed spec fn prims(self) -> Seq<(Identifier, BuiltIn<R>)> {
        self.context@
    }

    /// The largest size of a subterm that a small mutation replaces.
    pub closed spec fn small(self) -> usize {
        self.small_size
    }

    /// The largest size of a subterm that a large mutation replaces.
    pub closed spec fn large(self) -> usize {
        self.large_size
    }

    /// The opaque language over the primitives of `context`.
    pub fn new(context: Context<R>, small_size: usize, large_size: usize) -> (lang: Self)
        ensures
            lang.prims() == context@,
            lang.small() == small_size,
            lang.large() == large_size,
    {
        Opaque { context, small_size, large_size }
    }
}

impl<R: Reduction> Language for Opaque<R> {
    type Semantics = ();

    type Prim = R;

    open spec fn small_size_spec(&self) -> usize {
        self.small()
    }

    open spec fn large_size_spec(&self) -> usize {
        self.large()
    }

    open spec fn context_spec(&self) -> Seq<(Identifier, BuiltIn<R>)> {
        self.prims()
    }

    open spec fn sval_spec(&self, value: Value, ty: Type) -> Analysis<()> {
        Analysis::Unique
    }

    open spec fn svar_spec(&self, ident: Identifier, ty: Type) -> Analysis<()> {
        Analysis::Unique
    }

    open spec fn slam_spec(&self, ident: Identifier, body: Analysis<()>, ty: Type) -> Analysis<()> {
        Analysis::Unique
    }

    open spec fn sapp_spec(&self, fun: Analysis<()>, arg: Analysis<()>, ty: Type) -> Analysis<()> {
        Analysis::Unique
    }

    fn small_size(&self) -> (n: usize) {
        self.small_size
    }

    fn large_size(&self) -> (n: usize) {
        self.large_size
    }

    fn context(&self) -> (c: Context<R>) {
        self.context.deep_clone()
    }

    fn sval(&self, value: &Value, ty: &Type) -> (a: Analysis<()>) {
        Analysis::Unique
    }

    fn svar(&self, ident: Identifier, ty: &Type) -> (a: Analysis<()>) {
        Analysis::Unique
    }

    fn slam(&self, ident: Identifier, body: Analysis<()>, ty: &Type) -> (a: Analysis<()>) {
        Analysis::Unique
    }

    fn sapp(&self, fun: Analysis<()>, arg: Analysis<()>, ty: &Type) -> (a: Analysis<()>) {
        Analysis::Unique
    }

    fn same(&self, a: &(), b: &()) -> (r: bool) {
        true
    }

    fn copy(&self, a: &()) -> (r: ()) {
        ()
    }
}

/// The opaque language gives no term a canonical analysis.
pub proof fn lemma_opaque_plain<R: Reduction>(env: Env<Opaque<R>>, t: Term, ty: Type)
    ensures
        !(analysis(env, t, ty) is Canonical),
        !(neutral_analysis(env, t) is Canonical),
{
}

/// In the opaque language a term stands for itself only.
pub proof fn lemma_opaque_stands_alone<R: Reduction>(
    env: Env<Opaque<R>>,
    r: Term,
    t: Term,
    ty: Type,
)
    requires
        stands_for(env, r, t, ty),
    ensures
        r == t,
    decreases t, 1nat,
{
    lemma_opaque_plain(env, t, ty);
    match t {
        Term::Val(_) => {},
        Term::Lam(w, c) => match (r, ty) {
            (Term::Lam(v, b), Type::Fun(arg, ret)) => {
                lemma_opaque_stands_alone(
                    Env { lang: env.lang, vars: env.vars.push((w, *arg)) },
                    *b,
                    *c,
                    *ret,
                );
            },
            _ => {},
        },
        _ => {
            lemma_opaque_neutral_alone(env, r, t);
        },
    }
}

/// [`lemma_opaque_stands_alone`] for a variable applied to arguments.
proof fn lemma_opaque_neutral_alone<R: Reduction>(env: Env<Opaque<R>>, r: Term, t: Term)
    requires
        stands_for_neutral(env, r, t),
    ensures
        r == t,
    decreases t, 0nat,
{
    match t {
        Term::App(g, b) => match r {
            Term::App(f, a) => {
                lemma_opaque_neutral_alone(env, *f, *g);
                match synth(env.cx(), env.vars, *g) {
                    Some(Type::Fun(arg, _)) => {
                        lemma_opaque_stands_alone(env, *a, *b, *arg);
                    },
                    _ => {},
                }
            },
            _ => {},
        },
        _ => {},
    }
}

/// The enumeration of the opaque language is complete: it yields every
/// beta-normal term of the type and size that holds no value leaf and whose
/// binders have the names that the enumeration gives them.
pub proof fn lemma_opaque_complete<R: Reduction>(env: Env<Opaque<R>>, t: Term, ty: Type) -> (k:
    int)
    requires
        scope_ok(env, t.size()),
        enumerable(env, t, ty),
    ensures
        0 <= k < all_terms(env, ty, t.size()).len(),
        all_terms(env, ty, t.size())[k].0 == t,
{
    let k = lemma_complete(env, t, ty);
    lemma_opaque_stands_alone(env, all_terms(env, ty, t.size())[k].0, t, ty);
    k
}

/// The enumeration of the closed terms of a type and a size over given
/// primitives, without regard to their meaning: no term is left out as a
/// repeat.
pub struct Searcher<R: Reduction> {
    lang: Opaque<R>,
    search_ctxt: SearchContext<Opaque<R>>,
    root: AllNode<Opaque<R>>,
}

impl<R: Reduction> Searcher<R> {
    /// Where the search takes place.
    pub closed spec fn env(self) -> Env<Opaque<R>> {
        Env { lang: self.lang, vars: Seq::empty() }
    }

    /// The type of the terms that are enumerated.
    pub closed spec fn target(self) -> Type {
        self.root.goal()
    }

    /// The number of nodes of the terms that are enumerated.
    pub closed spec fn size(self) -> usize {
        self.root.nodes()
    }

    /// The terms that are still to come, next one first.
    pub closed spec fn remaining(self) -> Seq<Term> {
        Seq::new(self.root.rest(self.env()).len(), |i: int| self.root.rest(self.env())[i].0)
    }

    /// The searcher is in a state that `next` can work from.
    pub closed spec fn wf(self) -> bool {
        &&& self.search_ctxt.inv(self.lang)
        &&& self.search_ctxt.env(self.lang) == self.env()
        &&& self.root.wf(self.env())
    }

    /// The enumeration of the closed terms of type `targ` and exactly `size`
    /// nodes over the primitives of `ctx`: no variable is in scope.
    pub fn search(ctx: Context<R>, targ: &Type, size: usize) -> (s: Self)
        ensures
            s.wf(),
            s.env().lang.prims() == ctx@,
            s.env().vars == Seq::<VarDecl>::empty(),
            s.target() == *targ,
            s.size() == size,
            s.remaining().len() == all_terms(s.env(), *targ, size as nat).len(),
            forall|i: int|
                0 <= i < s.remaining().len() ==> s.remaining()[i] == all_terms(
                    s.env(),
                    *targ,
                    size as nat,
                )[i].0,
    {
        let lang = Opaque::new(ctx, 0, 0);
        let search_ctxt = SearchContext::new(&lang, Vec::new(), Cache::new());
        let root = AllNode::new(targ.deep_clone(), size, Ghost(search_ctxt.env(lang)));
        Searcher { lang, search_ctxt, root }
    }

    /// The next term, which is beta-normal and has the size that is
    /// enumerated; `None` once every term has been handed out.
    pub fn next(&mut self) -> (r: Option<Term>)
        requires
            old(self).wf(),
        ensures
            final(self).wf(),
            final(self).env() == old(self).env(),
            final(self).target() == old(self).target(),
            final(self).size() == old(self).size(),
            match r {
                Some(t) => old(self).remaining().len() > 0 && t == old(self).remaining()[0]
                    && final(self).remaining() == old(self).remaining().skip(1) && t.is_normal()
                    && t.size() == old(self).size(),
                None => old(self).remaining().len() == 0 && final(self).remaining().len() == 0,
            },
    {
        let r = self.root.next(&self.lang, &mut self.search_ctxt);
        proof {
            if r is Some {
                assert(self.remaining() =~= old(self).remaining().skip(1));
                let env = old(self).env();
                let all = all_terms(env, old(self).target(), old(self).size() as nat);
                let at = old(self).root.yielded().len() as int;
                old(self).root.lemma_enumerates(env);
                assert(all[at] == old(self).root.rest(env)[0]);
                lemma_yields_normal(env, old(self).target(), old(self).size() as nat, at);
                lemma_yields_size(env, old(self).target(), old(self).size() as nat, at);
            }
        }
        match r {
            Some(item) => Some(item.0),
            None => None,
        }
    }
}

} // verus!
