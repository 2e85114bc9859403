//! The enumerator: a tree of generators, one for each search that is under
//! way, each of which hands out its terms one at a time.

use crate::cache::{recorded, Cache, Scope, SearchResult};
use crate::context::{Context, VarGen};
use crate::language::{Analysis, Language};
use crate::analysis::analysis;
use crate::annotate::check;
use crate::search_laws::{
    lemma_yields_analysis, lemma_yields_normal, lemma_yields_size, lemma_yields_typed, scope_ok,
};
use crate::search::{
    all_terms, arg_to, cache_sound, extend, formed, fresh_items, head_terms, lam_terms,
    lemma_prune_arg_sound, one_head, repeats, splits, with_args, wrap, wrap_one, Env, Item,
};
use crate::term::Term;
use crate::types::{decl_names, lemma_decl_names_push, produces, Identifier, Type, VarDecl};
use vstd::prelude::*;

verus! {

/// The state that the generators of one enumeration share: the primitives,
/// the names that are taken, the variables in scope and the inhabitation
/// cache.
pub struct SearchContext<L: Language> {
    ctxt: Context<L::Prim>,
    vgen: VarGen,
    args: Vec<VarDecl>,
    cache: Cache,
}

impl<L: Language> SearchContext<L> {
    /// Where the search takes place.
    pub closed spec fn env(self, lang: L) -> Env<L> {
        Env { lang, vars: self.args@ }
    }

    /// The cache as it stands.
    pub closed spec fn held_cache(self) -> Cache {
        self.cache
    }

    /// The state is one that a search of `lang` can work from: it holds the
    /// primitives of `lang`, exactly the names of the primitives and of the
    /// variables in scope are taken, and what the cache holds as uninhabited
    /// in the innermost scope has no term.
    pub closed spec fn inv(self, lang: L) -> bool {
        &&& self.ctxt@ == lang.context_spec()
        &&& self.vgen.wf()
        &&& self.vgen@ == decl_names(self.env(lang).cx()).union(decl_names(self.args@))
        &&& self.cache.wf()
        &&& cache_sound(self.env(lang), self.cache.top())
    }

    /// What a search leaves as it found it: everything but the record of
    /// the innermost scope.
    pub closed spec fn framed(self, before: Self) -> bool {
        &&& self.ctxt@ == before.ctxt@
        &&& self.args@ == before.args@
        &&& self.vgen@ == before.vgen@
        &&& self.cache.pending() == before.cache.pending()
        &&& self.cache.scopes().len() == before.cache.scopes().len()
        &&& self.cache.scopes().drop_last() == before.cache.scopes().drop_last()
    }

    /// The state of a search in the scope `vars`, with the given cache.
    pub fn new(lang: &L, vars: Vec<VarDecl>, cache: Cache) -> (sc: Self)
        requires
            cache.wf(),
            cache_sound(Env { lang: *lang, vars: vars@ }, cache.top()),
        ensures
            sc.inv(*lang),
            sc.env(*lang) == (Env { lang: *lang, vars: vars@ }),
            sc.held_cache() == cache,
    {
        let ctxt = lang.context();
        let mut vgen = ctxt.vgen();
        let mut i: usize = 0;
        while i < vars.len()
            invariant
                i <= vars.len(),
                vgen.wf(),
                vgen@ == ctxt.names().union(decl_names(vars@.take(i as int))),
            decreases vars.len() - i,
        {
            vgen.retire(vars[i].0);
            proof {
                assert(vars@.take(i as int + 1) =~= vars@.take(i as int).push(vars@[i as int]));
                lemma_decl_names_push(vars@.take(i as int), vars@[i as int]);
                assert(vgen@ =~= ctxt.names().union(decl_names(vars@.take(i as int + 1))));
            }
            i += 1;
        }
        proof {
            assert(vars@.take(vars.len() as int) =~= vars@);
            assert(decl_names(Seq::<VarDecl>::empty()) =~= Set::<Identifier>::empty());
        }
        SearchContext { ctxt, vgen, args: vars, cache }
    }

    /// Gives up the state for its cache.
    pub fn into_cache(self) -> (c: Cache)
        ensures
            c == self.held_cache(),
    {
        self.cache
    }

    /// A copy of an item.
    pub(crate) fn copy_item(lang: &L, item: &Item<L::Semantics>) -> (r: Item<L::Semantics>)
        ensures
            r == *item,
    {
        (item.0.deep_clone(), lang.copy_analysis(&item.1))
    }

    /// Whether `a` is canonical and the analysis of one of `kept`.
    fn seen(lang: &L, kept: &Vec<Item<L::Semantics>>, a: &Analysis<L::Semantics>) -> (r: bool)
        ensures
            r == repeats(kept@, *a),
    {
        match a {
            Analysis::Canonical(s) => {
                let mut k: usize = 0;
                while k < kept.len()
                    invariant
                        k <= kept.len(),
                        *a == Analysis::Canonical(*s),
                        forall|j: int| 0 <= j < k ==> kept@[j].1 != *a,
                    decreases kept.len() - k,
                {
                    let same = match &kept[k].1 {
                        Analysis::Canonical(t) => lang.same(s, t),
                        _ => false,
                    };
                    if same {
                        return true;
                    }
                    k += 1;
                }
                false
            },
            _ => false,
        }
    }
}

/// How far the search for every term of a type has come.
#[derive(Clone, Copy, Debug, PartialEq, Eq, Structural)]
pub enum AllPhase {
    /// Nothing was searched yet.
    Start,
    /// The applications of a head are under way.
    HeadVars,
    /// The abstractions are under way.
    Abstraction,
    /// Every term was handed out.
    Completed,
}

/// How far the search for the arguments of a partial application has come.
#[derive(Clone, Copy, Debug, PartialEq, Eq, Structural)]
pub enum ArgPhase {
    /// Nothing was searched yet.
    Start,
    /// The arguments of some size are under way.
    Arguments,
    /// Every term was handed out.
    Completed,
}

/// The search for every term of a type and a size: the applications of a
/// head, then the abstractions, without repeats of a canonical analysis.
pub struct AllNode<L: Language> {
    targ: Type,
    size: usize,
    phase: AllPhase,
    heads: Option<Box<HeadVarsNode<L>>>,
    lams: Option<Box<AbstractionNode<L>>>,
    kept: Vec<Item<L::Semantics>>,
}

/// The search for the applications of a head to arguments, head by head.
pub struct HeadVarsNode<L: Language> {
    targ: Type,
    size: usize,
    in_ctxt: usize,
    in_args: usize,
    cur: Option<Box<ArgToNode<L>>>,
}

/// The search for the terms that give a partial application further
/// arguments.
pub struct ArgToNode<L: Language> {
    targ: Type,
    pt: Term,
    pa: Analysis<L::Semantics>,
    l_ty: Type,
    size: usize,
    state: ArgPhase,
    n: usize,
    arg_gen: Option<Box<AllNode<L>>>,
    cont: Option<Box<ArgToNode<L>>>,
}

/// The search for the abstractions of a function type: a binder over each
/// body.
pub struct AbstractionNode<L: Language> {
    targ: Type,
    size: usize,
    v: Identifier,
    body: Box<AllNode<L>>,
    saved: Option<Scope>,
}

impl<L: Language> AllNode<L> {
    /// An upper bound of the depth of the generators below this one.
    pub closed spec fn rank(self) -> nat {
        4 * self.size as nat + 3
    }

    /// The type that is searched for.
    pub closed spec fn goal(self) -> Type {
        self.targ
    }

    /// The size that is searched for.
    pub closed spec fn nodes(self) -> usize {
        self.size
    }

    /// The terms that were handed out.
    pub closed spec fn yielded(self) -> Seq<Item<L::Semantics>> {
        self.kept@
    }

    /// The terms that are still to come, next one first.
    pub closed spec fn rest(self, env: Env<L>) -> Seq<Item<L::Semantics>>
        decreases self,
    {
        if self.phase == AllPhase::Start {
            all_terms(env, self.targ, self.size as nat)
        } else if self.phase == AllPhase::HeadVars {
            fresh_items(
                self.kept@,
                (match self.heads {
                    Some(h) => h.rest(env),
                    None => Seq::empty(),
                }) + lam_terms(env, self.targ, self.size as nat),
            )
        } else if self.phase == AllPhase::Abstraction {
            fresh_items(
                self.kept@,
                match self.lams {
                    Some(l) => l.rest(env),
                    None => Seq::empty(),
                },
            )
        } else {
            Seq::empty()
        }
    }

    /// The generator is in a state that `next` can work from in `env`.
    pub closed spec fn wf(self, env: Env<L>) -> bool
        decreases self,
    {
        &&& formed(self.kept@)
        &&& all_terms(env, self.targ, self.size as nat) == self.kept@ + self.rest(env)
        &&& if self.phase == AllPhase::Start {
            self.kept@.len() == 0 && self.heads is None && self.lams is None
        } else if self.phase == AllPhase::HeadVars {
            self.lams is None && match self.heads {
                Some(h) => h.wf(env) && h.targ == self.targ && h.size == self.size,
                None => false,
            }
        } else if self.phase == AllPhase::Abstraction {
            self.heads is None && match self.lams {
                Some(l) => l.wf(env) && l.targ == self.targ && l.size == self.size,
                None => false,
            }
        } else {
            self.heads is None && self.lams is None
        }
    }

    /// What was handed out and what is still to come are together the
    /// terms of the type and the size of the generator.
    pub proof fn lemma_enumerates(self, env: Env<L>)
        requires
            self.wf(env),
        ensures
            self.yielded() + self.rest(env) == all_terms(env, self.goal(), self.nodes() as nat),
    {
    }

    /// A generator that has handed out nothing yet.
    pub(crate) fn new(targ: Type, size: usize, Ghost(env): Ghost<Env<L>>) -> (node: Self)
        ensures
            node.wf(env),
            node.goal() == targ,
            node.nodes() == size,
            node.yielded().len() == 0,
            node.rest(env) == all_terms(env, targ, size as nat),
    {
        let node = AllNode { targ, size, phase: AllPhase::Start, heads: None, lams: None, kept: Vec::new() };
        proof {
            assert(node.kept@ + node.rest(env) =~= node.rest(env));
        }
        node
    }

    /// What is left once every search below has ended: the cache is told how
    /// the search ended.
    fn finish(&mut self, lang: &L, sc: &mut SearchContext<L>)
        requires
            old(sc).inv(*lang),
            formed(old(self).kept@),
            all_terms(old(sc).env(*lang), old(self).targ, old(self).size as nat) == old(
                self,
            ).kept@,
        ensures
            final(sc).inv(*lang),
            final(sc).framed(*old(sc)),
            final(self).wf(old(sc).env(*lang)),
            final(self).targ == old(self).targ,
            final(self).size == old(self).size,
            final(self).kept@ == old(self).kept@,
            final(self).rest(old(sc).env(*lang)).len() == 0,
            final(self).phase == AllPhase::Completed,
    {
        let ghost env = sc.env(*lang);
        let ghost top0 = sc.cache.top();
        sc.cache.begin_search(&self.targ, self.size);
        let ghost top1 = sc.cache.top();
        if self.kept.len() > 0 {
            sc.cache.yield_term(&self.targ, self.size);
        }
        let ghost top2 = sc.cache.top();
        sc.cache.end_search();
        self.phase = AllPhase::Completed;
        self.heads = None;
        self.lams = None;
        proof {
            let top3 = sc.cache.top();
            assert(sc.cache.pending() =~= old(sc).cache.pending());
            assert forall|ty: Type, n: usize| #[trigger]
                recorded(top3, (ty, n)) == SearchResult::Uninhabited implies all_terms(
                env,
                ty,
                n as nat,
            ).len() == 0 by {
                if (ty, n) == (self.targ, self.size) {
                    if self.kept@.len() > 0 {
                        assert(recorded(top2, (ty, n)) == SearchResult::Inhabited);
                    }
                } else {
                    assert(recorded(top3, (ty, n)) == recorded(top2, (ty, n)));
                    assert(recorded(top2, (ty, n)) == recorded(top1, (ty, n)));
                    assert(recorded(top1, (ty, n)) == recorded(top0, (ty, n)));
                }
            }
            assert(sc.cache.scopes().drop_last() =~= old(sc).cache.scopes().drop_last());
            assert(self.kept@ + self.rest(env) =~= self.kept@);
        }
    }

    /// The next term of the search; `None` once every term has been handed
    /// out.
    pub fn next(&mut self, lang: &L, sc: &mut SearchContext<L>) -> (r: Option<Item<L::Semantics>>)
        requires
            old(sc).inv(*lang),
            old(self).wf(old(sc).env(*lang)),
        ensures
            final(sc).inv(*lang),
            final(sc).framed(*old(sc)),
            final(sc).env(*lang) == old(sc).env(*lang),
            final(self).wf(old(sc).env(*lang)),
            final(self).goal() == old(self).goal(),
            final(self).nodes() == old(self).nodes(),
            match r {
                Some(item) => {
                    &&& !(item.1 is Malformed)
                    &&& old(self).rest(old(sc).env(*lang)).len() > 0
                    &&& item == old(self).rest(old(sc).env(*lang))[0]
                    &&& final(self).rest(old(sc).env(*lang)) == old(self).rest(
                        old(sc).env(*lang),
                    ).skip(1)
                    &&& final(self).yielded() == old(self).yielded().push(item)
                },
                None => {
                    &&& old(self).rest(old(sc).env(*lang)).len() == 0
                    &&& final(self).rest(old(sc).env(*lang)).len() == 0
                    &&& final(self).yielded() == old(self).yielded()
                },
            },
        decreases old(self).rank(),
    {
        let ghost env = sc.env(*lang);
        let ghost total = all_terms(env, self.targ, self.size as nat);
        if self.phase == AllPhase::Start {
            if sc.cache.prune(&self.targ, self.size) {
                proof {
                    assert(recorded(sc.cache.top(), (self.targ, self.size))
                        == SearchResult::Uninhabited);
                    assert(total.len() == 0);
                }
                self.phase = AllPhase::Completed;
                proof {
                    assert(self.kept@ + self.rest(env) =~= total);
                }
                return None;
            }
            let heads = HeadVarsNode::new(self.targ.deep_clone(), self.size, Ghost(env));
            self.heads = Some(Box::new(heads));
            self.phase = AllPhase::HeadVars;
            proof {
                assert(self.kept@ =~= Seq::empty());
                assert(self.kept@ + self.rest(env) =~= self.rest(env));
            }
        }
        if self.phase == AllPhase::Completed {
            return None;
        }
        loop
            invariant_except_break
                self.phase == AllPhase::HeadVars || self.phase == AllPhase::Abstraction,
            invariant
                sc.inv(*lang),
                sc.framed(*old(sc)),
                sc.env(*lang) == env,
                env == old(sc).env(*lang),
                total == all_terms(env, self.targ, self.size as nat),
                self.wf(env),
                self.targ == old(self).targ,
                self.size == old(self).size,
                self.kept@ == old(self).kept@,
                self.rest(env) == old(self).rest(env),
            ensures
                self.phase == AllPhase::Completed,
                self.rest(env).len() == 0,
            decreases self.phases_left(), self.waiting(env),
        {
            let ghost before = *self;
            if self.phase == AllPhase::HeadVars {
                let mut h = self.heads.take().unwrap();
                let ghost h_rest = h.rest(env);
                let ghost lam_part = lam_terms(env, self.targ, self.size as nat);
                let r = h.next(lang, sc);
                match r {
                    Some(item) => {
                        proof {
                            assert((h_rest + lam_part)[0] == item);
                            assert((h_rest + lam_part).skip(1) =~= h.rest(env) + lam_part);
                        }
                        self.heads = Some(h);
                        if SearchContext::<L>::seen(lang, &self.kept, &item.1) {
                            proof {
                                assert(self.rest(env) == before.rest(env));
                            }
                        } else {
                            self.kept.push(SearchContext::<L>::copy_item(lang, &item));
                            proof {
                                assert(before.rest(env) =~= seq![item] + self.rest(env));
                                assert(self.kept@ + self.rest(env) =~= before.kept@
                                    + before.rest(env));
                                assert(before.rest(env).skip(1) =~= self.rest(env));
                            }
                            self.note_yield(lang, sc, Ghost(env));
                            return Some(item);
                        }
                    },
                    None => {
                        proof {
                            assert(h_rest + lam_part =~= lam_part);
                        }
                        match &self.targ {
                            Type::Fun(arg, ret) => {
                                if self.size >= 1 {
                                    proof {
                                        sc.vgen.lemma_fresh_free();
                                    }
                                    let v = sc.vgen.peek();
                                    let body = AllNode::new(
                                        ret.deep_clone(),
                                        self.size - 1,
                                        Ghost(env.under(**arg)),
                                    );
                                    let l = AbstractionNode {
                                        targ: self.targ.deep_clone(),
                                        size: self.size,
                                        v,
                                        body: Box::new(body),
                                        saved: Some(Scope::new()),
                                    };
                                    self.lams = Some(Box::new(l));
                                    self.phase = AllPhase::Abstraction;
                                    proof {
                                        assert(self.lams->0.rest(env) == lam_part);
                                    }
                                } else {
                                    proof {
                                        assert(self.kept@ + Seq::<Item<L::Semantics>>::empty()
                                            =~= self.kept@);
                                    }
                                    self.finish(lang, sc);
                                    break;
                                }
                            },
                            Type::Ground(_) => {
                                proof {
                                    assert(self.kept@ + Seq::<Item<L::Semantics>>::empty()
                                        =~= self.kept@);
                                }
                                self.finish(lang, sc);
                                break;
                            },
                        }
                    },
                }
            } else {
                let mut l = self.lams.take().unwrap();
                let ghost l_rest = l.rest(env);
                let r = l.next(lang, sc);
                match r {
                    Some(item) => {
                        proof {
                            assert(l_rest.skip(1) =~= l.rest(env));
                        }
                        self.lams = Some(l);
                        if SearchContext::<L>::seen(lang, &self.kept, &item.1) {
                            proof {
                                assert(self.rest(env) == before.rest(env));
                            }
                        } else {
                            self.kept.push(SearchContext::<L>::copy_item(lang, &item));
                            proof {
                                assert(before.rest(env) =~= seq![item] + self.rest(env));
                                assert(self.kept@ + self.rest(env) =~= before.kept@
                                    + before.rest(env));
                                assert(before.rest(env).skip(1) =~= self.rest(env));
                            }
                            self.note_yield(lang, sc, Ghost(env));
                            return Some(item);
                        }
                    },
                    None => {
                        proof {
                            assert(self.kept@ + Seq::<Item<L::Semantics>>::empty() =~= self.kept@);
                        }
                        self.finish(lang, sc);
                        break;
                    },
                }
            }
        }
        None
    }

    /// How many phases of the search are still to come.
    pub closed spec fn phases_left(self) -> nat {
        match self.phase {
            AllPhase::Start => 3,
            AllPhase::HeadVars => 2,
            AllPhase::Abstraction => 1,
            AllPhase::Completed => 0,
        }
    }

    /// How many raw terms the search under way below this one has left.
    pub closed spec fn waiting(self, env: Env<L>) -> nat {
        if self.phase == AllPhase::HeadVars {
            match self.heads {
                Some(h) => h.rest(env).len(),
                None => 0,
            }
        } else if self.phase == AllPhase::Abstraction {
            match self.lams {
                Some(l) => l.rest(env).len(),
                None => 0,
            }
        } else {
            0
        }
    }

    /// Tells the cache that the search has a term: from now on the innermost
    /// scope records the type and the size of this search as inhabited, and
    /// nothing else of the state differs.
    fn note_yield(&self, lang: &L, sc: &mut SearchContext<L>, Ghost(env): Ghost<Env<L>>)
        requires
            old(sc).inv(*lang),
            env == old(sc).env(*lang),
        ensures
            final(sc).inv(*lang),
            final(sc).framed(*old(sc)),
            final(sc).held_cache().top() == old(sc).held_cache().top().insert(
                (self.targ, self.size),
                SearchResult::Inhabited,
            ),
    {
        let ghost top0 = sc.cache.top();
        sc.cache.yield_term(&self.targ, self.size);
        proof {
            let top1 = sc.cache.top();
            assert forall|ty: Type, n: usize| #[trigger]
                recorded(top1, (ty, n)) == SearchResult::Uninhabited implies all_terms(
                env,
                ty,
                n as nat,
            ).len() == 0 by {
                if (ty, n) != (self.targ, self.size) {
                    assert(recorded(top1, (ty, n)) == recorded(top0, (ty, n)));
                }
            }
            assert(sc.cache.scopes().drop_last() =~= old(sc).cache.scopes().drop_last());
        }
    }
}

impl<L: Language> HeadVarsNode<L> {
    /// An upper bound of the depth of the generators below this one.
    pub closed spec fn rank(self) -> nat {
        4 * self.size as nat + 2
    }

    /// The number of the head that is tried next.
    pub closed spec fn idx(self) -> nat {
        self.in_ctxt as nat + self.in_args as nat
    }

    /// The terms that are still to come, next one first.
    pub closed spec fn rest(self, env: Env<L>) -> Seq<Item<L::Semantics>>
        decreases self,
    {
        (match self.cur {
            Some(c) => c.rest(env),
            None => Seq::empty(),
        }) + head_terms(env, self.targ, self.size as nat, self.idx())
    }

    /// The generator is in a state that `next` can work from in `env`.
    pub closed spec fn wf(self, env: Env<L>) -> bool
        decreases self,
    {
        &&& self.in_ctxt <= env.cx().len()
        &&& self.in_args <= env.vars.len()
        &&& self.in_args > 0 ==> self.in_ctxt == env.cx().len()
        &&& match self.cur {
            Some(c) => c.wf(env) && c.targ == self.targ && c.size + 1 == self.size,
            None => true,
        }
    }

    /// A generator that has tried no head yet.
    fn new(targ: Type, size: usize, Ghost(env): Ghost<Env<L>>) -> (node: Self)
        ensures
            node.wf(env),
            node.targ == targ,
            node.size == size,
            node.rest(env) == head_terms(env, targ, size as nat, 0),
    {
        let node = HeadVarsNode { targ, size, in_ctxt: 0, in_args: 0, cur: None };
        proof {
            assert(node.rest(env) =~= head_terms(env, targ, size as nat, 0));
        }
        node
    }

    /// The next term of the search; `None` once every term has been handed
    /// out.
    fn next(&mut self, lang: &L, sc: &mut SearchContext<L>) -> (r: Option<Item<L::Semantics>>)
        requires
            old(sc).inv(*lang),
            old(self).wf(old(sc).env(*lang)),
        ensures
            final(sc).inv(*lang),
            final(sc).framed(*old(sc)),
            final(self).wf(old(sc).env(*lang)),
            final(self).targ == old(self).targ,
            final(self).size == old(self).size,
            match r {
                Some(item) => {
                    &&& !(item.1 is Malformed)
                    &&& old(self).rest(old(sc).env(*lang)).len() > 0
                    &&& item == old(self).rest(old(sc).env(*lang))[0]
                    &&& final(self).rest(old(sc).env(*lang)) == old(self).rest(
                        old(sc).env(*lang),
                    ).skip(1)
                },
                None => {
                    &&& old(self).rest(old(sc).env(*lang)).len() == 0
                    &&& final(self).rest(old(sc).env(*lang)).len() == 0
                },
            },
        decreases old(self).rank(),
    {
        let ghost env = sc.env(*lang);
        loop
            invariant
                sc.inv(*lang),
                sc.framed(*old(sc)),
                sc.env(*lang) == env,
                env == old(sc).env(*lang),
                self.wf(env),
                self.targ == old(self).targ,
                self.size == old(self).size,
                self.rest(env) == old(self).rest(env),
            decreases
                    env.heads().len() - self.idx(),
                    match self.cur {
                        Some(c) => c.rest(env).len() + 1,
                        None => 0,
                    },
        {
            let ghost tail = head_terms(env, self.targ, self.size as nat, self.idx());
            match self.cur.take() {
                Some(mut c) => {
                    let ghost c_rest = c.rest(env);
                    let r = c.next(lang, sc);
                    match r {
                        Some(item) => {
                            self.cur = Some(c);
                            proof {
                                assert((c_rest + tail)[0] == item);
                                assert((c_rest + tail).skip(1) =~= c.rest(env) + tail);
                            }
                            return Some(item);
                        },
                        None => {
                            proof {
                                assert(c_rest + tail =~= Seq::<Item<L::Semantics>>::empty() + tail);
                            }
                        },
                    }
                },
                None => {},
            }
            let ghost i = self.idx();
            let (h, ty) = if self.in_ctxt < sc.ctxt.len() {
                let e = sc.ctxt.entry(self.in_ctxt);
                let found = (e.0, e.1.ty.deep_clone());
                proof {
                    assert(env.heads()[i as int] == found);
                }
                self.in_ctxt += 1;
                found
            } else if self.in_args < sc.args.len() {
                let found = (sc.args[self.in_args].0, sc.args[self.in_args].1.deep_clone());
                proof {
                    assert(env.heads()[i as int] == found);
                }
                self.in_args += 1;
                found
            } else {
                proof {
                    assert(self.rest(env) =~= Seq::<Item<L::Semantics>>::empty());
                }
                return None;
            };
            proof {
                assert(tail == one_head(env, self.targ, self.size as nat, i) + head_terms(
                    env,
                    self.targ,
                    self.size as nat,
                    i + 1,
                ));
            }
            if self.size == 0 || !produces(&ty, &self.targ) {
                proof {
                    assert(self.rest(env) =~= tail);
                }
                continue;
            }
            let a = lang.svar(h, &ty);
            if a.malformed() {
                proof {
                    assert(self.rest(env) =~= tail);
                }
                continue;
            }
            let node = ArgToNode::new(
                self.targ.deep_clone(),
                Term::var(h),
                a,
                ty,
                self.size - 1,
                Ghost(env),
            );
            self.cur = Some(Box::new(node));
        }
    }
}

impl<L: Language> ArgToNode<L> {
    /// An upper bound of the depth of the generators below this one.
    pub closed spec fn rank(self) -> nat {
        4 * self.size as nat + 4
    }

    /// The terms that are still to come, next one first.
    pub closed spec fn rest(self, env: Env<L>) -> Seq<Item<L::Semantics>>
        decreases self,
    {
        if self.state == ArgPhase::Start {
            arg_to(env, self.targ, self.pt, self.pa, self.l_ty, self.size as nat)
        } else if self.state == ArgPhase::Arguments {
            match self.l_ty {
                Type::Fun(arg, ret) => (match self.cont {
                    Some(c) => c.rest(env),
                    None => Seq::empty(),
                }) + with_args(
                    env,
                    self.targ,
                    self.pt,
                    self.pa,
                    *ret,
                    self.size as nat,
                    self.n as nat,
                    match self.arg_gen {
                        Some(g) => g.rest(env),
                        None => Seq::empty(),
                    },
                ) + splits(
                    env,
                    self.targ,
                    self.pt,
                    self.pa,
                    *arg,
                    *ret,
                    self.size as nat,
                    self.n as nat + 1,
                ),
                Type::Ground(_) => Seq::empty(),
            }
        } else {
            Seq::empty()
        }
    }

    /// The generator is in a state that `next` can work from in `env`.
    pub closed spec fn wf(self, env: Env<L>) -> bool
        decreases self,
    {
        &&& !(self.pa is Malformed)
        &&& if self.state == ArgPhase::Arguments {
            match self.l_ty {
                Type::Fun(arg, ret) => {
                    &&& 1 <= self.n < self.size
                    &&& match self.arg_gen {
                        Some(g) => g.wf(env) && g.targ == *arg && g.size == self.n,
                        None => false,
                    }
                    &&& match self.cont {
                        Some(c) => c.wf(env) && c.targ == self.targ && c.size + self.n + 1
                            == self.size,
                        None => true,
                    }
                },
                Type::Ground(_) => false,
            }
        } else {
            self.arg_gen is None && self.cont is None
        }
    }

    /// A generator that has given `pt` no argument yet.
    fn new(
        targ: Type,
        pt: Term,
        pa: Analysis<L::Semantics>,
        l_ty: Type,
        size: usize,
        Ghost(env): Ghost<Env<L>>,
    ) -> (node: Self)
        requires
            !(pa is Malformed),
        ensures
            node.wf(env),
            node.targ == targ,
            node.size == size,
            node.rest(env) == arg_to(env, targ, pt, pa, l_ty, size as nat),
    {
        ArgToNode { targ, pt, pa, l_ty, size, state: ArgPhase::Start, n: 0, arg_gen: None, cont: None }
    }

    /// The next term of the search; `None` once every term has been handed
    /// out.
    fn next(&mut self, lang: &L, sc: &mut SearchContext<L>) -> (r: Option<Item<L::Semantics>>)
        requires
            old(sc).inv(*lang),
            old(self).wf(old(sc).env(*lang)),
        ensures
            final(sc).inv(*lang),
            final(sc).framed(*old(sc)),
            final(self).wf(old(sc).env(*lang)),
            final(self).targ == old(self).targ,
            final(self).size == old(self).size,
            match r {
                Some(item) => {
                    &&& !(item.1 is Malformed)
                    &&& old(self).rest(old(sc).env(*lang)).len() > 0
                    &&& item == old(self).rest(old(sc).env(*lang))[0]
                    &&& final(self).rest(old(sc).env(*lang)) == old(self).rest(
                        old(sc).env(*lang),
                    ).skip(1)
                },
                None => {
                    &&& old(self).rest(old(sc).env(*lang)).len() == 0
                    &&& final(self).rest(old(sc).env(*lang)).len() == 0
                },
            },
        decreases old(self).rank(),
    {
        let ghost env = sc.env(*lang);
        if self.state == ArgPhase::Start {
            if self.l_ty.same(&self.targ) {
                self.state = ArgPhase::Completed;
                if self.size == 0 {
                    proof {
                        assert(old(self).rest(env).skip(1) =~= self.rest(env));
                    }
                    return Some((self.pt.deep_clone(), lang.copy_analysis(&self.pa)));
                }
                return None;
            }
            if self.size <= 1 {
                self.state = ArgPhase::Completed;
                return None;
            }
            if sc.cache.prune_arg(&self.targ, &self.l_ty, self.size) == SearchResult::Uninhabited {
                proof {
                    lemma_prune_arg_sound(
                        env,
                        sc.cache.top(),
                        self.targ,
                        self.pt,
                        self.pa,
                        self.l_ty,
                        self.size as nat,
                    );
                }
                self.state = ArgPhase::Completed;
                return None;
            }
            match &self.l_ty {
                Type::Ground(_) => {
                    self.state = ArgPhase::Completed;
                    return None;
                },
                Type::Fun(arg, ret) => {
                    let g = AllNode::new(arg.deep_clone(), 1, Ghost(env));
                    self.arg_gen = Some(Box::new(g));
                    self.n = 1;
                    self.state = ArgPhase::Arguments;
                    proof {
                        let first = with_args(
                            env,
                            self.targ,
                            self.pt,
                            self.pa,
                            **ret,
                            self.size as nat,
                            1,
                            all_terms(env, **arg, 1),
                        );
                        let later = splits(
                            env,
                            self.targ,
                            self.pt,
                            self.pa,
                            **arg,
                            **ret,
                            self.size as nat,
                            2,
                        );
                        assert(self.rest(env) =~= first + later);
                    }
                },
            }
        }
        if self.state != ArgPhase::Arguments {
            return None;
        }
        loop
            invariant
                sc.inv(*lang),
                sc.framed(*old(sc)),
                sc.env(*lang) == env,
                env == old(sc).env(*lang),
                self.wf(env),
                self.state == ArgPhase::Arguments,
                self.targ == old(self).targ,
                self.size == old(self).size,
                self.rest(env) == old(self).rest(env),
            decreases
                    self.size - self.n,
                    match self.arg_gen {
                        Some(g) => g.rest(env).len(),
                        None => 0,
                    },
                    match self.cont {
                        Some(c) => c.rest(env).len() + 1,
                        None => 0,
                    },
        {
            let ghost before = *self;
            let ghost (arg_ty, ret_ty) = match before.l_ty {
                Type::Fun(arg, ret) => (*arg, *ret),
                Type::Ground(_) => (before.l_ty, before.l_ty),
            };
            let ghost g_rest = before.arg_gen->0.rest(env);
            let ghost args_part = with_args(
                env,
                self.targ,
                self.pt,
                self.pa,
                ret_ty,
                self.size as nat,
                self.n as nat,
                g_rest,
            );
            let ghost later = splits(
                env,
                self.targ,
                self.pt,
                self.pa,
                arg_ty,
                ret_ty,
                self.size as nat,
                self.n as nat + 1,
            );
            match self.cont.take() {
                Some(mut c) => {
                    let ghost c_rest = c.rest(env);
                    let r = c.next(lang, sc);
                    match r {
                        Some(item) => {
                            self.cont = Some(c);
                            proof {
                                assert((c_rest + args_part + later)[0] == item);
                                assert((c_rest + args_part + later).skip(1) =~= c.rest(env)
                                    + args_part + later);
                            }
                            return Some(item);
                        },
                        None => {
                            proof {
                                assert(c_rest + args_part + later =~= Seq::<
                                    Item<L::Semantics>,
                                >::empty() + args_part + later);
                            }
                        },
                    }
                },
                None => {},
            }
            let mut g = self.arg_gen.take().unwrap();
            let found = g.next(lang, sc);
            match found {
                Some(a) => {
                    self.arg_gen = Some(g);
                    let ret = match &self.l_ty {
                        Type::Fun(_, ret) => ret.deep_clone(),
                        Type::Ground(_) => unreached(),
                    };
                    let pa = lang.copy_analysis(&self.pa);
                    let an = lang.sapp(pa, lang.copy_analysis(&a.1), &ret);
                    proof {
                        assert(g_rest[0] == a);
                        assert(args_part == extend(
                            env,
                            self.targ,
                            self.pt,
                            self.pa,
                            ret_ty,
                            self.size as nat,
                            self.n as nat,
                            a,
                        ) + with_args(
                            env,
                            self.targ,
                            self.pt,
                            self.pa,
                            ret_ty,
                            self.size as nat,
                            self.n as nat,
                            g_rest.skip(1),
                        ));
                    }
                    if !an.malformed() {
                        let node = ArgToNode::new(
                            self.targ.deep_clone(),
                            Term::app(self.pt.deep_clone(), a.0),
                            an,
                            ret,
                            self.size - self.n - 1,
                            Ghost(env),
                        );
                        self.cont = Some(Box::new(node));
                    }
                    proof {
                        assert(self.rest(env) =~= before.rest(env));
                    }
                },
                None => {
                    proof {
                        assert(args_part =~= Seq::<Item<L::Semantics>>::empty());
                    }
                    if self.n + 1 < self.size {
                        self.n += 1;
                        let arg = match &self.l_ty {
                            Type::Fun(arg, _) => arg.deep_clone(),
                            Type::Ground(_) => unreached(),
                        };
                        let fresh = AllNode::new(arg, self.n, Ghost(env));
                        self.arg_gen = Some(Box::new(fresh));
                        proof {
                            assert(self.rest(env) =~= later);
                            assert(before.rest(env) =~= later);
                        }
                    } else {
                        self.state = ArgPhase::Completed;
                        proof {
                            assert(later =~= Seq::<Item<L::Semantics>>::empty());
                            assert(before.rest(env) =~= Seq::<Item<L::Semantics>>::empty());
                        }
                        return None;
                    }
                },
            }
        }
    }
}

impl<L: Language> AbstractionNode<L> {
    /// An upper bound of the depth of the generators below this one.
    pub closed spec fn rank(self) -> nat {
        4 * self.size as nat + 2
    }

    /// The terms that are still to come, next one first.
    pub closed spec fn rest(self, env: Env<L>) -> Seq<Item<L::Semantics>>
        decreases self,
    {
        match self.targ {
            Type::Fun(arg, ret) => wrap(
                env.lang,
                self.v,
                self.targ,
                self.body.rest(env.under(*arg)),
            ),
            Type::Ground(_) => Seq::empty(),
        }
    }

    /// The generator is in a state that `next` can work from in `env`.
    pub closed spec fn wf(self, env: Env<L>) -> bool
        decreases self,
    {
        match self.targ {
            Type::Fun(arg, ret) => {
                &&& self.size >= 1
                &&& self.v == env.binder()
                &&& self.body.wf(env.under(*arg))
                &&& self.body.targ == *ret
                &&& self.body.size + 1 == self.size
                &&& match self.saved {
                    Some(s) => cache_sound(env.under(*arg), s.model()),
                    None => false,
                }
            },
            Type::Ground(_) => false,
        }
    }

    /// The next term of the search; `None` once every term has been handed
    /// out.
    fn next(&mut self, lang: &L, sc: &mut SearchContext<L>) -> (r: Option<Item<L::Semantics>>)
        requires
            old(sc).inv(*lang),
            old(self).wf(old(sc).env(*lang)),
        ensures
            final(sc).inv(*lang),
            final(sc).framed(*old(sc)),
            final(self).wf(old(sc).env(*lang)),
            final(self).targ == old(self).targ,
            final(self).size == old(self).size,
            match r {
                Some(item) => {
                    &&& !(item.1 is Malformed)
                    &&& old(self).rest(old(sc).env(*lang)).len() > 0
                    &&& item == old(self).rest(old(sc).env(*lang))[0]
                    &&& final(self).rest(old(sc).env(*lang)) == old(self).rest(
                        old(sc).env(*lang),
                    ).skip(1)
                },
                None => {
                    &&& old(self).rest(old(sc).env(*lang)).len() == 0
                    &&& final(self).rest(old(sc).env(*lang)).len() == 0
                },
            },
        decreases old(self).rank(),
    {
        let ghost env = sc.env(*lang);
        let arg = match &self.targ {
            Type::Fun(arg, _) => arg.deep_clone(),
            Type::Ground(_) => unreached(),
        };
        let ghost inner = env.under(arg);
        loop
            invariant
                sc.inv(*lang),
                sc.framed(*old(sc)),
                sc.env(*lang) == env,
                env == old(sc).env(*lang),
                inner == env.under(arg),
                self.targ matches Type::Fun(a, _) && *a == arg,
                self.wf(env),
                self.targ == old(self).targ,
                self.size == old(self).size,
                self.rest(env) == old(self).rest(env),
            decreases self.body.rest(inner).len(),
        {
            let ghost before = *self;
            let ghost outer = *sc;
            let ghost b_rest = self.body.rest(inner);
            let v = self.v;
            proof {
                sc.vgen.lemma_fresh_free();
                lemma_decl_names_push(sc.args@, (v, arg));
            }
            sc.args.push((v, arg.deep_clone()));
            sc.vgen.retire(v);
            sc.cache.resume(self.saved.take().unwrap());
            proof {
                assert(sc.env(*lang) == inner);
                assert(sc.vgen@ =~= decl_names(inner.cx()).union(decl_names(sc.args@)));
            }
            let ghost entered = *sc;
            let r = self.body.next(lang, sc);
            self.saved = Some(sc.cache.suspend());
            sc.vgen.freshen(v);
            sc.args.pop();
            proof {
                assert(sc.args@ =~= outer.args@);
                assert(sc.vgen@ =~= outer.vgen@);
                assert(entered.cache.scopes().drop_last() =~= outer.cache.scopes());
                assert(sc.cache.scopes() =~= outer.cache.scopes());
            }
            match r {
                None => {
                    return None;
                },
                Some(item) => {
                    proof {
                        assert(b_rest[0] == item);
                        assert(wrap(*lang, v, self.targ, b_rest) == wrap_one(
                            *lang,
                            v,
                            self.targ,
                            item,
                        ) + wrap(*lang, v, self.targ, b_rest.skip(1)));
                    }
                    let a = lang.slam(v, item.1, &self.targ);
                    if !a.malformed() {
                        proof {
                            assert(before.rest(env).skip(1) =~= self.rest(env));
                        }
                        return Some((Term::lam(v, item.0), a));
                    }
                    proof {
                        assert(before.rest(env) =~= self.rest(env));
                    }
                },
            }
        }
    }
}

/// A lazy sequence of the terms of a type and a size: each call of `next`
/// searches on until one term is found or the search is over.
pub struct Enumerator<'a, L: Language> {
    lang: &'a L,
    search_ctxt: SearchContext<L>,
    root: AllNode<L>,
}

impl<'a, L: Language> Enumerator<'a, L> {
    /// Where the search takes place.
    pub closed spec fn env(self) -> Env<L> {
        self.search_ctxt.env(*self.lang)
    }

    /// The terms that are still to come, next one first.
    pub closed spec fn remaining(self) -> Seq<Item<L::Semantics>> {
        self.root.rest(self.env())
    }

    /// The terms that were handed out, first one first.
    pub closed spec fn yielded(self) -> Seq<Item<L::Semantics>> {
        self.root.yielded()
    }

    /// The cache as it stands.
    pub closed spec fn held_cache(self) -> Cache {
        self.search_ctxt.held_cache()
    }

    /// The type of the terms that are enumerated.
    pub closed spec fn target(self) -> Type {
        self.root.goal()
    }

    /// The number of nodes of the terms that are enumerated.
    pub closed spec fn size(self) -> usize {
        self.root.nodes()
    }

    /// The enumerator is in a state that `next` can work from.
    pub closed spec fn wf(self) -> bool {
        &&& self.search_ctxt.inv(*self.lang)
        &&& self.root.wf(self.env())
    }

    /// What was handed out and what is still to come are together the
    /// terms of the type and the size in the scope of the enumerator.
    pub proof fn lemma_enumerates(self)
        requires
            self.wf(),
        ensures
            self.yielded() + self.remaining() == all_terms(
                self.env(),
                self.target(),
                self.size() as nat,
            ),
    {
    }

    /// The next term, as an unshared copy, with its analysis; `None` once
    /// every term has been handed out. The term is beta-normal and has the
    /// size that is enumerated. Where no name is declared twice, it has the
    /// type that is enumerated, and its analysis is what the language makes
    /// of it.
    pub fn next(&mut self) -> (r: Option<Item<L::Semantics>>)
        requires
            old(self).wf(),
        ensures
            final(self).wf(),
            final(self).env() == old(self).env(),
            final(self).target() == old(self).target(),
            final(self).size() == old(self).size(),
            match r {
                Some(item) => {
                    &&& !(item.1 is Malformed)
                    &&& item.0.is_normal()
                    &&& item.0.size() == old(self).size()
                    &&& scope_ok(old(self).env(), old(self).size() as nat) ==> check(
                        old(self).env().cx(),
                        old(self).env().vars,
                        item.0,
                        old(self).target(),
                    ) && item.1 == analysis(old(self).env(), item.0, old(self).target())
                    &&& old(self).remaining().len() > 0
                    &&& item == old(self).remaining()[0]
                    &&& final(self).remaining() == old(self).remaining().skip(1)
                    &&& final(self).yielded() == old(self).yielded().push(item)
                },
                None => {
                    &&& old(self).remaining().len() == 0
                    &&& final(self).remaining().len() == 0
                    &&& final(self).yielded() == old(self).yielded()
                },
            },
            final(self).yielded().len() <= usize::MAX,
            cache_sound(final(self).env(), final(self).held_cache().top()),
            final(self).held_cache().wf(),
    {
        let r = self.root.next(self.lang, &mut self.search_ctxt);
        proof {
            assert(self.root.kept@.len() == self.root.kept.len());
            if r is Some {
                let all = all_terms(old(self).env(), old(self).target(), old(self).size() as nat);
                let at = old(self).yielded().len() as int;
                assert(all == old(self).yielded() + old(self).remaining());
                assert(all[at] == old(self).remaining()[0]);
                lemma_yields_normal(old(self).env(), old(self).target(), old(self).size() as nat, at);
                lemma_yields_size(old(self).env(), old(self).target(), old(self).size() as nat, at);
                if scope_ok(old(self).env(), old(self).size() as nat) {
                    lemma_yields_typed(
                        old(self).env(),
                        old(self).target(),
                        old(self).size() as nat,
                        at,
                    );
                    lemma_yields_analysis(
                        old(self).env(),
                        old(self).target(),
                        old(self).size() as nat,
                        at,
                    );
                }
            }
        }
        r
    }

    /// Ends the enumeration and hands out the inhabitation cache, for a later
    /// search in the same scope. What it holds as uninhabited has no term.
    pub fn cache(self) -> (c: Cache)
        requires
            self.wf(),
        ensures
            c == self.held_cache(),
            c.wf(),
            cache_sound(self.env(), c.top()),
    {
        self.search_ctxt.into_cache()
    }
}

/// The enumeration of the terms of type `targ` and exactly `size` nodes in
/// the scope `vars`, with an empty cache.
pub fn search<'a, L: Language>(lang: &'a L, vars: Vec<VarDecl>, targ: &Type, size: usize) -> (e:
    Enumerator<'a, L>)
    ensures
        e.wf(),
        e.env() == (Env { lang: *lang, vars: vars@ }),
        e.target() == *targ,
        e.size() == size,
        e.remaining() == all_terms(e.env(), *targ, size as nat),
        e.yielded().len() == 0,
{
    search_with_cache(lang, vars, targ, size, Cache::new())
}

/// The enumeration of the terms of type `targ` and exactly `size` nodes in
/// the scope `vars`, with a cache from an earlier search in the same scope.
pub fn search_with_cache<'a, L: Language>(
    lang: &'a L,
    vars: Vec<VarDecl>,
    targ: &Type,
    size: usize,
    cache: Cache,
) -> (e: Enumerator<'a, L>)
    requires
        cache.wf(),
        cache_sound(Env { lang: *lang, vars: vars@ }, cache.top()),
    ensures
        e.wf(),
        e.env() == (Env { lang: *lang, vars: vars@ }),
        e.target() == *targ,
        e.size() == size,
        e.remaining() == all_terms(e.env(), *targ, size as nat),
        e.yielded().len() == 0,
        e.held_cache() == cache,
{
    let search_ctxt = SearchContext::new(lang, vars, cache);
    let root = AllNode::new(targ.deep_clone(), size, Ghost(search_ctxt.env(*lang)));
    Enumerator { lang, search_ctxt, root }
}

} // verus!
