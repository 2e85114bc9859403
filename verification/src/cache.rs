//! The inhabitation cache: what is known, in each binder scope, of whether a
//! type has a term of a size.

use crate::assoc::{find, lemma_find_at, lemma_find_none, lemma_find_push, lemma_find_update};
use crate::fxmap::{fx_get, fx_insert, fx_new, fx_remove};
use crate::types::Type;
use rustc_hash::FxHashMap;
use vstd::prelude::*;

verus! {

/// What is known of a search.
#[derive(Debug, Default, Clone, Copy, PartialEq, Eq, Structural)]
pub enum SearchResult {
    /// Nothing yet.
    #[default]
    Unknown,
    /// A term was found.
    Inhabited,
    /// The search ended without a term.
    Uninhabited,
}

/// A search: the type that is looked for and the size.
pub type Search = (Type, usize);

/// The results that were recorded for the types of one size.
type Bucket = Vec<(Type, SearchResult)>;

/// The results of one scope, by size.
type PathDict = FxHashMap<usize, Bucket>;

/// A stack of per-scope records of search results, and the searches that
/// have begun and not ended.
pub struct Cache {
    paths: Vec<PathDict>,
    searches: Vec<Search>,
}

/// The record of one scope, taken out of a cache for the time that the scope
/// is not the innermost one.
pub struct Scope {
    dict: PathDict,
}

impl Scope {
    /// The results that the record holds, by search.
    pub closed spec fn model(self) -> Map<Search, SearchResult> {
        dict_model(self.dict)
    }

    /// A record that holds nothing.
    pub fn new() -> (s: Scope)
        ensures
            s.model() == Map::<Search, SearchResult>::empty(),
    {
        let d: PathDict = fx_new();
        proof {
            assert(dict_model(d) =~= Map::<Search, SearchResult>::empty());
        }
        Scope { dict: d }
    }
}

/// What `scope` holds for `search`; `Unknown` where it holds nothing.
pub open spec fn recorded(scope: Map<Search, SearchResult>, search: Search) -> SearchResult {
    if scope.contains_key(search) {
        scope[search]
    } else {
        SearchResult::Unknown
    }
}

/// Both an argument and what follows it are needed: the results of the two
/// searches taken together.
pub open spec fn both(arg: SearchResult, rest: SearchResult) -> SearchResult {
    if arg == SearchResult::Uninhabited || rest == SearchResult::Uninhabited {
        SearchResult::Uninhabited
    } else if arg == SearchResult::Inhabited && rest == SearchResult::Inhabited {
        SearchResult::Inhabited
    } else {
        SearchResult::Unknown
    }
}

/// One of two ways is enough: the results of the two taken together.
pub open spec fn either(a: SearchResult, b: SearchResult) -> SearchResult {
    if a == SearchResult::Inhabited || b == SearchResult::Inhabited {
        SearchResult::Inhabited
    } else if a == SearchResult::Unknown || b == SearchResult::Unknown {
        SearchResult::Unknown
    } else {
        SearchResult::Uninhabited
    }
}

/// What `scope` tells of a chain of arguments: whether a head of type `l_ty`
/// can be given arguments that take `size` nodes in all, an application node
/// counted with each, so that the whole has type `targ`.
pub open spec fn prune_arg_spec(
    scope: Map<Search, SearchResult>,
    targ: Type,
    l_ty: Type,
    size: nat,
) -> SearchResult
    decreases size, 1nat, 0nat,
{
    if size == 0 && l_ty == targ {
        SearchResult::Inhabited
    } else if size == 0 || l_ty == targ {
        SearchResult::Uninhabited
    } else {
        match l_ty {
            Type::Fun(arg, ret) => prune_splits_spec(scope, targ, *arg, *ret, size, 1),
            Type::Ground(_) => SearchResult::Uninhabited,
        }
    }
}

/// [`prune_arg_spec`] over the sizes from `n` on that the first argument can
/// have.
pub open spec fn prune_splits_spec(
    scope: Map<Search, SearchResult>,
    targ: Type,
    arg: Type,
    ret: Type,
    size: nat,
    n: nat,
) -> SearchResult
    decreases size, 0nat, size - n,
{
    if n >= size || n > usize::MAX {
        SearchResult::Uninhabited
    } else {
        either(
            both(
                recorded(scope, (arg, n as usize)),
                prune_arg_spec(scope, targ, ret, (size - n - 1) as nat),
            ),
            prune_splits_spec(scope, targ, arg, ret, size, n + 1),
        )
    }
}

/// The results that a scope's record holds, by search.
pub closed spec fn dict_model(d: PathDict) -> Map<Search, SearchResult> {
    Map::new(
        |s: Search| d@.contains_key(s.1) && find(d@[s.1]@, s.0) is Some,
        |s: Search| find(d@[s.1]@, s.0).unwrap(),
    )
}

/// What a scope's record holds for a search.
fn dict_get(d: &PathDict, targ: &Type, size: usize) -> (r: SearchResult)
    ensures
        r == recorded(dict_model(*d), (*targ, size)),
{
    match fx_get(d, size) {
        Some(bucket) => {
            let mut i: usize = 0;
            while i < bucket.len()
                invariant
                    i <= bucket.len(),
                    d@.contains_key(size),
                    *bucket == d@[size],
                    forall|j: int| 0 <= j < i ==> bucket@[j].0 != *targ,
                decreases bucket.len() - i,
            {
                if bucket[i].0.same(targ) {
                    proof {
                        lemma_find_at(bucket@, *targ, i as int);
                    }
                    return bucket[i].1;
                }
                i += 1;
            }
            proof {
                lemma_find_none(bucket@, *targ);
            }
            SearchResult::Unknown
        },
        None => SearchResult::Unknown,
    }
}

/// Records `result` for a search in a scope's record.
fn dict_set(d: &mut PathDict, targ: &Type, size: usize, result: SearchResult)
    ensures
        dict_model(*final(d)) == dict_model(*old(d)).insert((*targ, size), result),
{
    let mut bucket: Bucket = match fx_remove(d, size) {
        Some(b) => b,
        None => Vec::new(),
    };
    let ghost before = bucket@;
    let mut i: usize = 0;
    let mut found = false;
    while i < bucket.len()
        invariant_except_break
            !found,
        invariant
            i <= bucket.len(),
            bucket@ == before,
            forall|j: int| 0 <= j < i ==> bucket@[j].0 != *targ,
        ensures
            i <= bucket.len(),
            bucket@ == before,
            forall|j: int| 0 <= j < i ==> bucket@[j].0 != *targ,
            found ==> i < bucket.len() && bucket@[i as int].0 == *targ,
            !found ==> i == bucket.len(),
        decreases bucket.len() - i,
    {
        if bucket[i].0.same(targ) {
            found = true;
            break;
        }
        i += 1;
    }
    if found {
        bucket.set(i, (targ.deep_clone(), result));
    } else {
        bucket.push((targ.deep_clone(), result));
    }
    proof {
        assert forall|q: Type| #[trigger] find(bucket@, q) == (if q == *targ {
            Some(result)
        } else {
            find(before, q)
        }) by {
            if found {
                lemma_find_update(before, i as int, *targ, result, q);
            } else {
                lemma_find_push(before, *targ, result, q);
                lemma_find_none(before, *targ);
            }
        }
    }
    fx_insert(d, size, bucket);
    proof {
        let old_m = dict_model(*old(d));
        let new_m = dict_model(*d);
        assert forall|s: Search| #[trigger]
            new_m.contains_key(s) == old_m.insert((*targ, size), result).contains_key(s) by {
            if s.1 == size {
                if old(d)@.contains_key(size) {
                    assert(before == old(d)@[size]@);
                } else {
                    lemma_find_none(before, s.0);
                }
            }
        }
        assert forall|s: Search| #[trigger] new_m.contains_key(s) implies new_m[s] == old_m.insert(
            (*targ, size),
            result,
        )[s] by {
            if s.1 == size {
                if old(d)@.contains_key(size) {
                    assert(before == old(d)@[size]@);
                } else {
                    lemma_find_none(before, s.0);
                }
            }
        }
        assert(new_m =~= old_m.insert((*targ, size), result));
    }
}

/// [`prune_arg_spec`], computed from a scope's record.
fn prune_arg_in(d: &PathDict, targ: &Type, l_ty: &Type, size: usize) -> (r: SearchResult)
    ensures
        r == prune_arg_spec(dict_model(*d), *targ, *l_ty, size as nat),
    decreases size,
{
    let last = l_ty.same(targ);
    if size == 0 && last {
        return SearchResult::Inhabited;
    }
    if size == 0 || last {
        return SearchResult::Uninhabited;
    }
    match l_ty {
        Type::Ground(_) => SearchResult::Uninhabited,
        Type::Fun(arg, ret) => {
            let ghost scope = dict_model(*d);
            let mut n: usize = size;
            let mut res = SearchResult::Uninhabited;
            while n > 1
                invariant
                    1 <= n <= size,
                    scope == dict_model(*d),
                    res == prune_splits_spec(scope, *targ, **arg, **ret, size as nat, n as nat),
                decreases n,
            {
                n -= 1;
                let arg_res = dict_get(d, arg, n);
                let here = if arg_res == SearchResult::Uninhabited {
                    SearchResult::Uninhabited
                } else {
                    let rest = prune_arg_in(d, targ, ret, size - n - 1);
                    if rest == SearchResult::Uninhabited {
                        SearchResult::Uninhabited
                    } else if arg_res == SearchResult::Inhabited && rest
                        == SearchResult::Inhabited {
                        SearchResult::Inhabited
                    } else {
                        SearchResult::Unknown
                    }
                };
                res = if here == SearchResult::Inhabited || res == SearchResult::Inhabited {
                    SearchResult::Inhabited
                } else if here == SearchResult::Unknown || res == SearchResult::Unknown {
                    SearchResult::Unknown
                } else {
                    SearchResult::Uninhabited
                };
            }
            res
        },
    }
}

impl Cache {
    /// The records of the scopes, outermost first.
    pub closed spec fn scopes(self) -> Seq<Map<Search, SearchResult>> {
        Seq::new(self.paths@.len(), |i: int| dict_model(self.paths@[i]))
    }

    /// The searches that have begun and not ended, oldest first.
    pub closed spec fn pending(self) -> Seq<Search> {
        self.searches@
    }

    /// There is a scope to record in.
    pub open spec fn wf(self) -> bool {
        self.scopes().len() > 0
    }

    /// The record of the innermost scope.
    pub open spec fn top(self) -> Map<Search, SearchResult> {
        self.scopes().last()
    }

    /// A cache of one scope that holds nothing.
    pub fn new() -> (c: Cache)
        ensures
            c.scopes() == seq![Map::<Search, SearchResult>::empty()],
            c.pending() == Seq::<Search>::empty(),
    {
        let mut paths: Vec<PathDict> = Vec::new();
        let d: PathDict = fx_new();
        proof {
            assert(dict_model(d) =~= Map::<Search, SearchResult>::empty());
        }
        paths.push(d);
        let c = Cache { paths, searches: Vec::new() };
        proof {
            assert(c.scopes() =~= seq![Map::<Search, SearchResult>::empty()]);
        }
        c
    }

    /// Enters a binder: a scope that holds nothing yet becomes the innermost.
    pub fn intro_var(&mut self, _is_new: bool)
        ensures
            final(self).scopes() == old(self).scopes().push(Map::empty()),
            final(self).pending() == old(self).pending(),
    {
        let d: PathDict = fx_new();
        proof {
            assert(dict_model(d) =~= Map::<Search, SearchResult>::empty());
        }
        self.paths.push(d);
        proof {
            assert(self.scopes() =~= old(self).scopes().push(Map::empty()));
        }
    }

    /// Leaves a binder: the innermost scope and what it holds are dropped.
    pub fn elim_var(&mut self)
        ensures
            final(self).scopes() == (if old(self).scopes().len() > 0 {
                old(self).scopes().drop_last()
            } else {
                old(self).scopes()
            }),
            final(self).pending() == old(self).pending(),
    {
        self.paths.pop();
        proof {
            if old(self).scopes().len() > 0 {
                assert(self.scopes() =~= old(self).scopes().drop_last());
            } else {
                assert(self.scopes() =~= old(self).scopes());
            }
        }
    }

    /// Enters a binder again: the record that was taken out when the binder
    /// was left becomes the innermost scope.
    pub fn resume(&mut self, scope: Scope)
        ensures
            final(self).scopes() == old(self).scopes().push(scope.model()),
            final(self).pending() == old(self).pending(),
    {
        self.paths.push(scope.dict);
        proof {
            assert(self.scopes() =~= old(self).scopes().push(scope.model()));
        }
    }

    /// Leaves a binder for a while: the record of the innermost scope is
    /// taken out and handed to the caller.
    pub fn suspend(&mut self) -> (scope: Scope)
        requires
            old(self).scopes().len() > 1,
        ensures
            final(self).scopes() == old(self).scopes().drop_last(),
            final(self).pending() == old(self).pending(),
            scope.model() == old(self).top(),
    {
        let dict = self.paths.pop().unwrap();
        proof {
            assert(self.scopes() =~= old(self).scopes().drop_last());
        }
        Scope { dict }
    }

    /// What the innermost scope holds for a search.
    pub fn lookup(&self, targ: &Type, size: usize) -> (r: SearchResult)
        requires
            self.wf(),
        ensures
            r == recorded(self.top(), (*targ, size)),
    {
        dict_get(&self.paths[self.paths.len() - 1], targ, size)
    }

    /// Whether the innermost scope holds that the search ended without a
    /// term.
    pub fn prune(&self, targ: &Type, size: usize) -> (r: bool)
        requires
            self.wf(),
        ensures
            r == (recorded(self.top(), (*targ, size)) == SearchResult::Uninhabited),
    {
        self.lookup(targ, size) == SearchResult::Uninhabited
    }

    /// What the innermost scope tells of a chain of arguments: see
    /// [`prune_arg_spec`].
    pub fn prune_arg(&self, targ: &Type, l_ty: &Type, size: usize) -> (r: SearchResult)
        requires
            self.wf(),
        ensures
            r == prune_arg_spec(self.top(), *targ, *l_ty, size as nat),
    {
        prune_arg_in(&self.paths[self.paths.len() - 1], targ, l_ty, size)
    }

    /// A search begins: it becomes the newest of the pending ones, and is
    /// recorded as `Unknown` in the innermost scope unless that scope holds
    /// a result for it.
    pub fn begin_search(&mut self, targ: &Type, size: usize)
        requires
            old(self).wf(),
        ensures
            final(self).pending() == old(self).pending().push((*targ, size)),
            final(self).scopes() == old(self).scopes().update(
                old(self).scopes().len() - 1,
                old(self).top().insert((*targ, size), recorded(old(self).top(), (*targ, size))),
            ),
    {
        self.searches.push((targ.deep_clone(), size));
        let last = self.paths.len() - 1;
        let held = dict_get(&self.paths[last], targ, size);
        self.record(targ, size, held);
    }

    /// A search yields a term: it is recorded as `Inhabited` in the innermost
    /// scope.
    pub fn yield_term(&mut self, targ: &Type, size: usize)
        requires
            old(self).wf(),
        ensures
            final(self).pending() == old(self).pending(),
            final(self).scopes() == old(self).scopes().update(
                old(self).scopes().len() - 1,
                old(self).top().insert((*targ, size), SearchResult::Inhabited),
            ),
    {
        self.record(targ, size, SearchResult::Inhabited);
    }

    /// The newest pending search ends: where the innermost scope holds
    /// `Unknown` for it, or nothing, that becomes `Uninhabited`.
    pub fn end_search(&mut self)
        requires
            old(self).wf(),
            old(self).pending().len() > 0,
        ensures
            final(self).pending() == old(self).pending().drop_last(),
            final(self).scopes() == old(self).scopes().update(
                old(self).scopes().len() - 1,
                old(self).top().insert(
                    old(self).pending().last(),
                    if recorded(old(self).top(), old(self).pending().last())
                        == SearchResult::Unknown {
                        SearchResult::Uninhabited
                    } else {
                        recorded(old(self).top(), old(self).pending().last())
                    },
                ),
            ),
    {
        let search = self.searches.pop().unwrap();
        let last = self.paths.len() - 1;
        let held = dict_get(&self.paths[last], &search.0, search.1);
        let result = if held == SearchResult::Unknown {
            SearchResult::Uninhabited
        } else {
            held
        };
        self.record(&search.0, search.1, result);
    }

    /// Records `result` for a search in the innermost scope.
    fn record(&mut self, targ: &Type, size: usize, result: SearchResult)
        requires
            old(self).wf(),
        ensures
            final(self).searches == old(self).searches,
            final(self).scopes() == old(self).scopes().update(
                old(self).scopes().len() - 1,
                old(self).top().insert((*targ, size), result),
            ),
    {
        let mut d = self.paths.pop().unwrap();
        let ghost rest = self.paths@;
        dict_set(&mut d, targ, size, result);
        self.paths.push(d);
        proof {
            assert(self.paths@.len() == old(self).paths@.len());
            assert forall|i: int| 0 <= i < self.paths@.len() - 1 implies self.paths@[i] == old(
                self,
            ).paths@[i] by {
                assert(self.paths@[i] == rest[i]);
            }
            assert(self.scopes() =~= old(self).scopes().update(
                old(self).scopes().len() - 1,
                old(self).top().insert((*targ, size), result),
            ));
        }
    }
}

} // verus!
