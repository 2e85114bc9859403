//! The sample cache of the Metropolis-Hastings search: for a scope, a type and
//! a size, either every term, where they are few, or how many there are.

use crate::assoc::{find, lemma_find_at, lemma_find_index, lemma_find_none, lemma_find_push};
use crate::fxmap::{fx_get, fx_insert, fx_new, fx_remove};
use crate::language::Language;
use crate::random::random_below;
use crate::generator::{search, Enumerator, SearchContext};
use crate::search::{all_terms, Env, Item};
use crate::types::{clone_decls, Type, VarDecl};
use rustc_hash::FxHashMap;
use vstd::prelude::*;

verus! {

/// The largest number of terms that the cache holds for one key.
pub const MAX_IN_MEM: usize = 32;

/// `sorted` with `d` put behind the last declaration whose name is not
/// greater.
pub open spec fn insert_decl(sorted: Seq<VarDecl>, d: VarDecl) -> Seq<VarDecl>
    decreases sorted.len(),
{
    if sorted.len() == 0 {
        seq![d]
    } else if sorted.last().0 <= d.0 {
        sorted.push(d)
    } else {
        insert_decl(sorted.drop_last(), d).push(sorted.last())
    }
}

/// The declarations by ascending name; those of one name stay in the order
/// they had.
pub open spec fn sort_decls(decls: Seq<VarDecl>) -> Seq<VarDecl>
    decreases decls.len(),
{
    if decls.len() == 0 {
        Seq::empty()
    } else {
        insert_decl(sort_decls(decls.drop_last()), decls.last())
    }
}

/// Putting `d` in at `pos` is what [`insert_decl`] does, where every
/// declaration from `pos` on has a greater name and the one before `pos`,
/// if there is one, has not.
proof fn lemma_insert_at(sorted: Seq<VarDecl>, d: VarDecl, pos: int)
    requires
        0 <= pos <= sorted.len(),
        forall|k: int| pos <= k < sorted.len() ==> sorted[k].0 > d.0,
        pos > 0 ==> sorted[pos - 1].0 <= d.0,
    ensures
        insert_decl(sorted, d) == sorted.insert(pos, d),
    decreases sorted.len() - pos,
{
    if sorted.len() == 0 {
        assert(sorted.insert(pos, d) =~= seq![d]);
    } else if pos == sorted.len() {
        assert(sorted.insert(pos, d) =~= sorted.push(d));
    } else {
        lemma_insert_at(sorted.drop_last(), d, pos);
        assert(sorted.insert(pos, d) =~= sorted.drop_last().insert(pos, d).push(sorted.last()));
    }
}

/// The declarations by ascending name: see [`sort_decls`].
pub fn sorted_decls(decls: &Vec<VarDecl>) -> (out: Vec<VarDecl>)
    ensures
        out@ == sort_decls(decls@),
{
    let mut out: Vec<VarDecl> = Vec::new();
    let mut i: usize = 0;
    while i < decls.len()
        invariant
            i <= decls.len(),
            out@ == sort_decls(decls@.take(i as int)),
        decreases decls.len() - i,
    {
        let name = decls[i].0;
        let mut pos: usize = out.len();
        while pos > 0 && out[pos - 1].0 > name
            invariant
                pos <= out.len(),
                forall|k: int| pos <= k < out.len() ==> out@[k].0 > name,
            decreases pos,
        {
            pos -= 1;
        }
        proof {
            assert(decls@.take(i as int + 1).drop_last() =~= decls@.take(i as int));
            assert(decls@.take(i as int + 1).last() == decls@[i as int]);
            lemma_insert_at(out@, decls@[i as int], pos as int);
        }
        out.insert(pos, (name, decls[i].1.deep_clone()));
        i += 1;
    }
    proof {
        assert(decls@.take(decls.len() as int) =~= decls@);
    }
    out
}

/// Whether two lists of declarations are the same.
fn same_decls(a: &Vec<VarDecl>, b: &Vec<VarDecl>) -> (r: bool)
    ensures
        r == (a@ == b@),
{
    if a.len() != b.len() {
        return false;
    }
    let mut i: usize = 0;
    while i < a.len()
        invariant
            i <= a.len(),
            a.len() == b.len(),
            forall|j: int| 0 <= j < i ==> a@[j] == b@[j],
        decreases a.len() - i,
    {
        if a[i].0 != b[i].0 || !a[i].1.same(&b[i].1) {
            return false;
        }
        i += 1;
    }
    proof {
        assert(a@ =~= b@);
    }
    true
}

/// What the cache holds for a key.
pub enum CacheEntry<S> {
    /// Every term, in the order of the enumeration; there is at least one.
    Explicit(Vec<Item<S>>),
    /// How many terms there are.
    Count(usize),
}

/// A key of the cache, but for the size, with what is held for it.
pub struct Keyed<S> {
    decls: Vec<VarDecl>,
    ty: Type,
    entry: CacheEntry<S>,
}

/// For a scope, a type and a size: every term, or how many there are.
pub struct SizeCache<L: Language> {
    map: FxHashMap<usize, Vec<Keyed<L::Semantics>>>,
}

/// The entries of one size as pairs: a scope and a type, and what is held
/// for them. The first pair of a key is the one that counts.
pub closed spec fn keyed<S>(bucket: Seq<Keyed<S>>) -> Seq<((Seq<VarDecl>, Type), CacheEntry<S>)> {
    Seq::new(bucket.len(), |i: int| ((bucket[i].decls@, bucket[i].ty), bucket[i].entry))
}

/// What is held under a key is true of the enumeration for that key.
pub open spec fn entry_ok<L: Language>(
    lang: L,
    decls: Seq<VarDecl>,
    ty: Type,
    size: usize,
    entry: CacheEntry<L::Semantics>,
) -> bool {
    let all = all_terms(Env { lang, vars: decls }, ty, size as nat);
    match entry {
        CacheEntry::Explicit(items) => items@ == all && items@.len() > 0,
        CacheEntry::Count(n) => n == all.len(),
    }
}

/// One of `all`, each with the same chance.
fn pick<L: Language>(lang: &L, all: &Vec<Item<L::Semantics>>) -> (r: Item<L::Semantics>)
    requires
        all@.len() > 0,
    ensures
        all@.contains(r),
{
    let id = random_below(all.len());
    let r = SearchContext::<L>::copy_item(lang, &all[id]);
    proof {
        assert(all@[id as int] == r);
    }
    r
}

/// Takes every term that is left out of `e`. Returns how many there were
/// and one of them, each with the same chance: the `k`-th term takes the
/// place of the one kept before with chance one in `k`.
pub fn reservoir_sample<'a, L: Language>(e: &mut Enumerator<'a, L>) -> (r: (
    usize,
    Option<Item<L::Semantics>>,
))
    requires
        old(e).wf(),
    ensures
        final(e).wf(),
        final(e).env() == old(e).env(),
        final(e).remaining().len() == 0,
        final(e).yielded().len() == old(e).yielded().len() + r.0,
        final(e).yielded().len() <= usize::MAX,
        r.0 == old(e).remaining().len(),
        match r.1 {
            Some(item) => old(e).remaining().contains(item),
            None => old(e).remaining().len() == 0,
        },
{
    let mut count: usize = 0;
    let mut selected: Option<Item<L::Semantics>> = None;
    loop
        invariant_except_break
            e.wf(),
            e.env() == old(e).env(),
            count <= old(e).remaining().len(),
            e.yielded().len() == old(e).yielded().len() + count,
            e.remaining() == old(e).remaining().skip(count as int),
            match selected {
                Some(item) => old(e).remaining().contains(item),
                None => count == 0,
            },
        ensures
            e.wf(),
            e.env() == old(e).env(),
            e.remaining().len() == 0,
            e.yielded().len() == old(e).yielded().len() + count,
            e.yielded().len() <= usize::MAX,
            count == old(e).remaining().len(),
            match selected {
                Some(item) => old(e).remaining().contains(item),
                None => count == 0,
            },
        decreases e.remaining().len(),
    {
        match e.next() {
            Some(item) => {
                proof {
                    assert(old(e).remaining()[count as int] == item);
                    assert(old(e).remaining().skip(count as int).skip(1) =~= old(
                        e,
                    ).remaining().skip(count as int + 1));
                }
                count += 1;
                if random_below(count) == 0 {
                    selected = Some(item);
                }
            },
            None => {
                break;
            },
        }
    }
    (count, selected)
}

/// One of `items`, each with the same chance; `None` where there is none.
pub fn uniform_sample<T>(items: Vec<T>) -> (r: Option<T>)
    ensures
        match r {
            Some(item) => items@.contains(item),
            None => items@.len() == 0,
        },
{
    let mut items = items;
    let ghost all = items@;
    let mut chosen: usize = 0;
    let mut i: usize = 0;
    while i < items.len()
        invariant
            i <= items.len(),
            items@ == all,
            i == 0 ==> chosen == 0,
            i > 0 ==> chosen < i,
        decreases items.len() - i,
    {
        if random_below(i + 1) == 0 {
            chosen = i;
        }
        i += 1;
    }
    if items.len() == 0 {
        None
    } else {
        let item = items.swap_remove(chosen);
        proof {
            assert(all[chosen as int] == item);
        }
        Some(item)
    }
}

impl<L: Language> SizeCache<L> {
    /// Everything that the cache holds is true of the enumerations of
    /// `lang`.
    pub closed spec fn wf(self, lang: L) -> bool {
        forall|size: usize, i: int|
            self.map@.contains_key(size) && 0 <= i < self.map@[size]@.len() ==> entry_ok(
                lang,
                (#[trigger] self.map@[size]@[i]).decls@,
                self.map@[size]@[i].ty,
                size,
                self.map@[size]@[i].entry,
            )
    }

    /// A cache that holds nothing.
    pub fn new() -> (c: Self)
        ensures
            forall|lang: L| c.wf(lang),
    {
        SizeCache { map: fx_new() }
    }

    /// What the cache holds for the scope `decls`, the type `ty` and `size`,
    /// if it holds anything.
    pub closed spec fn held(self, decls: Seq<VarDecl>, ty: Type, size: usize) -> Option<
        CacheEntry<L::Semantics>,
    > {
        if self.map@.contains_key(size) {
            find(keyed(self.map@[size]@), (decls, ty))
        } else {
            None
        }
    }

    /// What a cache holds is true of the enumeration for its key.
    pub proof fn lemma_held_true(self, lang: L, decls: Seq<VarDecl>, ty: Type, size: usize)
        requires
            self.wf(lang),
            self.held(decls, ty, size) is Some,
        ensures
            entry_ok(lang, decls, ty, size, self.held(decls, ty, size).unwrap()),
    {
        let pairs = keyed(self.map@[size]@);
        let i = lemma_find_index(pairs, (decls, ty));
        assert(pairs[i] == (
            (self.map@[size]@[i].decls@, self.map@[size]@[i].ty),
            self.map@[size]@[i].entry,
        ));
    }

    /// Where the entries of a size hold the key: the index of the first entry
    /// for it, which is the one that counts, and nothing where there is no
    /// entry for it.
    fn position(bucket: &Vec<Keyed<L::Semantics>>, decls: &Vec<VarDecl>, ty: &Type) -> (r: Option<
        usize,
    >)
        ensures
            match r {
                Some(i) => i < bucket@.len() && bucket@[i as int].decls@ == decls@
                    && bucket@[i as int].ty == *ty && find(keyed(bucket@), (decls@, *ty)) == Some(
                    bucket@[i as int].entry,
                ),
                None => find(keyed(bucket@), (decls@, *ty)) is None,
            },
    {
        let mut i: usize = 0;
        while i < bucket.len()
            invariant
                i <= bucket.len(),
                forall|j: int| 0 <= j < i ==> (#[trigger] keyed(bucket@)[j]).0 != (decls@, *ty),
            decreases bucket.len() - i,
        {
            if bucket[i].ty.same(ty) && same_decls(&bucket[i].decls, decls) {
                proof {
                    lemma_find_at(keyed(bucket@), (decls@, *ty), i as int);
                }
                return Some(i);
            }
            i += 1;
        }
        proof {
            lemma_find_none(keyed(bucket@), (decls@, *ty));
        }
        None
    }

    /// Holds `entry` for the key from now on, unless something is held for
    /// it: then that stays. What is held for any other key stays too.
    fn store(
        &mut self,
        lang: &L,
        decls: &Vec<VarDecl>,
        ty: &Type,
        size: usize,
        entry: CacheEntry<L::Semantics>,
    )
        requires
            old(self).wf(*lang),
            entry_ok(*lang, decls@, *ty, size, entry),
        ensures
            final(self).wf(*lang),
            final(self).held(decls@, *ty, size) == Some(
                match old(self).held(decls@, *ty, size) {
                    Some(before) => before,
                    None => entry,
                },
            ),
            forall|d: Seq<VarDecl>, t: Type, s: usize|
                !(d == decls@ && t == *ty && s == size) ==> #[trigger] final(self).held(d, t, s)
                    == old(self).held(d, t, s),
    {
        let mut bucket: Vec<Keyed<L::Semantics>> = match fx_remove(&mut self.map, size) {
            Some(b) => b,
            None => Vec::new(),
        };
        let ghost before = bucket@;
        proof {
            assert(keyed(before).len() == 0 ==> find(keyed(before), (decls@, *ty)) is None);
            assert forall|d: Seq<VarDecl>, t: Type| #[trigger]
                old(self).held(d, t, size) == find(keyed(before), (d, t)) by {
                if !old(self).map@.contains_key(size) {
                    assert(keyed(before).len() == 0);
                }
            }
        }
        if Self::position(&bucket, decls, ty).is_none() {
            bucket.push(Keyed { decls: clone_decls(decls), ty: ty.deep_clone(), entry });
            proof {
                assert(keyed(bucket@) =~= keyed(before).push(((decls@, *ty), entry)));
                assert forall|d: Seq<VarDecl>, t: Type| #[trigger]
                    find(keyed(bucket@), (d, t)) == (match find(keyed(before), (d, t)) {
                        Some(x) => Some(x),
                        None => if (d, t) == (decls@, *ty) {
                            Some(entry)
                        } else {
                            None
                        },
                    }) by {
                    lemma_find_push(keyed(before), (decls@, *ty), entry, (d, t));
                }
            }
        }
        proof {
            assert forall|i: int| 0 <= i < bucket@.len() implies entry_ok(
                *lang,
                (#[trigger] bucket@[i]).decls@,
                bucket@[i].ty,
                size,
                bucket@[i].entry,
            ) by {
                if i < before.len() {
                    assert(bucket@[i] == before[i]);
                    assert(old(self).map@[size]@[i] == before[i]);
                }
            }
        }
        fx_insert(&mut self.map, size, bucket);
        proof {
            assert forall|s: usize, i: int|
                self.map@.contains_key(s) && 0 <= i < self.map@[s]@.len() implies entry_ok(
                *lang,
                (#[trigger] self.map@[s]@[i]).decls@,
                self.map@[s]@[i].ty,
                s,
                self.map@[s]@[i].entry,
            ) by {
                if s != size {
                    assert(old(self).map@.contains_key(s));
                    assert(self.map@[s] == old(self).map@[s]);
                }
            }
            assert forall|d: Seq<VarDecl>, t: Type, s: usize|
                !(d == decls@ && t == *ty && s == size) implies #[trigger] self.held(d, t, s)
                == old(self).held(d, t, s) by {
                if s != size {
                    if old(self).map@.contains_key(s) {
                        assert(self.map@[s] == old(self).map@[s]);
                    }
                } else {
                    assert(self.held(d, t, s) == find(keyed(bucket@), (d, t)));
                    assert(old(self).held(d, t, size) == find(keyed(before), (d, t)));
                }
            }
            assert(self.held(decls@, *ty, size) == find(keyed(bucket@), (decls@, *ty)));
            assert(old(self).held(decls@, *ty, size) == find(keyed(before), (decls@, *ty)));
        }
    }

    /// A term of type `ty` and `size` nodes in the scope `decls`, brought
    /// into order by name, each with the same chance, and how many there are;
    /// no term where there is none.
    ///
    /// What was found is kept: every term where they are no more than
    /// [`MAX_IN_MEM`], else only their number.
    pub fn sample(&mut self, lang: &L, decls: Vec<VarDecl>, ty: &Type, size: usize) -> (r: (
        usize,
        Option<Item<L::Semantics>>,
    ))
        requires
            old(self).wf(*lang),
        ensures
            final(self).wf(*lang),
            r.0 == all_terms(Env { lang: *lang, vars: sort_decls(decls@) }, *ty, size as nat).len(),
            match r.1 {
                Some(item) => all_terms(
                    Env { lang: *lang, vars: sort_decls(decls@) },
                    *ty,
                    size as nat,
                ).contains(item),
                None => r.0 == 0,
            },
            match old(self).held(sort_decls(decls@), *ty, size) {
                Some(before) => final(self).held(sort_decls(decls@), *ty, size) == Some(before),
                None => final(self).held(sort_decls(decls@), *ty, size) matches Some(kept) && (
                kept is Explicit <==> 0 < r.0 <= MAX_IN_MEM),
            },
            forall|d: Seq<VarDecl>, t: Type, s: usize|
                !(d == sort_decls(decls@) && t == *ty && s == size) ==> #[trigger] final(self).held(
                    d,
                    t,
                    s,
                ) == old(self).held(d, t, s),
    {
        let decls = sorted_decls(&decls);
        let ghost env = Env { lang: *lang, vars: decls@ };
        let ghost all = all_terms(env, *ty, size as nat);
        match fx_get(&self.map, size) {
            Some(bucket) => match Self::position(bucket, &decls, ty) {
                Some(i) => {
                    proof {
                        assert(self.map@[size]@[i as int] == bucket@[i as int]);
                    }
                    match &bucket[i].entry {
                        CacheEntry::Explicit(items) => {
                            return (items.len(), Some(pick(lang, items)));
                        },
                        CacheEntry::Count(n) => {
                            if *n == 0 {
                                return (0, None);
                            }
                        },
                    }
                },
                None => {},
            },
            None => {},
        }
        let mut explicit: Vec<Item<L::Semantics>> = Vec::new();
        let mut e = search(lang, clone_decls(&decls), ty, size);
        let mut ended = false;
        while explicit.len() < MAX_IN_MEM && !ended
            invariant
                e.wf(),
                e.env() == env,
                explicit@.len() <= MAX_IN_MEM,
                explicit@ + e.remaining() == all,
                ended ==> e.remaining().len() == 0,
                e.yielded().len() == explicit@.len(),
            decreases e.remaining().len() + if ended { 0nat } else { 1nat },
        {
            let ghost rest = e.remaining();
            match e.next() {
                Some(item) => {
                    proof {
                        assert(explicit@.push(item) + rest.skip(1) =~= explicit@ + rest);
                    }
                    explicit.push(item);
                },
                None => {
                    ended = true;
                },
            }
        }
        if ended {
            proof {
                assert(explicit@ =~= all);
            }
            if explicit.len() == 0 {
                self.store(lang, &decls, ty, size, CacheEntry::Count(0));
                return (0, None);
            }
            let chosen = pick(lang, &explicit);
            let len = explicit.len();
            self.store(lang, &decls, ty, size, CacheEntry::Explicit(explicit));
            return (len, Some(chosen));
        }
        let ghost rest = e.remaining();
        let (rest_count, selected) = reservoir_sample(&mut e);
        match selected {
            None => {
                proof {
                    assert(explicit@ =~= all);
                }
                let chosen = pick(lang, &explicit);
                let len = explicit.len();
                self.store(lang, &decls, ty, size, CacheEntry::Explicit(explicit));
                (len, Some(chosen))
            },
            Some(item) => {
                proof {
                    let k = choose|k: int| 0 <= k < rest.len() && rest[k] == item;
                    assert(all[explicit@.len() + k] == item);
                    assert(rest_count > 0);
                }
                let total = MAX_IN_MEM + rest_count;
                self.store(lang, &decls, ty, size, CacheEntry::Count(total));
                let draw = random_below(total);
                if draw < MAX_IN_MEM {
                    proof {
                        assert(all[draw as int] == explicit@[draw as int]);
                    }
                    (total, Some(SearchContext::<L>::copy_item(lang, &explicit[draw])))
                } else {
                    (total, Some(item))
                }
            },
        }
    }

    /// How many terms of type `ty` and `size` nodes there are in the scope
    /// `decls`, brought into order by name. The number is kept.
    pub fn query_count(&mut self, lang: &L, decls: Vec<VarDecl>, ty: &Type, size: usize) -> (count:
        usize)
        requires
            old(self).wf(*lang),
        ensures
            final(self).wf(*lang),
            count == all_terms(
                Env { lang: *lang, vars: sort_decls(decls@) },
                *ty,
                size as nat,
            ).len(),
            final(self).held(sort_decls(decls@), *ty, size) == Some(
                match old(self).held(sort_decls(decls@), *ty, size) {
                    Some(before) => before,
                    None => CacheEntry::Count(count),
                },
            ),
            forall|d: Seq<VarDecl>, t: Type, s: usize|
                !(d == sort_decls(decls@) && t == *ty && s == size) ==> #[trigger] final(self).held(
                    d,
                    t,
                    s,
                ) == old(self).held(d, t, s),
    {
        let decls = sorted_decls(&decls);
        match fx_get(&self.map, size) {
            Some(bucket) => match Self::position(bucket, &decls, ty) {
                Some(i) => {
                    proof {
                        assert(self.map@[size]@[i as int] == bucket@[i as int]);
                    }
                    return match &bucket[i].entry {
                        CacheEntry::Explicit(items) => items.len(),
                        CacheEntry::Count(n) => *n,
                    };
                },
                None => {},
            },
            None => {},
        }
        let mut e = search(lang, clone_decls(&decls), ty, size);
        let (count, _) = reservoir_sample(&mut e);
        self.store(lang, &decls, ty, size, CacheEntry::Count(count));
        count
    }
}

} // verus!
