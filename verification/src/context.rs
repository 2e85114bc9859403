//! The primitives of a language: their names, arities, types and reduction
//! rules, and the evaluator that uses them.

use crate::assoc::{find, lemma_find_at, lemma_find_none};
use crate::term::{fresh, fresh_var, lemma_fresh_outside, Term};
use crate::types::{decl_names, lemma_decl_names_push, Identifier, Type, VarDecl};
use std::collections::HashSet;
use vstd::prelude::*;
use vstd::std_specs::hash::*;

verus! {

/// The reduction rule of a primitive.
///
/// `reduce` is handed as many argument terms as the primitive's arity, not
/// yet evaluated. It answers with the term that the application rewrites to,
/// or with `None` where the application cannot be rewritten as it stands (an
/// argument that it needs is not a value yet). The answer depends on the
/// arguments alone.
pub trait Reduction: Sized + Copy {
    /// What the application to `args` rewrites to.
    open spec fn reduce_spec(&self, args: Seq<Term>) -> Option<Term> {
        None
    }

    /// Rewrites the application to `args`, where it can be rewritten.
    fn reduce(&self, args: &Vec<Term>) -> (r: Option<Term>)
        ensures
            r == self.reduce_spec(args@),
    ;
}

/// A primitive: how many arguments its rule takes, the rule, and its type.
pub struct BuiltIn<R> {
    pub n_args: usize,
    pub func: R,
    pub ty: Type,
}

impl<R: Reduction> BuiltIn<R> {
    /// A primitive of the given arity, rule and type.
    pub fn new(n_args: usize, func: R, ty: Type) -> (b: Self)
        ensures
            b == (BuiltIn { n_args, func, ty }),
    {
        BuiltIn { n_args, func, ty }
    }

    /// An independent copy.
    pub fn deep_clone(&self) -> (b: Self)
        ensures
            b == *self,
    {
        BuiltIn { n_args: self.n_args, func: self.func, ty: self.ty.deep_clone() }
    }
}

/// The primitives of a language, by name, in the order they were given.
pub struct Context<R> {
    entries: Vec<(Identifier, BuiltIn<R>)>,
}

/// Primitives as declarations: their names and types, in order.
pub open spec fn prim_decls<R>(entries: Seq<(Identifier, BuiltIn<R>)>) -> Seq<VarDecl> {
    Seq::new(entries.len(), |i: int| (entries[i].0, entries[i].1.ty))
}

impl<R: Reduction> View for Context<R> {
    type V = Seq<(Identifier, BuiltIn<R>)>;

    closed spec fn view(&self) -> Seq<(Identifier, BuiltIn<R>)> {
        self.entries@
    }
}

impl<R: Reduction> Context<R> {
    /// The primitive that `name` stands for: the first one given with it.
    pub open spec fn lookup(self, name: Identifier) -> Option<BuiltIn<R>> {
        find(self@, name)
    }

    /// The names of the primitives.
    pub open spec fn names(self) -> Set<Identifier> {
        decl_names(self.decls())
    }

    /// The primitives as declarations: names and types, in order.
    pub open spec fn decls(self) -> Seq<VarDecl> {
        prim_decls(self@)
    }

    /// A context of the given primitives.
    pub fn new(entries: Vec<(Identifier, BuiltIn<R>)>) -> (c: Self)
        ensures
            c@ == entries@,
    {
        Context { entries }
    }

    /// Number of primitives.
    pub fn len(&self) -> (n: usize)
        ensures
            n == self@.len(),
    {
        self.entries.len()
    }

    /// The `i`-th primitive and its name.
    pub fn entry(&self, i: usize) -> (e: &(Identifier, BuiltIn<R>))
        requires
            i < self@.len(),
        ensures
            *e == self@[i as int],
    {
        &self.entries[i]
    }

    /// The primitive that `name` stands for.
    pub fn get(&self, name: Identifier) -> (r: Option<&BuiltIn<R>>)
        ensures
            match r {
                Some(b) => self.lookup(name) == Some(*b),
                None => self.lookup(name) is None,
            },
    {
        let mut i: usize = 0;
        while i < self.entries.len()
            invariant
                i <= self.entries.len(),
                forall|j: int| 0 <= j < i ==> self.entries@[j].0 != name,
            decreases self.entries.len() - i,
        {
            if self.entries[i].0 == name {
                proof {
                    lemma_find_at(self@, name, i as int);
                }
                return Some(&self.entries[i].1);
            }
            i += 1;
        }
        proof {
            lemma_find_none(self@, name);
        }
        None
    }

    /// Adds a primitive after those that are there.
    pub fn insert(&mut self, name: Identifier, builtin: BuiltIn<R>)
        ensures
            final(self)@ == old(self)@.push((name, builtin)),
    {
        self.entries.push((name, builtin));
    }

    /// An independent copy.
    pub fn deep_clone(&self) -> (c: Self)
        ensures
            c@ == self@,
    {
        let mut out: Vec<(Identifier, BuiltIn<R>)> = Vec::new();
        let mut i: usize = 0;
        while i < self.entries.len()
            invariant
                i <= self.entries.len(),
                out@ == self.entries@.take(i as int),
            decreases self.entries.len() - i,
        {
            let e = (self.entries[i].0, self.entries[i].1.deep_clone());
            out.push(e);
            proof {
                assert(self.entries@.take(i as int + 1) =~= self.entries@.take(i as int).push(
                    self.entries@[i as int],
                ));
            }
            i += 1;
        }
        proof {
            assert(self.entries@.take(self.entries.len() as int) =~= self.entries@);
        }
        Context { entries: out }
    }

    /// A name generator in which the names of the primitives are taken.
    pub fn vgen(&self) -> (g: VarGen)
        ensures
            g@ == self.names(),
            g.wf(),
    {
        broadcast use group_hash_axioms;

        let mut retired: HashSet<Identifier> = HashSet::new();
        let mut i: usize = 0;
        proof {
            assert(decl_names(prim_decls(self.entries@.take(0))) =~= Set::<Identifier>::empty());
        }
        while i < self.entries.len()
            invariant
                i <= self.entries.len(),
                retired@.finite(),
                retired@ == decl_names(prim_decls(self.entries@.take(i as int))),
            decreases self.entries.len() - i,
        {
            let name = self.entries[i].0;
            retired.insert(name);
            proof {
                let done = prim_decls(self.entries@.take(i as int));
                let next = prim_decls(self.entries@.take(i as int + 1));
                assert(next =~= done.push((name, self.entries@[i as int].1.ty)));
                lemma_decl_names_push(done, (name, self.entries@[i as int].1.ty));
            }
            i += 1;
        }
        proof {
            assert(self.entries@.take(self.entries.len() as int) =~= self.entries@);
        }
        VarGen { retired }
    }
}

/// Hands out binder names: the least identifier that is not taken, which is a
/// single letter as long as one is left.
pub struct VarGen {
    retired: HashSet<Identifier>,
}

impl View for VarGen {
    type V = Set<Identifier>;

    /// The names that are taken.
    closed spec fn view(&self) -> Set<Identifier> {
        self.retired@
    }
}

impl VarGen {
    /// The generator is in a state that its methods can work from.
    pub closed spec fn wf(self) -> bool {
        self.retired@.finite()
    }

    /// A generator with no name taken.
    pub fn new() -> (g: VarGen)
        ensures
            g@ == Set::<Identifier>::empty(),
            g.wf(),
    {
        VarGen { retired: HashSet::new() }
    }

    /// Takes `name` out of circulation.
    pub fn retire(&mut self, name: Identifier)
        requires
            old(self).wf(),
        ensures
            final(self).wf(),
            final(self)@ == old(self)@.insert(name),
    {
        broadcast use group_hash_axioms;

        self.retired.insert(name);
    }

    /// Gives `name` back.
    pub fn freshen(&mut self, name: Identifier)
        requires
            old(self).wf(),
        ensures
            final(self).wf(),
            final(self)@ == old(self)@.remove(name),
    {
        broadcast use group_hash_axioms;

        self.retired.remove(&name);
    }

    /// The least name that is not taken.
    pub fn peek(&self) -> (name: Identifier)
        requires
            self.wf(),
        ensures
            name == fresh(self@),
            !self@.contains(name),
    {
        fresh_var(&self.retired)
    }

    /// The least name that is not taken is indeed not taken.
    pub proof fn lemma_fresh_free(self)
        requires
            self.wf(),
        ensures
            !self@.contains(fresh(self@)),
    {
        broadcast use group_hash_axioms;

        assert(self.retired@.len() == spec_hash_set_len(&self.retired));
        lemma_fresh_outside(self.retired@);
    }

    /// Hands out the least name that is not taken, and takes it.
    pub fn small_var(&mut self) -> (name: Identifier)
        requires
            old(self).wf(),
        ensures
            final(self).wf(),
            name == fresh(old(self)@),
            !old(self)@.contains(name),
            final(self)@ == old(self)@.insert(name),
    {
        broadcast use group_hash_axioms;

        let name = fresh_var(&self.retired);
        self.retired.insert(name);
        name
    }
}

} // verus!
