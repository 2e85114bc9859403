//! Lambda terms and their structural operations: size, free variables,
//! capture-avoiding substitution and beta reduction.

use crate::types::{Identifier, POOL_SIZE};
use std::collections::HashSet;
use vstd::prelude::*;
use vstd::std_specs::cmp::PartialEqSpecImpl;
use vstd::std_specs::hash::*;

verus! {

/// The payload of a value leaf.
#[derive(Clone, Copy, Debug, PartialEq, Eq, Structural)]
pub enum Value {
    Int(i32),
    Bool(bool),
}

impl Value {
    /// The integer held, if the value is one.
    pub fn as_int(&self) -> (r: Option<i32>)
        ensures
            r == (match *self {
                Value::Int(n) => Some(n),
                Value::Bool(_) => None,
            }),
    {
        match self {
            Value::Int(n) => Some(*n),
            Value::Bool(_) => None,
        }
    }

    /// The truth value held, if the value is one.
    pub fn as_bool(&self) -> (r: Option<bool>)
        ensures
            r == (match *self {
                Value::Bool(b) => Some(b),
                Value::Int(_) => None,
            }),
    {
        match self {
            Value::Bool(b) => Some(*b),
            Value::Int(_) => None,
        }
    }
}

/// A lambda term.
#[derive(Debug)]
pub enum Term {
    /// A value leaf.
    Val(Value),
    /// A variable, or the name of a primitive.
    Var(Identifier),
    /// An abstraction of one variable.
    Lam(Identifier, Box<Term>),
    /// An application of a function to one argument.
    App(Box<Term>, Box<Term>),
}

/// The least identifier outside `avoid`.
pub open spec fn fresh(avoid: Set<Identifier>) -> Identifier {
    choose|n: Identifier| is_least_outside(avoid, n)
}

/// `n` is outside `avoid` and every smaller identifier is inside.
pub open spec fn is_least_outside(avoid: Set<Identifier>, n: Identifier) -> bool {
    &&& !avoid.contains(n)
    &&& forall|j: Identifier| j < n ==> avoid.contains(j)
}

/// A finite set that holds every identifier below `c` has at least `c` members.
pub proof fn lemma_prefix_len(s: Set<Identifier>, c: nat)
    requires
        s.finite(),
        c <= Identifier::MAX + 1,
        forall|j: Identifier| j < c ==> s.contains(j),
    ensures
        c <= s.len(),
    decreases c,
{
    if c > 0 {
        let last = (c - 1) as Identifier;
        lemma_prefix_len(s.remove(last), (c - 1) as nat);
    }
}

/// Two least identifiers outside the same set are the same.
pub proof fn lemma_least_outside_unique(avoid: Set<Identifier>, a: Identifier, b: Identifier)
    requires
        is_least_outside(avoid, a),
        is_least_outside(avoid, b),
    ensures
        a == b,
{
}

/// Among finitely many names, fewer than there are identifiers, a least one
/// is missing.
pub proof fn lemma_fresh_outside(avoid: Set<Identifier>)
    requires
        avoid.finite(),
        avoid.len() <= Identifier::MAX,
    ensures
        is_least_outside(avoid, fresh(avoid)),
{
    let n = lemma_least_from(avoid, 0);
}

/// [`lemma_fresh_outside`], where every identifier below `c` is known to be
/// among the names.
proof fn lemma_least_from(avoid: Set<Identifier>, c: nat) -> (n: Identifier)
    requires
        avoid.finite(),
        avoid.len() <= Identifier::MAX,
        c <= avoid.len(),
        forall|j: Identifier| j < c ==> avoid.contains(j),
    ensures
        is_least_outside(avoid, n),
    decreases avoid.len() - c,
{
    if !avoid.contains(c as Identifier) {
        c as Identifier
    } else {
        lemma_prefix_len(avoid, c + 1);
        lemma_least_from(avoid, c + 1)
    }
}

impl Term {
    /// Number of nodes.
    pub open spec fn size(self) -> nat
        decreases self,
    {
        match self {
            Term::Val(_) => 1,
            Term::Var(_) => 1,
            Term::Lam(_, b) => 1 + b.size(),
            Term::App(f, x) => 1 + f.size() + x.size(),
        }
    }

    /// The variables that occur free.
    pub open spec fn free(self) -> Set<Identifier>
        decreases self,
    {
        match self {
            Term::Val(_) => Set::empty(),
            Term::Var(x) => set![x],
            Term::Lam(x, b) => b.free().remove(x),
            Term::App(f, x) => f.free().union(x.free()),
        }
    }

    /// Every identifier that occurs, as a variable or at a binder.
    pub open spec fn vars(self) -> Set<Identifier>
        decreases self,
    {
        match self {
            Term::Val(_) => Set::empty(),
            Term::Var(x) => set![x],
            Term::Lam(x, b) => b.vars().insert(x),
            Term::App(f, x) => f.vars().union(x.vars()),
        }
    }

    /// The term with every occurrence of `from`, bound or free, written as `to`.
    pub open spec fn rename(self, from: Identifier, to: Identifier) -> Term
        decreases self,
    {
        match self {
            Term::Val(_) => self,
            Term::Var(x) => if x == from {
                Term::Var(to)
            } else {
                self
            },
            Term::Lam(x, b) => Term::Lam(
                if x == from {
                    to
                } else {
                    x
                },
                Box::new(b.rename(from, to)),
            ),
            Term::App(f, x) => Term::App(
                Box::new(f.rename(from, to)),
                Box::new(x.rename(from, to)),
            ),
        }
    }

    /// The names that a binder renamed during `self[v := s]` under a binder
    /// with body `self` must stay clear of.
    pub open spec fn clash_set(self, v: Identifier, s: Term) -> Set<Identifier> {
        self.vars().union(s.free()).insert(v)
    }

    /// Capture-avoiding substitution `self[v := s]`.
    ///
    /// A binder that would capture a free variable of `s` is first renamed to
    /// the least identifier that occurs neither in its body nor free in `s`
    /// and is not `v`.
    pub open spec fn subst(self, v: Identifier, s: Term) -> Term
        decreases self.size(),
    {
        match self {
            Term::Val(_) => self,
            Term::Var(x) => if x == v {
                s
            } else {
                self
            },
            Term::Lam(x, b) => if x == v {
                self
            } else if s.free().contains(x) {
                let n = fresh(b.clash_set(v, s));
                proof {
                    b.lemma_rename_size(x, n);
                }
                Term::Lam(n, Box::new(b.rename(x, n).subst(v, s)))
            } else {
                Term::Lam(x, Box::new(b.subst(v, s)))
            },
            Term::App(f, x) => Term::App(Box::new(f.subst(v, s)), Box::new(x.subst(v, s))),
        }
    }

    /// A term has at least one node.
    pub proof fn lemma_size_positive(self)
        ensures
            self.size() >= 1,
    {
    }

    /// Renaming keeps the number of nodes.
    pub proof fn lemma_rename_size(self, from: Identifier, to: Identifier)
        ensures
            self.rename(from, to).size() == self.size(),
        decreases self,
    {
        match self {
            Term::Val(_) => {},
            Term::Var(_) => {},
            Term::Lam(_, b) => {
                b.lemma_rename_size(from, to);
            },
            Term::App(f, x) => {
                f.lemma_rename_size(from, to);
                x.lemma_rename_size(from, to);
            },
        }
    }

    /// The sets of variables of a term are finite, and the free ones are among
    /// those that occur.
    pub proof fn lemma_vars_finite(self)
        ensures
            self.vars().finite(),
            self.free().finite(),
            self.free().subset_of(self.vars()),
        decreases self,
    {
        match self {
            Term::Val(_) => {},
            Term::Var(_) => {},
            Term::Lam(_, b) => {
                b.lemma_vars_finite();
            },
            Term::App(f, x) => {
                f.lemma_vars_finite();
                x.lemma_vars_finite();
            },
        }
    }

    /// Renaming `from` to `to` leaves free at most the variables that were
    /// free, without `from`, and `to`.
    pub proof fn lemma_rename_free(self, from: Identifier, to: Identifier)
        ensures
            self.rename(from, to).free().subset_of(self.free().remove(from).insert(to)),
        decreases self,
    {
        match self {
            Term::Val(_) => {},
            Term::Var(_) => {},
            Term::Lam(_, b) => {
                b.lemma_rename_free(from, to);
            },
            Term::App(f, x) => {
                f.lemma_rename_free(from, to);
                x.lemma_rename_free(from, to);
            },
        }
    }

    /// Substitution frees no variable: the free variables of `self[v := s]`
    /// are among those of `self` other than `v`, together with those of `s`.
    pub proof fn lemma_subst_free(self, v: Identifier, s: Term)
        ensures
            self.subst(v, s).free().subset_of(self.free().remove(v).union(s.free())),
        decreases self.size(),
    {
        match self {
            Term::Val(_) => {},
            Term::Var(_) => {},
            Term::Lam(x, b) => {
                if x == v {
                } else if s.free().contains(x) {
                    let n = fresh(b.clash_set(v, s));
                    b.lemma_rename_size(x, n);
                    b.lemma_rename_free(x, n);
                    b.rename(x, n).lemma_subst_free(v, s);
                } else {
                    b.lemma_subst_free(v, s);
                }
            },
            Term::App(f, x) => {
                f.lemma_subst_free(v, s);
                x.lemma_subst_free(v, s);
            },
        }
    }

    /// The term is an abstraction.
    pub open spec fn is_lam(self) -> bool {
        self is Lam
    }

    /// The term is an abstraction applied to an argument.
    pub open spec fn is_beta_redex(self) -> bool {
        self matches Term::App(f, _) && f.is_lam()
    }

    /// Beta-normal: no application of an abstraction occurs anywhere.
    pub open spec fn is_normal(self) -> bool
        decreases self,
    {
        match self {
            Term::Val(_) => true,
            Term::Var(_) => true,
            Term::Lam(_, b) => b.is_normal(),
            Term::App(f, x) => !f.is_lam() && f.is_normal() && x.is_normal(),
        }
    }

    /// The term after the leftmost-outermost redex has been contracted; the
    /// term itself where it is beta-normal.
    pub open spec fn beta_step(self) -> Term
        decreases self,
    {
        match self {
            Term::Val(_) => self,
            Term::Var(_) => self,
            Term::Lam(x, b) => Term::Lam(x, Box::new(b.beta_step())),
            Term::App(f, a) => match *f {
                Term::Lam(v, b) => b.subst(v, *a),
                _ => if f.is_normal() {
                    Term::App(f, Box::new(a.beta_step()))
                } else {
                    Term::App(Box::new(f.beta_step()), a)
                },
            },
        }
    }

    /// The term after `k` leftmost-outermost steps.
    pub open spec fn beta_iter(self, k: nat) -> Term
        decreases k,
    {
        if k == 0 {
            self
        } else {
            self.beta_step().beta_iter((k - 1) as nat)
        }
    }

    /// Leftmost-outermost reduction reaches a beta-normal form.
    pub open spec fn normalizes(self) -> bool {
        exists|k: nat| self.beta_iter(k).is_normal()
    }

    /// The beta-normal form that leftmost-outermost reduction reaches, where
    /// it reaches one.
    pub open spec fn normal_form(self) -> Term {
        self.beta_iter(choose|k: nat| self.beta_iter(k).is_normal())
    }

    /// Weak head normal: the head of the spine is not an abstraction that
    /// has an argument. Nothing is reduced below a binder or in an argument.
    pub open spec fn is_whnf(self) -> bool
        decreases self,
    {
        match self {
            Term::App(f, _) => !f.is_lam() && f.is_whnf(),
            _ => true,
        }
    }

    /// The term after the head redex has been contracted; the term itself
    /// where it is weak head normal.
    pub open spec fn head_step(self) -> Term
        decreases self,
    {
        match self {
            Term::App(f, a) => match *f {
                Term::Lam(v, b) => b.subst(v, *a),
                _ => Term::App(Box::new(f.head_step()), a),
            },
            _ => self,
        }
    }

    /// The term after `k` head steps.
    pub open spec fn head_iter(self, k: nat) -> Term
        decreases k,
    {
        if k == 0 {
            self
        } else {
            self.head_step().head_iter((k - 1) as nat)
        }
    }

    /// Head reduction reaches a weak head normal form.
    pub open spec fn head_normalizes(self) -> bool {
        exists|k: nat| self.head_iter(k).is_whnf()
    }

    /// The weak head normal form that head reduction reaches, where it
    /// reaches one.
    pub open spec fn head_normal_form(self) -> Term {
        self.head_iter(choose|k: nat| self.head_iter(k).is_whnf())
    }

    /// A step leaves a beta-normal term as it is.
    pub proof fn lemma_normal_step(self)
        requires
            self.is_normal(),
        ensures
            self.beta_step() == self,
        decreases self,
    {
        match self {
            Term::Val(_) => {},
            Term::Var(_) => {},
            Term::Lam(_, b) => {
                b.lemma_normal_step();
            },
            Term::App(f, a) => {
                a.lemma_normal_step();
            },
        }
    }

    /// Once beta-normal, further steps change nothing.
    pub proof fn lemma_normal_iter(self, k: nat)
        requires
            self.is_normal(),
        ensures
            self.beta_iter(k) == self,
        decreases k,
    {
        if k > 0 {
            self.lemma_normal_step();
            self.lemma_normal_iter((k - 1) as nat);
        }
    }

    /// Steps add up.
    pub proof fn lemma_beta_iter_add(self, j: nat, k: nat)
        ensures
            self.beta_iter(j).beta_iter(k) == self.beta_iter(j + k),
        decreases j,
    {
        if j > 0 {
            self.beta_step().lemma_beta_iter_add((j - 1) as nat, k);
        }
    }

    /// Any two beta-normal terms that reduction reaches are the same.
    pub proof fn lemma_normal_form_unique(self, j: nat, k: nat)
        requires
            self.beta_iter(j).is_normal(),
            self.beta_iter(k).is_normal(),
        ensures
            self.beta_iter(j) == self.beta_iter(k),
    {
        if j <= k {
            self.lemma_beta_iter_add(j, (k - j) as nat);
            self.beta_iter(j).lemma_normal_iter((k - j) as nat);
        } else {
            self.lemma_beta_iter_add(k, (j - k) as nat);
            self.beta_iter(k).lemma_normal_iter((j - k) as nat);
        }
    }

    /// A head step leaves a weak head normal term as it is.
    pub proof fn lemma_whnf_step(self)
        requires
            self.is_whnf(),
        ensures
            self.head_step() == self,
        decreases self,
    {
        match self {
            Term::App(f, _) => {
                f.lemma_whnf_step();
            },
            _ => {},
        }
    }

    /// Once weak head normal, further head steps change nothing.
    pub proof fn lemma_whnf_iter(self, k: nat)
        requires
            self.is_whnf(),
        ensures
            self.head_iter(k) == self,
        decreases k,
    {
        if k > 0 {
            self.lemma_whnf_step();
            self.lemma_whnf_iter((k - 1) as nat);
        }
    }

    /// Head steps add up.
    pub proof fn lemma_head_iter_add(self, j: nat, k: nat)
        ensures
            self.head_iter(j).head_iter(k) == self.head_iter(j + k),
        decreases j,
    {
        if j > 0 {
            self.head_step().lemma_head_iter_add((j - 1) as nat, k);
        }
    }

    /// Any two weak head normal terms that head reduction reaches are the same.
    pub proof fn lemma_head_normal_form_unique(self, j: nat, k: nat)
        requires
            self.head_iter(j).is_whnf(),
            self.head_iter(k).is_whnf(),
        ensures
            self.head_iter(j) == self.head_iter(k),
    {
        if j <= k {
            self.lemma_head_iter_add(j, (k - j) as nat);
            self.head_iter(j).lemma_whnf_iter((k - j) as nat);
        } else {
            self.lemma_head_iter_add(k, (j - k) as nat);
            self.head_iter(k).lemma_whnf_iter((j - k) as nat);
        }
    }

    /// A beta-normal term is weak head normal.
    pub proof fn lemma_normal_is_whnf(self)
        requires
            self.is_normal(),
        ensures
            self.is_whnf(),
        decreases self,
    {
        match self {
            Term::App(f, _) => {
                f.lemma_normal_is_whnf();
            },
            _ => {},
        }
    }

    /// A term has no more names than nodes.
    pub proof fn lemma_vars_count(self)
        ensures
            self.vars().finite(),
            self.free().finite(),
            self.vars().len() <= self.size(),
            self.free().len() <= self.size(),
        decreases self,
    {
        self.lemma_vars_finite();
        match self {
            Term::Val(_) => {},
            Term::Var(_) => {},
            Term::Lam(x, b) => {
                b.lemma_vars_count();
            },
            Term::App(f, x) => {
                f.lemma_vars_count();
                x.lemma_vars_count();
                vstd::set_lib::lemma_len_union(f.vars(), x.vars());
                vstd::set_lib::lemma_len_union(f.free(), x.free());
            },
        }
    }

    /// Renaming `from` to a name that does not occur writes that name where
    /// `from` was free, and changes nothing else of what is free.
    pub proof fn lemma_rename_free_exact(self, from: Identifier, to: Identifier)
        requires
            !self.vars().contains(to),
        ensures
            self.rename(from, to).free() == (if self.free().contains(from) {
                self.free().remove(from).insert(to)
            } else {
                self.free()
            }),
        decreases self,
    {
        self.lemma_vars_finite();
        match self {
            Term::Val(_) => {},
            Term::Var(x) => {
                if x == from {
                    assert(self.rename(from, to).free() =~= self.free().remove(from).insert(to));
                }
            },
            Term::Lam(x, b) => {
                b.lemma_rename_free_exact(from, to);
                b.lemma_vars_finite();
                let y = if x == from {
                    to
                } else {
                    x
                };
                assert(self.rename(from, to).free() == b.rename(from, to).free().remove(y));
                if self.free().contains(from) {
                    assert(self.rename(from, to).free() =~= self.free().remove(from).insert(to));
                } else {
                    assert(self.rename(from, to).free() =~= self.free());
                }
            },
            Term::App(f, x) => {
                f.lemma_rename_free_exact(from, to);
                x.lemma_rename_free_exact(from, to);
                f.lemma_vars_finite();
                x.lemma_vars_finite();
                if self.free().contains(from) {
                    assert(self.rename(from, to).free() =~= self.free().remove(from).insert(to));
                } else {
                    assert(self.rename(from, to).free() =~= self.free());
                }
            },
        }
    }

    /// Substitution captures nothing: where `v` is free in `self`, the free
    /// variables of `self[v := s]` are exactly those of `self` other than
    /// `v` together with those of `s`; where it is not, they are those of
    /// `self`.
    pub proof fn lemma_subst_free_exact(self, v: Identifier, s: Term)
        requires
            self.size() + s.size() <= Identifier::MAX,
        ensures
            self.subst(v, s).free() == (if self.free().contains(v) {
                self.free().remove(v).union(s.free())
            } else {
                self.free()
            }),
        decreases self.size(),
    {
        match self {
            Term::Val(_) => {},
            Term::Var(x) => {
                if x == v {
                    assert(self.free().remove(v).union(s.free()) =~= s.free());
                }
            },
            Term::Lam(x, b) => {
                if x == v {
                } else if s.free().contains(x) {
                    let avoid = b.clash_set(v, s);
                    let n = fresh(avoid);
                    b.lemma_vars_count();
                    b.lemma_vars_finite();
                    s.lemma_vars_count();
                    vstd::set_lib::lemma_len_union(b.vars(), s.free());
                    lemma_fresh_outside(avoid);
                    b.lemma_rename_size(x, n);
                    b.lemma_rename_free_exact(x, n);
                    let c = b.rename(x, n);
                    c.lemma_subst_free_exact(v, s);
                    assert(avoid.contains(v));
                    assert(!b.vars().contains(n) && !s.free().contains(n) && n != v);
                    assert(!b.free().contains(n));
                    assert(c.free().contains(v) == b.free().contains(v));
                    assert(self.subst(v, s).free() == c.subst(v, s).free().remove(n));
                    if b.free().contains(v) {
                        assert(self.subst(v, s).free() =~= self.free().remove(v).union(s.free()));
                    } else {
                        assert(self.subst(v, s).free() =~= self.free());
                    }
                } else {
                    b.lemma_subst_free_exact(v, s);
                    if b.free().contains(v) {
                        assert(self.subst(v, s).free() =~= self.free().remove(v).union(s.free()));
                    } else {
                        assert(self.subst(v, s).free() =~= self.free());
                    }
                }
            },
            Term::App(f, x) => {
                f.lemma_subst_free_exact(v, s);
                x.lemma_subst_free_exact(v, s);
                if self.free().contains(v) {
                    assert(self.subst(v, s).free() =~= self.free().remove(v).union(s.free()));
                } else {
                    assert(self.subst(v, s).free() =~= self.free());
                }
            },
        }
    }

    /// A value leaf.
    pub fn val(v: Value) -> (t: Term)
        ensures
            t == Term::Val(v),
    {
        Term::Val(v)
    }

    /// A variable.
    pub fn var(x: Identifier) -> (t: Term)
        ensures
            t == Term::Var(x),
    {
        Term::Var(x)
    }

    /// The abstraction `x -> body`.
    pub fn lam(x: Identifier, body: Term) -> (t: Term)
        ensures
            t == Term::Lam(x, Box::new(body)),
    {
        Term::Lam(x, Box::new(body))
    }

    /// The application `f x`.
    pub fn app(f: Term, x: Term) -> (t: Term)
        ensures
            t == Term::App(Box::new(f), Box::new(x)),
    {
        Term::App(Box::new(f), Box::new(x))
    }

    /// The value at a leaf, if the term is one.
    pub fn leaf_val(&self) -> (r: Option<Value>)
        ensures
            r == (match *self {
                Term::Val(v) => Some(v),
                _ => None,
            }),
    {
        match self {
            Term::Val(v) => Some(*v),
            _ => None,
        }
    }

    /// An unshared copy.
    pub fn deep_clone(&self) -> (t: Term)
        ensures
            t == *self,
        decreases *self,
    {
        match self {
            Term::Val(v) => Term::Val(*v),
            Term::Var(x) => Term::Var(*x),
            Term::Lam(x, b) => Term::Lam(*x, Box::new(b.deep_clone())),
            Term::App(f, x) => Term::App(Box::new(f.deep_clone()), Box::new(x.deep_clone())),
        }
    }

    /// Structural equality.
    pub fn same(&self, other: &Term) -> (r: bool)
        ensures
            r == (*self == *other),
        decreases *self,
    {
        match self {
            Term::Val(a) => match other {
                Term::Val(b) => *a == *b,
                _ => false,
            },
            Term::Var(a) => match other {
                Term::Var(b) => *a == *b,
                _ => false,
            },
            Term::Lam(a, s) => match other {
                Term::Lam(b, t) => *a == *b && s.same(t),
                _ => false,
            },
            Term::App(f, x) => match other {
                Term::App(g, y) => f.same(g) && x.same(y),
                _ => false,
            },
        }
    }

    /// Number of nodes, where it fits the machine word.
    pub fn node_count(&self) -> (n: usize)
        requires
            self.size() <= usize::MAX,
        ensures
            n == self.size(),
        decreases *self,
    {
        match self {
            Term::Val(_) => 1,
            Term::Var(_) => 1,
            Term::Lam(_, b) => 1 + b.node_count(),
            Term::App(f, x) => 1 + f.node_count() + x.node_count(),
        }
    }

    /// Number of nodes, or `None` where it does not fit the machine word.
    pub fn size_checked(&self) -> (n: Option<usize>)
        ensures
            match n {
                Some(n) => n == self.size(),
                None => self.size() > usize::MAX,
            },
        decreases *self,
    {
        match self {
            Term::Val(_) => Some(1),
            Term::Var(_) => Some(1),
            Term::Lam(_, b) => match b.size_checked() {
                Some(n) => n.checked_add(1),
                None => None,
            },
            Term::App(f, x) => match f.size_checked() {
                Some(n) => match x.size_checked() {
                    Some(m) => match n.checked_add(m) {
                        Some(s) => s.checked_add(1),
                        None => None,
                    },
                    None => None,
                },
                None => None,
            },
        }
    }

    /// Adds the free variables of the term to `acc`.
    fn add_free(&self, acc: &mut HashSet<Identifier>)
        ensures
            final(acc)@ == old(acc)@.union(self.free()),
        decreases *self,
    {
        broadcast use group_hash_axioms;

        match self {
            Term::Val(_) => {},
            Term::Var(x) => {
                acc.insert(*x);
            },
            Term::Lam(x, b) => {
                let held = acc.contains(x);
                b.add_free(acc);
                if !held {
                    acc.remove(x);
                }
            },
            Term::App(f, x) => {
                f.add_free(acc);
                x.add_free(acc);
            },
        }
    }

    /// Adds every identifier that occurs in the term to `acc`.
    fn add_vars(&self, acc: &mut HashSet<Identifier>)
        ensures
            final(acc)@ == old(acc)@.union(self.vars()),
        decreases *self,
    {
        broadcast use group_hash_axioms;

        match self {
            Term::Val(_) => {},
            Term::Var(x) => {
                acc.insert(*x);
            },
            Term::Lam(x, b) => {
                acc.insert(*x);
                b.add_vars(acc);
            },
            Term::App(f, x) => {
                f.add_vars(acc);
                x.add_vars(acc);
            },
        }
    }

    /// The set of variables that occur free.
    pub fn free_vars(&self) -> (free: HashSet<Identifier>)
        ensures
            free@ == self.free(),
            free@.finite(),
    {
        proof {
            self.lemma_vars_finite();
        }
        let mut acc: HashSet<Identifier> = HashSet::new();
        self.add_free(&mut acc);
        acc
    }

    /// Writes `to` for every occurrence of `from`.
    pub fn rename_var(&mut self, from: Identifier, to: Identifier)
        ensures
            *final(self) == old(self).rename(from, to),
        decreases *old(self),
    {
        match self {
            Term::Val(_) => {},
            Term::Var(x) => {
                if *x == from {
                    *x = to;
                }
            },
            Term::Lam(x, b) => {
                if *x == from {
                    *x = to;
                }
                b.rename_var(from, to);
            },
            Term::App(f, x) => {
                f.rename_var(from, to);
                x.rename_var(from, to);
            },
        }
    }

    /// Replaces the free occurrences of `var` by `code`, renaming the binders
    /// that would capture a free variable of `code`.
    pub fn sub(&mut self, var: Identifier, code: Term)
        ensures
            *final(self) == old(self).subst(var, code),
    {
        let free = code.free_vars();
        self.sub_with(var, &code, &free);
    }

    /// [`Term::sub`] with the free variables of `code` at hand.
    fn sub_with(&mut self, var: Identifier, code: &Term, code_free: &HashSet<Identifier>)
        requires
            code_free@ == code.free(),
        ensures
            *final(self) == old(self).subst(var, *code),
        decreases old(self).size(),
    {
        broadcast use group_hash_axioms;

        match self {
            Term::Val(_) => {},
            Term::Var(x) => {
                if *x == var {
                    *self = code.deep_clone();
                }
            },
            Term::Lam(x, b) => {
                if *x != var {
                    if code_free.contains(x) {
                        let mut avoid: HashSet<Identifier> = HashSet::new();
                        b.add_vars(&mut avoid);
                        code.add_free(&mut avoid);
                        avoid.insert(var);
                        proof {
                            b.lemma_vars_finite();
                            code.lemma_vars_finite();
                            assert(avoid@ =~= b.clash_set(var, *code));
                            b.lemma_rename_size(*x, fresh(avoid@));
                        }
                        let n = fresh_var(&avoid);
                        b.rename_var(*x, n);
                        *x = n;
                    }
                    b.sub_with(var, code, code_free);
                }
            },
            Term::App(f, a) => {
                f.sub_with(var, code, code_free);
                a.sub_with(var, code, code_free);
            },
        }
    }

    /// Whether the term is an abstraction.
    pub fn is_abstraction(&self) -> (r: bool)
        ensures
            r == self.is_lam(),
    {
        match self {
            Term::Lam(_, _) => true,
            _ => false,
        }
    }

    /// Whether the term is an abstraction applied to an argument.
    pub(crate) fn is_redex(&self) -> (r: bool)
        ensures
            r == self.is_beta_redex(),
    {
        match self {
            Term::App(f, _) => f.is_abstraction(),
            _ => false,
        }
    }

    /// Contracts the redex that the term is.
    pub(crate) fn contract(&mut self)
        requires
            old(self).is_beta_redex(),
        ensures
            *final(self) == old(self).beta_step(),
            *final(self) == old(self).head_step(),
    {
        let mut taken = Term::Val(Value::Int(0));
        std::mem::swap(self, &mut taken);
        match taken {
            Term::App(f, a) => match *f {
                Term::Lam(v, b) => {
                    let mut body = *b;
                    body.sub(v, *a);
                    *self = body;
                },
                _ => unreached(),
            },
            _ => unreached(),
        }
    }

    /// Whether the term is beta-normal.
    pub fn in_beta_normal_form(&self) -> (r: bool)
        ensures
            r == self.is_normal(),
        decreases *self,
    {
        match self {
            Term::Val(_) => true,
            Term::Var(_) => true,
            Term::Lam(_, b) => b.in_beta_normal_form(),
            Term::App(f, x) => !f.is_abstraction() && f.in_beta_normal_form()
                && x.in_beta_normal_form(),
        }
    }

    /// One head reduction. Returns true, and changes nothing, where the term
    /// is weak head normal; else contracts the head redex and returns false.
    pub fn head_red(&mut self) -> (normal: bool)
        ensures
            normal == old(self).is_whnf(),
            *final(self) == old(self).head_step(),
            normal ==> *final(self) == *old(self),
        decreases *old(self),
    {
        if self.is_redex() {
            self.contract();
            return false;
        }
        proof {
            if self.is_whnf() {
                self.lemma_whnf_step();
            }
        }
        match self {
            Term::App(f, _) => f.head_red(),
            _ => true,
        }
    }

    /// Reduces to weak head normal form.
    pub fn hnf(&mut self)
        requires
            old(self).head_normalizes(),
        ensures
            final(self).is_whnf(),
            *final(self) == old(self).head_normal_form(),
    {
        let ghost mut fuel: nat = choose|k: nat| self.head_iter(k).is_whnf();
        loop
            invariant_except_break
                self.head_iter(fuel) == old(self).head_normal_form(),
                self.head_iter(fuel).is_whnf(),
            ensures
                self.is_whnf(),
                *self == old(self).head_normal_form(),
            decreases fuel,
        {
            let ghost before = *self;
            let normal = self.head_red();
            if normal {
                proof {
                    before.lemma_whnf_iter(fuel);
                }
                break;
            }
            proof {
                fuel = (fuel - 1) as nat;
            }
        }
    }

    /// Whether the term is weak head normal.
    pub fn in_weak_head_normal_form(&self) -> (r: bool)
        ensures
            r == self.is_whnf(),
        decreases *self,
    {
        match self {
            Term::App(f, _) => !f.is_abstraction() && f.in_weak_head_normal_form(),
            _ => true,
        }
    }

    /// Head reduction for at most `limit` steps. Returns whether weak head
    /// normal form was reached.
    pub fn hnf_bounded(&mut self, limit: u32) -> (normal: bool)
        ensures
            *final(self) == old(self).head_iter(limit as nat),
            normal == final(self).is_whnf(),
    {
        let mut i: u32 = 0;
        while i < limit
            invariant
                i <= limit,
                *self == old(self).head_iter(i as nat),
            decreases limit - i,
        {
            let ghost before = *self;
            let normal = self.head_red();
            proof {
                old(self).lemma_head_iter_add(i as nat, 1);
                assert(before.head_iter(1) == before.head_step().head_iter(0));
            }
            if normal {
                proof {
                    old(self).lemma_head_iter_add(i as nat, (limit - i) as nat);
                    before.lemma_whnf_iter((limit - i) as nat);
                }
                return true;
            }
            i += 1;
        }
        self.in_weak_head_normal_form()
    }

    /// One leftmost-outermost reduction. Returns true, and changes nothing,
    /// where the term is beta-normal; else contracts one redex and returns
    /// false.
    pub fn beta(&mut self) -> (normal: bool)
        ensures
            normal == old(self).is_normal(),
            *final(self) == old(self).beta_step(),
            normal ==> *final(self) == *old(self),
        decreases *old(self),
    {
        if self.is_redex() {
            self.contract();
            return false;
        }
        proof {
            if self.is_normal() {
                self.lemma_normal_step();
            }
        }
        match self {
            Term::Val(_) => true,
            Term::Var(_) => true,
            Term::Lam(_, b) => b.beta(),
            Term::App(f, a) => {
                if f.beta() {
                    a.beta()
                } else {
                    false
                }
            },
        }
    }

    /// Reduces to beta-normal form.
    pub fn normalize(&mut self)
        requires
            old(self).normalizes(),
        ensures
            final(self).is_normal(),
            *final(self) == old(self).normal_form(),
    {
        let ghost mut fuel: nat = choose|k: nat| self.beta_iter(k).is_normal();
        loop
            invariant_except_break
                self.beta_iter(fuel) == old(self).normal_form(),
                self.beta_iter(fuel).is_normal(),
            ensures
                self.is_normal(),
                *self == old(self).normal_form(),
            decreases fuel,
        {
            let ghost before = *self;
            let normal = self.beta();
            if normal {
                proof {
                    before.lemma_normal_iter(fuel);
                }
                break;
            }
            proof {
                fuel = (fuel - 1) as nat;
            }
        }
    }

    /// Leftmost-outermost reduction for at most `limit` steps. Returns
    /// whether beta-normal form was reached.
    pub fn normalize_bounded(&mut self, limit: u32) -> (normal: bool)
        ensures
            *final(self) == old(self).beta_iter(limit as nat),
            normal == final(self).is_normal(),
    {
        let mut i: u32 = 0;
        while i < limit
            invariant
                i <= limit,
                *self == old(self).beta_iter(i as nat),
            decreases limit - i,
        {
            let ghost before = *self;
            let normal = self.beta();
            proof {
                old(self).lemma_beta_iter_add(i as nat, 1);
                assert(before.beta_iter(1) == before.beta_step().beta_iter(0));
            }
            if normal {
                proof {
                    old(self).lemma_beta_iter_add(i as nat, (limit - i) as nat);
                    before.lemma_normal_iter((limit - i) as nat);
                }
                return true;
            }
            i += 1;
        }
        self.in_beta_normal_form()
    }
}

impl Clone for Term {
    fn clone(&self) -> (t: Term)
        ensures
            t == *self,
    {
        self.deep_clone()
    }
}

impl PartialEq for Term {
    fn eq(&self, other: &Term) -> (r: bool) {
        self.same(other)
    }
}

impl PartialEqSpecImpl for Term {
    open spec fn obeys_eq_spec() -> bool {
        true
    }

    open spec fn eq_spec(&self, other: &Term) -> bool {
        *self == *other
    }
}

/// The first name of the pool that `p` accepts, trying the names in order.
pub fn new_var_where<F: Fn(Identifier) -> bool>(p: F) -> (r: Option<Identifier>)
    requires
        forall|i: Identifier| i < POOL_SIZE ==> call_requires(p, (i,)),
    ensures
        match r {
            Some(n) => n < POOL_SIZE && call_ensures(p, (n,), true) && forall|j: Identifier|
                j < n ==> call_ensures(p, (j,), false),
            None => forall|j: Identifier| j < POOL_SIZE ==> call_ensures(p, (j,), false),
        },
{
    let mut i: Identifier = 0;
    while i < POOL_SIZE
        invariant
            i <= POOL_SIZE,
            forall|i: Identifier| i < POOL_SIZE ==> call_requires(p, (i,)),
            forall|j: Identifier| j < i ==> call_ensures(p, (j,), false),
        decreases POOL_SIZE - i,
    {
        if p(i) {
            return Some(i);
        }
        i += 1;
    }
    None
}

/// The least identifier outside `avoid`: the first free name of the pool, or,
/// where the whole pool is taken, the first free identifier after it.
pub fn fresh_var(avoid: &HashSet<Identifier>) -> (n: Identifier)
    requires
        avoid@.finite(),
    ensures
        is_least_outside(avoid@, n),
        n == fresh(avoid@),
{
    broadcast use group_hash_axioms;

    let free_in_pool = |s: Identifier| -> (b: bool)
        ensures
            b == !avoid@.contains(s),
        { !avoid.contains(&s) };
    let found = new_var_where(free_in_pool);
    let count = avoid.len();
    let mut c: Identifier = match found {
        Some(n) => {
            proof {
                assert forall|j: Identifier| j < n implies avoid@.contains(j) by {
                    assert(call_ensures(free_in_pool, (j,), false));
                }
                lemma_least_outside_unique(avoid@, n, fresh(avoid@));
            }
            return n;
        },
        None => POOL_SIZE,
    };
    proof {
        assert forall|j: Identifier| j < c implies avoid@.contains(j) by {
            assert(call_ensures(free_in_pool, (j,), false));
        }
        lemma_prefix_len(avoid@, c as nat);
    }
    while avoid.contains(&c)
        invariant
            forall|j: Identifier| j < c ==> avoid@.contains(j),
            avoid@.finite(),
            c <= avoid@.len(),
            avoid@.len() == count,
        decreases avoid@.len() - c,
    {
        proof {
            lemma_prefix_len(avoid@, (c + 1) as nat);
        }
        c += 1;
    }
    proof {
        lemma_least_outside_unique(avoid@, c, fresh(avoid@));
    }
    c
}

} // verus!
