//! Identifiers and the types of the simply typed lambda calculus.

use vstd::prelude::*;
use vstd::std_specs::cmp::PartialEqSpecImpl;

verus! {

/// An interned name. The first [`POOL_SIZE`] identifiers are the single-letter
/// names that binders are drawn from; every other name is free for primitives.
pub type Identifier = u64;

/// Number of single-letter names: the Latin alphabet followed by the Greek one.
pub const POOL_SIZE: u64 = 50;

/// A type: a named atom or a function type `arg -> ret`.
#[derive(Debug)]
pub enum Type {
    Ground(Identifier),
    Fun(Box<Type>, Box<Type>),
}

/// A declaration `(name, type)` of a variable in scope.
pub type VarDecl = (Identifier, Type);

/// The names that a list of declarations declares.
pub open spec fn decl_names(decls: Seq<VarDecl>) -> Set<Identifier> {
    Set::new(|x: Identifier| exists|i: int| 0 <= i < decls.len() && decls[i].0 == x)
}

/// The names of a list of declarations with one more are those of the list
/// and the new one.
pub proof fn lemma_decl_names_push(decls: Seq<VarDecl>, d: VarDecl)
    ensures
        decl_names(decls.push(d)) == decl_names(decls).insert(d.0),
{
    let more = decls.push(d);
    assert forall|x: Identifier| decl_names(more).contains(x) == decl_names(decls).insert(
        d.0,
    ).contains(x) by {
        if decl_names(more).contains(x) {
            let i = choose|i: int| 0 <= i < more.len() && more[i].0 == x;
            if i < decls.len() {
                assert(decls[i].0 == x);
            }
        }
        if decl_names(decls).contains(x) {
            let i = choose|i: int| 0 <= i < decls.len() && decls[i].0 == x;
            assert(more[i].0 == x);
        }
        if x == d.0 {
            assert(more[decls.len() as int].0 == x);
        }
    }
    assert(decl_names(more) =~= decl_names(decls).insert(d.0));
}

impl Type {
    /// Number of arrows on the right spine: how many arguments a value of this
    /// type accepts.
    pub open spec fn arity(self) -> nat
        decreases self,
    {
        match self {
            Type::Ground(_) => 0,
            Type::Fun(_, r) => 1 + r.arity(),
        }
    }

    /// `self` is `target`, or a function type whose result, after some number
    /// of arguments, is `target`.
    pub open spec fn produces(self, target: Type) -> bool
        decreases self,
    {
        self == target || match self {
            Type::Fun(_, r) => r.produces(target),
            Type::Ground(_) => false,
        }
    }

    /// The ground type named `name`.
    pub fn ground(name: Identifier) -> (t: Type)
        ensures
            t == Type::Ground(name),
    {
        Type::Ground(name)
    }

    /// The function type `arg -> ret`.
    pub fn fun(arg: Type, ret: Type) -> (t: Type)
        ensures
            t == Type::Fun(Box::new(arg), Box::new(ret)),
    {
        Type::Fun(Box::new(arg), Box::new(ret))
    }

    /// An independent copy.
    pub fn deep_clone(&self) -> (t: Type)
        ensures
            t == *self,
        decreases *self,
    {
        match self {
            Type::Ground(n) => Type::Ground(*n),
            Type::Fun(a, r) => Type::Fun(Box::new(a.deep_clone()), Box::new(r.deep_clone())),
        }
    }

    /// Structural equality.
    pub fn same(&self, other: &Type) -> (r: bool)
        ensures
            r == (*self == *other),
        decreases *self,
    {
        match self {
            Type::Ground(a) => match other {
                Type::Ground(b) => *a == *b,
                Type::Fun(_, _) => false,
            },
            Type::Fun(a, r) => match other {
                Type::Ground(_) => false,
                Type::Fun(b, s) => a.same(b) && r.same(s),
            },
        }
    }
}

impl Clone for Type {
    fn clone(&self) -> (t: Type)
        ensures
            t == *self,
    {
        self.deep_clone()
    }
}

impl PartialEq for Type {
    fn eq(&self, other: &Type) -> (r: bool) {
        self.same(other)
    }
}

impl PartialEqSpecImpl for Type {
    open spec fn obeys_eq_spec() -> bool {
        true
    }

    open spec fn eq_spec(&self, other: &Type) -> bool {
        *self == *other
    }
}

/// Whether a head of type `ty` can end up at `target` once it has been given
/// enough arguments.
pub fn produces(ty: &Type, target: &Type) -> (r: bool)
    ensures
        r == ty.produces(*target),
    decreases *ty,
{
    if ty.same(target) {
        return true;
    }
    match ty {
        Type::Fun(_, r) => produces(r, target),
        Type::Ground(_) => false,
    }
}

/// An independent copy of a list of declarations.
pub fn clone_decls(decls: &Vec<VarDecl>) -> (r: Vec<VarDecl>)
    ensures
        r@ == decls@,
{
    let mut out: Vec<VarDecl> = Vec::new();
    let mut i: usize = 0;
    while i < decls.len()
        invariant
            i <= decls.len(),
            out@ == decls@.take(i as int),
        decreases decls.len() - i,
    {
        let d = (decls[i].0, decls[i].1.deep_clone());
        out.push(d);
        proof {
            assert(decls@.take(i as int + 1) =~= decls@.take(i as int).push(decls@[i as int]));
        }
        i += 1;
    }
    proof {
        assert(decls@.take(decls.len() as int) =~= decls@);
    }
    out
}

} // verus!
