//! The interface between the synthesizer and a language: its primitives and
//! the hooks that give each term a canonical meaning.

use crate::context::{BuiltIn, Context, Reduction};
use crate::term::Value;
use crate::types::{Identifier, Type};
use vstd::prelude::*;

verus! {

/// What a language makes of a term.
pub enum Analysis<S> {
    /// The term stands for `S`; two terms that stand for the same are
    /// duplicates of each other.
    Canonical(S),
    /// The term is accepted without a summary of its meaning.
    Unique,
    /// The term has no meaning in the language.
    Malformed,
}

impl<S> Analysis<S> {
    /// Whether the term has no meaning.
    pub fn malformed(&self) -> (r: bool)
        ensures
            r == (*self is Malformed),
    {
        match self {
            Analysis::Malformed => true,
            _ => false,
        }
    }
}

/// A language: its primitives, and how it summarizes the meaning of terms.
///
/// The hooks are functions of their arguments: each states in a spec function
/// of the same name, ending in `_spec`, what it returns. A hook answers
/// whatever it is given: what has no meaning is `Malformed`, never a failure.
/// The synthesizer itself hands no hook a `Malformed` analysis.
pub trait Language: Sized {
    /// The summary of a term's meaning.
    type Semantics;

    /// The reduction rules of the primitives.
    type Prim: Reduction;

    /// The largest size of a subterm that a small mutation replaces.
    open spec fn small_size_spec(&self) -> usize {
        2
    }

    /// The largest size of a subterm that a large mutation replaces or puts
    /// in place.
    open spec fn large_size_spec(&self) -> usize {
        2
    }

    /// The primitives.
    open spec fn context_spec(&self) -> Seq<(Identifier, BuiltIn<Self::Prim>)> {
        Seq::empty()
    }

    /// What a value leaf means.
    open spec fn sval_spec(&self, value: Value, ty: Type) -> Analysis<Self::Semantics> {
        Analysis::Unique
    }

    /// What a variable, or the name of a primitive, means.
    open spec fn svar_spec(&self, ident: Identifier, ty: Type) -> Analysis<Self::Semantics> {
        Analysis::Unique
    }

    /// What an abstraction means whose body means `body`.
    open spec fn slam_spec(
        &self,
        ident: Identifier,
        body: Analysis<Self::Semantics>,
        ty: Type,
    ) -> Analysis<Self::Semantics> {
        Analysis::Unique
    }

    /// What an application means whose parts mean `fun` and `arg`.
    open spec fn sapp_spec(
        &self,
        fun: Analysis<Self::Semantics>,
        arg: Analysis<Self::Semantics>,
        ty: Type,
    ) -> Analysis<Self::Semantics> {
        Analysis::Unique
    }

    fn small_size(&self) -> (n: usize)
        ensures
            n == self.small_size_spec(),
    ;

    fn large_size(&self) -> (n: usize)
        ensures
            n == self.large_size_spec(),
    ;

    fn context(&self) -> (c: Context<Self::Prim>)
        ensures
            c@ == self.context_spec(),
    ;

    fn sval(&self, value: &Value, ty: &Type) -> (a: Analysis<Self::Semantics>)
        ensures
            a == self.sval_spec(*value, *ty),
    ;

    fn svar(&self, ident: Identifier, ty: &Type) -> (a: Analysis<Self::Semantics>)
        ensures
            a == self.svar_spec(ident, *ty),
    ;

    fn slam(&self, ident: Identifier, body: Analysis<Self::Semantics>, ty: &Type) -> (a: Analysis<
        Self::Semantics,
    >)
        ensures
            a == self.slam_spec(ident, body, *ty),
    ;

    fn sapp(
        &self,
        fun: Analysis<Self::Semantics>,
        arg: Analysis<Self::Semantics>,
        ty: &Type,
    ) -> (a: Analysis<Self::Semantics>)
        ensures
            a == self.sapp_spec(fun, arg, *ty),
    ;

    /// Whether two summaries are the same.
    fn same(&self, a: &Self::Semantics, b: &Self::Semantics) -> (r: bool)
        ensures
            r == (*a == *b),
    ;

    /// A copy of a summary.
    fn copy(&self, a: &Self::Semantics) -> (r: Self::Semantics)
        ensures
            r == *a,
    ;

    /// A copy of an analysis.
    fn copy_analysis(&self, a: &Analysis<Self::Semantics>) -> (r: Analysis<Self::Semantics>)
        ensures
            r == *a,
    {
        match a {
            Analysis::Canonical(s) => Analysis::Canonical(self.copy(s)),
            Analysis::Unique => Analysis::Unique,
            Analysis::Malformed => Analysis::Malformed,
        }
    }
}

} // verus!
