//! A program synthesizer over a typed lambda calculus.
//!
//! A [`Language`] names its primitives, with their types and reduction
//! rules, and tells terms apart by their meaning. Given a language and a
//! type, [`search`] enumerates the beta-normal terms of the type and an exact
//! size, one for each meaning, and [`metropolis`] walks the terms of the type
//! at random, towards those that a [`Judge`] scores higher.
//!
//! The contracts are stated over the enumeration as a sequence
//! ([`search::all_terms`]), typing ([`annotate::check`]), what a language
//! makes of a term ([`analysis::analysis`]) and reduction
//! ([`Term::beta_step`], [`eval::eval_step`]). That every term of the
//! enumeration is beta-normal, of the type and size asked for and unlike all
//! others in meaning is proved in [`search_laws`]; that no meaning is left
//! out, in [`search_complete`].

pub mod analysis;
pub mod annotate;
pub mod assoc;
pub mod cache;
pub mod context;
pub mod eval;
mod fxmap;
pub mod generator;
pub mod language;
pub mod languages;
pub mod metro;
mod random;
pub mod search;
pub mod search_complete;
pub mod search_laws;
pub mod size_cache;
pub mod synth;
pub mod term;
pub mod types;

pub use analysis::{analyze, analyze_neutral};
pub use annotate::{annotate_term, has_type, synth_type, Annotation, Metadata};
pub use cache::{Cache, Search, SearchResult};
pub use context::{BuiltIn, Context, Reduction, VarGen};
pub use generator::{search, search_with_cache, Enumerator};
pub use language::{Analysis, Language};
pub use languages::cond_poly::{Cond, CondPolyLang, CondPolySems, Program};
pub use languages::opaque::{Opaque, Searcher};
pub use languages::polynomials::{PolySem, Polynomials};
pub use metro::{
    count_subnodes, metropolis, mutate, mutate_kind, propose, random_subnode, replace_subnode,
    Chain, GRatio, GTerms, Judge, MutationTy, Options, Proposal,
};
pub use search::Item;
pub use size_cache::{reservoir_sample, sorted_decls, uniform_sample, SizeCache, MAX_IN_MEM};
pub use synth::{
    count_map_correct, count_step_correct, first_term, iterative, simple_map, Example,
    MetropolisOutput, Weigher,
};
pub use term::{fresh_var, new_var_where, Term, Value};
pub use types::{clone_decls, produces, Identifier, Type, VarDecl, POOL_SIZE};
