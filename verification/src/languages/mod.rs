//! Languages that come with the library.

pub mod arith;
pub mod cond_poly;
pub mod opaque;
pub mod poly;
pub mod poly_eval;
pub mod polynomials;
