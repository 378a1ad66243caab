//! Pricing of European options under the Cox-Ross-Rubinstein binomial
//! lattice model, computed over exact rational arithmetic.

pub mod rational;
pub mod market;
pub mod contracts;
pub mod pricer;
pub mod laws;
