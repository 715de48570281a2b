//! An algebra of signed, recursively nested multisets ("boxes").
//!
//! A value is a box or an anti-box holding finitely many child values, each
//! with a multiplicity; children are themselves boxes, down to the
//! empty box. The library provides a total order, structural equality,
//! addition and multiplication under a sign-product rule, exponentiation,
//! and a cancellation pass that collapses box/anti-box twin pairs at every
//! nesting depth.

pub mod arith;
pub mod cancel;
pub mod config;
pub mod laws;
pub mod model;
pub mod order;
pub mod reduced;
pub mod value;
pub mod wf;

pub use config::Config;
pub use model::Model;
pub use value::MBox;
