//! A small reactive runtime: signals are cells whose readers are recorded,
//! and effects are computations that run again when a signal they read is
//! written.
//!
//! * [`model`] is the mathematical state of a context and its history.
//! * [`signals`] is the runtime itself: the context, the signal handles and
//!   the trait that an effect body implements.
//! * [`laws`] states what follows for every context.
pub mod laws;
pub mod model;
pub mod signals;
