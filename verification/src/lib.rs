//! A FIFO queue keyed by `K`: an arena-backed doubly-linked list plus a hash
//! index, with constant-time push and pop at both ends and constant-time
//! lookup, insertion and removal of any element by its key.
//!
//! [`LinkedQueue`] stands for the sequence of its `(key, value)` pairs, head
//! first, in which no key occurs twice. The contracts of its operations are
//! stated over this sequence with the functions of [`model`].

pub mod error;
pub mod laws;
pub mod model;
pub mod oracle;
pub mod queue;

pub use error::InsertError;
pub use queue::{Drain, IntoIter, Iter, Keys, LinkedQueue, Values};
