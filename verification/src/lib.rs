//! A growable, indexable sequence of fixed-width elements kept in seekable byte
//! stores instead of process memory, with optional mirror copies ("shadows")
//! that take over when the primary store faults.
//!
//! The engine consumes two capabilities and is proved against both:
//!
//! * [`codec`]: how one element becomes a fixed number of bytes and back;
//! * [`store`]: what a byte store must do, and a store in memory that does it.
//!
//! On top of them stand
//!
//! * [`layout`]: where the elements lie in a store and how capacities grow;
//! * [`vec_file`]: the engine itself, with its shadows;
//! * [`error`]: the failures the engine reports;
//! * [`laws`]: facts that relate several operations to one another.
//!
//! Every operation of the engine says in its contract what becomes of the
//! sequence of elements, `vf@`. A store that keeps the contract of
//! [`store::Storage`] may fault at any moment; the contracts say what holds
//! then, too.
pub mod codec;
pub mod error;
pub mod laws;
pub mod layout;
pub mod store;
pub mod vec_file;

pub use crate::codec::{de_from, ser_to, Element};
pub use crate::error::{Error, Fault};
pub use crate::store::{MemStore, Storage};
pub use crate::vec_file::{VecFile, VecFileIterator};
