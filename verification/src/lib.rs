//! A tracing mark-and-sweep collector for objects of one element type.
//!
//! Objects live in the slots of an arena and are named by [`GcPtr`] handles.
//! A collection marks every object that can be reached from a root set
//! through the handles that objects hold, then sweeps the rest away.
//!
//! - [`gc`] holds the collector itself, [`Gc`].
//! - [`heap`] holds its mathematical model, [`Heap`], in whose terms the
//!   contracts of [`Gc`] are written, and [`laws`] what follows for every
//!   collection.
//! - [`traverse`] holds [`Traverseable`], through which element types and
//!   root sets show the collector the handles they hold.
//! - [`header`] and [`layout`] describe a block of the arena.

mod arena;
pub mod gc;
pub mod header;
pub mod heap;
pub mod laws;
pub mod layout;
mod marking;
pub mod ptr;
mod sweeping;
pub mod traverse;

pub use crate::gc::{Gc, DEFAULT_COLLECT_LIMIT};
pub use crate::header::GcHeader;
pub use crate::heap::Heap;
pub use crate::ptr::GcPtr;
pub use crate::traverse::Traverseable;
