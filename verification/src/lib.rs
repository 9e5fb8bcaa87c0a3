//! A time-indexed store of per-key collection differences.
//!
//! For each key the store keeps a history of batches of weighted values, one
//! batch for each logical time at which the key changed. Times are elements
//! of a join-semilattice; the collection of a key at a time is the sum of all
//! of its batches at the times below or equal to that time.

pub mod history;
pub mod lattice;
pub mod lookup;
pub mod merge;
pub mod offset;
pub mod order;
pub mod slice_iter;
pub mod stream;
pub mod trace;
pub mod weights;

pub use lattice::{close_under_lub, LeastUpperBound};
pub use lookup::Lookup;
pub use merge::{coalesce, merge};
pub use offset::Offset;
pub use slice_iter::SliceIterator;
pub use stream::CollectionIterator;
pub use trace::{CollectionTrace, TraceIterator};
