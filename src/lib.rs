//! External merge sort of delimiter-framed text records, keyed by a primary
//! and a secondary key found inside each record.

pub mod chunk;
pub mod framing;
pub mod locate;
pub mod merge;
pub mod order;
pub mod pipeline;
pub mod reader;
pub mod record;
pub mod segment;
pub mod sorter;
pub mod tournament;

pub use chunk::ChunkBuilder;
pub use framing::RecordFramer;
pub use locate::{key_pos, key_value, locate};
pub use merge::{MergeError, MergeStep, Merger};
pub use pipeline::{merge_runs, sort_records};
pub use reader::{fill_the_queue, Queue};
pub use record::RawRecord;
pub use segment::Segment;
pub use sorter::internal_pool_sort;
pub use tournament::{winner_tree_by_idx, InternalNode};
