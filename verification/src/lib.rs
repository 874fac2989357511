//! A learned, reversible substitution codec over sequences of integer
//! symbols ("units").
//!
//! Training (`fit`) repeatedly merges the most frequent adjacent pair of
//! units into a freshly assigned unit id, recording each merge in an
//! insertion-ordered [`table::MergeTable`].  Encoding replays a trained
//! table against a new sequence in learned-priority order; decoding expands
//! merge-created ids back to the original units.  Batched variants run the
//! per-sequence work in parallel while sharing one table.

pub mod codec;
pub mod concurrent;
pub mod pairs;
pub mod rewrite;
pub mod table;
pub mod trainer;

pub use codec::decode;
pub use codec::decode_py;
pub use codec::encode;
pub use codec::encode_py;
pub use concurrent::decode_concurrent;
pub use concurrent::decode_concurrent_py;
pub use concurrent::encode_concurrent;
pub use concurrent::encode_concurrent_py;
pub use concurrent::fit_batch_ids_representable;
pub use concurrent::fit_concurrent;
pub use concurrent::fit_concurrent_py;
pub use pairs::get_counts;
pub use pairs::Pair;
pub use rewrite::merge;
pub use table::FitError;
pub use table::MergeTable;
pub use trainer::fit;
pub use trainer::fit_ids_representable;
pub use trainer::fit_py;
