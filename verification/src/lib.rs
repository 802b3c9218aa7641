//! Decisions of a two-phase external shuffle for line-oriented files.
//!
//! Lines are scattered over a fixed number of buckets, every bucket is then
//! permuted in memory and emitted as one output file. This crate holds the
//! rules of that process; reading and writing files is left to the caller,
//! who asks the crate what to do next and tells it what was read.
//!
//! - `plan`: how many buckets a run gets.
//! - `order`, `batch`, `rotation`: in which order the input is read.
//! - `text`: which lines count, and small operations on text.
//! - `random`: the generators of the two phases.
//! - `buffer`, `flush`, `distribute`: the first phase.
//! - `names`, `emit`: the second phase.
//! - `memory`: both phases on lines held in memory.
//! - `config`: the configuration of a run.
//! - `gather`, `laws`: what holds of a run as a whole.

pub mod batch;
pub mod buffer;
pub mod config;
pub mod distribute;
pub mod emit;
pub mod flush;
pub mod gather;
pub mod laws;
pub mod memory;
pub mod names;
pub mod order;
pub mod plan;
pub mod random;
pub mod rotation;
pub mod text;

pub use buffer::LineBuffer;
pub use config::{parse_input_files, ConfigError, ShuffleConfig};
pub use distribute::Distributor;
pub use emit::{Emitter, OutputFile};
pub use flush::BucketWrite;
pub use memory::shuffle_lines;
pub use plan::{bucket_count, estimate_total_input_size, plan_buckets};
pub use random::Generator;
pub use rotation::ReaderRotation;
