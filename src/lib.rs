//! Amplicon read-pair analysis: FASTQ framing and parsing, consensus
//! reconstruction from an overlap alignment, reference-alignment bookkeeping
//! and the per-position / pairwise statistics gathered over all read pairs.

pub mod buffer;
pub mod config;
pub mod fastq;
pub mod pair;
pub mod pool;
pub mod process;
pub mod reference;
pub mod stats;
pub mod tally;
pub mod view;

pub use buffer::{Buffer, BufferError, BUF_SIZE};
pub use config::{Config, ConfigError};
pub use fastq::{FastQIter, FastQRecord, FastqError, Lines};
pub use pair::{PairError, WalkSummary};
pub use stats::{Counts, InsertLength, MutCorr, Stats};
pub use view::{ViewBuf, ViewRec, VIEW_N_REC};
