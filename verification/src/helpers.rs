//! Small shared utilities: string helpers, vector reordering, list folding
//! for XML output, line reading, and an atomic flag for cross-thread
//! signalling.

pub mod config;
pub mod paths;
pub mod strings;
pub mod traits;
pub mod vec_ops;

pub mod atomic_flag;
pub mod basics;

pub use atomic_flag::AtomicFlag;
pub use basics::{fold_lis, read_line, strip_bom, ReadLineError, Side};
