//! Pre-warming of block-storage volumes: the read-granularity policy, the
//! interleaved striping of a device across workers, the per-worker read and
//! retry state machine, and the per-device tally of what was read.

pub mod volume;
pub mod block_size;
pub mod stripe;
pub mod worker;
pub mod tally;
pub mod report;
pub mod devices;
pub mod sweep;
