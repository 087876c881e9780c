//! A log-structured message store.
//!
//! Messages are appended to one commit log, a byte stream cut into mapped
//! segments of equal size. For every queue a consume queue holds, in the
//! order of the queue, where in the log its messages lie. Background loops
//! decide when written bytes are committed and flushed, and a master streams
//! the log to its slaves and counts their acknowledgements. After an unclean
//! shutdown the log is scanned, cut at the first record that is not whole,
//! and the consume queues are rebuilt from it.
//!
//! - [`segment`], [`commit_log`], [`record`], [`recovery`]: the log.
//! - [`consume_queue`], [`queue_store`]: the index.
//! - [`store`]: log and index together.
//! - [`flush`], [`ha`]: when bytes become durable, and replication.
//! - [`log_laws`], [`store_laws`], [`replay_laws`]: what holds over any run
//!   of operations.
//! - [`codec`], [`crc`], [`file_name`], [`error`], [`config`]: what the
//!   others stand on.
//! - [`cell`], [`env_utils`], [`header`]: the broker's shared handles, its
//!   home directory, and a request header.

pub mod cell;
pub mod codec;
pub mod commit_log;
pub mod config;
pub mod consume_queue;
pub mod crc;
pub mod env_utils;
pub mod error;
pub mod file_name;
pub mod flush;
pub mod ha;
pub mod header;
pub mod log_laws;
pub mod queue_store;
pub mod record;
pub mod recovery;
pub mod replay_laws;
pub mod segment;
pub mod store;
pub mod store_laws;
