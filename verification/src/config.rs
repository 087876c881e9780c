//! The tunables of the store, each by name.

use crate::flush::FlushPolicy;
use crate::ha::MasterSide;
use vstd::prelude::*;

verus! {

/// The part that a broker plays in replication.
#[derive(Clone, Copy, Debug, PartialEq, Eq, Structural)]
pub enum BrokerRole {
    /// A master that does not wait for its slaves.
    AsyncMaster,
    /// A master whose appends wait for the slaves' acknowledgement.
    SyncMaster,
    Slave,
}

/// Whether an append waits for its bytes to be flushed.
#[derive(Clone, Copy, Debug, PartialEq, Eq, Structural)]
pub enum FlushDiskType {
    SyncFlush,
    AsyncFlush,
}

/// The tunables that the store reads. Sizes are in bytes, times in
/// milliseconds.
#[derive(Clone, Copy, Debug)]
pub struct MessageStoreConfig {
    /// The size of a segment of the commit log.
    pub mapped_file_size_commit_log: usize,
    /// The longest record that the commit log accepts.
    pub max_message_size: usize,
    /// Whether recovery checks the check value of every body.
    pub check_crc_on_recover: bool,
    pub flush_interval_commit_log: usize,
    pub commit_interval_commit_log: usize,
    pub flush_interval_consume_queue: usize,
    pub flush_commit_log_least_pages: usize,
    pub commit_commit_log_least_pages: usize,
    pub flush_consume_queue_least_pages: usize,
    pub flush_commit_log_thorough_interval: usize,
    pub commit_commit_log_thorough_interval: usize,
    pub flush_consume_queue_thorough_interval: usize,
    /// How long an append waits for its flush.
    pub sync_flush_timeout: usize,
    /// How long an append waits for its replication.
    pub slave_timeout: usize,
    /// How long the append point may be held before appends are turned away.
    pub os_page_cache_busy_timeout_mills: usize,
    /// Whether appends land in a transient buffer first.
    pub transient_store_pool_enable: bool,
    /// After this long without a word a slave's session is closed.
    pub ha_housekeeping_interval: usize,
    pub ha_send_heartbeat_interval: usize,
    /// The longest body of a data frame.
    pub ha_transfer_batch_size: usize,
    /// How far behind the master a slave may lie and still count.
    pub ha_max_gap_not_in_sync: usize,
    /// How many slaves have to confirm an append.
    pub min_in_sync_replicas: usize,
    pub ha_flow_control_enable: bool,
    pub max_ha_transfer_byte_in_second: usize,
    pub broker_role: BrokerRole,
    pub flush_disk_type: FlushDiskType,
}

impl Default for MessageStoreConfig {
    /// Every number zero, every switch off, an asynchronous master that
    /// flushes asynchronously. These tunables allow no store: a segment
    /// size has to be set.
    fn default() -> (config: Self)
        ensures
            config == MessageStoreConfig::spec_default(),
            !config.spec_is_valid(),
    {
        MessageStoreConfig {
            mapped_file_size_commit_log: 0,
            max_message_size: 0,
            check_crc_on_recover: false,
            flush_interval_commit_log: 0,
            commit_interval_commit_log: 0,
            flush_interval_consume_queue: 0,
            flush_commit_log_least_pages: 0,
            commit_commit_log_least_pages: 0,
            flush_consume_queue_least_pages: 0,
            flush_commit_log_thorough_interval: 0,
            commit_commit_log_thorough_interval: 0,
            flush_consume_queue_thorough_interval: 0,
            sync_flush_timeout: 0,
            slave_timeout: 0,
            os_page_cache_busy_timeout_mills: 0,
            transient_store_pool_enable: false,
            ha_housekeeping_interval: 0,
            ha_send_heartbeat_interval: 0,
            ha_transfer_batch_size: 0,
            ha_max_gap_not_in_sync: 0,
            min_in_sync_replicas: 0,
            ha_flow_control_enable: false,
            max_ha_transfer_byte_in_second: 0,
            broker_role: BrokerRole::AsyncMaster,
            flush_disk_type: FlushDiskType::AsyncFlush,
        }
    }
}

impl MessageStoreConfig {
    /// The tunables that nobody has set.
    pub open spec fn spec_default() -> MessageStoreConfig {
        MessageStoreConfig {
            mapped_file_size_commit_log: 0,
            max_message_size: 0,
            check_crc_on_recover: false,
            flush_interval_commit_log: 0,
            commit_interval_commit_log: 0,
            flush_interval_consume_queue: 0,
            flush_commit_log_least_pages: 0,
            commit_commit_log_least_pages: 0,
            flush_consume_queue_least_pages: 0,
            flush_commit_log_thorough_interval: 0,
            commit_commit_log_thorough_interval: 0,
            flush_consume_queue_thorough_interval: 0,
            sync_flush_timeout: 0,
            slave_timeout: 0,
            os_page_cache_busy_timeout_mills: 0,
            transient_store_pool_enable: false,
            ha_housekeeping_interval: 0,
            ha_send_heartbeat_interval: 0,
            ha_transfer_batch_size: 0,
            ha_max_gap_not_in_sync: 0,
            min_in_sync_replicas: 0,
            ha_flow_control_enable: false,
            max_ha_transfer_byte_in_second: 0,
            broker_role: BrokerRole::AsyncMaster,
            flush_disk_type: FlushDiskType::AsyncFlush,
        }
    }

    /// Whether a store can be made with these tunables: a segment has room
    /// for at least the header of a record, and a record of the longest
    /// accepted length fits in a segment.
    pub open spec fn spec_is_valid(self) -> bool {
        &&& self.mapped_file_size_commit_log >= crate::record::RECORD_HEADER_SIZE
        &&& self.max_message_size <= self.mapped_file_size_commit_log
    }

    pub fn is_valid(&self) -> (valid: bool)
        ensures
            valid == self.spec_is_valid(),
    {
        self.mapped_file_size_commit_log >= crate::record::RECORD_HEADER_SIZE
            && self.max_message_size <= self.mapped_file_size_commit_log
    }

    /// How the loop that flushes the commit log is tuned.
    pub fn flush_policy(&self) -> (policy: FlushPolicy)
        ensures
            policy == (FlushPolicy {
                interval_ms: self.flush_interval_commit_log as u64,
                least_pages: self.flush_commit_log_least_pages,
                thorough_interval_ms: self.flush_commit_log_thorough_interval as u64,
            }),
    {
        FlushPolicy {
            interval_ms: self.flush_interval_commit_log as u64,
            least_pages: self.flush_commit_log_least_pages,
            thorough_interval_ms: self.flush_commit_log_thorough_interval as u64,
        }
    }

    /// How the loop that commits the transient buffer is tuned.
    pub fn commit_policy(&self) -> (policy: FlushPolicy)
        ensures
            policy == (FlushPolicy {
                interval_ms: self.commit_interval_commit_log as u64,
                least_pages: self.commit_commit_log_least_pages,
                thorough_interval_ms: self.commit_commit_log_thorough_interval as u64,
            }),
    {
        FlushPolicy {
            interval_ms: self.commit_interval_commit_log as u64,
            least_pages: self.commit_commit_log_least_pages,
            thorough_interval_ms: self.commit_commit_log_thorough_interval as u64,
        }
    }

    /// How the loop that flushes the consume queues is tuned.
    pub fn consume_queue_flush_policy(&self) -> (policy: FlushPolicy)
        ensures
            policy == (FlushPolicy {
                interval_ms: self.flush_interval_consume_queue as u64,
                least_pages: self.flush_consume_queue_least_pages,
                thorough_interval_ms: self.flush_consume_queue_thorough_interval as u64,
            }),
    {
        FlushPolicy {
            interval_ms: self.flush_interval_consume_queue as u64,
            least_pages: self.flush_consume_queue_least_pages,
            thorough_interval_ms: self.flush_consume_queue_thorough_interval as u64,
        }
    }

    /// Whether an append waits for its bytes to be flushed.
    pub fn waits_for_flush(&self) -> (waits: bool)
        ensures
            waits == (self.flush_disk_type == FlushDiskType::SyncFlush),
    {
        match self.flush_disk_type {
            FlushDiskType::SyncFlush => true,
            FlushDiskType::AsyncFlush => false,
        }
    }

    /// Whether an append waits for its replication.
    pub fn waits_for_replication(&self) -> (waits: bool)
        ensures
            waits == (self.broker_role == BrokerRole::SyncMaster),
    {
        match self.broker_role {
            BrokerRole::SyncMaster => true,
            _ => false,
        }
    }

    /// What a master whose log spans `min_offset` to `max_offset` offers to
    /// its slaves.
    pub fn master_side(&self, min_offset: u64, max_offset: u64) -> (master: MasterSide)
        ensures
            master == (MasterSide {
                min_offset,
                max_offset,
                housekeeping_interval_ms: self.ha_housekeeping_interval as u64,
            }),
    {
        MasterSide {
            min_offset,
            max_offset,
            housekeeping_interval_ms: self.ha_housekeeping_interval as u64,
        }
    }
}

} // verus!
