use vstd::prelude::*;

verus! {

// The durability bookkeeping of the background log writer: a dirty flag for
// bytes appended since the last sync, and the interval of the periodic
// flush. The file operations themselves happen at the caller, which asks
// this manager whether a flush is due.

/// The default periodic flush interval, in milliseconds.
pub const FLUSH_INTERVAL_MS: u64 = 50;

pub struct SyncManager {
    pending_flush: bool,
    flush_interval_ms: u64,
}

impl SyncManager {
    /// Whether un-synced bytes are outstanding.
    pub closed spec fn pending(self) -> bool {
        self.pending_flush
    }

    pub closed spec fn interval_ms(self) -> u64 {
        self.flush_interval_ms
    }

    pub fn new() -> (r: SyncManager)
        ensures
            !r.pending(),
            r.interval_ms() == FLUSH_INTERVAL_MS,
    {
        SyncManager { pending_flush: false, flush_interval_ms: FLUSH_INTERVAL_MS }
    }

    pub fn with_interval(interval_ms: u64) -> (r: SyncManager)
        ensures
            !r.pending(),
            r.interval_ms() == interval_ms,
    {
        SyncManager { pending_flush: false, flush_interval_ms: interval_ms }
    }

    /// The periodic flush interval, in milliseconds.
    pub fn flush_interval(&self) -> (r: u64)
        ensures
            r == self.interval_ms(),
    {
        self.flush_interval_ms
    }

    /// Records that bytes were appended and await a sync.
    pub fn mark_dirty(&mut self)
        ensures
            final(self).pending(),
            final(self).interval_ms() == old(self).interval_ms(),
    {
        self.pending_flush = true;
    }

    pub fn has_pending(&self) -> (r: bool)
        ensures
            r == self.pending(),
    {
        self.pending_flush
    }

    /// Whether a flush is due: true exactly when bytes were pending, which
    /// the caller must then flush and sync; the pending state is cleared.
    pub fn flush_if_pending(&mut self) -> (r: bool)
        ensures
            r == old(self).pending(),
            !final(self).pending(),
            final(self).interval_ms() == old(self).interval_ms(),
    {
        let was = self.pending_flush;
        self.pending_flush = false;
        was
    }

    /// Drops the pending state without a flush, for use after the file was
    /// truncated and holds nothing to sync.
    pub fn clear_pending(&mut self)
        ensures
            !final(self).pending(),
            final(self).interval_ms() == old(self).interval_ms(),
    {
        self.pending_flush = false;
    }
}

impl Default for SyncManager {
    fn default() -> (r: SyncManager)
        ensures
            !r.pending(),
            r.interval_ms() == FLUSH_INTERVAL_MS,
    {
        SyncManager::new()
    }
}

} // verus!
