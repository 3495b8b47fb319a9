//! Handing results on while a search goes on.

use crate::duplicates::{
    sort_duplicate_groups, DuplicateGroup, DuplicateScanPhase, DuplicateScanStats,
};
use crate::order::is_stable_sort;
use vstd::prelude::*;

verus! {

pub const DUPLICATE_BATCH_GROUP_SIZE: usize = 128;

/// In nanoseconds.
pub const DUPLICATE_BATCH_MAX_LATENCY: u64 = 120000000;

/// Groups that were found since the last batch with any, and how far the search
/// has come.
#[derive(Debug)]
pub struct DuplicateScanBatch {
    pub groups: Vec<DuplicateGroup>,
    pub stats: DuplicateScanStats,
}

/// Collects groups until there are enough of them or enough time has passed.
/// Times are in nanoseconds from some fixed point on.
#[derive(Debug)]
pub struct DuplicateBatchEmitter {
    pub pending: Vec<DuplicateGroup>,
    /// When something was last handed on.
    pub last_emit: Option<u64>,
    pub last_phase: DuplicateScanPhase,
}

/// Whether enough time has passed since something was handed on.
pub open spec fn is_due(last_emit: Option<u64>, now: u64) -> bool {
    match last_emit {
        Some(then) => now >= then + DUPLICATE_BATCH_MAX_LATENCY,
        None => true,
    }
}

impl DuplicateBatchEmitter {
    pub fn new() -> (r: DuplicateBatchEmitter)
        ensures
            r.pending@.len() == 0,
            r.last_emit is None,
            r.last_phase == DuplicateScanPhase::Walking,
    {
        DuplicateBatchEmitter {
            pending: Vec::new(),
            last_emit: None,
            last_phase: DuplicateScanPhase::Walking,
        }
    }

    fn due(&self, now: u64) -> (r: bool)
        ensures
            r == is_due(self.last_emit, now),
    {
        match self.last_emit {
            Some(then) => now >= then && now - then >= DUPLICATE_BATCH_MAX_LATENCY,
            None => true,
        }
    }

    /// Adds a group, and hands on what has collected where that is enough or long
    /// ago.
    pub fn push(&mut self, group: DuplicateGroup, stats: DuplicateScanStats, now: u64) -> (r:
        Option<DuplicateScanBatch>)
        ensures
            r is Some <==> old(self).pending@.len() >= 127 || old(self).last_emit is None || now
                - old(self).last_emit->0 >= 120000000,
            ({
                let collected = old(self).pending@.push(group);
                if collected.len() >= DUPLICATE_BATCH_GROUP_SIZE || is_due(
                    old(self).last_emit,
                    now,
                ) {
                    &&& r is Some
                    &&& is_stable_sort(collected, r->0.groups@)
                    &&& r->0.stats == stats
                    &&& final(self).pending@.len() == 0
                    &&& final(self).last_emit == Some(now)
                    &&& final(self).last_phase == stats.phase
                } else {
                    &&& r is None
                    &&& final(self).pending@ == collected
                    &&& final(self).last_emit == old(self).last_emit
                    &&& final(self).last_phase == old(self).last_phase
                }
            }),
    {
        self.pending.push(group);
        if self.pending.len() >= DUPLICATE_BATCH_GROUP_SIZE || self.due(now) {
            self.flush(stats, now)
        } else {
            None
        }
    }

    /// Reports progress where the phase is new or enough time has passed.
    pub fn emit_progress(&mut self, stats: DuplicateScanStats, now: u64) -> (r: Option<
        DuplicateScanBatch,
    >)
        ensures
            final(self).pending == old(self).pending,
            if stats.phase == old(self).last_phase && !is_due(old(self).last_emit, now) {
                &&& r is None
                &&& *final(self) == *old(self)
            } else {
                &&& r is Some
                &&& r->0.groups@.len() == 0
                &&& r->0.stats == stats
                &&& final(self).last_emit == Some(now)
                &&& final(self).last_phase == stats.phase
            },
    {
        if stats.phase == self.last_phase && !self.due(now) {
            return None;
        }
        self.last_emit = Some(now);
        self.last_phase = stats.phase;
        Some(DuplicateScanBatch { groups: Vec::new(), stats })
    }

    /// Hands on what has collected, in order.
    pub fn flush(&mut self, stats: DuplicateScanStats, now: u64) -> (r: Option<DuplicateScanBatch>)
        ensures
            final(self).pending@.len() == 0,
            if old(self).pending@.len() == 0 {
                &&& r is None
                &&& *final(self) == *old(self)
            } else {
                &&& r is Some
                &&& is_stable_sort(old(self).pending@, r->0.groups@)
                &&& r->0.stats == stats
                &&& final(self).last_emit == Some(now)
                &&& final(self).last_phase == stats.phase
            },
    {
        if self.pending.len() == 0 {
            return None;
        }
        let mut groups: Vec<DuplicateGroup> = Vec::new();
        std::mem::swap(&mut groups, &mut self.pending);
        sort_duplicate_groups(&mut groups);
        self.last_emit = Some(now);
        self.last_phase = stats.phase;
        Some(DuplicateScanBatch { groups, stats })
    }
}

} // verus!
