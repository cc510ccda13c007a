use vstd::prelude::*;

use crate::meta::Meta;
use crate::prefix::PrefixId;

verus! {

/// The producer-declared status of a route record.
#[derive(Clone, Copy, Debug, PartialEq, Eq, Hash, Structural)]
pub enum RouteStatus {
    Active,
    InActive,
    Withdrawn,
}

/// One route for a prefix, keyed by the producer identity `multi_uniq_id`
/// (MUI) and carrying a logical timestamp and user metadata.
#[derive(Debug)]
pub struct Record<M> {
    pub multi_uniq_id: u32,
    pub ltime: u64,
    pub status: RouteStatus,
    pub meta: M,
}

impl<M: Meta> Record<M> {
    pub fn new(multi_uniq_id: u32, ltime: u64, status: RouteStatus, meta: M) -> (r: Record<M>)
        ensures
            r == (Record { multi_uniq_id, ltime, status, meta }),
    {
        Record { multi_uniq_id, ltime, status, meta }
    }

    /// An exact copy.
    pub fn clone_record(&self) -> (r: Record<M>)
        ensures
            r == self,
    {
        Record {
            multi_uniq_id: self.multi_uniq_id,
            ltime: self.ltime,
            status: self.status,
            meta: self.meta.clone_meta(),
        }
    }
}

/// A prefix together with its route records, as handed out by queries.
#[derive(Debug)]
pub struct PrefixRecord<M> {
    pub prefix: PrefixId,
    pub meta: Vec<Record<M>>,
}

impl<M: Meta> PrefixRecord<M> {
    pub fn new(prefix: PrefixId, meta: Vec<Record<M>>) -> (r: PrefixRecord<M>)
        ensures
            r.prefix == prefix,
            r.meta == meta,
    {
        PrefixRecord { prefix, meta }
    }

    /// The record of the given producer, if one is present.
    pub fn get_record_for_mui(&self, mui: u32) -> (r: Option<&Record<M>>)
        ensures
            match r {
                Some(rec) => {
                    &&& exists|i: int|
                        0 <= i < self.meta@.len() && self.meta@[i] == *rec
                            && self.meta@[i].multi_uniq_id == mui
                    &&& rec.multi_uniq_id == mui
                },
                None => forall|i: int|
                    0 <= i < self.meta@.len() ==> self.meta@[i].multi_uniq_id != mui,
            },
    {
        let mut i: usize = 0;
        while i < self.meta.len()
            invariant
                0 <= i <= self.meta@.len(),
                forall|j: int| 0 <= j < i as int ==> self.meta@[j].multi_uniq_id != mui,
            decreases self.meta@.len() - i as int,
        {
            if self.meta[i].multi_uniq_id == mui {
                return Some(&self.meta[i]);
            }
            i = i + 1;
        }
        None
    }
}

/// What an upsert did: whether the prefix and the MUI were new, how many
/// retries contention cost, and how many records now sit under the prefix.
///
/// The combination `prefix_new && !mui_new` is impossible: a new prefix has
/// no prior record for any MUI.
#[derive(Clone, Copy, Debug, PartialEq, Eq, Structural)]
pub struct UpsertReport {
    pub prefix_new: bool,
    pub mui_new: bool,
    pub cas_count: usize,
    pub mui_count: u32,
}

/// Running totals over a sequence of upsert reports.
#[derive(Clone, Copy, Debug, PartialEq, Eq, Default, Structural)]
pub struct UpsertCounters {
    pub unique_prefixes: usize,
    pub unique_routes: usize,
    pub persisted_routes: usize,
    pub total_routes: usize,
}

impl UpsertCounters {
    pub fn new_counters() -> (r: UpsertCounters)
        ensures
            r == (UpsertCounters {
                unique_prefixes: 0,
                unique_routes: 0,
                persisted_routes: 0,
                total_routes: 0,
            }),
    {
        UpsertCounters { unique_prefixes: 0, unique_routes: 0, persisted_routes: 0, total_routes: 0 }
    }

    /// The sum of two counter sets, field by field.
    pub fn combine(&self, rhs: &UpsertCounters) -> (r: UpsertCounters)
        requires
            self.unique_prefixes + rhs.unique_prefixes <= usize::MAX,
            self.unique_routes + rhs.unique_routes <= usize::MAX,
            self.persisted_routes + rhs.persisted_routes <= usize::MAX,
            self.total_routes + rhs.total_routes <= usize::MAX,
        ensures
            r.unique_prefixes == self.unique_prefixes + rhs.unique_prefixes,
            r.unique_routes == self.unique_routes + rhs.unique_routes,
            r.persisted_routes == self.persisted_routes + rhs.persisted_routes,
            r.total_routes == self.total_routes + rhs.total_routes,
    {
        UpsertCounters {
            unique_prefixes: self.unique_prefixes + rhs.unique_prefixes,
            unique_routes: self.unique_routes + rhs.unique_routes,
            persisted_routes: self.persisted_routes + rhs.persisted_routes,
            total_routes: self.total_routes + rhs.total_routes,
        }
    }
}

/// Folds one upsert report into the counters: a new prefix is also a new
/// route; a replaced record only counts towards the total.
pub fn counter_update(counters: &mut UpsertCounters, report: &UpsertReport)
    requires
        !(report.prefix_new && !report.mui_new),
        old(counters).unique_prefixes < usize::MAX,
        old(counters).unique_routes < usize::MAX,
        old(counters).total_routes < usize::MAX,
    ensures
        final (counters).unique_prefixes == old(counters).unique_prefixes + (if report.prefix_new {
            1int
        } else {
            0int
        }),
        final (counters).unique_routes == old(counters).unique_routes + (if report.mui_new {
            1int
        } else {
            0int
        }),
        final (counters).total_routes == old(counters).total_routes + 1,
        final (counters).persisted_routes == old(counters).persisted_routes,
{
    if report.prefix_new {
        counters.unique_prefixes = counters.unique_prefixes + 1;
    }
    if report.mui_new {
        counters.unique_routes = counters.unique_routes + 1;
    }
    counters.total_routes = counters.total_routes + 1;
}

} // verus!
