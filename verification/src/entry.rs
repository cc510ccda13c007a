use vstd::prelude::*;

use crate::meta::Meta;
use crate::prefix::PrefixId;
use crate::record::{Record, RouteStatus};

verus! {

broadcast use vstd::seq_lib::group_seq_properties;

/// A set of producer identities, held as a duplicate-free vector.
#[derive(Debug)]
pub struct MuiSet {
    pub items: Vec<u32>,
}

impl View for MuiSet {
    type V = Set<u32>;

    open spec fn view(&self) -> Set<u32> {
        self.items@.to_set()
    }
}

impl MuiSet {
    pub fn new() -> (r: MuiSet)
        ensures
            r@ == Set::<u32>::empty(),
    {
        let s = MuiSet { items: Vec::new() };
        proof {
            assert(s@ =~= Set::<u32>::empty());
        }
        s
    }

    /// Membership test.
    pub fn contains(&self, mui: u32) -> (r: bool)
        ensures
            r == self@.contains(mui),
    {
        let mut i: usize = 0;
        while i < self.items.len()
            invariant
                0 <= i <= self.items@.len(),
                forall|j: int| 0 <= j < i as int ==> self.items@[j] != mui,
            decreases self.items@.len() - i as int,
        {
            if self.items[i] == mui {
                proof {
                    assert(self.items@.contains(mui));
                }
                return true;
            }
            i = i + 1;
        }
        proof {
            assert(!self.items@.contains(mui));
        }
        false
    }

    /// Adds a member; adding one already present changes nothing.
    pub fn add(&mut self, mui: u32)
        ensures
            final (self)@ == old(self)@.insert(mui),
    {
        if !self.contains(mui) {
            let ghost before = self.items@;
            self.items.push(mui);
            proof {
                Seq::lemma_push_to_set_commute(before, mui);
                assert(self@ =~= old(self)@.insert(mui));
            }
        } else {
            proof {
                assert(self@ =~= old(self)@.insert(mui));
            }
        }
    }

    /// Removes a member; removing one not present changes nothing.
    pub fn remove(&mut self, mui: u32)
        ensures
            final (self)@ == old(self)@.remove(mui),
    {
        let mut out: Vec<u32> = Vec::new();
        let mut i: usize = 0;
        while i < self.items.len()
            invariant
                0 <= i <= self.items@.len(),
                forall|y: u32|
                    #[trigger] out@.contains(y) <==> (self.items@.take(i as int).contains(y) && y
                        != mui),
            decreases self.items@.len() - i as int,
        {
            let x = self.items[i];
            let ghost outb = out@;
            let ghost upto = self.items@.take(i as int);
            if x != mui {
                out.push(x);
            }
            proof {
                assert(self.items@.take(i as int + 1) =~= upto.push(self.items@[i as int]));
                assert forall|y: u32|
                    #[trigger] out@.contains(y) <==> (self.items@.take(i as int + 1).contains(y)
                        && y != mui) by {
                    vstd::seq_lib::lemma_seq_contains_after_push(upto, x, y);
                    if x != mui {
                        vstd::seq_lib::lemma_seq_contains_after_push(outb, x, y);
                    }
                }
            }
            i = i + 1;
        }
        proof {
            assert(self.items@.take(self.items@.len() as int) =~= self.items@);
            assert(out@.to_set() =~= old(self)@.remove(mui));
        }
        self.items = out;
    }
}

/// Whether a record is visible-active: its own status is `Active` and its
/// producer is withdrawn neither for this prefix nor globally.
pub open spec fn visible_active<M>(r: Record<M>, wd: Set<u32>, gw: Set<u32>) -> bool {
    &&& r.status == RouteStatus::Active
    &&& !wd.contains(r.multi_uniq_id)
    &&& !gw.contains(r.multi_uniq_id)
}

/// Whether a record passes the read filter.
pub open spec fn passes_filter<M>(
    r: Record<M>,
    wd: Set<u32>,
    gw: Set<u32>,
    mui: Option<u32>,
    include_withdrawn: bool,
) -> bool {
    &&& match mui {
        Some(m) => r.multi_uniq_id == m,
        None => true,
    }
    &&& (include_withdrawn || visible_active(r, wd, gw))
}

/// The status reported at read time: withdrawal by any of the three layers is
/// overlaid onto the stored status.
pub open spec fn overlay_status<M>(r: Record<M>, wd: Set<u32>, gw: Set<u32>) -> Record<M> {
    if r.status == RouteStatus::Withdrawn || wd.contains(r.multi_uniq_id) || gw.contains(
        r.multi_uniq_id,
    ) {
        Record { status: RouteStatus::Withdrawn, ..r }
    } else {
        r
    }
}

/// The records that a read returns: the stored records in order, filtered,
/// with the effective status overlaid.
pub open spec fn vis_filter<M>(
    recs: Seq<Record<M>>,
    wd: Set<u32>,
    gw: Set<u32>,
    mui: Option<u32>,
    include_withdrawn: bool,
) -> Seq<Record<M>>
    decreases recs.len(),
{
    if recs.len() == 0 {
        Seq::empty()
    } else {
        let rest = vis_filter(recs.drop_last(), wd, gw, mui, include_withdrawn);
        if passes_filter(recs.last(), wd, gw, mui, include_withdrawn) {
            rest.push(overlay_status(recs.last(), wd, gw))
        } else {
            rest
        }
    }
}

/// There is a record for the given producer.
pub open spec fn has_mui<M>(recs: Seq<Record<M>>, mui: u32) -> bool {
    exists|i: int| 0 <= i < recs.len() && recs[i].multi_uniq_id == mui
}

/// The position of the record for the given producer.
pub open spec fn mui_idx<M>(recs: Seq<Record<M>>, mui: u32) -> int {
    choose|i: int| 0 <= i < recs.len() && recs[i].multi_uniq_id == mui
}

/// At most one record per producer.
pub open spec fn distinct_muis<M>(recs: Seq<Record<M>>) -> bool {
    forall|i: int, j: int|
        0 <= i < j < recs.len() ==> recs[i].multi_uniq_id != recs[j].multi_uniq_id
}

/// Strict preference between two records: lower ordering key first, ties
/// broken by ascending producer identity.
pub open spec fn preferred<M: Meta>(a: Record<M>, b: Record<M>, tbi: &M::TBI) -> bool {
    ||| a.meta.order_key(tbi) < b.meta.order_key(tbi)
    ||| (a.meta.order_key(tbi) == b.meta.order_key(tbi) && a.multi_uniq_id < b.multi_uniq_id)
}

/// The ghost image of a prefix entry.
pub ghost struct EntryV<M: Meta> {
    pub records: Seq<Record<M>>,
    pub withdrawn: Set<u32>,
    pub best: Option<u32>,
    pub backup: Option<u32>,
    pub seq: u64,
    pub stale: bool,
    pub sel_tbi: Option<M::TBI>,
}

/// The per-prefix state: the route records keyed by producer identity, the
/// per-prefix withdrawn-producer set, and the cached path selection with its
/// sequence number.  The tie-break input of the last selection is kept so
/// that a stale selection can be re-derived lazily on the next best-path
/// read.
pub struct PrefixEntry<M: Meta> {
    pub prefix: PrefixId,
    pub records: Vec<Record<M>>,
    pub withdrawn: MuiSet,
    pub best: Option<u32>,
    pub backup: Option<u32>,
    pub seq: u64,
    pub stale: bool,
    pub sel_tbi: Option<M::TBI>,
}

impl<M: Meta> View for PrefixEntry<M> {
    type V = EntryV<M>;

    open spec fn view(&self) -> EntryV<M> {
        EntryV {
            records: self.records@,
            withdrawn: self.withdrawn@,
            best: self.best,
            backup: self.backup,
            seq: self.seq,
            stale: self.stale,
            sel_tbi: self.sel_tbi,
        }
    }
}

/// Record `i` is the best choice: visible-active and preferred over every
/// other visible-active record.
pub open spec fn best_at_recs<M: Meta>(
    recs: Seq<Record<M>>,
    wd: Set<u32>,
    gw: Set<u32>,
    tbi: &M::TBI,
    i: int,
) -> bool {
    &&& 0 <= i < recs.len()
    &&& visible_active(recs[i], wd, gw)
    &&& forall|j: int|
        0 <= j < recs.len() && j != i && visible_active(#[trigger] recs[j], wd, gw)
            ==> preferred(recs[i], recs[j], tbi)
}

/// Record `i` is the backup choice: visible-active, not the best, and
/// preferred over every other such record.
pub open spec fn backup_at_recs<M: Meta>(
    recs: Seq<Record<M>>,
    wd: Set<u32>,
    gw: Set<u32>,
    tbi: &M::TBI,
    best: int,
    i: int,
) -> bool {
    &&& 0 <= i < recs.len()
    &&& i != best
    &&& visible_active(recs[i], wd, gw)
    &&& forall|j: int|
        0 <= j < recs.len() && j != i && j != best && visible_active(
            #[trigger] recs[j],
            wd,
            gw,
        ) ==> preferred(recs[i], recs[j], tbi)
}

impl<M: Meta> PrefixEntry<M> {
    /// At most one record per producer.
    pub open spec fn wf(self) -> bool {
        distinct_muis(self.records@)
    }

    /// A fresh entry holding one record; its path selection starts stale.
    pub fn new_entry(prefix: PrefixId, rec: Record<M>) -> (r: PrefixEntry<M>)
        ensures
            r.prefix == prefix,
            r@.records =~= seq![rec],
            r@.withdrawn =~= Set::<u32>::empty(),
            r@.best is None,
            r@.backup is None,
            r@.seq == 0,
            r@.stale,
            r@.sel_tbi is None,
            r.wf(),
    {
        let mut records: Vec<Record<M>> = Vec::new();
        records.push(rec);
        PrefixEntry {
            prefix,
            records,
            withdrawn: MuiSet::new(),
            best: None,
            backup: None,
            seq: 0,
            stale: true,
            sel_tbi: None,
        }
    }

    /// Inserts or replaces the record for `rec.multi_uniq_id`; marks the path
    /// selection stale.  Returns whether the producer was new under this
    /// prefix.
    pub fn upsert(&mut self, rec: Record<M>) -> (mui_new: bool)
        requires
            old(self).wf(),
        ensures
            final (self).wf(),
            mui_new == !has_mui(old(self)@.records, rec.multi_uniq_id),
            final (self)@.records == (if has_mui(old(self)@.records, rec.multi_uniq_id) {
                old(self)@.records.update(mui_idx(old(self)@.records, rec.multi_uniq_id), rec)
            } else {
                old(self)@.records.push(rec)
            }),
            final (self)@.withdrawn == old(self)@.withdrawn,
            final (self)@.best == old(self)@.best,
            final (self)@.backup == old(self)@.backup,
            final (self)@.seq == old(self)@.seq,
            final (self)@.sel_tbi == old(self)@.sel_tbi,
            final (self)@.stale,
            final (self).prefix == old(self).prefix,
    {
        let mui = rec.multi_uniq_id;
        self.stale = true;
        let found = self.find_mui(mui);
        match found {
            Some(i) => {
                self.records.set(i, rec);
                proof {
                    let k2 = mui_idx(old(self)@.records, mui);
                    assert(old(self)@.records[k2].multi_uniq_id == mui);
                    if k2 != i as int {
                        if k2 < i as int {
                            assert(old(self)@.records[k2].multi_uniq_id != old(
                                self,
                            )@.records[i as int].multi_uniq_id);
                        } else {
                            assert(old(self)@.records[i as int].multi_uniq_id != old(
                                self,
                            )@.records[k2].multi_uniq_id);
                        }
                    }
                    assert forall|a: int, b: int|
                        0 <= a < b < self.records@.len() implies self.records@[a].multi_uniq_id
                        != self.records@[b].multi_uniq_id by {
                        assert(old(self)@.records[a].multi_uniq_id != old(
                            self,
                        )@.records[b].multi_uniq_id);
                    }
                }
                false
            },
            None => {
                self.records.push(rec);
                proof {
                    assert forall|a: int, b: int|
                        0 <= a < b < self.records@.len() implies self.records@[a].multi_uniq_id
                        != self.records@[b].multi_uniq_id by {
                        if b < self.records@.len() - 1 {
                            assert(old(self)@.records[a].multi_uniq_id != old(
                                self,
                            )@.records[b].multi_uniq_id);
                        }
                    }
                }
                true
            },
        }
    }

    /// The position of the record for the given producer, if one is present.
    fn find_mui(&self, mui: u32) -> (r: Option<usize>)
        ensures
            match r {
                Some(i) => 0 <= (i as int) < self@.records.len()
                    && self@.records[i as int].multi_uniq_id == mui,
                None => !has_mui(self@.records, mui),
            },
            r is Some <==> has_mui(self@.records, mui),
    {
        let mut i: usize = 0;
        while i < self.records.len()
            invariant
                0 <= i <= self.records@.len(),
                forall|j: int| 0 <= j < i as int ==> self.records@[j].multi_uniq_id != mui,
            decreases self.records@.len() - i as int,
        {
            if self.records[i].multi_uniq_id == mui {
                return Some(i);
            }
            i = i + 1;
        }
        None
    }

    /// Membership test for a producer under this prefix.
    pub fn contains_mui(&self, mui: u32) -> (r: bool)
        ensures
            r == has_mui(self@.records, mui),
    {
        let mut i: usize = 0;
        while i < self.records.len()
            invariant
                0 <= i <= self.records@.len(),
                forall|j: int| 0 <= j < i as int ==> self.records@[j].multi_uniq_id != mui,
            decreases self.records@.len() - i as int,
        {
            if self.records[i].multi_uniq_id == mui {
                return true;
            }
            i = i + 1;
        }
        false
    }

    /// Marks a producer withdrawn for this prefix; stored record statuses are
    /// untouched.  Idempotent.  Marks the path selection stale.
    pub fn mark_mui_withdrawn(&mut self, mui: u32)
        ensures
            final (self)@.withdrawn == old(self)@.withdrawn.insert(mui),
            final (self)@.records == old(self)@.records,
            final (self)@.best == old(self)@.best,
            final (self)@.backup == old(self)@.backup,
            final (self)@.seq == old(self)@.seq,
            final (self)@.sel_tbi == old(self)@.sel_tbi,
            final (self)@.stale,
            final (self).prefix == old(self).prefix,
    {
        self.withdrawn.add(mui);
        self.stale = true;
    }

    /// Marks a producer active again for this prefix.  Idempotent.  Marks the
    /// path selection stale.
    pub fn mark_mui_active(&mut self, mui: u32)
        ensures
            final (self)@.withdrawn == old(self)@.withdrawn.remove(mui),
            final (self)@.records == old(self)@.records,
            final (self)@.best == old(self)@.best,
            final (self)@.backup == old(self)@.backup,
            final (self)@.seq == old(self)@.seq,
            final (self)@.sel_tbi == old(self)@.sel_tbi,
            final (self)@.stale,
            final (self).prefix == old(self).prefix,
    {
        self.withdrawn.remove(mui);
        self.stale = true;
    }

    /// The records a read returns, in stored order, under the given filter
    /// and with the effective status overlaid.
    pub fn filtered_records(&self, mui: Option<u32>, include_withdrawn: bool, gw: &MuiSet) -> (r:
        Vec<Record<M>>)
        ensures
            r@ == vis_filter(self@.records, self@.withdrawn, gw@, mui, include_withdrawn),
    {
        let mut out: Vec<Record<M>> = Vec::new();
        let mut i: usize = 0;
        proof {
            assert(self@.records.take(0) =~= Seq::<Record<M>>::empty());
        }
        while i < self.records.len()
            invariant
                0 <= i <= self.records@.len(),
                out@ == vis_filter(
                    self@.records.take(i as int),
                    self@.withdrawn,
                    gw@,
                    mui,
                    include_withdrawn,
                ),
            decreases self.records@.len() - i as int,
        {
            let r = &self.records[i];
            let passes_mui = match mui {
                Some(m) => r.multi_uniq_id == m,
                None => true,
            };
            let pfx_wd = self.withdrawn.contains(r.multi_uniq_id);
            let glob_wd = gw.contains(r.multi_uniq_id);
            let own_active = match r.status {
                RouteStatus::Active => true,
                _ => false,
            };
            let va = own_active && !pfx_wd && !glob_wd;
            proof {
                assert(self@.records.take(i as int + 1).drop_last() =~= self@.records.take(
                    i as int,
                ));
                assert(self@.records.take(i as int + 1).last() == self@.records[i as int]);
            }
            if passes_mui && (include_withdrawn || va) {
                let mut rec = r.clone_record();
                let own_wd = match rec.status {
                    RouteStatus::Withdrawn => true,
                    _ => false,
                };
                if own_wd || pfx_wd || glob_wd {
                    rec.status = RouteStatus::Withdrawn;
                }
                out.push(rec);
            }
            i = i + 1;
        }
        proof {
            assert(self@.records.take(self.records@.len() as int) =~= self@.records);
        }
        out
    }

    /// An exact copy of the stored records.
    pub fn records_clone(&self) -> (r: Vec<Record<M>>)
        ensures
            r@ == self@.records,
    {
        let mut out: Vec<Record<M>> = Vec::new();
        let mut i: usize = 0;
        while i < self.records.len()
            invariant
                0 <= i <= self.records@.len(),
                out@ =~= self@.records.take(i as int),
            decreases self.records@.len() - i as int,
        {
            out.push(self.records[i].clone_record());
            proof {
                assert(out@ =~= self@.records.take(i as int + 1));
            }
            i = i + 1;
        }
        proof {
            assert(self@.records.take(self.records@.len() as int) =~= self@.records);
        }
        out
    }

    /// A record is the best choice at its position: visible-active and
    /// preferred over every other visible-active record.
    pub open spec fn best_at(self, gw: Set<u32>, tbi: &M::TBI, i: int) -> bool {
        best_at_recs(self@.records, self@.withdrawn, gw, tbi, i)
    }

    /// A record is the backup choice: visible-active, not the best, and
    /// preferred over every other such record.
    pub open spec fn backup_at(self, gw: Set<u32>, tbi: &M::TBI, best: int, i: int) -> bool {
        backup_at_recs(self@.records, self@.withdrawn, gw, tbi, best, i)
    }

    /// The cached path selection is current: unless it is marked stale, the
    /// best and backup fields name exactly the minimum and next-best
    /// visible-active records under the tie-break input of the last
    /// recomputation.  Kept opaque: the helper lemmas below expose what
    /// callers need.
    #[verifier::opaque]
    pub open spec fn selection_ok(self, gw: Set<u32>) -> bool {
        self.stale || {
            &&& self.sel_tbi is Some
            &&& match self.best {
                None => forall|i: int|
                    0 <= i < self.records@.len() ==> !visible_active(
                        #[trigger] self.records@[i],
                        self.withdrawn@,
                        gw,
                    ),
                Some(m) => exists|i: int|
                    best_at_recs(self.records@, self.withdrawn@, gw, &self.sel_tbi->0, i)
                        && self.records@[i].multi_uniq_id == m,
            }
            &&& match self.backup {
                None => self.best matches Some(m) ==> forall|i: int|
                    0 <= i < self.records@.len() && visible_active(
                        #[trigger] self.records@[i],
                        self.withdrawn@,
                        gw,
                    ) ==> self.records@[i].multi_uniq_id == m,
                Some(m2) => exists|b: int, i: int|
                    best_at_recs(self.records@, self.withdrawn@, gw, &self.sel_tbi->0, b)
                        && self.best == Some(self.records@[b].multi_uniq_id) && backup_at_recs(
                        self.records@,
                        self.withdrawn@,
                        gw,
                        &self.sel_tbi->0,
                        b,
                        i,
                    ) && self.records@[i].multi_uniq_id == m2,
            }
            &&& (self.backup is Some ==> self.best is Some)
        }
    }

    /// Recomputes and stores the best and backup producer identities among
    /// the visible-active records, ordered by the metadata key with ties
    /// broken by ascending producer identity.
    pub fn calc_best_backup(&mut self, tbi: &M::TBI, gw: &MuiSet) -> (r: (Option<u32>, Option<
        u32,
    >))
        requires
            old(self).wf(),
        ensures
            final (self).wf(),
            final (self)@.records == old(self)@.records,
            final (self)@.withdrawn == old(self)@.withdrawn,
            final (self).prefix == old(self).prefix,
            !final (self)@.stale,
            r.0 == final (self)@.best,
            r.1 == final (self)@.backup,
            match final (self)@.best {
                None => forall|i: int|
                    0 <= i < old(self)@.records.len() ==> !visible_active(
                        #[trigger] old(self)@.records[i],
                        old(self)@.withdrawn,
                        gw@,
                    ),
                Some(m) => exists|i: int|
                    old(self).best_at(gw@, tbi, i) && old(self)@.records[i].multi_uniq_id == m,
            },
            match final (self)@.backup {
                None => final (self)@.best matches Some(m) ==> forall|i: int|
                    0 <= i < old(self)@.records.len() && visible_active(
                        #[trigger] old(self)@.records[i],
                        old(self)@.withdrawn,
                        gw@,
                    ) ==> old(self)@.records[i].multi_uniq_id == m,
                Some(m2) => exists|b: int, i: int|
                    old(self).best_at(gw@, tbi, b) && final (self)@.best == Some(
                        old(self)@.records[b].multi_uniq_id,
                    ) && old(self).backup_at(gw@, tbi, b, i)
                        && old(self)@.records[i].multi_uniq_id == m2,
            },
            final (self)@.backup is Some ==> final (self)@.best is Some,
            final (self)@.seq == (if old(self)@.seq == u64::MAX {
                0u64
            } else {
                ((old(self)@.seq + 1) as u64)
            }),
            final (self)@.sel_tbi == Some(*tbi),
            final (self).selection_ok(gw@),
    {
        let best_idx = self.scan_best(tbi, gw, None);
        let ghost mut wit_best: int = 0;
        let ghost mut wit_backup: int = 0;
        let r = match best_idx {
            None => {
                self.best = None;
                self.backup = None;
                (None, None)
            },
            Some(b) => {
                let best_mui = self.records[b].multi_uniq_id;
                let backup_idx = self.scan_best(tbi, gw, Some(b));
                proof {
                    assert(old(self).best_at(gw@, tbi, b as int));
                    wit_best = b as int;
                }
                self.best = Some(best_mui);
                self.backup = match backup_idx {
                    None => None,
                    Some(k) => {
                        proof {
                            assert(old(self).backup_at(gw@, tbi, b as int, k as int));
                            wit_backup = k as int;
                        }
                        Some(self.records[k].multi_uniq_id)
                    },
                };
                (self.best, self.backup)
            },
        };
        self.stale = false;
        if self.seq == u64::MAX {
            self.seq = 0;
        } else {
            self.seq = self.seq + 1;
        }
        self.sel_tbi = Some(M::clone_tbi(tbi));
        proof {
            assert(self.sel_tbi->0 == *tbi);
            assert(self.records@ == old(self)@.records);
            assert(self.withdrawn@ == old(self)@.withdrawn);
            match self.best {
                None => {},
                Some(m) => {
                    assert(best_at_recs(self.records@, self.withdrawn@, gw@, &self.sel_tbi->0,
                        wit_best) && self.records@[wit_best].multi_uniq_id == m);
                },
            }
            match self.backup {
                None => {
                    if self.best is Some {
                        assert forall|i: int|
                            0 <= i < self.records@.len() && visible_active(
                                #[trigger] self.records@[i],
                                self.withdrawn@,
                                gw@,
                            ) implies self.records@[i].multi_uniq_id == self.best->0 by {
                            if i != wit_best {
                                assert(!visible_active(
                                    old(self)@.records[i],
                                    old(self)@.withdrawn,
                                    gw@,
                                ));
                            }
                        }
                    }
                },
                Some(m2) => {
                    assert(best_at_recs(self.records@, self.withdrawn@, gw@, &self.sel_tbi->0,
                        wit_best) && self.best == Some(self.records@[wit_best].multi_uniq_id)
                        && backup_at_recs(self.records@, self.withdrawn@, gw@, &self.sel_tbi->0,
                        wit_best, wit_backup) && self.records@[wit_backup].multi_uniq_id == m2);
                },
            }
            reveal(PrefixEntry::selection_ok);
            assert(self.selection_ok(gw@));
        }
        r
    }

    /// Finds the preferred visible-active record, skipping the given
    /// position.
    fn scan_best(&self, tbi: &M::TBI, gw: &MuiSet, skip: Option<usize>) -> (r: Option<usize>)
        requires
            self.wf(),
            skip matches Some(s) ==> 0 <= s < self.records@.len(),
        ensures
            match r {
                None => forall|i: int|
                    0 <= i < self@.records.len() && (skip matches Some(s) ==> i != s as int)
                        ==> !visible_active(#[trigger] self@.records[i], self@.withdrawn, gw@),
                Some(k) => {
                    &&& 0 <= (k as int) < self@.records.len()
                    &&& (skip matches Some(s) ==> k != s)
                    &&& visible_active(self@.records[k as int], self@.withdrawn, gw@)
                    &&& forall|j: int|
                        0 <= j < self@.records.len() && j != k as int && (skip matches Some(s)
                            ==> j != s as int) && visible_active(
                            #[trigger] self@.records[j],
                            self@.withdrawn,
                            gw@,
                        ) ==> preferred(self@.records[k as int], self@.records[j], tbi)
                },
            },
    {
        let mut found: Option<usize> = None;
        let mut best_key: u64 = 0;
        let mut i: usize = 0;
        while i < self.records.len()
            invariant
                0 <= i <= self.records@.len(),
                self.wf(),
                skip matches Some(s) ==> 0 <= s < self.records@.len(),
                match found {
                    None => forall|j: int|
                        0 <= j < i as int && (skip matches Some(s) ==> j != s as int)
                            ==> !visible_active(#[trigger] self@.records[j], self@.withdrawn, gw@),
                    Some(k) => {
                        &&& 0 <= (k as int) < i as int
                        &&& (skip matches Some(s) ==> k != s)
                        &&& visible_active(self@.records[k as int], self@.withdrawn, gw@)
                        &&& best_key == self@.records[k as int].meta.order_key(tbi)
                        &&& forall|j: int|
                            0 <= j < i as int && j != k as int && (skip matches Some(s) ==> j
                                != s as int) && visible_active(
                                #[trigger] self@.records[j],
                                self@.withdrawn,
                                gw@,
                            ) ==> preferred(self@.records[k as int], self@.records[j], tbi)
                    },
                },
            decreases self.records@.len() - i as int,
        {
            let skip_this = match skip {
                Some(s) => i == s,
                None => false,
            };
            if !skip_this {
                let r = &self.records[i];
                let own_active = match r.status {
                    RouteStatus::Active => true,
                    _ => false,
                };
                if own_active && !self.withdrawn.contains(r.multi_uniq_id) && !gw.contains(
                    r.multi_uniq_id,
                ) {
                    let key = r.meta.as_orderable(tbi);
                    match found {
                        None => {
                            found = Some(i);
                            best_key = key;
                        },
                        Some(k) => {
                            let better = key < best_key || (key == best_key && r.multi_uniq_id
                                < self.records[k].multi_uniq_id);
                            if better {
                                found = Some(i);
                                best_key = key;
                            }
                        },
                    }
                }
            }
            i = i + 1;
        }
        found
    }
}


/// A cached selection stays valid under any change of the global withdrawn
/// set that leaves every record of the entry equally visible.
proof fn lemma_selection_ok_va_equiv<M: Meta>(en: PrefixEntry<M>, gw_a: Set<u32>, gw_b: Set<u32>)
    requires
        forall|i: int|
            0 <= i < en.records@.len() ==> visible_active(
                #[trigger] en.records@[i],
                en.withdrawn@,
                gw_a,
            ) == visible_active(en.records@[i], en.withdrawn@, gw_b),
        en.selection_ok(gw_a),
    ensures
        en.selection_ok(gw_b),
{
    reveal(PrefixEntry::selection_ok);
    if !en.stale {
        let recs = en.records@;
        let wd = en.withdrawn@;
        match en.best {
            None => {
                assert forall|i: int|
                    0 <= i < recs.len() implies !visible_active(
                    #[trigger] recs[i],
                    wd,
                    gw_b,
                ) by {
                    assert(!visible_active(recs[i], wd, gw_a));
                }
            },
            Some(m) => {
                let i0 = choose|i0: int|
                    best_at_recs(recs, wd, gw_a, &en.sel_tbi->0, i0) && recs[i0].multi_uniq_id
                        == m;
                assert(best_at_recs(recs, wd, gw_b, &en.sel_tbi->0, i0)) by {
                    assert forall|j: int|
                        0 <= j < recs.len() && j != i0 && visible_active(
                            #[trigger] recs[j],
                            wd,
                            gw_b,
                        ) implies preferred(recs[i0], recs[j], &en.sel_tbi->0) by {
                        assert(visible_active(recs[j], wd, gw_a));
                    }
                }
            },
        }
        match en.backup {
            None => {
                if en.best is Some {
                    assert forall|i: int|
                        0 <= i < recs.len() && visible_active(
                            #[trigger] recs[i],
                            wd,
                            gw_b,
                        ) implies recs[i].multi_uniq_id == en.best->0 by {
                        assert(visible_active(recs[i], wd, gw_a));
                    }
                }
            },
            Some(m2) => {
                let (b0, i0): (int, int) = choose|b0: int, i0: int|
                    best_at_recs(recs, wd, gw_a, &en.sel_tbi->0, b0) && en.best == Some(
                        recs[b0].multi_uniq_id,
                    ) && backup_at_recs(recs, wd, gw_a, &en.sel_tbi->0, b0, i0) && recs[
                    i0].multi_uniq_id == m2;
                assert(best_at_recs(recs, wd, gw_b, &en.sel_tbi->0, b0)) by {
                    assert forall|j: int|
                        0 <= j < recs.len() && j != b0 && visible_active(
                            #[trigger] recs[j],
                            wd,
                            gw_b,
                        ) implies preferred(recs[b0], recs[j], &en.sel_tbi->0) by {
                        assert(visible_active(recs[j], wd, gw_a));
                    }
                }
                assert(backup_at_recs(recs, wd, gw_b, &en.sel_tbi->0, b0, i0)) by {
                    assert forall|j: int|
                        0 <= j < recs.len() && j != i0 && j != b0 && visible_active(
                            #[trigger] recs[j],
                            wd,
                            gw_b,
                        ) implies preferred(recs[i0], recs[j], &en.sel_tbi->0) by {
                        assert(visible_active(recs[j], wd, gw_a));
                    }
                }
            },
        }
        assert(en.selection_ok(gw_b));
    }
}

/// The cached selection of an entry that holds no record of producer `m` is
/// indifferent to `m`'s global withdrawal state.
pub proof fn lemma_selection_gw_irrelevant<M: Meta>(
    en: PrefixEntry<M>,
    gw: Set<u32>,
    gw2: Set<u32>,
    m: u32,
)
    requires
        !has_mui(en.records@, m),
        gw2 == gw.insert(m) || gw2 == gw.remove(m),
    ensures
        en.selection_ok(gw2) == en.selection_ok(gw),
{
    assert forall|i: int|
        0 <= i < en.records@.len() implies visible_active(
        #[trigger] en.records@[i],
        en.withdrawn@,
        gw,
    ) == visible_active(en.records@[i], en.withdrawn@, gw2) by {
        assert(en.records@[i].multi_uniq_id != m);
    }
    if en.selection_ok(gw) {
        lemma_selection_ok_va_equiv(en, gw, gw2);
    }
    if en.selection_ok(gw2) {
        lemma_selection_ok_va_equiv(en, gw2, gw);
    }
}


/// A stale selection satisfies the freshness predicate vacuously.
pub proof fn lemma_selection_ok_stale<M: Meta>(en: PrefixEntry<M>, gw: Set<u32>)
    requires
        en.stale,
    ensures
        en.selection_ok(gw),
{
    reveal(PrefixEntry::selection_ok);
}

/// A fresh selection naming a best producer has a record of that producer,
/// and that record is the minimum of the visible-active records.
pub proof fn lemma_selection_best<M: Meta>(en: PrefixEntry<M>, gw: Set<u32>, m: u32)
    requires
        en.selection_ok(gw),
        !en.stale,
        en.best == Some(m),
    ensures
        en.sel_tbi is Some,
        has_mui(en.records@, m),
        exists|i: int|
            best_at_recs(en.records@, en.withdrawn@, gw, &en.sel_tbi->0, i)
                && en.records@[i].multi_uniq_id == m,
{
    reveal(PrefixEntry::selection_ok);
    let i = choose|i: int|
        best_at_recs(en.records@, en.withdrawn@, gw, &en.sel_tbi->0, i) && en.records@[
        i].multi_uniq_id == m;
    assert(0 <= i < en.records@.len() && en.records@[i].multi_uniq_id == m);
}

/// A fresh selection with no best producer has no visible-active record.
pub proof fn lemma_selection_none<M: Meta>(en: PrefixEntry<M>, gw: Set<u32>)
    requires
        en.selection_ok(gw),
        !en.stale,
        en.best is None,
    ensures
        forall|i: int|
            0 <= i < en.records@.len() ==> !visible_active(
                #[trigger] en.records@[i],
                en.withdrawn@,
                gw,
            ),
{
    reveal(PrefixEntry::selection_ok);
}

} // verus!
