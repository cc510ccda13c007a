use vstd::prelude::*;

use crossbeam_epoch::Guard;

use crate::errors::{FatalError, PrefixStoreError};
use crate::match_options::{MatchOptions, MatchType, QueryResult};
use crate::meta::Meta;
use crate::prefix::{Fam, PrefixId};
use crate::record::{PrefixRecord, Record, UpsertReport};
use crate::entry::vis_filter;
use crate::persist::{encode_record_key, encode_record_value, spec_value_bytes, PersistTree};
use crate::tree::{cum, lemma_cum_push, strides_input_ok, TreeBitMap};

verus! {

/// How upserted records are mirrored to the persistence tier.
///
/// The tier is modeled in memory: under every strategy but `MemoryOnly`,
/// each upsert appends the record in the persisted byte layout to the
/// write-ahead buffer (`parse_record_value` inverts the encoding, proved).
/// Reads are always served from the in-memory table; under `PersistOnly`
/// the buffered values coincide with it by the round-trip law, so the
/// read redirect of a disk-backed tier has no observable counterpart here.
#[derive(Clone, Copy, Debug, PartialEq, Eq, Structural)]
pub enum PersistStrategy {
    MemoryOnly,
    WriteAhead,
    PersistOnly,
    PersistHistory,
}

/// The configuration of a store: which persistence strategy it runs under.
#[derive(Clone, Copy, Debug, PartialEq, Eq, Structural)]
pub struct StoreConfig {
    pub persist_strategy: PersistStrategy,
}

impl StoreConfig {
    pub fn memory_only() -> (r: StoreConfig)
        ensures
            r.persist_strategy == PersistStrategy::MemoryOnly,
    {
        StoreConfig { persist_strategy: PersistStrategy::MemoryOnly }
    }
}

/// The stride kind of one trie node.
#[derive(Clone, Copy, Debug, PartialEq, Eq, Structural)]
pub enum SizedStride {
    Stride3,
    Stride4,
    Stride5,
}

/// The stride kind of a stride size in 3..=5.
pub open spec fn stride_kind(s: u8) -> SizedStride {
    if s == 3 {
        SizedStride::Stride3
    } else if s == 4 {
        SizedStride::Stride4
    } else {
        SizedStride::Stride5
    }
}

/// Per-family counts of the store.
#[derive(Clone, Copy, Debug, PartialEq, Eq, Structural)]
pub struct Stats {
    pub prefixes_v4: usize,
    pub prefixes_v6: usize,
    pub nodes_v4: usize,
    pub nodes_v6: usize,
}

/// A longest-prefix-match store holding one tree bitmap per address family,
/// with per-prefix record sets keyed by producer identity.
pub struct Store<M: Meta> {
    pub v4: TreeBitMap<M>,
    pub v6: TreeBitMap<M>,
    pub config: StoreConfig,
    pub persist: PersistTree,
}

impl<M: Meta> Store<M> {
    /// Both family tries are well-formed and carry their own family.
    pub open spec fn wf(self) -> bool {
        &&& self.v4.wf()
        &&& self.v4.fam == Fam::V4
        &&& self.v6.wf()
        &&& self.v6.fam == Fam::V6
        &&& self.persist.wf()
    }

    /// The family trie a prefix belongs to.
    pub open spec fn tree_of(self, fam: Fam) -> TreeBitMap<M> {
        match fam {
            Fam::V4 => self.v4,
            Fam::V6 => self.v6,
        }
    }

    /// An empty store with the given stride sequences, one per family.  A
    /// sequence is accepted exactly when it is nonempty, every stride lies
    /// in 3..=5 and the strides sum to the family's bit width (32 for IPv4,
    /// 128 for IPv6); any other sequence is rejected.
    pub fn new(v4_strides: &Vec<u8>, v6_strides: &Vec<u8>) -> (r: Result<
        Store<M>,
        PrefixStoreError,
    >)
        ensures
            r is Ok <==> strides_input_ok(v4_strides@, 32) && strides_input_ok(v6_strides@, 128),
            match r {
                Ok(s) => {
                    &&& s.wf()
                    &&& s.v4.strides@ == v4_strides@
                    &&& s.v6.strides@ == v6_strides@
                    &&& s.v4.entries@.len() == 0
                    &&& s.v6.entries@.len() == 0
                    &&& s.v4.nodes@.len() == 1
                    &&& s.v6.nodes@.len() == 1
                    &&& s.v4.withdrawn_muis@ == Set::<u32>::empty()
                    &&& s.v6.withdrawn_muis@ == Set::<u32>::empty()
                    &&& s.config.persist_strategy == PersistStrategy::MemoryOnly
                    &&& s.persist.items@.len() == 0
                },
                Err(e) => e == PrefixStoreError::PrefixLengthInvalid,
            },
    {
        let v4 = TreeBitMap::new(Fam::V4, v4_strides)?;
        let v6 = TreeBitMap::new(Fam::V6, v6_strides)?;
        Ok(Store { v4, v6, config: StoreConfig::memory_only(), persist: PersistTree::new() })
    }

    /// An empty store with the default stride sequences: four bits per level
    /// for both families.
    pub fn try_default() -> (r: Result<Store<M>, PrefixStoreError>)
        ensures
            r is Ok,
            match r {
                Ok(s) => {
                    &&& s.wf()
                    &&& s.v4.entries@.len() == 0
                    &&& s.v6.entries@.len() == 0
                    &&& s.v4.withdrawn_muis@ == Set::<u32>::empty()
                    &&& s.v6.withdrawn_muis@ == Set::<u32>::empty()
                    &&& s.config.persist_strategy == PersistStrategy::MemoryOnly
                    &&& s.persist.items@.len() == 0
                },
                Err(e) => false,
            },
    {
        let v4s = Self::default_strides(8);
        let v6s = Self::default_strides(32);
        proof {
            assert(strides_input_ok(v4s@, 32));
            assert(strides_input_ok(v6s@, 128));
        }
        let r = Store::new(&v4s, &v6s);
        proof {
            assert(r is Ok);
        }
        r
    }

    /// A stride sequence of `n` four-bit levels.
    fn default_strides(n: usize) -> (r: Vec<u8>)
        requires
            1 <= n <= 32,
        ensures
            r@.len() == n,
            forall|j: int| 0 <= j < n ==> (#[trigger] r@[j]) == 4,
            cum(r@, n as int) == 4 * n,
    {
        let mut out: Vec<u8> = Vec::new();
        let mut i: usize = 0;
        while i < n
            invariant
                0 <= i <= n,
                out@.len() == i as int,
                forall|j: int| 0 <= j < i as int ==> (#[trigger] out@[j]) == 4,
                cum(out@, i as int) == 4 * i,
            decreases n - i as int,
        {
            proof {
                lemma_cum_push(out@, 4, out@.len() as int);
            }
            out.push(4);
            i = i + 1;
        }
        out
    }

    /// An empty store with the default strides under the given
    /// configuration.
    pub fn new_with_config(config: StoreConfig) -> (r: Result<Store<M>, PrefixStoreError>)
        ensures
            r is Ok,
            match r {
                Ok(s) => s.wf() && s.config == config && s.v4.entries@.len() == 0
                    && s.v6.entries@.len() == 0 && s.persist.items@.len() == 0,
                Err(e) => false,
            },
    {
        let mut s = Store::try_default()?;
        s.config = config;
        Ok(s)
    }

    /// Inserts or replaces the record for `(prefix, record.multi_uniq_id)`;
    /// when a tie-break input is supplied, the prefix's best and backup
    /// paths are recomputed at once.
    pub fn insert(
        &mut self,
        prefix: &PrefixId,
        record: Record<M>,
        update_path_selections: Option<&M::TBI>,
    ) -> (r: Result<UpsertReport, PrefixStoreError>)
        requires
            old(self).wf(),
        ensures
            final (self).wf(),
            final (self).config == old(self).config,
            r is Err <==> !prefix.is_valid(),
            r is Err ==> *final (self) == *old(self) && r == Err::<
                UpsertReport,
                PrefixStoreError,
            >(PrefixStoreError::PrefixLengthInvalid),
            r matches Ok(rep) ==> ({
                let t_old = old(self).tree_of(prefix.fam);
                let t_new = final (self).tree_of(prefix.fam);
                let mui = record.multi_uniq_id;
                &&& final (self).tree_of(if prefix.fam == Fam::V4 {
                    Fam::V6
                } else {
                    Fam::V4
                }) == old(self).tree_of(if prefix.fam == Fam::V4 {
                    Fam::V6
                } else {
                    Fam::V4
                })
                &&& rep.cas_count == 0
                &&& rep.prefix_new == !t_old.has_pfx(prefix@)
                &&& (rep.prefix_new ==> rep.mui_count == 1)
                &&& (!rep.prefix_new ==> ({
                    let e = t_old.idx_of(prefix@);
                    let n = t_new.entries@[e]@.records.len();
                    rep.mui_count as int == (if n <= u32::MAX {
                        n as int
                    } else {
                        u32::MAX as int
                    })
                }))
                &&& t_new.has_pfx(prefix@)
                &&& t_new.withdrawn_muis@ == t_old.withdrawn_muis@
                &&& t_new.strides@ == t_old.strides@
                &&& t_new.nodes@.len() >= t_old.nodes@.len()
                &&& t_new.nodes@.len() <= t_old.nodes@.len() + t_old.strides@.len()
                &&& t_new.entries@.len() == t_old.entries@.len() + (if rep.prefix_new {
                    1int
                } else {
                    0int
                })
                &&& (rep.prefix_new ==> {
                    let en = t_new.entries@[t_old.entries@.len() as int];
                    &&& rep.mui_new
                    &&& en.prefix == *prefix
                    &&& en@.records =~= seq![record]
                    &&& en@.withdrawn =~= Set::<u32>::empty()
                    &&& (update_path_selections is None ==> en@.best is None && en@.backup
                        is None && en@.sel_tbi is None && en@.stale)
                })
                &&& (!rep.prefix_new ==> {
                    let e = t_old.idx_of(prefix@);
                    let oldE = t_old.entries@[e];
                    let newE = t_new.entries@[e];
                    &&& rep.mui_new == !crate::entry::has_mui(oldE@.records, mui)
                    &&& newE.prefix == oldE.prefix
                    &&& newE@.records == (if crate::entry::has_mui(oldE@.records, mui) {
                        oldE@.records.update(crate::entry::mui_idx(oldE@.records, mui), record)
                    } else {
                        oldE@.records.push(record)
                    })
                    &&& newE@.withdrawn == oldE@.withdrawn
                    &&& (update_path_selections is None ==> newE@.best == oldE@.best
                        && newE@.backup == oldE@.backup && newE@.seq == oldE@.seq
                        && newE@.sel_tbi == oldE@.sel_tbi && newE@.stale)
                })
                &&& (update_path_selections is Some ==> !t_new.entries@[t_new.idx_of(
                    prefix@,
                )]@.stale)
                &&& (old(self).config.persist_strategy == PersistStrategy::MemoryOnly
                    ==> final (self).persist == old(self).persist)
                &&& (old(self).config.persist_strategy != PersistStrategy::MemoryOnly ==> final (
                self).persist.items@.len() == old(self).persist.items@.len() + 1 && final (
                self).persist.items@[old(self).persist.items@.len() as int].value@
                    == spec_value_bytes(
                    record.multi_uniq_id,
                    record.ltime,
                    record.status,
                    record.meta.bytes_spec(),
                ))
            }),
    {
        if !prefix.check_valid() {
            return Err(PrefixStoreError::PrefixLengthInvalid);
        }
        let persist_this = match self.config.persist_strategy {
            PersistStrategy::MemoryOnly => false,
            _ => true,
        };
        if persist_this {
            // mirror the upsert into the write-ahead buffer, append-only
            // per (prefix, producer, logical time)
            let meta_bytes = record.meta.to_bytes();
            let key = encode_record_key(prefix, record.multi_uniq_id, record.ltime);
            let value = encode_record_value(
                record.multi_uniq_id,
                record.ltime,
                record.status,
                &meta_bytes,
            );
            proof {
                assert(value@ == spec_value_bytes(
                    record.multi_uniq_id,
                    record.ltime,
                    record.status,
                    record.meta.bytes_spec(),
                ));
                assert(crate::persist::value_parseable(value@));
            }
            self.persist.append(key, value);
        }
        let fam = prefix.family();
        let rep = match fam {
            Fam::V4 => self.v4.insert_rec(prefix, record),
            Fam::V6 => self.v6.insert_rec(prefix, record),
        };
        match update_path_selections {
            Some(tbi) => {
                let ghost mid = *self;
                let res = match fam {
                    Fam::V4 => self.v4.calc_best_backup_for(prefix, tbi),
                    Fam::V6 => self.v6.calc_best_backup_for(prefix, tbi),
                };
                proof {
                    let t_old = old(self).tree_of(prefix.fam);
                    let t_mid = mid.tree_of(prefix.fam);
                    let t_now = self.tree_of(prefix.fam);
                    assert(res is Ok);
                    let e = t_mid.idx_of(prefix@);
                    assert(t_mid.entries@[e].prefix@ == prefix@);
                    assert(t_now.entries@[e].prefix@ == prefix@);
                    let e2 = t_now.idx_of(prefix@);
                    assert(t_now.entries@[e2].prefix@ == prefix@);
                    if e2 != e {
                        t_now.lemma_entries_distinct(e2, e);
                        assert(false);
                    }
                    assert(!t_now.entries@[t_now.idx_of(prefix@)]@.stale);
                    // the table position is stable across the recomputation
                    if rep.prefix_new {
                        assert(t_mid.entries@[t_old.entries@.len() as int].prefix@ == prefix@);
                        if e != t_old.entries@.len() as int {
                            t_mid.lemma_entries_distinct(e, t_old.entries@.len() as int);
                            assert(false);
                        }
                    } else {
                        let e0 = t_old.idx_of(prefix@);
                        assert(t_mid.entries@[e0].prefix@ == prefix@);
                        if e != e0 {
                            t_mid.lemma_entries_distinct(e, e0);
                            assert(false);
                        }
                    }
                }
                Ok(rep)
            },
            None => Ok(rep),
        }
    }

    /// Answers a match query; an invalid prefix yields an empty result.
    pub fn match_prefix(&self, prefix: &PrefixId, options: &MatchOptions, guard: &Guard) -> (r:
        Result<QueryResult<M>, FatalError>)
        requires
            self.wf(),
        ensures
            r is Ok,
            !prefix.is_valid() ==> ({
                let res = r->Ok_0;
                &&& res.match_type == MatchType::EmptyMatch
                &&& res.prefix is None
                &&& res.records@.len() == 0
                &&& res.less_specifics is None
                &&& res.more_specifics is None
            }),
            prefix.is_valid() ==> ({
                let t = self.tree_of(prefix.fam);
                let res = r->Ok_0;
                &&& crate::query::match_result_ok(t, *prefix, *options, res)
            }),
    {
        let _ = guard;
        if !prefix.check_valid() {
            return Ok(QueryResult::empty());
        }
        let r = match prefix.family() {
            Fam::V4 => self.v4.match_prefix_in(prefix, options),
            Fam::V6 => self.v6.match_prefix_in(prefix, options),
        };
        Ok(r)
    }

    /// The filtered records of a stored prefix; `None` when the prefix is
    /// absent or invalid.  Served from the in-memory table under every
    /// persistence strategy (see `PersistStrategy`).
    pub fn get_records_for_prefix(
        &self,
        prefix: &PrefixId,
        mui: Option<u32>,
        include_withdrawn: bool,
    ) -> (r: Result<Option<Vec<Record<M>>>, FatalError>)
        requires
            self.wf(),
        ensures
            r is Ok,
            !prefix.is_valid() ==> r == Ok::<Option<Vec<Record<M>>>, FatalError>(None),
            prefix.is_valid() ==> ({
                let t = self.tree_of(prefix.fam);
                let inner = r->Ok_0;
                &&& inner is Some <==> t.has_pfx(prefix@)
                &&& inner matches Some(v) ==> v@ == t.filt(
                    t.idx_of(prefix@),
                    mui,
                    include_withdrawn,
                )
            }),
    {
        if !prefix.check_valid() {
            return Ok(None);
        }
        let r = match prefix.family() {
            Fam::V4 => self.v4.get_records_for_prefix(prefix, mui, include_withdrawn),
            Fam::V6 => self.v6.get_records_for_prefix(prefix, mui, include_withdrawn),
        };
        Ok(r)
    }

    /// The query result holding the prefix's own records and its more
    /// specific prefixes.
    pub fn more_specifics_from(
        &self,
        prefix: &PrefixId,
        mui: Option<u32>,
        include_withdrawn: bool,
        guard: &Guard,
    ) -> (r: Result<QueryResult<M>, FatalError>)
        requires
            self.wf(),
        ensures
            r is Ok,
            !prefix.is_valid() ==> ({
                let res = r->Ok_0;
                &&& res.match_type == MatchType::EmptyMatch
                &&& res.prefix is None
                &&& res.records@.len() == 0
                &&& res.less_specifics is None
                &&& res.more_specifics matches Some(v) && v@.len() == 0
            }),
            prefix.is_valid() ==> ({
                let t = self.tree_of(prefix.fam);
                let res = r->Ok_0;
                &&& res.match_type == MatchType::EmptyMatch
                &&& res.prefix is None
                &&& (t.has_pfx(prefix@) ==> res.records@ == t.filt(
                    t.idx_of(prefix@),
                    mui,
                    include_withdrawn,
                ))
                &&& (!t.has_pfx(prefix@) ==> res.records@.len() == 0)
                &&& res.less_specifics is None
                &&& res.more_specifics is Some
                &&& t.side_list_sound(res.more_specifics->0@, mui, include_withdrawn)
                &&& forall|k: int|
                    0 <= k < res.more_specifics->0@.len() ==> t.is_more_specific(
                        t.idx_of((#[trigger] res.more_specifics->0@[k]).prefix@),
                        prefix@,
                    )
                &&& forall|e: int|
                    t.is_more_specific(e, prefix@) && t.filt(e, mui, include_withdrawn).len()
                        > 0 ==> crate::query::list_prefixes(res.more_specifics->0@).contains(
                        t.entries@[e].prefix,
                    )
            }),
    {
        let _ = guard;
        if !prefix.check_valid() {
            let mut r = QueryResult::empty();
            r.more_specifics = Some(Vec::new());
            return Ok(r);
        }
        let mut r: QueryResult<M> = QueryResult::empty();
        match prefix.family() {
            Fam::V4 => {
                r.more_specifics = Some(
                    self.v4.more_specifics_list(prefix, mui, include_withdrawn),
                );
                match self.v4.get_records_for_prefix(prefix, mui, include_withdrawn) {
                    Some(v) => {
                        r.records = v;
                    },
                    None => {},
                }
            },
            Fam::V6 => {
                r.more_specifics = Some(
                    self.v6.more_specifics_list(prefix, mui, include_withdrawn),
                );
                match self.v6.get_records_for_prefix(prefix, mui, include_withdrawn) {
                    Some(v) => {
                        r.records = v;
                    },
                    None => {},
                }
            },
        }
        Ok(r)
    }

    /// The query result holding the prefix's own records and its less
    /// specific prefixes.
    pub fn less_specifics_from(
        &self,
        prefix: &PrefixId,
        mui: Option<u32>,
        include_withdrawn: bool,
        guard: &Guard,
    ) -> (r: Result<QueryResult<M>, FatalError>)
        requires
            self.wf(),
        ensures
            r is Ok,
            !prefix.is_valid() ==> ({
                let res = r->Ok_0;
                &&& res.match_type == MatchType::EmptyMatch
                &&& res.prefix is None
                &&& res.records@.len() == 0
                &&& res.more_specifics is None
                &&& res.less_specifics matches Some(v) && v@.len() == 0
            }),
            prefix.is_valid() ==> ({
                let t = self.tree_of(prefix.fam);
                let res = r->Ok_0;
                &&& res.match_type == MatchType::EmptyMatch
                &&& res.prefix is None
                &&& (t.has_pfx(prefix@) ==> res.records@ == t.filt(
                    t.idx_of(prefix@),
                    mui,
                    include_withdrawn,
                ))
                &&& (!t.has_pfx(prefix@) ==> res.records@.len() == 0)
                &&& res.more_specifics is None
                &&& res.less_specifics is Some
                &&& t.side_list_sound(res.less_specifics->0@, mui, include_withdrawn)
                &&& forall|k: int|
                    0 <= k < res.less_specifics->0@.len() ==> t.is_less_specific(
                        t.idx_of((#[trigger] res.less_specifics->0@[k]).prefix@),
                        prefix@,
                    )
                &&& forall|e: int|
                    t.is_less_specific(e, prefix@) && t.filt(e, mui, include_withdrawn).len()
                        > 0 ==> crate::query::list_prefixes(res.less_specifics->0@).contains(
                        t.entries@[e].prefix,
                    )
            }),
    {
        let _ = guard;
        if !prefix.check_valid() {
            let mut r = QueryResult::empty();
            r.less_specifics = Some(Vec::new());
            return Ok(r);
        }
        let mut r: QueryResult<M> = QueryResult::empty();
        match prefix.family() {
            Fam::V4 => {
                r.less_specifics = Some(
                    self.v4.less_specifics_list(prefix, mui, include_withdrawn),
                );
                match self.v4.get_records_for_prefix(prefix, mui, include_withdrawn) {
                    Some(v) => {
                        r.records = v;
                    },
                    None => {},
                }
            },
            Fam::V6 => {
                r.less_specifics = Some(
                    self.v6.less_specifics_list(prefix, mui, include_withdrawn),
                );
                match self.v6.get_records_for_prefix(prefix, mui, include_withdrawn) {
                    Some(v) => {
                        r.records = v;
                    },
                    None => {},
                }
            },
        }
        Ok(r)
    }

    /// Marks a producer withdrawn for every IPv4 prefix.
    pub fn mark_mui_as_withdrawn_v4(&mut self, mui: u32) -> (r: Result<(), PrefixStoreError>)
        requires
            old(self).wf(),
        ensures
            final (self).wf(),
            r is Ok,
            final (self).v4.withdrawn_muis@ == old(self).v4.withdrawn_muis@.insert(mui),
            final (self).v6 == old(self).v6,
            final (self).config == old(self).config,
            final (self).v4.strides@ == old(self).v4.strides@,
            final (self).v4.nodes@ == old(self).v4.nodes@,
            final (self).persist == old(self).persist,
            final (self).v4.entries@.len() == old(self).v4.entries@.len(),
            forall|e: int|
                0 <= e < old(self).v4.entries@.len() ==> {
                    let oldE = old(self).v4.entries@[e];
                    let newE = #[trigger] final (self).v4.entries@[e];
                    &&& newE.prefix == oldE.prefix
                    &&& newE@.records == oldE@.records
                    &&& newE@.withdrawn == oldE@.withdrawn
                    &&& newE@.best == oldE@.best
                    &&& newE@.backup == oldE@.backup
                    &&& newE@.seq == oldE@.seq
                    &&& newE@.sel_tbi == oldE@.sel_tbi
                    &&& newE@.stale == (oldE@.stale || crate::entry::has_mui(oldE@.records, mui))
                },
    {
        self.v4.mark_mui_global(mui, true);
        Ok(())
    }

    /// Marks a producer active again for every IPv4 prefix.
    pub fn mark_mui_as_active_v4(&mut self, mui: u32) -> (r: Result<(), PrefixStoreError>)
        requires
            old(self).wf(),
        ensures
            final (self).wf(),
            r is Ok,
            final (self).v4.withdrawn_muis@ == old(self).v4.withdrawn_muis@.remove(mui),
            final (self).v6 == old(self).v6,
            final (self).config == old(self).config,
            final (self).v4.strides@ == old(self).v4.strides@,
            final (self).v4.nodes@ == old(self).v4.nodes@,
            final (self).persist == old(self).persist,
            final (self).v4.entries@.len() == old(self).v4.entries@.len(),
            forall|e: int|
                0 <= e < old(self).v4.entries@.len() ==> {
                    let oldE = old(self).v4.entries@[e];
                    let newE = #[trigger] final (self).v4.entries@[e];
                    &&& newE.prefix == oldE.prefix
                    &&& newE@.records == oldE@.records
                    &&& newE@.withdrawn == oldE@.withdrawn
                    &&& newE@.best == oldE@.best
                    &&& newE@.backup == oldE@.backup
                    &&& newE@.seq == oldE@.seq
                    &&& newE@.sel_tbi == oldE@.sel_tbi
                    &&& newE@.stale == (oldE@.stale || crate::entry::has_mui(oldE@.records, mui))
                },
    {
        self.v4.mark_mui_global(mui, false);
        Ok(())
    }

    /// Marks a producer withdrawn for every IPv6 prefix.
    pub fn mark_mui_as_withdrawn_v6(&mut self, mui: u32) -> (r: Result<(), PrefixStoreError>)
        requires
            old(self).wf(),
        ensures
            final (self).wf(),
            r is Ok,
            final (self).v6.withdrawn_muis@ == old(self).v6.withdrawn_muis@.insert(mui),
            final (self).v4 == old(self).v4,
            final (self).config == old(self).config,
            final (self).v6.strides@ == old(self).v6.strides@,
            final (self).v6.nodes@ == old(self).v6.nodes@,
            final (self).persist == old(self).persist,
            final (self).v6.entries@.len() == old(self).v6.entries@.len(),
            forall|e: int|
                0 <= e < old(self).v6.entries@.len() ==> {
                    let oldE = old(self).v6.entries@[e];
                    let newE = #[trigger] final (self).v6.entries@[e];
                    &&& newE.prefix == oldE.prefix
                    &&& newE@.records == oldE@.records
                    &&& newE@.withdrawn == oldE@.withdrawn
                    &&& newE@.best == oldE@.best
                    &&& newE@.backup == oldE@.backup
                    &&& newE@.seq == oldE@.seq
                    &&& newE@.sel_tbi == oldE@.sel_tbi
                    &&& newE@.stale == (oldE@.stale || crate::entry::has_mui(oldE@.records, mui))
                },
    {
        self.v6.mark_mui_global(mui, true);
        Ok(())
    }

    /// Marks a producer active again for every IPv6 prefix.
    pub fn mark_mui_as_active_v6(&mut self, mui: u32) -> (r: Result<(), PrefixStoreError>)
        requires
            old(self).wf(),
        ensures
            final (self).wf(),
            r is Ok,
            final (self).v6.withdrawn_muis@ == old(self).v6.withdrawn_muis@.remove(mui),
            final (self).v4 == old(self).v4,
            final (self).config == old(self).config,
            final (self).v6.strides@ == old(self).v6.strides@,
            final (self).v6.nodes@ == old(self).v6.nodes@,
            final (self).persist == old(self).persist,
            final (self).v6.entries@.len() == old(self).v6.entries@.len(),
            forall|e: int|
                0 <= e < old(self).v6.entries@.len() ==> {
                    let oldE = old(self).v6.entries@[e];
                    let newE = #[trigger] final (self).v6.entries@[e];
                    &&& newE.prefix == oldE.prefix
                    &&& newE@.records == oldE@.records
                    &&& newE@.withdrawn == oldE@.withdrawn
                    &&& newE@.best == oldE@.best
                    &&& newE@.backup == oldE@.backup
                    &&& newE@.seq == oldE@.seq
                    &&& newE@.sel_tbi == oldE@.sel_tbi
                    &&& newE@.stale == (oldE@.stale || crate::entry::has_mui(oldE@.records, mui))
                },
    {
        self.v6.mark_mui_global(mui, false);
        Ok(())
    }

    /// Marks a producer withdrawn for one prefix.
    pub fn mark_mui_as_withdrawn_for_prefix(&mut self, prefix: &PrefixId, mui: u32) -> (r:
        Result<(), PrefixStoreError>)
        requires
            old(self).wf(),
        ensures
            final (self).wf(),
            final (self).config == old(self).config,
            !prefix.is_valid() ==> r == Err::<(), PrefixStoreError>(
                PrefixStoreError::PrefixLengthInvalid,
            ) && *final (self) == *old(self),
            prefix.is_valid() ==> ({
                let t_old = old(self).tree_of(prefix.fam);
                let t_new = final (self).tree_of(prefix.fam);
                &&& (r is Err <==> !t_old.has_pfx(prefix@))
                &&& final (self).tree_of(if prefix.fam == Fam::V4 {
                    Fam::V6
                } else {
                    Fam::V4
                }) == old(self).tree_of(if prefix.fam == Fam::V4 {
                    Fam::V6
                } else {
                    Fam::V4
                })
                &&& t_new.withdrawn_muis@ == t_old.withdrawn_muis@
                &&& t_new.nodes@ == t_old.nodes@
                &&& t_new.strides@ == t_old.strides@
                &&& final (self).persist == old(self).persist
                &&& (r is Ok ==> {
                    let e = t_old.idx_of(prefix@);
                    let oldE = t_old.entries@[e];
                    let newE = t_new.entries@[e];
                    &&& t_new.entries@ == t_old.entries@.update(e, newE)
                    &&& newE.prefix == oldE.prefix
                    &&& newE@.withdrawn == oldE@.withdrawn.insert(mui)
                    &&& newE@.records == oldE@.records
                    &&& newE@.best == oldE@.best
                    &&& newE@.backup == oldE@.backup
                    &&& newE@.seq == oldE@.seq
                    &&& newE@.stale
                })
                &&& (r is Err ==> *final (self) == *old(self))
            }),
    {
        if !prefix.check_valid() {
            return Err(PrefixStoreError::PrefixLengthInvalid);
        }
        match prefix.family() {
            Fam::V4 => self.v4.mark_mui_for_prefix(prefix, mui, true),
            Fam::V6 => self.v6.mark_mui_for_prefix(prefix, mui, true),
        }
    }

    /// Marks a producer active again for one prefix.
    pub fn mark_mui_as_active_for_prefix(&mut self, prefix: &PrefixId, mui: u32) -> (r: Result<
        (),
        PrefixStoreError,
    >)
        requires
            old(self).wf(),
        ensures
            final (self).wf(),
            final (self).config == old(self).config,
            !prefix.is_valid() ==> r == Err::<(), PrefixStoreError>(
                PrefixStoreError::PrefixLengthInvalid,
            ) && *final (self) == *old(self),
            prefix.is_valid() ==> ({
                let t_old = old(self).tree_of(prefix.fam);
                let t_new = final (self).tree_of(prefix.fam);
                &&& (r is Err <==> !t_old.has_pfx(prefix@))
                &&& final (self).tree_of(if prefix.fam == Fam::V4 {
                    Fam::V6
                } else {
                    Fam::V4
                }) == old(self).tree_of(if prefix.fam == Fam::V4 {
                    Fam::V6
                } else {
                    Fam::V4
                })
                &&& t_new.withdrawn_muis@ == t_old.withdrawn_muis@
                &&& t_new.nodes@ == t_old.nodes@
                &&& t_new.strides@ == t_old.strides@
                &&& final (self).persist == old(self).persist
                &&& (r is Ok ==> {
                    let e = t_old.idx_of(prefix@);
                    let oldE = t_old.entries@[e];
                    let newE = t_new.entries@[e];
                    &&& t_new.entries@ == t_old.entries@.update(e, newE)
                    &&& newE.prefix == oldE.prefix
                    &&& newE@.withdrawn == oldE@.withdrawn.remove(mui)
                    &&& newE@.records == oldE@.records
                    &&& newE@.best == oldE@.best
                    &&& newE@.backup == oldE@.backup
                    &&& newE@.seq == oldE@.seq
                    &&& newE@.stale
                })
                &&& (r is Err ==> *final (self) == *old(self))
            }),
    {
        if !prefix.check_valid() {
            return Err(PrefixStoreError::PrefixLengthInvalid);
        }
        match prefix.family() {
            Fam::V4 => self.v4.mark_mui_for_prefix(prefix, mui, false),
            Fam::V6 => self.v6.mark_mui_for_prefix(prefix, mui, false),
        }
    }

    /// The best path of a prefix.  The cached selection is served when it is
    /// current; a stale selection is re-derived lazily under the tie-break
    /// input of the last recomputation; before any recomputation there is no
    /// best path yet (`BestPathNotFound`).
    pub fn best_path(&mut self, prefix: &PrefixId, guard: &Guard) -> (r: Option<Result<
        Record<M>,
        PrefixStoreError,
    >>)
        requires
            old(self).wf(),
        ensures
            final (self).wf(),
            final (self).config == old(self).config,
            final (self).persist == old(self).persist,
            !prefix.is_valid() ==> r is None && *final (self) == *old(self),
            prefix.is_valid() ==> ({
                let t_old = old(self).tree_of(prefix.fam);
                let t_new = final (self).tree_of(prefix.fam);
                &&& (r is None <==> !t_old.has_pfx(prefix@))
                &&& final (self).tree_of(if prefix.fam == Fam::V4 {
                    Fam::V6
                } else {
                    Fam::V4
                }) == old(self).tree_of(if prefix.fam == Fam::V4 {
                    Fam::V6
                } else {
                    Fam::V4
                })
                &&& t_new.withdrawn_muis@ == t_old.withdrawn_muis@
                &&& t_new.nodes@ == t_old.nodes@
                &&& t_new.strides@ == t_old.strides@
                &&& (!t_old.has_pfx(prefix@) ==> *final (self) == *old(self))
                &&& (t_old.has_pfx(prefix@) ==> {
                    let e = t_old.idx_of(prefix@);
                    let oldE = t_old.entries@[e];
                    let newE = t_new.entries@[e];
                    &&& t_new.entries@ == t_old.entries@.update(e, newE)
                    &&& newE.prefix == oldE.prefix
                    &&& newE@.records == oldE@.records
                    &&& newE@.withdrawn == oldE@.withdrawn
                    &&& (!oldE@.stale ==> newE == oldE)
                    &&& ((oldE@.stale && oldE@.sel_tbi is None) ==> newE == oldE && r == Some(
                        Err::<Record<M>, PrefixStoreError>(PrefixStoreError::BestPathNotFound),
                    ))
                    &&& ((oldE@.stale && oldE@.sel_tbi is Some) ==> {
                        &&& !newE@.stale
                        &&& newE@.sel_tbi == oldE@.sel_tbi
                        &&& match newE@.best {
                            None => forall|i: int|
                                0 <= i < oldE@.records.len() ==> !crate::entry::visible_active(
                                    #[trigger] oldE@.records[i],
                                    oldE@.withdrawn,
                                    t_old.withdrawn_muis@,
                                ),
                            Some(m) => exists|i: int|
                                crate::entry::best_at_recs(
                                    oldE@.records,
                                    oldE@.withdrawn,
                                    t_old.withdrawn_muis@,
                                    &oldE@.sel_tbi->0,
                                    i,
                                ) && oldE@.records[i].multi_uniq_id == m,
                        }
                    })
                    &&& match r {
                        None => false,
                        Some(inner) => match inner {
                            Err(err) => err == PrefixStoreError::BestPathNotFound && (newE@.best
                                is None || (oldE@.stale && oldE@.sel_tbi is None)),
                            Ok(rec) => !newE@.stale && newE@.best == Some(rec.multi_uniq_id)
                                && crate::entry::has_mui(newE@.records, rec.multi_uniq_id)
                                && rec == newE@.records[crate::entry::mui_idx(
                                newE@.records,
                                rec.multi_uniq_id,
                            )],
                        },
                    }
                })
            }),
    {
        let _ = guard;
        if !prefix.check_valid() {
            return None;
        }
        match prefix.family() {
            Fam::V4 => self.v4.best_path(prefix),
            Fam::V6 => self.v6.best_path(prefix),
        }
    }

    /// Recomputes and stores the best and backup paths of one prefix.
    pub fn calculate_and_store_best_and_backup_path(
        &mut self,
        prefix: &PrefixId,
        tbi: &M::TBI,
        guard: &Guard,
    ) -> (r: Result<(Option<u32>, Option<u32>), PrefixStoreError>)
        requires
            old(self).wf(),
        ensures
            final (self).wf(),
            final (self).config == old(self).config,
            !prefix.is_valid() ==> r == Err::<(Option<u32>, Option<u32>), PrefixStoreError>(
                PrefixStoreError::PrefixLengthInvalid,
            ) && *final (self) == *old(self),
            prefix.is_valid() ==> ({
                let t_old = old(self).tree_of(prefix.fam);
                let t_new = final (self).tree_of(prefix.fam);
                &&& (r is Err <==> !t_old.has_pfx(prefix@))
                &&& (r is Err ==> *final (self) == *old(self) && r == Err::<
                    (Option<u32>, Option<u32>),
                    PrefixStoreError,
                >(PrefixStoreError::StoreNotReadyError))
                &&& final (self).tree_of(if prefix.fam == Fam::V4 {
                    Fam::V6
                } else {
                    Fam::V4
                }) == old(self).tree_of(if prefix.fam == Fam::V4 {
                    Fam::V6
                } else {
                    Fam::V4
                })
                &&& t_new.withdrawn_muis@ == t_old.withdrawn_muis@
                &&& t_new.nodes@ == t_old.nodes@
                &&& t_new.strides@ == t_old.strides@
                &&& final (self).persist == old(self).persist
                &&& (r is Ok ==> {
                    let e = t_old.idx_of(prefix@);
                    let oldE = t_old.entries@[e];
                    let newE = t_new.entries@[e];
                    &&& t_new.entries@ == t_old.entries@.update(e, newE)
                    &&& newE.prefix == oldE.prefix
                    &&& newE@.records == oldE@.records
                    &&& newE@.withdrawn == oldE@.withdrawn
                    &&& !newE@.stale
                    &&& newE@.seq == (if oldE@.seq == u64::MAX {
                        0u64
                    } else {
                        ((oldE@.seq + 1) as u64)
                    })
                    &&& newE@.sel_tbi == Some(*tbi)
                    &&& r == Ok::<(Option<u32>, Option<u32>), PrefixStoreError>(
                        (newE@.best, newE@.backup),
                    )
                    &&& match newE@.best {
                        None => forall|i: int|
                            0 <= i < oldE@.records.len() ==> !crate::entry::visible_active(
                                #[trigger] oldE@.records[i],
                                oldE@.withdrawn,
                                t_old.withdrawn_muis@,
                            ),
                        Some(m) => exists|i: int|
                            t_old.entries@[e].best_at(t_old.withdrawn_muis@, tbi, i) && oldE@
                                .records[i].multi_uniq_id == m,
                    }
                    &&& match newE@.backup {
                        None => newE@.best matches Some(m) ==> forall|i: int|
                            0 <= i < oldE@.records.len() && crate::entry::visible_active(
                                #[trigger] oldE@.records[i],
                                oldE@.withdrawn,
                                t_old.withdrawn_muis@,
                            ) ==> oldE@.records[i].multi_uniq_id == m,
                        Some(m2) => exists|b: int, i: int|
                            t_old.entries@[e].best_at(t_old.withdrawn_muis@, tbi, b)
                                && newE@.best == Some(oldE@.records[b].multi_uniq_id) && t_old
                                .entries@[e].backup_at(t_old.withdrawn_muis@, tbi, b, i)
                                && oldE@.records[i].multi_uniq_id == m2,
                    }
                    &&& (newE@.backup is Some ==> newE@.best is Some)
                })
            }),
    {
        let _ = guard;
        if !prefix.check_valid() {
            return Err(PrefixStoreError::PrefixLengthInvalid);
        }
        match prefix.family() {
            Fam::V4 => self.v4.calc_best_backup_for(prefix, tbi),
            Fam::V6 => self.v6.calc_best_backup_for(prefix, tbi),
        }
    }

    /// Whether the cached path selection of a prefix is stale.
    pub fn is_ps_outdated(&self, prefix: &PrefixId, guard: &Guard) -> (r: Result<
        bool,
        PrefixStoreError,
    >)
        requires
            self.wf(),
        ensures
            !prefix.is_valid() ==> r == Err::<bool, PrefixStoreError>(
                PrefixStoreError::PrefixLengthInvalid,
            ),
            prefix.is_valid() ==> ({
                let t = self.tree_of(prefix.fam);
                &&& (r is Err <==> !t.has_pfx(prefix@))
                &&& (r is Err ==> r == Err::<bool, PrefixStoreError>(
                    PrefixStoreError::StoreNotReadyError,
                ))
                &&& (r is Ok ==> r == Ok::<bool, PrefixStoreError>(
                    t.entries@[t.idx_of(prefix@)]@.stale,
                ))
            }),
    {
        let _ = guard;
        if !prefix.check_valid() {
            return Err(PrefixStoreError::PrefixLengthInvalid);
        }
        match prefix.family() {
            Fam::V4 => self.v4.is_ps_outdated_for(prefix),
            Fam::V6 => self.v6.is_ps_outdated_for(prefix),
        }
    }

    /// Every stored prefix with all of its records, IPv4 first, with the
    /// effective status overlaid at read time.
    pub fn prefixes_iter(&self, guard: &Guard) -> (r: Vec<PrefixRecord<M>>)
        requires
            self.wf(),
        ensures
            r@.len() == self.v4.entries@.len() + self.v6.entries@.len(),
            forall|i: int|
                0 <= i < self.v4.entries@.len() ==> (#[trigger] r@[i]).prefix
                    == self.v4.entries@[i].prefix && r@[i].meta@ == vis_filter(
                    self.v4.entries@[i]@.records,
                    self.v4.entries@[i]@.withdrawn,
                    self.v4.withdrawn_muis@,
                    None,
                    true,
                ),
            forall|i: int|
                self.v4.entries@.len() <= i < r@.len() ==> (#[trigger] r@[i]).prefix
                    == self.v6.entries@[i - self.v4.entries@.len()].prefix && r@[i].meta@
                    == vis_filter(
                    self.v6.entries@[i - self.v4.entries@.len()]@.records,
                    self.v6.entries@[i - self.v4.entries@.len()]@.withdrawn,
                    self.v6.withdrawn_muis@,
                    None,
                    true,
                ),
    {
        let _ = guard;
        let mut r = self.v4.prefixes_iter_records();
        let mut r6 = self.v6.prefixes_iter_records();
        let ghost n4 = r@.len();
        let ghost full6 = r6@;
        let ghost mut i: int = 0;
        while r6.len() > 0
            invariant
                0 <= i,
                i + r6@.len() == full6.len(),
                r6@ =~= full6.skip(i),
                r@.len() == n4 + i,
                forall|j: int|
                    0 <= j < n4 ==> (#[trigger] r@[j]).prefix == self.v4.entries@[j].prefix && r@[
                    j].meta@ == vis_filter(
                        self.v4.entries@[j]@.records,
                        self.v4.entries@[j]@.withdrawn,
                        self.v4.withdrawn_muis@,
                        None,
                        true,
                    ),
                forall|j: int|
                    0 <= j < full6.len() ==> (#[trigger] full6[j]).prefix
                        == self.v6.entries@[j].prefix && full6[j].meta@ == vis_filter(
                        self.v6.entries@[j]@.records,
                        self.v6.entries@[j]@.withdrawn,
                        self.v6.withdrawn_muis@,
                        None,
                        true,
                    ),
                forall|j: int|
                    n4 <= j < r@.len() ==> (#[trigger] r@[j]).prefix == self.v6.entries@[j
                        - n4].prefix && r@[j].meta@ == vis_filter(
                        self.v6.entries@[j - n4]@.records,
                        self.v6.entries@[j - n4]@.withdrawn,
                        self.v6.withdrawn_muis@,
                        None,
                        true,
                    ),
                self.wf(),
                n4 == self.v4.entries@.len(),
                full6.len() == self.v6.entries@.len(),
            decreases r6@.len(),
        {
            let ghost r6b = r6@;
            let pr = r6.remove(0);
            proof {
                assert(pr == full6[i]);
                assert(r6@ =~= full6.skip(i + 1));
            }
            r.push(pr);
            proof {
                i = i + 1;
            }
        }
        r
    }

    /// Every stored IPv4 prefix with all of its records, with the effective
    /// status overlaid at read time.
    pub fn prefixes_iter_v4(&self, guard: &Guard) -> (r: Vec<PrefixRecord<M>>)
        requires
            self.wf(),
        ensures
            r@.len() == self.v4.entries@.len(),
            forall|i: int|
                0 <= i < r@.len() ==> (#[trigger] r@[i]).prefix == self.v4.entries@[i].prefix
                    && r@[i].meta@ == vis_filter(
                    self.v4.entries@[i]@.records,
                    self.v4.entries@[i]@.withdrawn,
                    self.v4.withdrawn_muis@,
                    None,
                    true,
                ),
    {
        let _ = guard;
        self.v4.prefixes_iter_records()
    }

    /// Every stored IPv6 prefix with all of its records, with the effective
    /// status overlaid at read time.
    pub fn prefixes_iter_v6(&self, guard: &Guard) -> (r: Vec<PrefixRecord<M>>)
        requires
            self.wf(),
        ensures
            r@.len() == self.v6.entries@.len(),
            forall|i: int|
                0 <= i < r@.len() ==> (#[trigger] r@[i]).prefix == self.v6.entries@[i].prefix
                    && r@[i].meta@ == vis_filter(
                    self.v6.entries@[i]@.records,
                    self.v6.entries@[i]@.withdrawn,
                    self.v6.withdrawn_muis@,
                    None,
                    true,
                ),
    {
        let _ = guard;
        self.v6.prefixes_iter_records()
    }

    /// The IPv4 prefixes holding a record of the given producer, with that
    /// producer's filtered records.
    pub fn iter_records_for_mui_v4(&self, mui: u32, include_withdrawn: bool, guard: &Guard) -> (r:
        Vec<PrefixRecord<M>>)
        requires
            self.wf(),
        ensures
            self.v4.side_list_sound(r@, Some(mui), include_withdrawn),
            forall|e: int|
                0 <= e < self.v4.entries@.len() && self.v4.filt(
                    e,
                    Some(mui),
                    include_withdrawn,
                ).len() > 0 ==> crate::query::list_prefixes(r@).contains(
                    self.v4.entries@[e].prefix,
                ),
    {
        let _ = guard;
        self.v4.iter_records_for_mui(mui, include_withdrawn)
    }

    /// The IPv6 prefixes holding a record of the given producer, with that
    /// producer's filtered records.
    pub fn iter_records_for_mui_v6(&self, mui: u32, include_withdrawn: bool, guard: &Guard) -> (r:
        Vec<PrefixRecord<M>>)
        requires
            self.wf(),
        ensures
            self.v6.side_list_sound(r@, Some(mui), include_withdrawn),
            forall|e: int|
                0 <= e < self.v6.entries@.len() && self.v6.filt(
                    e,
                    Some(mui),
                    include_withdrawn,
                ).len() > 0 ==> crate::query::list_prefixes(r@).contains(
                    self.v6.entries@[e].prefix,
                ),
    {
        let _ = guard;
        self.v6.iter_records_for_mui(mui, include_withdrawn)
    }

    /// How many distinct prefixes the store holds, both families together.
    pub fn prefixes_len(&self) -> (r: usize)
        requires
            self.v4.entries@.len() + self.v6.entries@.len() <= usize::MAX,
        ensures
            r == self.v4.entries@.len() + self.v6.entries@.len(),
    {
        self.v4.prefixes_len() + self.v6.prefixes_len()
    }

    /// How many distinct IPv4 prefixes the store holds.
    pub fn prefixes_v4_len(&self) -> (r: usize)
        ensures
            r == self.v4.entries@.len(),
    {
        self.v4.prefixes_len()
    }

    /// How many distinct IPv6 prefixes the store holds.
    pub fn prefixes_v6_len(&self) -> (r: usize)
        ensures
            r == self.v6.entries@.len(),
    {
        self.v6.prefixes_len()
    }

    /// How many distinct prefixes the store holds.
    pub fn prefixes_count(&self) -> (r: usize)
        requires
            self.v4.entries@.len() + self.v6.entries@.len() <= usize::MAX,
        ensures
            r == self.v4.entries@.len() + self.v6.entries@.len(),
    {
        self.prefixes_len()
    }

    /// How many trie nodes the store holds, both families together.
    pub fn nodes_len(&self) -> (r: usize)
        requires
            self.v4.nodes@.len() + self.v6.nodes@.len() <= usize::MAX,
        ensures
            r == self.v4.nodes@.len() + self.v6.nodes@.len(),
    {
        self.v4.nodes_len() + self.v6.nodes_len()
    }

    /// How many IPv4 trie nodes the store holds.
    pub fn nodes_v4_len(&self) -> (r: usize)
        ensures
            r == self.v4.nodes@.len(),
    {
        self.v4.nodes_len()
    }

    /// How many IPv6 trie nodes the store holds.
    pub fn nodes_v6_len(&self) -> (r: usize)
        ensures
            r == self.v6.nodes@.len(),
    {
        self.v6.nodes_len()
    }

    /// How many trie nodes the store holds.
    pub fn nodes_count(&self) -> (r: usize)
        requires
            self.v4.nodes@.len() + self.v6.nodes@.len() <= usize::MAX,
        ensures
            r == self.v4.nodes@.len() + self.v6.nodes@.len(),
    {
        self.nodes_len()
    }

    /// The stride kind of every IPv4 trie node, in arena order.
    pub fn nodes_v4_iter(&self) -> (r: Vec<SizedStride>)
        requires
            self.wf(),
        ensures
            r@.len() == self.v4.nodes@.len(),
            forall|i: int|
                0 <= i < r@.len() ==> (#[trigger] r@[i]) == stride_kind(
                    self.v4.nodes@[i].stride,
                ),
    {
        Self::stride_kinds(&self.v4)
    }

    /// The stride kind of every IPv6 trie node, in arena order.
    pub fn nodes_v6_iter(&self) -> (r: Vec<SizedStride>)
        requires
            self.wf(),
        ensures
            r@.len() == self.v6.nodes@.len(),
            forall|i: int|
                0 <= i < r@.len() ==> (#[trigger] r@[i]) == stride_kind(
                    self.v6.nodes@[i].stride,
                ),
    {
        Self::stride_kinds(&self.v6)
    }

    fn stride_kinds(t: &TreeBitMap<M>) -> (r: Vec<SizedStride>)
        requires
            t.wf(),
        ensures
            r@.len() == t.nodes@.len(),
            forall|i: int|
                0 <= i < r@.len() ==> (#[trigger] r@[i]) == stride_kind(t.nodes@[i].stride),
    {
        let mut out: Vec<SizedStride> = Vec::new();
        let mut i: usize = 0;
        while i < t.nodes.len()
            invariant
                t.wf(),
                0 <= i <= t.nodes@.len(),
                out@.len() == i as int,
                forall|j: int|
                    0 <= j < i as int ==> (#[trigger] out@[j]) == stride_kind(
                        t.nodes@[j].stride,
                    ),
            decreases t.nodes@.len() - i as int,
        {
            proof {
                assert(t.node_wf(i as int));
            }
            let s = t.nodes[i].stride;
            out.push(
                if s == 3 {
                    SizedStride::Stride3
                } else if s == 4 {
                    SizedStride::Stride4
                } else {
                    SizedStride::Stride5
                },
            );
            i = i + 1;
        }
        out
    }

    /// Per-family counts.
    pub fn stats(&self) -> (r: Stats)
        ensures
            r.prefixes_v4 == self.v4.entries@.len(),
            r.prefixes_v6 == self.v6.entries@.len(),
            r.nodes_v4 == self.v4.nodes@.len(),
            r.nodes_v6 == self.v6.nodes@.len(),
    {
        Stats {
            prefixes_v4: self.v4.prefixes_len(),
            prefixes_v6: self.v6.prefixes_len(),
            nodes_v4: self.v4.nodes_len(),
            nodes_v6: self.v6.nodes_len(),
        }
    }

    /// The stride sequences of the two families.
    pub fn strides(&self) -> (r: (Vec<u8>, Vec<u8>))
        requires
            self.wf(),
        ensures
            r.0@ == self.v4.strides@,
            r.1@ == self.v6.strides@,
    {
        let mut s4: Vec<u8> = Vec::new();
        let mut i: usize = 0;
        while i < self.v4.strides.len()
            invariant
                0 <= i <= self.v4.strides@.len(),
                s4@ =~= self.v4.strides@.take(i as int),
            decreases self.v4.strides@.len() - i as int,
        {
            s4.push(self.v4.strides[i]);
            proof {
                assert(s4@ =~= self.v4.strides@.take(i as int + 1));
            }
            i = i + 1;
        }
        let mut s6: Vec<u8> = Vec::new();
        let mut j: usize = 0;
        while j < self.v6.strides.len()
            invariant
                0 <= j <= self.v6.strides@.len(),
                s6@ =~= self.v6.strides@.take(j as int),
            decreases self.v6.strides@.len() - j as int,
        {
            s6.push(self.v6.strides[j]);
            proof {
                assert(s6@ =~= self.v6.strides@.take(j as int + 1));
            }
            j = j + 1;
        }
        proof {
            assert(self.v4.strides@.take(self.v4.strides@.len() as int) =~= self.v4.strides@);
            assert(self.v6.strides@.take(self.v6.strides@.len() as int) =~= self.v6.strides@);
        }
        (s4, s6)
    }

    /// How many items the persistence tier holds: the buffered records, and
    /// none beyond them.
    pub fn approx_persisted_items(&self) -> (r: (u64, u64))
        ensures
            r.0 as int == self.persist.items@.len(),
            r.1 == 0u64,
    {
        (self.persist.len() as u64, 0)
    }

    /// How many bytes the persistence tier occupies.
    pub fn disk_space(&self) -> (r: u64)
        ensures
            r == self.persist.bytes,
    {
        self.persist.byte_size()
    }

    /// Flushes the persistence tier; a no-op for the memory tier.
    pub fn flush_to_disk(&self) -> (r: Result<(), FatalError>)
        ensures
            r is Ok,
    {
        Ok(())
    }
}

} // verus!
