use vstd::prelude::*;

use crate::match_options::{MatchOptions, MatchType, QueryResult};
use crate::meta::Meta;
use crate::prefix::{covers, PrefixId};
use crate::record::{PrefixRecord, Record};
use crate::tree::TreeBitMap;

verus! {

/// The prefixes named by a side list, in order.
pub open spec fn list_prefixes<M>(out: Seq<PrefixRecord<M>>) -> Seq<PrefixId> {
    out.map_values(|pr: PrefixRecord<M>| pr.prefix)
}

impl<M: Meta> TreeBitMap<M> {
    /// The records a read of entry `e` returns under the given filter.
    pub open spec fn filt(self, e: int, mui: Option<u32>, include_withdrawn: bool) -> Seq<
        Record<M>,
    > {
        crate::entry::vis_filter(
            self.entries@[e]@.records,
            self.entries@[e]@.withdrawn,
            self.withdrawn_muis@,
            mui,
            include_withdrawn,
        )
    }

    /// Every element of a side list reports a stored prefix with its
    /// filtered, nonempty record list; no prefix repeats.
    pub open spec fn side_list_sound(
        self,
        out: Seq<PrefixRecord<M>>,
        mui: Option<u32>,
        include_withdrawn: bool,
    ) -> bool {
        &&& forall|k: int|
            0 <= k < out.len() ==> {
                let e = self.idx_of((#[trigger] out[k]).prefix@);
                &&& self.has_pfx(out[k].prefix@)
                &&& out[k].prefix == self.entries@[e].prefix
                &&& out[k].meta@ == self.filt(e, mui, include_withdrawn)
                &&& out[k].meta@.len() > 0
            }
        &&& forall|k1: int, k2: int|
            0 <= k1 < k2 < out.len() ==> out[k1].prefix != out[k2].prefix
    }

    /// Fetches and filters the records of the given table entries, dropping
    /// those whose filtered record list is empty.
    fn records_for_indices(
        &self,
        idxs: &Vec<usize>,
        mui: Option<u32>,
        include_withdrawn: bool,
    ) -> (out: Vec<PrefixRecord<M>>)
        requires
            self.wf(),
            forall|i: int| 0 <= i < idxs@.len() ==> (#[trigger] idxs@[i] as int)
                < self.entries@.len(),
            forall|i1: int, i2: int| 0 <= i1 < i2 < idxs@.len() ==> idxs@[i1] != idxs@[i2],
        ensures
            self.side_list_sound(out@, mui, include_withdrawn),
            forall|k: int|
                0 <= k < out@.len() ==> exists|j: int|
                    0 <= j < idxs@.len() && idxs@[j] as int == self.idx_of(
                        (#[trigger] out@[k]).prefix@,
                    ),
            forall|i: int|
                0 <= i < idxs@.len() && self.filt(
                    #[trigger] idxs@[i] as int,
                    mui,
                    include_withdrawn,
                ).len() > 0 ==> list_prefixes(out@).contains(self.entries@[idxs@[i] as int].prefix),
    {
        let mut out: Vec<PrefixRecord<M>> = Vec::new();
        let mut i: usize = 0;
        while i < idxs.len()
            invariant
                self.wf(),
                forall|j: int| 0 <= j < idxs@.len() ==> (#[trigger] idxs@[j] as int)
                    < self.entries@.len(),
                forall|i1: int, i2: int| 0 <= i1 < i2 < idxs@.len() ==> idxs@[i1] != idxs@[i2],
                0 <= i <= idxs@.len(),
                self.side_list_sound(out@, mui, include_withdrawn),
                forall|k: int|
                    0 <= k < out@.len() ==> exists|j: int|
                        0 <= j < i as int && idxs@[j] as int == self.idx_of(
                            (#[trigger] out@[k]).prefix@,
                        ),
                forall|j: int|
                    0 <= j < i as int && self.filt(
                        #[trigger] idxs@[j] as int,
                        mui,
                        include_withdrawn,
                    ).len() > 0 ==> list_prefixes(out@).contains(
                        self.entries@[idxs@[j] as int].prefix,
                    ),
            decreases idxs@.len() - i as int,
        {
            let e = idxs[i];
            proof {
                assert(self.entry_ok(e as int));
            }
            let recs = self.entries[e].filtered_records(
                mui,
                include_withdrawn,
                &self.withdrawn_muis,
            );
            let ghost outb = out@;
            if recs.len() > 0 {
                out.push(PrefixRecord { prefix: self.entries[e].prefix, meta: recs });
                proof {
                    let ghost pr = out@[out@.len() - 1];
                    assert(self.has_pfx(pr.prefix@)) by {
                        assert(self.entries@[e as int].prefix@ == pr.prefix@);
                    }
                    let e2 = self.idx_of(pr.prefix@);
                    if e2 != e as int {
                        self.lemma_entries_distinct(e2, e as int);
                        assert(false);
                    }
                    // the new prefix repeats no earlier one
                    assert forall|k1: int| 0 <= k1 < outb.len() implies (#[trigger] outb[
                    k1]).prefix != pr.prefix by {
                        if outb[k1].prefix == pr.prefix {
                            let j = choose|j: int|
                                0 <= j < i as int && idxs@[j] as int == self.idx_of(
                                    (#[trigger] outb[k1]).prefix@,
                                );
                            assert(idxs@[j] != idxs@[i as int]);
                        }
                    }
                    assert forall|k: int| 0 <= k < out@.len() implies exists|j: int|
                        0 <= j < i as int + 1 && idxs@[j] as int == self.idx_of(
                            (#[trigger] out@[k]).prefix@,
                        ) by {
                        if k < outb.len() {
                            let j0 = choose|j0: int|
                                0 <= j0 < i as int && idxs@[j0] as int == self.idx_of(
                                    (#[trigger] outb[k]).prefix@,
                                );
                            assert(out@[k] == outb[k]);
                            assert(0 <= j0 < i as int + 1 && idxs@[j0] as int == self.idx_of(
                                out@[k].prefix@,
                            ));
                        } else {
                            assert(idxs@[i as int] as int == self.idx_of(out@[k].prefix@));
                        }
                    }
                    assert forall|j: int|
                        0 <= j < i as int + 1 && self.filt(
                            #[trigger] idxs@[j] as int,
                            mui,
                            include_withdrawn,
                        ).len() > 0 implies list_prefixes(out@).contains(
                        self.entries@[idxs@[j] as int].prefix,
                    ) by {
                        if j < i as int {
                            let k0 = choose|k0: int|
                                0 <= k0 < list_prefixes(outb).len() && list_prefixes(outb)[k0]
                                    == self.entries@[idxs@[j] as int].prefix;
                            assert(list_prefixes(out@)[k0] == self.entries@[idxs@[
                                j] as int].prefix);
                        } else {
                            assert(list_prefixes(out@)[out@.len() - 1] == self.entries@[idxs@[
                                j] as int].prefix);
                        }
                    }
                }
            } else {
                proof {
                    assert forall|j: int|
                        0 <= j < i as int + 1 && self.filt(
                            #[trigger] idxs@[j] as int,
                            mui,
                            include_withdrawn,
                        ).len() > 0 implies list_prefixes(out@).contains(
                        self.entries@[idxs@[j] as int].prefix,
                    ) by {
                        if j < i as int {
                        } else {
                            assert(self.filt(e as int, mui, include_withdrawn).len() == 0);
                        }
                    }
                }
            }
            i = i + 1;
        }
        out
    }

    /// The more specific side list of a query: each strictly more specific
    /// stored prefix whose filtered record list is nonempty, with those
    /// records.
    pub fn more_specifics_list(
        &self,
        pfx: &PrefixId,
        mui: Option<u32>,
        include_withdrawn: bool,
    ) -> (ms: Vec<PrefixRecord<M>>)
        requires
            self.wf(),
            pfx.is_valid(),
            pfx.fam == self.fam,
        ensures
            self.side_list_sound(ms@, mui, include_withdrawn),
            forall|k: int|
                0 <= k < ms@.len() ==> self.is_more_specific(
                    self.idx_of((#[trigger] ms@[k]).prefix@),
                    pfx@,
                ),
            forall|e: int|
                self.is_more_specific(e, pfx@) && self.filt(e, mui, include_withdrawn).len() > 0
                    ==> list_prefixes(ms@).contains(self.entries@[e].prefix),
    {
        let ms_idx = self.more_specific_entries(pfx);
        proof {
            assert forall|i: int|
                0 <= i < ms_idx@.len() implies (#[trigger] ms_idx@[i] as int)
                < self.entries@.len() by {
                assert(self.is_more_specific(ms_idx@[i] as int, pfx@));
            }
        }
        let ms = self.records_for_indices(&ms_idx, mui, include_withdrawn);
        proof {
            assert(vstd::std_specs::vec::spec_vec_len(&self.entries) == self.entries@.len());
            assert forall|k: int|
                0 <= k < ms@.len() implies self.is_more_specific(
                self.idx_of((#[trigger] ms@[k]).prefix@),
                pfx@,
            ) by {
                let e = self.idx_of(ms@[k].prefix@);
                let j = choose|j: int|
                    0 <= j < ms_idx@.len() && ms_idx@[j] as int == self.idx_of(
                        (#[trigger] ms@[k]).prefix@,
                    );
                assert(self.is_more_specific(ms_idx@[j] as int, pfx@));
            }
            assert forall|e: int|
                self.is_more_specific(e, pfx@) && self.filt(e, mui, include_withdrawn).len()
                    > 0 implies list_prefixes(ms@).contains(self.entries@[e].prefix) by {
                assert(ms_idx@.contains(e as usize));
                let i = choose|i: int| 0 <= i < ms_idx@.len() && ms_idx@[i] == e as usize;
                assert(self.filt(ms_idx@[i] as int, mui, include_withdrawn).len() > 0);
            }
        }
        ms
    }

    /// The less specific side list of a query.
    pub fn less_specifics_list(
        &self,
        pfx: &PrefixId,
        mui: Option<u32>,
        include_withdrawn: bool,
    ) -> (ls: Vec<PrefixRecord<M>>)
        requires
            self.wf(),
            pfx.is_valid(),
            pfx.fam == self.fam,
        ensures
            self.side_list_sound(ls@, mui, include_withdrawn),
            forall|k: int|
                0 <= k < ls@.len() ==> self.is_less_specific(
                    self.idx_of((#[trigger] ls@[k]).prefix@),
                    pfx@,
                ),
            forall|e: int|
                self.is_less_specific(e, pfx@) && self.filt(e, mui, include_withdrawn).len() > 0
                    ==> list_prefixes(ls@).contains(self.entries@[e].prefix),
    {
        let ls_idx = self.less_specific_entries(pfx);
        proof {
            assert forall|i: int|
                0 <= i < ls_idx@.len() implies (#[trigger] ls_idx@[i] as int)
                < self.entries@.len() by {
                assert(self.is_less_specific(ls_idx@[i] as int, pfx@));
            }
            assert forall|i1: int, i2: int|
                0 <= i1 < i2 < ls_idx@.len() implies ls_idx@[i1] != ls_idx@[i2] by {
                assert(self.entries@[ls_idx@[i1] as int].prefix@.len() < self.entries@[ls_idx@[
                    i2] as int].prefix@.len());
            }
        }
        let ls = self.records_for_indices(&ls_idx, mui, include_withdrawn);
        proof {
            assert(vstd::std_specs::vec::spec_vec_len(&self.entries) == self.entries@.len());
            assert forall|k: int|
                0 <= k < ls@.len() implies self.is_less_specific(
                self.idx_of((#[trigger] ls@[k]).prefix@),
                pfx@,
            ) by {
                let j = choose|j: int|
                    0 <= j < ls_idx@.len() && ls_idx@[j] as int == self.idx_of(
                        (#[trigger] ls@[k]).prefix@,
                    );
                assert(self.is_less_specific(ls_idx@[j] as int, pfx@));
            }
            assert forall|e: int|
                self.is_less_specific(e, pfx@) && self.filt(e, mui, include_withdrawn).len()
                    > 0 implies list_prefixes(ls@).contains(self.entries@[e].prefix) by {
                assert(ls_idx@.contains(e as usize));
                let i = choose|i: int| 0 <= i < ls_idx@.len() && ls_idx@[i] == e as usize;
                assert(self.filt(ls_idx@[i] as int, mui, include_withdrawn).len() > 0);
            }
        }
        ls
    }

    /// The table position of the longest cover of `q`.
    pub open spec fn idx_of_lpm(self, q: Seq<bool>) -> int {
        choose|e: int| self.is_lpm(e, q)
    }

}

/// What a match query returns: the unfiltered trie match under the
/// requested kind, the record filters, the downgrade to an empty match when
/// no record is visible, and the optional side lists.
pub open spec fn match_result_ok<M: Meta>(
    t: TreeBitMap<M>,
    pfx: PrefixId,
    options: MatchOptions,
    r: QueryResult<M>,
) -> bool {
    &&& ({
        let cand: Option<int> = if options.match_type == MatchType::ExactMatch {
            if t.has_pfx(pfx@) {
                Some(t.idx_of(pfx@))
            } else {
                None
            }
        } else {
            if t.has_cover(pfx@) {
                Some(t.idx_of_lpm(pfx@))
            } else {
                None
            }
        };
        match cand {
            Some(e) => {
                if t.filt(e, options.mui, options.include_withdrawn).len() > 0 {
                    &&& r.prefix == Some(t.entries@[e].prefix)
                    &&& r.records@ == t.filt(e, options.mui, options.include_withdrawn)
                    &&& r.match_type == (if t.entries@[e].prefix@ == pfx@ {
                        MatchType::ExactMatch
                    } else {
                        MatchType::LongestMatch
                    })
                } else {
                    &&& r.prefix is None
                    &&& r.records@.len() == 0
                    &&& r.match_type == MatchType::EmptyMatch
                }
            },
            None => {
                &&& r.prefix is None
                &&& r.records@.len() == 0
                &&& r.match_type == MatchType::EmptyMatch
            },
        }
    })
    &&& (r.more_specifics is Some <==> options.include_more_specifics)
    &&& (r.less_specifics is Some <==> options.include_less_specifics)
    &&& (options.include_more_specifics ==> {
        let ms = r.more_specifics->0;
        &&& t.side_list_sound(ms@, options.mui, options.include_withdrawn)
        &&& forall|k: int|
            0 <= k < ms@.len() ==> t.is_more_specific(
                t.idx_of((#[trigger] ms@[k]).prefix@),
                pfx@,
            )
        &&& forall|e: int|
            t.is_more_specific(e, pfx@) && t.filt(
                e,
                options.mui,
                options.include_withdrawn,
            ).len() > 0 ==> list_prefixes(ms@).contains(t.entries@[e].prefix)
    })
    &&& (options.include_less_specifics ==> {
        let ls = r.less_specifics->0;
        &&& t.side_list_sound(ls@, options.mui, options.include_withdrawn)
        &&& forall|k: int|
            0 <= k < ls@.len() ==> t.is_less_specific(
                t.idx_of((#[trigger] ls@[k]).prefix@),
                pfx@,
            )
        &&& forall|e: int|
            t.is_less_specific(e, pfx@) && t.filt(
                e,
                options.mui,
                options.include_withdrawn,
            ).len() > 0 ==> list_prefixes(ls@).contains(t.entries@[e].prefix)
    })
}


impl<M: Meta> TreeBitMap<M> {
    /// Answers a match query for this family: the trie walk, the record
    /// fetch with its filters, the downgrade to an empty match when no
    /// record is visible, and the optional side lists.
    pub fn match_prefix_in(&self, pfx: &PrefixId, options: &MatchOptions) -> (r: QueryResult<
        M,
    >)
        requires
            self.wf(),
            pfx.is_valid(),
            pfx.fam == self.fam,
        ensures
            match_result_ok(*self, *pfx, *options, r),
    {
        let exact = match options.match_type {
            MatchType::ExactMatch => true,
            _ => false,
        };
        let cand: Option<usize> = if exact {
            let c = self.lookup_entry(pfx);
            proof {
                match c {
                    Some(e) => {
                        let e2 = self.idx_of(pfx@);
                        assert(self.entries@[e2].prefix@ == pfx@);
                        if e2 != e as int {
                            self.lemma_entries_distinct(e2, e as int);
                            assert(false);
                        }
                    },
                    None => {},
                }
            }
            c
        } else {
            let c = self.lpm_entry(pfx);
            proof {
                match c {
                    Some(e) => {
                        assert(self.has_cover(pfx@)) by {
                            assert(covers(self.entries@[e as int].prefix@, pfx@));
                        }
                        let e2 = self.idx_of_lpm(pfx@);
                        assert(self.is_lpm(e2, pfx@));
                        assert(self.is_lpm(e as int, pfx@));
                        if e2 != e as int {
                            assert(self.entries@[e2].prefix@.len() == self.entries@[
                                e as int].prefix@.len());
                            assert(covers(self.entries@[e2].prefix@, pfx@));
                            assert(covers(self.entries@[e as int].prefix@, pfx@));
                            assert(self.entries@[e2].prefix@ =~= self.entries@[
                                e as int].prefix@);
                            self.lemma_entries_distinct(e2, e as int);
                            assert(false);
                        }
                    },
                    None => {
                        if self.has_cover(pfx@) {
                            let e2 = choose|e2: int|
                                0 <= e2 < self.entries@.len() && covers(
                                    #[trigger] self.entries@[e2].prefix@,
                                    pfx@,
                                );
                            assert(false);
                        }
                    },
                }
            }
            c
        };
        let mut r: QueryResult<M> = QueryResult::empty();
        match cand {
            Some(e) => {
                let recs = self.entries[e].filtered_records(
                    options.mui,
                    options.include_withdrawn,
                    &self.withdrawn_muis,
                );
                if recs.len() > 0 {
                    let same = self.entries[e].prefix.prefix_len() == pfx.prefix_len();
                    proof {
                        assert(self.entry_ok(e as int));
                        assert(self.entries@[e as int].prefix@.len() == self.entries@[
                            e as int].prefix.len as int);
                        assert(pfx@.len() == pfx.len as int);
                        if self.entries@[e as int].prefix.len == pfx.len {
                            if !exact {
                                assert(covers(self.entries@[e as int].prefix@, pfx@));
                                assert(self.entries@[e as int].prefix@ =~= pfx@);
                            }
                        } else {
                            assert(self.entries@[e as int].prefix@.len() != pfx@.len());
                            assert(self.entries@[e as int].prefix@ != pfx@);
                        }
                    }
                    r.match_type = if same {
                        MatchType::ExactMatch
                    } else {
                        MatchType::LongestMatch
                    };
                    r.prefix = Some(self.entries[e].prefix);
                    r.records = recs;
                }
            },
            None => {},
        }
        if options.include_more_specifics {
            r.more_specifics = Some(
                self.more_specifics_list(pfx, options.mui, options.include_withdrawn),
            );
        }
        if options.include_less_specifics {
            r.less_specifics = Some(
                self.less_specifics_list(pfx, options.mui, options.include_withdrawn),
            );
        }
        r
    }

    /// The prefixes holding a record of the given producer, with that
    /// producer's filtered records.
    pub fn iter_records_for_mui(&self, mui: u32, include_withdrawn: bool) -> (out: Vec<
        PrefixRecord<M>,
    >)
        requires
            self.wf(),
        ensures
            self.side_list_sound(out@, Some(mui), include_withdrawn),
            forall|e: int|
                0 <= e < self.entries@.len() && self.filt(e, Some(mui), include_withdrawn).len()
                    > 0 ==> list_prefixes(out@).contains(self.entries@[e].prefix),
    {
        let mut idxs: Vec<usize> = Vec::new();
        let mut e: usize = 0;
        while e < self.entries.len()
            invariant
                self.wf(),
                0 <= e <= self.entries@.len(),
                idxs@.len() == e as int,
                forall|j: int| 0 <= j < e as int ==> (#[trigger] idxs@[j]) == j,
            decreases self.entries@.len() - e as int,
        {
            idxs.push(e);
            e = e + 1;
        }
        let out = self.records_for_indices(&idxs, Some(mui), include_withdrawn);
        proof {
            assert(vstd::std_specs::vec::spec_vec_len(&self.entries) == self.entries@.len());
            assert forall|e2: int|
                0 <= e2 < self.entries@.len() && self.filt(
                    e2,
                    Some(mui),
                    include_withdrawn,
                ).len() > 0 implies list_prefixes(out@).contains(self.entries@[e2].prefix) by {
                assert(idxs@[e2] == e2 as usize);
                assert(self.filt(idxs@[e2] as int, Some(mui), include_withdrawn).len() > 0);
            }
        }
        out
    }
}

} // verus!
