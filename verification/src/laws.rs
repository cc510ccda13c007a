use vstd::prelude::*;

use crate::entry::{
    distinct_muis, overlay_status, passes_filter, vis_filter, visible_active, EntryV,
};
use crate::meta::Meta;
use crate::prefix::covers;
use crate::record::{Record, RouteStatus};
use crate::tree::TreeBitMap;

verus! {

/// A stored prefix is its own longest match, and an exact one: a query for a
/// prefix that was inserted resolves to that very table entry.  Together
/// with the postcondition of `insert`, which puts the inserted record under
/// the prefix's entry, an insert followed by a longest-prefix-match query
/// for the same prefix returns an exact match carrying that record.
pub proof fn lemma_insert_then_lpm<M: Meta>(t: TreeBitMap<M>, p: Seq<bool>)
    requires
        t.wf(),
        t.has_pfx(p),
    ensures
        t.has_cover(p),
        t.is_lpm(t.idx_of(p), p),
        t.entries@[t.idx_of(p)].prefix@ == p,
{
    let e = t.idx_of(p);
    assert(t.entries@[e].prefix@ == p);
    assert(t.entries@[e].prefix@.take(p.len() as int) =~= p);
    assert(covers(t.entries@[e].prefix@, p));
    assert forall|e2: int|
        0 <= e2 < t.entries@.len() && covers(
            #[trigger] t.entries@[e2].prefix@,
            p,
        ) implies t.entries@[e2].prefix@.len() <= t.entries@[e].prefix@.len() by {}
}

/// Under any prefix at most one record exists per producer identity; with
/// the postcondition of `insert`, a repeated insert for the same producer
/// replaces the record rather than adding one.
pub proof fn lemma_mui_unique<M: Meta>(t: TreeBitMap<M>, e: int)
    requires
        t.wf(),
        0 <= e < t.entries@.len(),
    ensures
        distinct_muis(t.entries@[e]@.records),
{
    assert(t.entry_ok(e));
}

/// Withdrawal masking, the masked half: with `include_withdrawn` off, every
/// returned record passed all three withdrawal layers and is reported
/// `Active`.
pub proof fn lemma_withdrawal_masking<M: Meta>(
    recs: Seq<Record<M>>,
    wd: Set<u32>,
    gw: Set<u32>,
    mui: Option<u32>,
)
    ensures
        forall|k: int|
            0 <= k < vis_filter(recs, wd, gw, mui, false).len() ==> {
                let r = #[trigger] vis_filter(recs, wd, gw, mui, false)[k];
                &&& r.status == RouteStatus::Active
                &&& !wd.contains(r.multi_uniq_id)
                &&& !gw.contains(r.multi_uniq_id)
            },
    decreases recs.len(),
{
    if recs.len() > 0 {
        lemma_withdrawal_masking(recs.drop_last(), wd, gw, mui);
    }
}

/// Withdrawal masking, the full half: with `include_withdrawn` on and no
/// producer filter, every stored record comes back, in order, with the
/// effective status overlaid; no stored state changes on a read.
pub proof fn lemma_withdrawal_full_set<M: Meta>(recs: Seq<Record<M>>, wd: Set<u32>, gw: Set<
    u32,
>)
    ensures
        vis_filter(recs, wd, gw, None, true).len() == recs.len(),
        forall|k: int|
            0 <= k < recs.len() ==> vis_filter(recs, wd, gw, None, true)[k] == overlay_status(
                #[trigger] recs[k],
                wd,
                gw,
            ),
    decreases recs.len(),
{
    if recs.len() > 0 {
        lemma_withdrawal_full_set(recs.drop_last(), wd, gw);
        assert(passes_filter(recs.last(), wd, gw, None, true));
        assert forall|k: int|
            0 <= k < recs.len() implies vis_filter(recs, wd, gw, None, true)[k] == overlay_status(
            #[trigger] recs[k],
            wd,
            gw,
        ) by {
            if k < recs.len() - 1 {
                assert(recs.drop_last()[k] == recs[k]);
            }
        }
    }
}

/// Withdrawing a producer for a prefix twice has the same observable effect
/// as withdrawing it once: if one entry arose from another by the
/// withdraw-mark transition, marking again changes nothing.
pub proof fn lemma_idempotent_withdraw<M: Meta>(a: EntryV<M>, b: EntryV<M>, c: EntryV<M>, mui: u32)
    requires
        // b is a after one withdraw of `mui`
        b.withdrawn == a.withdrawn.insert(mui),
        b.records == a.records,
        b.best == a.best,
        b.backup == a.backup,
        b.seq == a.seq,
        b.sel_tbi == a.sel_tbi,
        b.stale,
        // c is b after one more withdraw of `mui`
        c.withdrawn == b.withdrawn.insert(mui),
        c.records == b.records,
        c.best == b.best,
        c.backup == b.backup,
        c.seq == b.seq,
        c.sel_tbi == b.sel_tbi,
        c.stale,
    ensures
        c == b,
{
    assert(b.withdrawn.insert(mui) =~= b.withdrawn);
}

/// Withdrawing a producer globally twice has the same observable effect as
/// withdrawing it once.
pub proof fn lemma_idempotent_withdraw_global(gw: Set<u32>, mui: u32)
    ensures
        gw.insert(mui).insert(mui) == gw.insert(mui),
{
    assert(gw.insert(mui).insert(mui) =~= gw.insert(mui));
}

/// The prefix count equals the number of distinct prefixes ever inserted:
/// the table grows by exactly one entry for a new prefix and not at all for
/// a known one (the postcondition of `insert`), and two table entries never
/// share a prefix.
pub proof fn lemma_prefixes_distinct<M: Meta>(t: TreeBitMap<M>)
    requires
        t.wf(),
    ensures
        forall|e1: int, e2: int|
            0 <= e1 < e2 < t.entries@.len() ==> (#[trigger] t.entries@[e1].prefix@) != (
            #[trigger] t.entries@[e2].prefix@),
{
    assert forall|e1: int, e2: int|
        0 <= e1 < e2 < t.entries@.len() implies (#[trigger] t.entries@[e1].prefix@) != (
    #[trigger] t.entries@[e2].prefix@) by {
        t.lemma_entries_distinct(e1, e2);
    }
}

/// The best path is the minimum of the visible-active records under the
/// ordering key, ties broken by ascending producer identity: a best
/// selection beats every other visible-active record.
pub proof fn lemma_best_path_order<M: Meta>(
    en: crate::entry::PrefixEntry<M>,
    gw: Set<u32>,
    tbi: &M::TBI,
    i: int,
    j: int,
)
    requires
        en.best_at(gw, tbi, i),
        0 <= j < en@.records.len(),
        j != i,
        visible_active(en@.records[j], en@.withdrawn, gw),
    ensures
        en@.records[i].meta.order_key(tbi) < en@.records[j].meta.order_key(tbi) || (
        en@.records[i].meta.order_key(tbi) == en@.records[j].meta.order_key(tbi)
            && en@.records[i].multi_uniq_id < en@.records[j].multi_uniq_id),
{
    assert(crate::entry::preferred(en@.records[i], en@.records[j], tbi));
}


/// A best path exists iff some visible-active record exists: under the
/// store's invariant, a non-stale selection answers `BestPathNotFound`
/// exactly on the prefixes with no visible-active record, and otherwise
/// names a producer whose record is stored.  `best_path` refuses a stale
/// selection, so it never serves a withdrawn-over best.
pub proof fn lemma_best_path_freshness<M: Meta>(t: TreeBitMap<M>, e: int)
    requires
        t.wf(),
        0 <= e < t.entries@.len(),
        !t.entries@[e]@.stale,
    ensures
        t.entries@[e]@.best is None ==> forall|i: int|
            0 <= i < t.entries@[e]@.records.len() ==> !visible_active(
                #[trigger] t.entries@[e]@.records[i],
                t.entries@[e]@.withdrawn,
                t.withdrawn_muis@,
            ),
        t.entries@[e]@.best matches Some(m) ==> crate::entry::has_mui(
            t.entries@[e]@.records,
            m,
        ),
{
    assert(t.entry_ok(e));
    match t.entries@[e].best {
        None => {
            crate::entry::lemma_selection_none(t.entries@[e], t.withdrawn_muis@);
        },
        Some(m) => {
            crate::entry::lemma_selection_best(t.entries@[e], t.withdrawn_muis@, m);
        },
    }
}

} // verus!
