use vstd::prelude::*;
use vstd::arithmetic::power2::{pow2, lemma_pow2_adds, lemma_pow2_pos, lemma_pow2_unfold, lemma2_to64};

use crate::entry::{MuiSet, PrefixEntry};
use crate::meta::Meta;
use crate::prefix::{
    bits_seq, chunk_of, covers, fam_width, seq_val, Fam, PrefixId, lemma_seq_val_bound,
    lemma_seq_val_inj,
};
use crate::record::{PrefixRecord, Record, UpsertReport};
use crate::errors::PrefixStoreError;

verus! {

broadcast use vstd::seq_lib::group_seq_properties;

/// Bit `i` of a node bitmap.
pub open spec fn u64_bit(x: u64, i: u64) -> bool {
    (x >> i) & 1 == 1
}

/// Reads one bitmap bit.
pub fn u64_bit_test(x: u64, i: u8) -> (r: bool)
    requires
        i < 64,
    ensures
        r == u64_bit(x, i as u64),
{
    (x >> (i as u64)) & 1 == 1
}

proof fn lemma_u64_set_bit(x: u64, i: u64, j: u64)
    by (bit_vector)
    requires
        i < 64,
        j < 64,
    ensures
        ((x | (1u64 << i)) >> j) & 1 == (if i == j {
            1u64
        } else {
            (x >> j) & 1
        }),
{
}

/// Two to a small power, as a machine word.
pub fn pow2_u64(w: u8) -> (r: u64)
    requires
        w <= 8,
    ensures
        r as nat == pow2(w as nat),
        r >= 1,
{
    proof {
        lemma2_to64();
    }
    match w {
        0 => 1,
        1 => 2,
        2 => 4,
        3 => 8,
        4 => 16,
        5 => 32,
        6 => 64,
        7 => 128,
        _ => 256,
    }
}

/// Two to a positive power is at least two.
pub proof fn lemma_pow2_ge2(n: nat)
    requires
        n >= 1,
    ensures
        pow2(n) >= 2,
{
    lemma_pow2_unfold(n);
    lemma_pow2_pos((n - 1) as nat);
}

proof fn lemma_u64_zero_bit(j: u64)
    by (bit_vector)
    requires
        j < 64,
    ensures
        ((0u64 >> j) & 1) == 0,
{
}

/// `cum` only reads the strides below its bound.
pub proof fn lemma_cum_push(s: Seq<u8>, x: u8, k: int)
    requires
        0 <= k <= s.len(),
    ensures
        cum(s.push(x), k) == cum(s, k),
    decreases k,
{
    if k > 0 {
        lemma_cum_push(s, x, k - 1);
    }
}

/// Distinct positions in the heap numbering of a node's internal binary trie
/// map to distinct slot indices.
pub proof fn lemma_heap_idx_inj(rem1: nat, v1: nat, rem2: nat, v2: nat)
    requires
        v1 < pow2(rem1),
        v2 < pow2(rem2),
        !(rem1 == rem2 && v1 == v2),
    ensures
        pow2(rem1) - 1 + v1 != pow2(rem2) - 1 + v2,
{
    if rem1 == rem2 {
    } else if rem1 < rem2 {
        lemma_pow2_adds(rem1, (rem2 - rem1) as nat);
        lemma_pow2_ge2((rem2 - rem1) as nat);
        lemma_pow2_pos(rem1);
        assert(pow2(rem2) >= 2 * pow2(rem1)) by (nonlinear_arith)
            requires
                pow2(rem2) == pow2(rem1) * pow2((rem2 - rem1) as nat),
                pow2((rem2 - rem1) as nat) >= 2,
                pow2(rem1) >= 1,
        ;
    } else {
        lemma_pow2_adds(rem2, (rem1 - rem2) as nat);
        lemma_pow2_ge2((rem1 - rem2) as nat);
        lemma_pow2_pos(rem2);
        assert(pow2(rem1) >= 2 * pow2(rem2)) by (nonlinear_arith)
            requires
                pow2(rem1) == pow2(rem2) * pow2((rem1 - rem2) as nat),
                pow2((rem1 - rem2) as nat) >= 2,
                pow2(rem2) >= 1,
        ;
    }
}

/// One trie level: a node of stride `s` holds `2^(s+1) - 1` internal prefix
/// slots (the heap numbering of its internal binary trie) and `2^s` child
/// slots, with one bitmap mirroring each slot array.
pub struct TreeNode {
    pub stride: u8,
    pub level: usize,
    pub consumed: u8,
    pub path: Ghost<Seq<bool>>,
    pub pfxbitarr: u64,
    pub ptrbitarr: u64,
    pub pfx_slots: Vec<Option<usize>>,
    pub child_slots: Vec<Option<usize>>,
}

/// The sum of the first `k` stride sizes: how many address bits the walk has
/// consumed when it reaches level `k`.
pub open spec fn cum(strides: Seq<u8>, k: int) -> int
    decreases k,
{
    if k <= 0 {
        0
    } else {
        cum(strides, k - 1) + strides[k - 1]
    }
}

/// A caller-supplied stride sequence is acceptable for a width: nonempty,
/// each stride in 3..=5, and summing exactly to the width; any other
/// sequence is rejected at construction.
pub open spec fn strides_input_ok(strides: Seq<u8>, width: nat) -> bool {
    &&& strides.len() >= 1
    &&& forall|i: int| 0 <= i < strides.len() ==> 3 <= #[trigger] strides[i] <= 5
    &&& cum(strides, strides.len() as int) == width
}

/// A stride sequence is valid for a width: nonempty, each stride in 3..=5,
/// and summing exactly to the width.
pub open spec fn strides_wf(strides: Seq<u8>, width: nat) -> bool {
    &&& strides.len() >= 1
    &&& forall|i: int| 0 <= i < strides.len() ==> 3 <= #[trigger] strides[i] <= 5
    &&& cum(strides, strides.len() as int) == width
}

/// The level at which a prefix of the given length terminates: the first
/// level whose consumed span reaches the length.
pub open spec fn term_level_from(strides: Seq<u8>, len: int, k: int) -> int
    decreases strides.len() - k,
{
    if k < 0 || k >= strides.len() {
        k
    } else if len <= cum(strides, k) + strides[k] {
        k
    } else {
        term_level_from(strides, len, k + 1)
    }
}

pub open spec fn term_level(strides: Seq<u8>, len: int) -> int {
    term_level_from(strides, len, 0)
}

proof fn lemma_cum_mono(strides: Seq<u8>, k1: int, k2: int)
    requires
        0 <= k1 <= k2 <= strides.len(),
        forall|i: int| 0 <= i < strides.len() ==> 3 <= #[trigger] strides[i] <= 5,
    ensures
        cum(strides, k1) + 3 * (k2 - k1) <= cum(strides, k2),
        cum(strides, k2) <= cum(strides, k1) + 5 * (k2 - k1),
    decreases k2 - k1,
{
    if k1 < k2 {
        lemma_cum_mono(strides, k1, k2 - 1);
    }
}

proof fn lemma_term_level_from(strides: Seq<u8>, width: nat, len: int, k: int)
    requires
        strides_wf(strides, width),
        0 <= k < strides.len(),
        0 <= len <= width,
        len > cum(strides, k) || k == 0,
    ensures
        ({
            let t = term_level_from(strides, len, k);
            &&& k <= t < strides.len()
            &&& len <= cum(strides, t) + strides[t]
            &&& (t > 0 ==> len > cum(strides, t))
            &&& (len == 0 ==> t == 0)
        }),
    decreases strides.len() - k,
{
    if k > 0 {
        lemma_cum_mono(strides, 0, k);
    }
    if len <= cum(strides, k) + strides[k] {
    } else {
        assert(cum(strides, k + 1) == cum(strides, k) + strides[k]);
        if k == strides.len() - 1 {
            assert(cum(strides, strides.len() as int) == width);
            assert(false);
        }
        assert(len > cum(strides, k + 1));
        lemma_term_level_from(strides, width, len, k + 1);
    }
}

/// The terminal level of a valid length is in range, spans the length, and is
/// entered with at least one bit still to place (unless the length is zero).
pub proof fn lemma_term_level(strides: Seq<u8>, width: nat, len: int)
    requires
        strides_wf(strides, width),
        0 <= len <= width,
    ensures
        ({
            let t = term_level(strides, len);
            &&& 0 <= t < strides.len()
            &&& cum(strides, t) <= len <= cum(strides, t) + strides[t]
            &&& (t > 0 ==> len > cum(strides, t))
            &&& (len == 0 ==> t == 0)
        }),
{
    lemma_term_level_from(strides, width, len, 0);
    let t = term_level(strides, len);
    if t > 0 {
    } else {
        assert(cum(strides, 0) == 0);
    }
}

/// Following the trie's child links from node `n` for `k` further levels,
/// branching by the address chunks of `p`.
pub open spec fn descend_from(nodes: Seq<TreeNode>, n: int, p: Seq<bool>, k: int) -> Option<
    int,
>
    decreases k,
{
    if k <= 0 {
        Some(n)
    } else {
        let nd = nodes[n];
        let c = nd.consumed as int;
        let s = nd.stride as int;
        let v = seq_val(p.subrange(c, c + s));
        match nd.child_slots@[v as int] {
            None => None,
            Some(j) => descend_from(nodes, j as int, p, k - 1),
        }
    }
}

pub open spec fn descend(nodes: Seq<TreeNode>, p: Seq<bool>, k: int) -> Option<int> {
    descend_from(nodes, 0, p, k)
}

/// One address family's trie together with its prefix table and the
/// family-wide set of globally withdrawn producers.
pub struct TreeBitMap<M: Meta> {
    pub fam: Fam,
    pub strides: Vec<u8>,
    pub nodes: Vec<TreeNode>,
    pub entries: Vec<PrefixEntry<M>>,
    pub withdrawn_muis: MuiSet,
}

impl<M: Meta> TreeBitMap<M> {
    pub open spec fn width(self) -> nat {
        fam_width(self.fam)
    }

    /// The child link of node `n` at branch `v` points at an existing node
    /// one level deeper whose path extends this node's path by `v`.
    pub open spec fn child_link_ok(self, n: int, v: int) -> bool {
        let nd = self.nodes@[n];
        match nd.child_slots@[v] {
            None => true,
            Some(j) => {
                &&& 0 < (j as int) < self.nodes@.len()
                &&& self.nodes@[j as int].level == nd.level + 1
                &&& self.nodes@[j as int].path@.len() == nd.consumed as int + nd.stride as int
                &&& self.nodes@[j as int].path@.take(nd.consumed as int) == nd.path@
                &&& seq_val(self.nodes@[j as int].path@.skip(nd.consumed as int)) == v
            },
        }
    }

    /// The prefix slot of node `n` at heap position `(rem, v)` is either
    /// empty or points at a table entry whose prefix is this node's path
    /// extended by the `rem`-bit chunk of value `v`.
    pub open spec fn pfx_slot_ok(self, n: int, rem: nat, v: nat) -> bool {
        let nd = self.nodes@[n];
        let i = pow2(rem) - 1 + v;
        match nd.pfx_slots@[i as int] {
            None => true,
            Some(e) => {
                &&& (e as int) < self.entries@.len()
                &&& self.entries@[e as int].prefix@.len() == nd.consumed as int + rem
                &&& self.entries@[e as int].prefix@.take(nd.consumed as int) == nd.path@
                &&& seq_val(self.entries@[e as int].prefix@.skip(nd.consumed as int)) == v
            },
        }
    }

    pub open spec fn node_wf(self, n: int) -> bool {
        let nd = self.nodes@[n];
        &&& nd.level < self.strides@.len()
        &&& nd.stride == self.strides@[nd.level as int]
        &&& nd.consumed as int == cum(self.strides@, nd.level as int)
        &&& nd.path@.len() == nd.consumed as int
        &&& nd.pfx_slots@.len() == pow2((nd.stride + 1) as nat) - 1
        &&& nd.child_slots@.len() == pow2(nd.stride as nat)
        &&& (nd.level != 0 ==> nd.pfx_slots@[0] is None)
        &&& forall|i: int|
            0 <= i < nd.pfx_slots@.len() ==> (u64_bit(nd.pfxbitarr, i as u64)
                <==> nd.pfx_slots@[i] is Some)
        &&& forall|v: int|
            0 <= v < nd.child_slots@.len() ==> (u64_bit(nd.ptrbitarr, v as u64)
                <==> nd.child_slots@[v] is Some)
        &&& forall|v: int| 0 <= v < nd.child_slots@.len() ==> self.child_link_ok(n, v)
        &&& forall|rem: nat, v: nat|
            rem <= nd.stride as nat && v < pow2(rem) ==> self.pfx_slot_ok(n, rem, v)
    }

    /// A table entry is well-formed, the trie finds it under its prefix,
    /// and its cached path selection, unless stale, reflects its records.
    pub open spec fn entry_ok(self, e: int) -> bool {
        let en = self.entries@[e];
        &&& en.wf()
        &&& en.prefix.is_valid()
        &&& en.prefix.fam == self.fam
        &&& self.lookup(en.prefix@) == Some(e as usize)
        &&& en.selection_ok(self.withdrawn_muis@)
    }

    /// The structural part of well-formedness: the arena and its links.
    pub open spec fn nodes_wf(self) -> bool {
        &&& strides_wf(self.strides@, self.width())
        &&& self.nodes@.len() >= 1
        &&& self.nodes@[0].level == 0
        &&& self.nodes@[0].path@ == Seq::<bool>::empty()
        &&& forall|n: int| 0 <= n < self.nodes@.len() ==> self.node_wf(n)
    }

    pub open spec fn wf(self) -> bool {
        &&& self.nodes_wf()
        &&& forall|n: int|
            0 <= n < self.nodes@.len() ==> #[trigger] descend(
                self.nodes@,
                self.nodes@[n].path@,
                self.nodes@[n].level as int,
            ) == Some(n)
        &&& forall|e: int| 0 <= e < self.entries@.len() ==> self.entry_ok(e)
    }

    /// Where the trie stores the prefix with bit string `p`: descend to the
    /// terminal level of `p`'s length, then read the heap slot of its last
    /// chunk.
    pub open spec fn lookup(self, p: Seq<bool>) -> Option<usize> {
        let k = term_level(self.strides@, p.len() as int);
        match descend(self.nodes@, p, k) {
            None => None,
            Some(n) => {
                let nd = self.nodes@[n];
                let rem = p.len() - nd.consumed as int;
                let v = seq_val(p.subrange(nd.consumed as int, p.len() as int));
                let i = pow2(rem as nat) - 1 + v;
                nd.pfx_slots@[i as int]
            },
        }
    }

    /// The prefix with bit string `p` is stored.
    pub open spec fn has_pfx(self, p: Seq<bool>) -> bool {
        exists|e: int| 0 <= e < self.entries@.len() && self.entries@[e].prefix@ == p
    }

    /// The table position of the stored prefix with bit string `p`.
    pub open spec fn idx_of(self, p: Seq<bool>) -> int {
        choose|e: int| 0 <= e < self.entries@.len() && self.entries@[e].prefix@ == p
    }
}

/// Builds one empty node for the given level.
fn empty_node(stride: u8, level: usize, consumed: u8, path: Ghost<Seq<bool>>) -> (r: TreeNode)
    requires
        3 <= stride <= 5,
    ensures
        r.stride == stride,
        r.level == level,
        r.consumed == consumed,
        r.path == path,
        r.pfxbitarr == 0,
        r.ptrbitarr == 0,
        r.pfx_slots@.len() == pow2((stride + 1) as nat) - 1,
        r.child_slots@.len() == pow2(stride as nat),
        forall|i: int| 0 <= i < r.pfx_slots@.len() ==> r.pfx_slots@[i] is None,
        forall|v: int| 0 <= v < r.child_slots@.len() ==> r.child_slots@[v] is None,
{
    let n_pfx = pow2_u64(stride + 1) - 1;
    let n_child = pow2_u64(stride);
    let mut pfx_slots: Vec<Option<usize>> = Vec::new();
    let mut i: u64 = 0;
    while i < n_pfx
        invariant
            0 <= i <= n_pfx,
            pfx_slots@.len() == i as int,
            forall|j: int| 0 <= j < i as int ==> pfx_slots@[j] is None,
        decreases n_pfx - i,
    {
        pfx_slots.push(None);
        i = i + 1;
    }
    let mut child_slots: Vec<Option<usize>> = Vec::new();
    let mut v: u64 = 0;
    while v < n_child
        invariant
            0 <= v <= n_child,
            child_slots@.len() == v as int,
            forall|j: int| 0 <= j < v as int ==> child_slots@[j] is None,
        decreases n_child - v,
    {
        child_slots.push(None);
        v = v + 1;
    }
    TreeNode {
        stride,
        level,
        consumed,
        path,
        pfxbitarr: 0,
        ptrbitarr: 0,
        pfx_slots,
        child_slots,
    }
}

impl<M: Meta> TreeBitMap<M> {
    /// An empty trie for one family.  A stride sequence is accepted exactly
    /// when it is nonempty, every stride lies in 3..=5 and the strides sum
    /// to the family's bit width; anything else is rejected.
    pub fn new(fam: Fam, strides_in: &Vec<u8>) -> (r: Result<TreeBitMap<M>, PrefixStoreError>)
        ensures
            r is Ok <==> strides_input_ok(strides_in@, fam_width(fam)),
            match r {
                Ok(t) => {
                    &&& t.wf()
                    &&& t.fam == fam
                    &&& t.strides@ == strides_in@
                    &&& t.entries@.len() == 0
                    &&& t.nodes@.len() == 1
                    &&& t.withdrawn_muis@ == Set::<u32>::empty()
                },
                Err(e) => e == PrefixStoreError::PrefixLengthInvalid,
            },
    {
        let width: u32 = crate::prefix::fam_bits(fam);
        if strides_in.len() == 0 {
            return Err(PrefixStoreError::PrefixLengthInvalid);
        }
        let mut strides: Vec<u8> = Vec::new();
        let mut total: u32 = 0;
        let mut i: usize = 0;
        while i < strides_in.len()
            invariant
                0 <= i <= strides_in@.len(),
                strides@ == strides_in@.take(i as int),
                total == cum(strides_in@, i as int),
                total <= width,
                strides@.len() == i as int,
                forall|j: int| 0 <= j < i as int ==> 3 <= #[trigger] strides_in@[j] <= 5,
                width <= 128,
                width as nat == fam_width(fam),
            decreases strides_in@.len() - i as int,
        {
            let s = strides_in[i];
            if s < 3 || s > 5 {
                // a stride outside 3..=5 makes the whole sequence invalid
                return Err(PrefixStoreError::PrefixLengthInvalid);
            }
            if total + (s as u32) > width {
                proof {
                    // the partial sum already exceeds the width, so the full
                    // sum cannot hit it
                    assert(cum(strides_in@, i as int + 1) == cum(strides_in@, i as int)
                        + strides_in@[i as int]);
                    assert(cum(strides_in@, i as int + 1) > width);
                    if strides_input_ok(strides_in@, fam_width(fam)) {
                        assert(i as int + 1 <= strides_in@.len());
                        lemma_cum_mono(strides_in@, i as int + 1, strides_in@.len() as int);
                        assert(cum(strides_in@, strides_in@.len() as int) >= cum(
                            strides_in@,
                            i as int + 1,
                        ));
                        assert(cum(strides_in@, strides_in@.len() as int) == fam_width(fam));
                        assert(fam_width(fam) == width as nat);
                        assert(false);
                    }
                }
                return Err(PrefixStoreError::PrefixLengthInvalid);
            }
            strides.push(s);
            proof {
                assert(strides@ =~= strides_in@.take(i as int + 1));
            }
            total = total + s as u32;
            i = i + 1;
        }
        proof {
            assert(strides@ =~= strides_in@);
        }
        if total != width {
            return Err(PrefixStoreError::PrefixLengthInvalid);
        }
        let root = empty_node(strides[0], 0, 0, Ghost(Seq::empty()));
        let mut nodes: Vec<TreeNode> = Vec::new();
        nodes.push(root);
        let t = TreeBitMap {
            fam,
            strides,
            nodes,
            entries: Vec::new(),
            withdrawn_muis: MuiSet::new(),
        };
        proof {
            assert(t.node_wf(0)) by {
                let nd = t.nodes@[0];
                assert forall|i: int|
                    0 <= i < nd.pfx_slots@.len() implies (u64_bit(nd.pfxbitarr, i as u64)
                    <==> nd.pfx_slots@[i] is Some) by {
                    lemma2_to64();
                    lemma_u64_zero_bit(i as u64);
                }
                assert forall|v: int|
                    0 <= v < nd.child_slots@.len() implies (u64_bit(nd.ptrbitarr, v as u64)
                    <==> nd.child_slots@[v] is Some) by {
                    lemma2_to64();
                    lemma_u64_zero_bit(v as u64);
                }
                assert forall|rem: nat, v: nat|
                    rem <= t.nodes@[0].stride as nat && v < pow2(rem) implies t.pfx_slot_ok(
                    0,
                    rem,
                    v,
                ) by {
                    lemma_heap_idx_bound(rem, v, t.nodes@[0].stride as nat);
                }
            }
            assert forall|n: int| 0 <= n < t.nodes@.len() implies #[trigger] descend(
                t.nodes@,
                t.nodes@[n].path@,
                t.nodes@[n].level as int,
            ) == Some(n) by {
                assert(n == 0);
            }
        }
        Ok(t)
    }
}

/// A heap position within a node indexes inside the slot array.
pub proof fn lemma_heap_idx_bound(rem: nat, v: nat, stride: nat)
    requires
        rem <= stride,
        v < pow2(rem),
    ensures
        pow2(rem) - 1 + v < pow2(stride + 1) - 1,
        pow2(rem) >= 1,
{
    lemma_pow2_pos(rem);
    if rem < stride + 1 {
        lemma_pow2_adds(rem, (stride + 1 - rem) as nat);
        lemma_pow2_ge2((stride + 1 - rem) as nat);
        assert(pow2(stride + 1) >= 2 * pow2(rem)) by (nonlinear_arith)
            requires
                pow2(stride + 1) == pow2(rem) * pow2((stride + 1 - rem) as nat),
                pow2((stride + 1 - rem) as nat) >= 2,
                pow2(rem) >= 1,
        ;
    }
}


/// A prefix of a take is the take of the shorter bound.
proof fn lemma_take_decompose(q: Seq<bool>, a: int, b: int)
    requires
        0 <= a <= b <= q.len(),
    ensures
        q.take(b) == q.take(a) + q.subrange(a, b),
        q.take(b).subrange(a, b) == q.subrange(a, b),
        q.take(b).take(a) == q.take(a),
{
    assert(q.take(b) =~= q.take(a) + q.subrange(a, b));
    assert(q.take(b).subrange(a, b) =~= q.subrange(a, b));
    assert(q.take(b).take(a) =~= q.take(a));
}

/// The chunk of a prefix identifier's bit string.
fn pfx_chunk(pfx: &PrefixId, start: u8, width: u8) -> (v: u8)
    requires
        start as int + width as int <= pfx.len as int,
        pfx.len <= 128,
        width <= 7,
    ensures
        v as nat == seq_val(pfx@.subrange(start as int, start as int + width as int)),
        (v as nat) < pow2(width as nat),
{
    let v = chunk_of(pfx.bits, start, width);
    proof {
        assert(pfx@.subrange(start as int, start as int + width as int) =~= bits_seq(
            pfx.bits,
        ).subrange(start as int, start as int + width as int));
    }
    v
}

impl<M: Meta> TreeBitMap<M> {
    /// Descending stays inside the arena and follows the bits of `p`: the
    /// node reached after `k` further levels carries exactly the first
    /// `cum(level + k)` bits of `p` as its path.
    pub proof fn lemma_descend_path(self, n: int, p: Seq<bool>, k: int)
        requires
            self.nodes_wf(),
            0 <= n < self.nodes@.len(),
            self.nodes@[n].path@ == p.take(self.nodes@[n].consumed as int),
            k >= 0,
            self.nodes@[n].level + k <= self.strides@.len(),
            p.len() >= cum(self.strides@, self.nodes@[n].level + k),
            p.len() <= self.width(),
        ensures
            match descend_from(self.nodes@, n, p, k) {
                None => true,
                Some(m) => {
                    &&& 0 <= m < self.nodes@.len()
                    &&& self.nodes@[m].level == self.nodes@[n].level + k
                    &&& self.nodes@[m].path@ == p.take(self.nodes@[m].consumed as int)
                    &&& self.nodes@[m].consumed as int == cum(
                        self.strides@,
                        self.nodes@[n].level + k,
                    )
                },
            },
        decreases k,
    {
        assert(self.node_wf(n));
        let nd = self.nodes@[n];
        let c = nd.consumed as int;
        let s = nd.stride as int;
        if k > 0 {
            assert(cum(self.strides@, nd.level + 1) == cum(self.strides@, nd.level as int)
                + self.strides@[nd.level as int]);
            lemma_cum_mono(self.strides@, nd.level + 1, nd.level + k);
            assert(c + s <= p.len());
            let v = seq_val(p.subrange(c, c + s));
            lemma_seq_val_bound(p.subrange(c, c + s));
            assert(self.child_link_ok(n, v as int));
            match nd.child_slots@[v as int] {
                None => {},
                Some(j) => {
                    let jn = self.nodes@[j as int];
                    assert(self.node_wf(j as int));
                    lemma_take_decompose(p, c, c + s);
                    assert(jn.path@ =~= jn.path@.take(c) + jn.path@.skip(c));
                    lemma_seq_val_inj(jn.path@.skip(c), p.subrange(c, c + s));
                    assert(jn.path@ == p.take(c + s));
                    assert(jn.consumed as int == c + s);
                    self.lemma_descend_path(j as int, p, k - 1);
                },
            }
        }
    }

    /// Descending reads only the first `cum(level + k)` bits of the query:
    /// two bit strings that agree on them descend alike.
    pub proof fn lemma_descend_agree(self, n: int, p1: Seq<bool>, p2: Seq<bool>, k: int)
        requires
            self.nodes_wf(),
            0 <= n < self.nodes@.len(),
            k >= 0,
            self.nodes@[n].level + k <= self.strides@.len(),
            p1.len() >= cum(self.strides@, self.nodes@[n].level + k),
            p2.len() >= cum(self.strides@, self.nodes@[n].level + k),
            p1.take(cum(self.strides@, self.nodes@[n].level + k)) == p2.take(
                cum(self.strides@, self.nodes@[n].level + k),
            ),
        ensures
            descend_from(self.nodes@, n, p1, k) == descend_from(self.nodes@, n, p2, k),
        decreases k,
    {
        assert(self.node_wf(n));
        let nd = self.nodes@[n];
        let c = nd.consumed as int;
        let s = nd.stride as int;
        if k > 0 {
            let top = cum(self.strides@, nd.level + k);
            assert(cum(self.strides@, nd.level + 1) == cum(self.strides@, nd.level as int)
                + self.strides@[nd.level as int]);
            lemma_cum_mono(self.strides@, nd.level + 1, nd.level + k);
            lemma_take_decompose(p1, c + s, top);
            lemma_take_decompose(p2, c + s, top);
            lemma_take_decompose(p1, c, c + s);
            lemma_take_decompose(p2, c, c + s);
            assert(p1.subrange(c, c + s) =~= p1.take(top).subrange(c, c + s));
            assert(p2.subrange(c, c + s) =~= p2.take(top).subrange(c, c + s));
            assert(p1.subrange(c, c + s) == p2.subrange(c, c + s));
            let v = seq_val(p1.subrange(c, c + s));
            lemma_seq_val_bound(p1.subrange(c, c + s));
            assert(self.child_link_ok(n, v as int));
            match nd.child_slots@[v as int] {
                None => {},
                Some(j) => {
                    assert(self.node_wf(j as int));
                    self.lemma_descend_agree(j as int, p1, p2, k - 1);
                },
            }
        }
    }

    /// Walks the trie from the root to the terminal level of the prefix's
    /// length, following its chunks.
    fn walk(&self, pfx: &PrefixId) -> (r: Option<usize>)
        requires
            self.wf(),
            pfx.is_valid(),
            pfx.fam == self.fam,
        ensures
            ({
                let k = term_level(self.strides@, pfx@.len() as int);
                match r {
                    None => descend(self.nodes@, pfx@, k) is None,
                    Some(n) => {
                        &&& descend(self.nodes@, pfx@, k) == Some(n as int)
                        &&& (n as int) < self.nodes@.len()
                        &&& self.nodes@[n as int].level as int == k
                        &&& self.nodes@[n as int].path@ == pfx@.take(
                            self.nodes@[n as int].consumed as int,
                        )
                        &&& self.nodes@[n as int].consumed as int == cum(self.strides@, k)
                    },
                }
            }),
    {
        let ghost p = pfx@;
        let len: u8 = pfx.len;
        let mut n: usize = 0;
        let mut level: usize = 0;
        let mut c: u8 = 0;
        proof {
            lemma_term_level(self.strides@, self.width(), len as int);
            assert(p.len() == len as int);
            assert(self.nodes@[0].path@ =~= p.take(0));
            assert(self.node_wf(0));
            assert(cum(self.strides@, 0) == 0);
        }
        loop
            invariant
                self.wf(),
                pfx.is_valid(),
                pfx.fam == self.fam,
                p == pfx@,
                len == pfx.len,
                p.len() == len as int,
                (n as int) < self.nodes@.len(),
                self.nodes@[n as int].level == level,
                level < self.strides@.len(),
                c as int == cum(self.strides@, level as int),
                c <= len,
                self.nodes@[n as int].consumed == c,
                self.nodes@[n as int].path@ == p.take(c as int),
                descend(self.nodes@, p, level as int) == Some(n as int),
                term_level(self.strides@, len as int) == term_level_from(
                    self.strides@,
                    len as int,
                    level as int,
                ),
            decreases self.strides@.len() - level as int,
        {
            let s: u8 = self.strides[level];
            proof {
                assert(self.node_wf(n as int));
            }
            let rem: u8 = len - c;
            if rem <= s {
                proof {
                    assert(term_level_from(self.strides@, len as int, level as int)
                        == level as int);
                }
                return Some(n);
            }
            let v = pfx_chunk(pfx, c, s);
            proof {
                lemma_seq_val_bound(p.subrange(c as int, c as int + s as int));
                assert(self.child_link_ok(n as int, v as int));
            }
            let child = self.nodes[n].child_slots[v as usize];
            match child {
                None => {
                    proof {
                        assert(descend_from(self.nodes@, n as int, p, 1) is None);
                        self.lemma_descend_split(p, level as int, 1);
                        assert(cum(self.strides@, level as int + 1) == cum(
                            self.strides@,
                            level as int,
                        ) + self.strides@[level as int]);
                        lemma_term_level_from(
                            self.strides@,
                            self.width(),
                            len as int,
                            level as int + 1,
                        );
                        assert(term_level_from(self.strides@, len as int, level as int)
                            == term_level_from(self.strides@, len as int, level as int + 1));
                        self.lemma_descend_none_deeper(p, level as int, term_level(
                            self.strides@,
                            len as int,
                        ));
                    }
                    return None;
                },
                Some(j) => {
                    proof {
                        let jn = self.nodes@[j as int];
                        assert(self.node_wf(j as int));
                        lemma_take_decompose(p, c as int, c as int + s as int);
                        assert(jn.path@ =~= jn.path@.take(c as int) + jn.path@.skip(c as int));
                        lemma_seq_val_inj(
                            jn.path@.skip(c as int),
                            p.subrange(c as int, c as int + s as int),
                        );
                        assert(jn.path@ == p.take(c as int + s as int));
                        assert(cum(self.strides@, level as int + 1) == cum(
                            self.strides@,
                            level as int,
                        ) + self.strides@[level as int]);
                        self.lemma_descend_split(p, level as int, 1);
                        assert(descend_from(self.nodes@, j as int, p, 0) == Some(j as int));
                        assert(descend_from(self.nodes@, n as int, p, 1) == Some(j as int));
                        assert(descend(self.nodes@, p, level as int + 1) == Some(j as int));
                        assert(term_level_from(self.strides@, len as int, level as int)
                            == term_level_from(self.strides@, len as int, level as int + 1));
                    }
                    n = j;
                    level = level + 1;
                    c = c + s;
                },
            }
        }
    }

    /// Splitting a descent: going `k1 + k2` levels from node `n` is going
    /// `k1` levels and then `k2` more from where that lands.
    pub proof fn lemma_descend_split_from(self, n0: int, p: Seq<bool>, k1: int, k2: int)
        requires
            k1 >= 0,
            k2 >= 0,
        ensures
            descend_from(self.nodes@, n0, p, k1 + k2) == (match descend_from(
                self.nodes@,
                n0,
                p,
                k1,
            ) {
                None => None::<int>,
                Some(m) => descend_from(self.nodes@, m, p, k2),
            }),
        decreases k1,
    {
        if k1 == 0 {
        } else {
            let nd = self.nodes@[n0];
            let c = nd.consumed as int;
            let s = nd.stride as int;
            let v = seq_val(p.subrange(c, c + s));
            match nd.child_slots@[v as int] {
                None => {
                    assert(descend_from(self.nodes@, n0, p, k1 + k2) is None);
                },
                Some(j) => {
                    self.lemma_descend_split_from(j as int, p, k1 - 1, k2);
                },
            }
        }
    }

    /// Splitting a descent from the root.
    pub proof fn lemma_descend_split(self, p: Seq<bool>, k1: int, k2: int)
        requires
            k1 >= 0,
            k2 >= 0,
        ensures
            descend(self.nodes@, p, k1 + k2) == (match descend(self.nodes@, p, k1) {
                None => None::<int>,
                Some(m) => descend_from(self.nodes@, m, p, k2),
            }),
    {
        self.lemma_descend_split_from(0, p, k1, k2);
    }

    /// A descent that has already failed stays failed at any deeper level.
    pub proof fn lemma_descend_none_deeper(self, p: Seq<bool>, k1: int, k2: int)
        requires
            0 <= k1,
            k1 + 1 <= k2,
            descend(self.nodes@, p, k1 + 1) is None,
        ensures
            descend(self.nodes@, p, k2) is None,
    {
        self.lemma_descend_split(p, k1 + 1, k2 - k1 - 1);
    }

    /// Finds the table position of a stored prefix.
    pub fn lookup_entry(&self, pfx: &PrefixId) -> (r: Option<usize>)
        requires
            self.wf(),
            pfx.is_valid(),
            pfx.fam == self.fam,
        ensures
            r == self.lookup(pfx@),
            match r {
                Some(e) => (e as int) < self.entries@.len() && self.entries@[e as int].prefix@
                    == pfx@,
                None => !self.has_pfx(pfx@),
            },
    {
        let ghost p = pfx@;
        let node = self.walk(pfx);
        let r = match node {
            None => None,
            Some(n) => {
                let c = self.nodes[n].consumed;
                proof {
                    lemma_term_level(self.strides@, self.width(), p.len() as int);
                    assert(self.node_wf(n as int));
                    assert(3 <= self.strides@[self.nodes@[n as int].level as int] <= 5);
                }
                let rem: u8 = pfx.len - c;
                let v = pfx_chunk(pfx, c, rem);
                proof {
                    lemma_heap_idx_bound(rem as nat, v as nat, self.nodes@[n as int].stride as nat);
                    lemma2_to64();
                    let sp1: nat = (self.nodes@[n as int].stride + 1) as nat;
                    if sp1 < 6 {
                        vstd::arithmetic::power2::lemma_pow2_strictly_increases(sp1, 6);
                    }
                    assert(p.subrange(c as int, p.len() as int) =~= p.subrange(
                        c as int,
                        c as int + rem as int,
                    ));
                }
                let i = (pow2_u64(rem) - 1 + v as u64) as usize;
                self.nodes[n].pfx_slots[i]
            },
        };
        proof {
            if r is Some {
                let e = r->0;
                let k = term_level(self.strides@, p.len() as int);
                lemma_term_level(self.strides@, self.width(), p.len() as int);
                let n = descend(self.nodes@, p, k)->0;
                let nd = self.nodes@[n];
                let rem = (p.len() - nd.consumed as int) as nat;
                let v = seq_val(p.subrange(nd.consumed as int, p.len() as int));
                lemma_seq_val_bound(p.subrange(nd.consumed as int, p.len() as int));
                assert(self.node_wf(n));
                assert(self.pfx_slot_ok(n, rem, v));
                // the slot's entry carries exactly this prefix
                let en = self.entries@[e as int];
                lemma_take_decompose(p, nd.consumed as int, p.len() as int);
                assert(en.prefix@ =~= en.prefix@.take(nd.consumed as int) + en.prefix@.skip(
                    nd.consumed as int,
                ));
                lemma_seq_val_inj(
                    en.prefix@.skip(nd.consumed as int),
                    p.subrange(nd.consumed as int, p.len() as int),
                );
                assert(en.prefix@ == p);
            } else {
                if self.has_pfx(p) {
                    let e = self.idx_of(p);
                    assert(self.entry_ok(e));
                    assert(false);
                }
            }
        }
        r
    }
}


/// A mutable reference to one node of the arena.
fn node_mut(nodes: &mut Vec<TreeNode>, i: usize) -> (r: &mut TreeNode)
    requires
        i < old(nodes)@.len(),
    ensures
        *r == old(nodes)@[i as int],
        final (nodes)@ == old(nodes)@.update(i as int, *final (r)),
{
    &mut nodes[i]
}

/// A mutable reference to one entry of the prefix table.
fn entry_mut<M: Meta>(entries: &mut Vec<PrefixEntry<M>>, i: usize) -> (r: &mut PrefixEntry<M>)
    requires
        i < old(entries)@.len(),
    ensures
        *r == old(entries)@[i as int],
        final (entries)@ == old(entries)@.update(i as int, *final (r)),
{
    &mut entries[i]
}

impl<M: Meta> TreeBitMap<M> {
    /// Any stored prefix has a table entry, and the table position the trie
    /// yields carries exactly that prefix.
    pub proof fn lemma_lookup_sound(self, p: Seq<bool>)
        requires
            self.wf(),
            p.len() <= self.width(),
        ensures
            match self.lookup(p) {
                Some(e) => (e as int) < self.entries@.len() && self.entries@[e as int].prefix@
                    == p,
                None => !self.has_pfx(p),
            },
    {
        let k = term_level(self.strides@, p.len() as int);
        lemma_term_level(self.strides@, self.width(), p.len() as int);
        match self.lookup(p) {
            Some(e) => {
                let n = descend(self.nodes@, p, k)->0;
                assert(self.node_wf(0));
                assert(cum(self.strides@, 0) == 0);
                assert(self.nodes@[0].path@ =~= p.take(0));
                self.lemma_descend_path(0, p, k);
                let nd = self.nodes@[n];
                let rem = (p.len() - nd.consumed as int) as nat;
                let v = seq_val(p.subrange(nd.consumed as int, p.len() as int));
                lemma_seq_val_bound(p.subrange(nd.consumed as int, p.len() as int));
                assert(self.node_wf(n));
                assert(self.pfx_slot_ok(n, rem, v));
                let en = self.entries@[e as int];
                lemma_take_decompose(p, nd.consumed as int, p.len() as int);
                assert(en.prefix@ =~= en.prefix@.take(nd.consumed as int) + en.prefix@.skip(
                    nd.consumed as int,
                ));
                lemma_seq_val_inj(
                    en.prefix@.skip(nd.consumed as int),
                    p.subrange(nd.consumed as int, p.len() as int),
                );
                assert(en.prefix@ == p);
            },
            None => {
                if self.has_pfx(p) {
                    let e = self.idx_of(p);
                    assert(self.entry_ok(e));
                    assert(false);
                }
            },
        }
    }

    /// Two distinct table entries hold distinct prefixes.
    pub proof fn lemma_entries_distinct(self, e1: int, e2: int)
        requires
            self.wf(),
            0 <= e1 < self.entries@.len(),
            0 <= e2 < self.entries@.len(),
            e1 != e2,
        ensures
            self.entries@[e1].prefix@ != self.entries@[e2].prefix@,
    {
        assert(self.entry_ok(e1));
        assert(self.entry_ok(e2));
        if self.entries@[e1].prefix@ == self.entries@[e2].prefix@ {
            assert(vstd::std_specs::vec::spec_vec_len(&self.entries) == self.entries@.len());
            assert(self.lookup(self.entries@[e1].prefix@) == Some(e1 as usize));
            assert(self.lookup(self.entries@[e2].prefix@) == Some(e2 as usize));
            assert(false);
        }
    }

    /// Appending an unreferenced node leaves every descent unchanged.
    proof fn lemma_descend_append(self, new_node: TreeNode, n0: int, p: Seq<bool>, k: int)
        requires
            self.nodes_wf(),
            0 <= n0 < self.nodes@.len(),
            k >= 0,
            self.nodes@[n0].level + k <= self.strides@.len(),
            p.len() >= cum(self.strides@, self.nodes@[n0].level + k),
        ensures
            descend_from(self.nodes@.push(new_node), n0, p, k) == descend_from(
                self.nodes@,
                n0,
                p,
                k,
            ),
        decreases k,
    {
        assert(self.node_wf(n0));
        if k > 0 {
            let nd = self.nodes@[n0];
            let c = nd.consumed as int;
            let s = nd.stride as int;
            assert(cum(self.strides@, nd.level + 1) == cum(self.strides@, nd.level as int)
                + self.strides@[nd.level as int]);
            lemma_cum_mono(self.strides@, nd.level + 1, nd.level + k);
            let v = seq_val(p.subrange(c, c + s));
            lemma_seq_val_bound(p.subrange(c, c + s));
            assert(self.child_link_ok(n0, v as int));
            match nd.child_slots@[v as int] {
                None => {},
                Some(j) => {
                    self.lemma_descend_append(new_node, j as int, p, k - 1);
                },
            }
        }
    }

    /// Replacing a node by one with the same stride, consumed count and child
    /// slots leaves every descent unchanged.
    proof fn lemma_descend_update_slots(
        self,
        new_nodes: Seq<TreeNode>,
        t: int,
        n0: int,
        p: Seq<bool>,
        k: int,
    )
        requires
            self.nodes_wf(),
            0 <= t < self.nodes@.len(),
            new_nodes == self.nodes@.update(t, new_nodes[t]),
            new_nodes[t].stride == self.nodes@[t].stride,
            new_nodes[t].consumed == self.nodes@[t].consumed,
            new_nodes[t].child_slots@ == self.nodes@[t].child_slots@,
            0 <= n0 < self.nodes@.len(),
            k >= 0,
            self.nodes@[n0].level + k <= self.strides@.len(),
            p.len() >= cum(self.strides@, self.nodes@[n0].level + k),
        ensures
            descend_from(new_nodes, n0, p, k) == descend_from(self.nodes@, n0, p, k),
        decreases k,
    {
        assert(self.node_wf(n0));
        assert(vstd::std_specs::vec::spec_vec_len(&self.nodes) == self.nodes@.len());
        if k > 0 {
            let nd = self.nodes@[n0];
            let c = nd.consumed as int;
            let s = nd.stride as int;
            assert(new_nodes[n0].consumed as int == c);
            assert(new_nodes[n0].stride as int == s);
            assert(new_nodes[n0].child_slots@ == nd.child_slots@);
            assert(cum(self.strides@, nd.level + 1) == cum(self.strides@, nd.level as int)
                + self.strides@[nd.level as int]);
            lemma_cum_mono(self.strides@, nd.level + 1, nd.level + k);
            let v = seq_val(p.subrange(c, c + s));
            lemma_seq_val_bound(p.subrange(c, c + s));
            assert(self.child_link_ok(n0, v as int));
            match nd.child_slots@[v as int] {
                None => {},
                Some(j) => {
                    self.lemma_descend_update_slots(new_nodes, t, j as int, p, k - 1);
                },
            }
        }
    }

    /// After appending a childless node and linking it under one previously
    /// empty branch, a descent either ends as before, or ends nowhere or at
    /// the new node.
    proof fn lemma_descend_link(
        self,
        new_nodes: Seq<TreeNode>,
        t: int,
        v0: int,
        n0: int,
        p: Seq<bool>,
        k: int,
    )
        requires
            self.nodes_wf(),
            0 <= t < self.nodes@.len(),
            0 <= v0 < self.nodes@[t].child_slots@.len(),
            self.nodes@[t].child_slots@[v0] is None,
            new_nodes.len() == self.nodes@.len() + 1,
            // the appended node
            new_nodes[self.nodes@.len() as int].child_slots@.len() == pow2(
                new_nodes[self.nodes@.len() as int].stride as nat,
            ),
            forall|v: int|
                0 <= v < new_nodes[self.nodes@.len() as int].child_slots@.len()
                    ==> new_nodes[self.nodes@.len() as int].child_slots@[v] is None,
            new_nodes[self.nodes@.len() as int].consumed as int == cum(
                self.strides@,
                self.nodes@[t].level + 1,
            ),
            new_nodes[self.nodes@.len() as int].stride == self.strides@[self.nodes@[t].level
                + 1],
            self.nodes@[t].level + 1 < self.strides@.len(),
            // all other nodes keep their old stride, consumed and children,
            // except `t`, whose children change only at `v0`
            forall|m: int|
                0 <= m < self.nodes@.len() ==> (#[trigger] new_nodes[m].stride)
                    == self.nodes@[m].stride && new_nodes[m].consumed == self.nodes@[m].consumed
                    && new_nodes[m].child_slots@.len() == self.nodes@[m].child_slots@.len(),
            forall|m: int, v: int|
                0 <= m < self.nodes@.len() && 0 <= v < self.nodes@[m].child_slots@.len() && !(m
                    == t && v == v0) ==> (#[trigger] new_nodes[m].child_slots@[v])
                    == self.nodes@[m].child_slots@[v],
            new_nodes[t].child_slots@[v0] == Some(self.nodes@.len() as usize),
            0 <= n0 < self.nodes@.len(),
            k >= 0,
            self.nodes@[n0].level + k <= self.strides@.len(),
            p.len() >= cum(self.strides@, self.nodes@[n0].level + k),
        ensures
            descend_from(new_nodes, n0, p, k) == descend_from(self.nodes@, n0, p, k)
                || descend_from(new_nodes, n0, p, k) is None || descend_from(new_nodes, n0, p, k)
                == Some(self.nodes@.len() as int),
            descend_from(self.nodes@, n0, p, k) is Some ==> descend_from(new_nodes, n0, p, k)
                == descend_from(self.nodes@, n0, p, k),
            descend_from(new_nodes, n0, p, k) == Some(self.nodes@.len() as int)
                ==> self.nodes@[n0].level + k == self.nodes@[t].level + 1,
        decreases k,
    {
        assert(self.node_wf(n0));
        assert(vstd::std_specs::vec::spec_vec_len(&self.nodes) == self.nodes@.len());
        if k > 0 {
            let nd = self.nodes@[n0];
            let c = nd.consumed as int;
            let s = nd.stride as int;
            assert(new_nodes[n0].consumed as int == c);
            assert(new_nodes[n0].stride as int == s);
            assert(cum(self.strides@, nd.level + 1) == cum(self.strides@, nd.level as int)
                + self.strides@[nd.level as int]);
            lemma_cum_mono(self.strides@, nd.level + 1, nd.level + k);
            let v = seq_val(p.subrange(c, c + s));
            lemma_seq_val_bound(p.subrange(c, c + s));
            assert(self.child_link_ok(n0, v as int));
            if n0 == t && v as int == v0 {
                assert(descend_from(self.nodes@, n0, p, k) is None);
                let fresh = self.nodes@.len() as int;
                assert(new_nodes[n0].child_slots@[v as int] == Some(fresh as usize));
                if k == 1 {
                    assert(descend_from(new_nodes, fresh, p, 0) == Some(fresh));
                    assert(descend_from(new_nodes, n0, p, 1) == Some(fresh));
                } else {
                    // the fresh node is childless, so the deeper descent dies
                    let fd = new_nodes[fresh];
                    let c2 = fd.consumed as int;
                    let s2 = fd.stride as int;
                    assert(cum(self.strides@, nd.level + 2) == cum(self.strides@, nd.level + 1)
                        + self.strides@[nd.level + 1]);
                    lemma_cum_mono(self.strides@, nd.level + 2, nd.level + k);
                    assert(c2 + s2 <= p.len());
                    let v2 = seq_val(p.subrange(c2, c2 + s2));
                    lemma_seq_val_bound(p.subrange(c2, c2 + s2));
                    assert(0 <= v2 < fd.child_slots@.len());
                    assert(fd.child_slots@[v2 as int] is None);
                    assert(descend_from(new_nodes, fresh, p, k - 1) is None);
                    assert(descend_from(new_nodes, n0, p, k) is None);
                }
            } else {
                match nd.child_slots@[v as int] {
                    None => {
                        assert(new_nodes[n0].child_slots@[v as int] is None);
                        assert(descend_from(new_nodes, n0, p, k) is None);
                    },
                    Some(j) => {
                        assert(new_nodes[n0].child_slots@[v as int] == Some(j));
                        self.lemma_descend_link(new_nodes, t, v0, j as int, p, k - 1);
                    },
                }
            }
        }
    }

    /// Returns the child of node `n` at branch `v`, allocating and linking a
    /// fresh node when the branch is empty.  The set of stored prefixes is
    /// untouched.
    fn ensure_child(&mut self, n: usize, v: u8, Ghost(p): Ghost<Seq<bool>>) -> (j: usize)
        requires
            old(self).wf(),
            (n as int) < old(self).nodes@.len(),
            old(self).nodes@[n as int].level + 1 < old(self).strides@.len(),
            (v as nat) < pow2(old(self).nodes@[n as int].stride as nat),
            descend(old(self).nodes@, p, old(self).nodes@[n as int].level as int) == Some(
                n as int,
            ),
            old(self).nodes@[n as int].path@ == p.take(old(self).nodes@[n as int].consumed as int),
            p.len() >= old(self).nodes@[n as int].consumed as int + old(
                self,
            ).nodes@[n as int].stride as int,
            p.len() <= old(self).width(),
            seq_val(
                p.subrange(
                    old(self).nodes@[n as int].consumed as int,
                    old(self).nodes@[n as int].consumed as int + old(
                        self,
                    ).nodes@[n as int].stride as int,
                ),
            ) == v as nat,
        ensures
            final (self).wf(),
            final (self).fam == old(self).fam,
            final (self).strides@ == old(self).strides@,
            final (self).entries@ == old(self).entries@,
            final (self).withdrawn_muis@ == old(self).withdrawn_muis@,
            final (self).nodes@.len() >= old(self).nodes@.len(),
            final (self).nodes@.len() <= old(self).nodes@.len() + 1,
            forall|q: Seq<bool>|
                q.len() <= old(self).width() ==> #[trigger] final (self).lookup(q) == old(
                    self,
                ).lookup(q),
            (j as int) < final (self).nodes@.len(),
            final (self).nodes@[j as int].level == old(self).nodes@[n as int].level + 1,
            final (self).nodes@[j as int].path@ == p.take(
                old(self).nodes@[n as int].consumed as int + old(
                    self,
                ).nodes@[n as int].stride as int,
            ),
            final (self).nodes@[j as int].consumed as int == old(
                self,
            ).nodes@[n as int].consumed as int + old(self).nodes@[n as int].stride as int,
            descend(
                final (self).nodes@,
                p,
                old(self).nodes@[n as int].level as int + 1,
            ) == Some(j as int),
    {
        let ghost c = self.nodes@[n as int].consumed as int;
        let ghost s = self.nodes@[n as int].stride as int;
        let ghost level = self.nodes@[n as int].level as int;
        proof {
            assert(self.node_wf(n as int));
            assert(cum(self.strides@, level + 1) == cum(self.strides@, level)
                + self.strides@[level]);
        }
        let existing = self.nodes[n].child_slots[v as usize];
        match existing {
            Some(j) => {
                proof {
                    assert(self.child_link_ok(n as int, v as int));
                    let jn = self.nodes@[j as int];
                    assert(self.node_wf(j as int));
                    lemma_take_decompose(p, c, c + s);
                    assert(jn.path@ =~= jn.path@.take(c) + jn.path@.skip(c));
                    lemma_seq_val_inj(jn.path@.skip(c), p.subrange(c, c + s));
                    assert(jn.path@ == p.take(c + s));
                    self.lemma_descend_split(p, level, 1);
                    assert(descend_from(self.nodes@, j as int, p, 0) == Some(j as int));
                    assert(descend_from(self.nodes@, n as int, p, 1) == Some(j as int));
                }
                j
            },
            None => {
                proof {
                    lemma_cum_mono(self.strides@, 0, self.strides@.len() as int);
                    lemma_cum_mono(self.strides@, 0, level + 1);
                    lemma2_to64();
                    if (self.nodes@[n as int].stride as nat) < 5 {
                        vstd::arithmetic::power2::lemma_pow2_strictly_increases(
                            self.nodes@[n as int].stride as nat,
                            5,
                        );
                    }
                    assert((v as nat) < 32);
                }
                let stride_next = self.strides[self.nodes[n].level + 1];
                let consumed_next = self.nodes[n].consumed + self.nodes[n].stride;
                let fresh = empty_node(
                    stride_next,
                    self.nodes[n].level + 1,
                    consumed_next,
                    Ghost(p.take(c + s)),
                );
                let ghost old_self = *self;
                let j = self.nodes.len();
                self.nodes.push(fresh);
                let ghost mid_self = *self;
                // link the fresh node under branch `v`
                let nd = node_mut(&mut self.nodes, n);
                nd.child_slots.set(v as usize, Some(j));
                nd.ptrbitarr = nd.ptrbitarr | (1u64 << (v as u64));
                proof {
                    let new_nodes = self.nodes@;
                    let onodes = old_self.nodes@;
                    assert(new_nodes.len() == onodes.len() + 1);
                    assert(new_nodes[j as int] == onodes.push(fresh)[j as int]);
                    assert(new_nodes[j as int].child_slots@.len() == pow2(stride_next as nat));
                    // bitmap of the linking node
                    assert forall|w: int|
                        0 <= w < new_nodes[n as int].child_slots@.len() implies (u64_bit(
                        new_nodes[n as int].ptrbitarr,
                        w as u64,
                    ) <==> new_nodes[n as int].child_slots@[w] is Some) by {
                        lemma2_to64();
                        lemma_u64_set_bit(onodes[n as int].ptrbitarr, v as u64, w as u64);
                        assert(old_self.node_wf(n as int));
                    }
                    // every old node is still well-formed
                    assert forall|m: int| 0 <= m < new_nodes.len() implies self.node_wf(m) by {
                        if m < onodes.len() {
                            assert(old_self.node_wf(m));
                            assert forall|w: int|
                                0 <= w < new_nodes[m].child_slots@.len() implies self
                                .child_link_ok(m, w) by {
                                assert(old_self.child_link_ok(m, w));
                                if m == n as int && w == v as int {
                                    assert(new_nodes[m].child_slots@[w] == Some(j));
                                    lemma_take_decompose(p, c, c + s);
                                } else {
                                    assert(new_nodes[m].child_slots@[w]
                                        == onodes[m].child_slots@[w]);
                                }
                            }
                            assert forall|rem: nat, w: nat|
                                rem <= new_nodes[m].stride as nat && w < pow2(rem) implies self
                                .pfx_slot_ok(m, rem, w) by {
                                assert(old_self.pfx_slot_ok(m, rem, w));
                            }
                        } else {
                            // the fresh node
                            assert(m == j as int);
                            assert forall|i: int|
                                0 <= i < new_nodes[m].pfx_slots@.len() implies (u64_bit(
                                new_nodes[m].pfxbitarr,
                                i as u64,
                            ) <==> new_nodes[m].pfx_slots@[i] is Some) by {
                                lemma2_to64();
                                lemma_u64_zero_bit(i as u64);
                            }
                            assert forall|w: int|
                                0 <= w < new_nodes[m].child_slots@.len() implies (u64_bit(
                                new_nodes[m].ptrbitarr,
                                w as u64,
                            ) <==> new_nodes[m].child_slots@[w] is Some) by {
                                lemma2_to64();
                                lemma_u64_zero_bit(w as u64);
                            }
                            assert forall|rem: nat, w: nat|
                                rem <= new_nodes[m].stride as nat && w < pow2(rem) implies self
                                .pfx_slot_ok(m, rem, w) by {
                                lemma_heap_idx_bound(rem, w, new_nodes[m].stride as nat);
                            }
                            assert(self.node_wf(m));
                        }
                    }
                    // descents of old nodes and entries are unchanged
                    assert(self.nodes_wf());
                    assert forall|m: int| 0 <= m < new_nodes.len() implies #[trigger] descend(
                        new_nodes,
                        new_nodes[m].path@,
                        new_nodes[m].level as int,
                    ) == Some(m) by {
                        if m < onodes.len() {
                            assert(old_self.node_wf(m));
                            assert(old_self.node_wf(0));
                            assert(new_nodes[m].path@ == onodes[m].path@);
                            assert(new_nodes[m].level == onodes[m].level);
                            assert(descend(onodes, onodes[m].path@, onodes[m].level as int)
                                == Some(m));
                            assert(onodes[m].path@.len() == cum(
                                old_self.strides@,
                                onodes[m].level as int,
                            ));
                            old_self.lemma_descend_link(
                                new_nodes,
                                n as int,
                                v as int,
                                0,
                                onodes[m].path@,
                                onodes[m].level as int,
                            );
                        } else {
                            // the fresh node: reach its parent, then step
                            old_self.lemma_descend_link(
                                new_nodes,
                                n as int,
                                v as int,
                                0,
                                p,
                                level,
                            );
                            assert(descend(new_nodes, p, level) == Some(n as int));
                            self.lemma_descend_split(p, level, 1);
                            assert(descend_from(new_nodes, j as int, p, 0) == Some(j as int));
                            assert(descend_from(new_nodes, n as int, p, 1) == Some(j as int));
                            assert(descend(new_nodes, p, level + 1) == Some(j as int));
                            assert(m == j as int);
                            self.lemma_descend_agree(0, p, new_nodes[m].path@, level + 1);
                            assert(new_nodes[m].path@.take(cum(self.strides@, level + 1))
                                =~= new_nodes[m].path@);
                            assert(p.take(cum(self.strides@, level + 1)) == new_nodes[m].path@);
                        }
                    }
                    // lookups are unchanged
                    assert forall|q: Seq<bool>|
                        q.len() <= old_self.width() implies #[trigger] self.lookup(q) == old_self
                        .lookup(q) by {
                        let kq = term_level(self.strides@, q.len() as int);
                        lemma_term_level(self.strides@, old_self.width(), q.len() as int);
                        assert(old_self.node_wf(0));
                        assert(cum(self.strides@, 0) == 0);
                        assert(old_self.nodes@[0].path@ =~= q.take(0));
                        old_self.lemma_descend_path(0, q, kq);
                        old_self.lemma_descend_link(new_nodes, n as int, v as int, 0, q, kq);
                        match descend(onodes, q, kq) {
                            Some(m) => {
                                assert(descend(new_nodes, q, kq) == Some(m));
                                assert(0 <= m < onodes.len());
                                if m == n as int {
                                    assert(new_nodes[m].pfx_slots@ == onodes[m].pfx_slots@);
                                    assert(new_nodes[m].consumed == onodes[m].consumed);
                                } else {
                                    assert(new_nodes[m] == onodes[m]);
                                }
                            },
                            None => {
                                assert(old_self.lookup(q) is None);
                                if descend(new_nodes, q, kq) is Some {
                                    let m2 = descend(new_nodes, q, kq)->0;
                                    assert(m2 == j as int);
                                    assert(old_self.nodes@[0].level == 0);
                                    assert(old_self.nodes@[n as int].level as int == level);
                                    assert(kq == level + 1);
                                    let fd = new_nodes[m2];
                                    assert(fd.consumed as int == cum(self.strides@, kq));
                                    let rem = (q.len() - fd.consumed as int) as nat;
                                    let w = seq_val(
                                        q.subrange(fd.consumed as int, q.len() as int),
                                    );
                                    lemma_seq_val_bound(
                                        q.subrange(fd.consumed as int, q.len() as int),
                                    );
                                    assert(fd.stride == self.strides@[kq]);
                                    assert(rem <= fd.stride as nat);
                                    lemma_heap_idx_bound(rem, w, fd.stride as nat);
                                    assert(fd.pfx_slots@[pow2(rem) - 1 + w] is None);
                                    assert(self.lookup(q) is None);
                                }
                            },
                        }
                    }
                    // the stored entries still resolve
                    assert forall|e: int| 0 <= e < self.entries@.len() implies self.entry_ok(
                        e,
                    ) by {
                        assert(old_self.entry_ok(e));
                        assert(self.entries@[e].prefix@.len() <= old_self.width());
                        assert(self.lookup(self.entries@[e].prefix@) == old_self.lookup(
                            self.entries@[e].prefix@,
                        ));
                    }
                    assert(self.wf());
                    assert(descend(new_nodes, p, level + 1) == Some(j as int)) by {
                        old_self.lemma_descend_link(new_nodes, n as int, v as int, 0, p, level);
                        self.lemma_descend_split(p, level, 1);
                    }
                }
                j
            },
        }
    }
}


impl<M: Meta> TreeBitMap<M> {
    /// Walks from the root to the terminal level of the prefix, allocating
    /// and linking nodes where the path does not exist yet.  The set of
    /// stored prefixes is untouched.
    fn ensure_path(&mut self, pfx: &PrefixId) -> (n: usize)
        requires
            old(self).wf(),
            pfx.is_valid(),
            pfx.fam == old(self).fam,
        ensures
            final (self).wf(),
            final (self).fam == old(self).fam,
            final (self).strides@ == old(self).strides@,
            final (self).entries@ == old(self).entries@,
            final (self).withdrawn_muis@ == old(self).withdrawn_muis@,
            final (self).nodes@.len() >= old(self).nodes@.len(),
            final (self).nodes@.len() <= old(self).nodes@.len() + old(self).strides@.len(),
            forall|q: Seq<bool>|
                q.len() <= old(self).width() ==> #[trigger] final (self).lookup(q) == old(
                    self,
                ).lookup(q),
            ({
                let k = term_level(old(self).strides@, pfx@.len() as int);
                &&& (n as int) < final (self).nodes@.len()
                &&& final (self).nodes@[n as int].level as int == k
                &&& final (self).nodes@[n as int].consumed as int == cum(old(self).strides@, k)
                &&& final (self).nodes@[n as int].path@ == pfx@.take(
                    final (self).nodes@[n as int].consumed as int,
                )
                &&& descend(final (self).nodes@, pfx@, k) == Some(n as int)
            }),
    {
        let ghost p = pfx@;
        let len: u8 = pfx.len;
        let mut n: usize = 0;
        let mut level: usize = 0;
        let mut c: u8 = 0;
        proof {
            lemma_term_level(self.strides@, self.width(), len as int);
            assert(p.len() == len as int);
            assert(self.nodes@[0].path@ =~= p.take(0));
            assert(self.node_wf(0));
            assert(cum(self.strides@, 0) == 0);
        }
        loop
            invariant
                self.wf(),
                pfx.is_valid(),
                pfx.fam == self.fam,
                self.fam == old(self).fam,
                self.strides@ == old(self).strides@,
                self.entries@ == old(self).entries@,
                self.withdrawn_muis@ == old(self).withdrawn_muis@,
                self.nodes@.len() >= old(self).nodes@.len(),
                self.nodes@.len() <= old(self).nodes@.len() + level as int,
                forall|q: Seq<bool>|
                    q.len() <= old(self).width() ==> #[trigger] self.lookup(q) == old(
                        self,
                    ).lookup(q),
                p == pfx@,
                len == pfx.len,
                p.len() == len as int,
                (n as int) < self.nodes@.len(),
                self.nodes@[n as int].level == level,
                level < self.strides@.len(),
                c as int == cum(self.strides@, level as int),
                c <= len,
                self.nodes@[n as int].consumed == c,
                self.nodes@[n as int].path@ == p.take(c as int),
                descend(self.nodes@, p, level as int) == Some(n as int),
                term_level(self.strides@, len as int) == term_level_from(
                    self.strides@,
                    len as int,
                    level as int,
                ),
            decreases self.strides@.len() - level as int,
        {
            let s: u8 = self.strides[level];
            proof {
                assert(self.node_wf(n as int));
            }
            let rem: u8 = len - c;
            if rem <= s {
                proof {
                    assert(term_level_from(self.strides@, len as int, level as int)
                        == level as int);
                }
                return n;
            }
            let v = pfx_chunk(pfx, c, s);
            proof {
                lemma_seq_val_bound(p.subrange(c as int, c as int + s as int));
                assert(cum(self.strides@, level as int + 1) == cum(self.strides@, level as int)
                    + self.strides@[level as int]);
                lemma_term_level_from(self.strides@, self.width(), len as int, level as int + 1);
                assert(term_level_from(self.strides@, len as int, level as int)
                    == term_level_from(self.strides@, len as int, level as int + 1));
            }
            let j = self.ensure_child(n, v, Ghost(p));
            proof {
                assert(self.nodes@[j as int].path@ == p.take(c as int + s as int));
            }
            n = j;
            level = level + 1;
            c = c + s;
        }
    }

    /// Inserts or replaces the record for `(prefix, record.multi_uniq_id)`.
    /// A new prefix gains a fresh table entry; an existing one has the
    /// record upserted into its entry and its path selection marked stale.
    pub fn insert_rec(&mut self, pfx: &PrefixId, rec: Record<M>) -> (r: UpsertReport)
        requires
            old(self).wf(),
            pfx.is_valid(),
            pfx.fam == old(self).fam,
        ensures
            final (self).wf(),
            final (self).fam == old(self).fam,
            final (self).strides@ == old(self).strides@,
            final (self).withdrawn_muis@ == old(self).withdrawn_muis@,
            final (self).nodes@.len() >= old(self).nodes@.len(),
            final (self).nodes@.len() <= old(self).nodes@.len() + old(self).strides@.len(),
            r.cas_count == 0,
            r.prefix_new == !old(self).has_pfx(pfx@),
            r.prefix_new ==> r.mui_count == 1,
            !r.prefix_new ==> ({
                let e = old(self).idx_of(pfx@);
                let n = final (self).entries@[e]@.records.len();
                r.mui_count as int == (if n <= u32::MAX {
                    n as int
                } else {
                    u32::MAX as int
                })
            }),
            r.mui_new || !r.prefix_new,
            final (self).has_pfx(pfx@),
            !old(self).has_pfx(pfx@) ==> {
                &&& r.mui_new
                &&& final (self).entries@.len() == old(self).entries@.len() + 1
                &&& final (self).entries@.take(old(self).entries@.len() as int) == old(
                    self,
                ).entries@
                &&& ({
                    let en = final (self).entries@[old(self).entries@.len() as int];
                    &&& en.prefix == *pfx
                    &&& en@.records =~= seq![rec]
                    &&& en@.withdrawn =~= Set::<u32>::empty()
                    &&& en@.best is None
                    &&& en@.backup is None
                    &&& en@.seq == 0
                    &&& en@.sel_tbi is None
                    &&& en@.stale
                })
            },
            old(self).has_pfx(pfx@) ==> {
                let e = old(self).idx_of(pfx@);
                let oldE = old(self).entries@[e];
                let newE = final (self).entries@[e];
                &&& final (self).entries@ == old(self).entries@.update(e, newE)
                &&& newE.prefix == oldE.prefix
                &&& r.mui_new == !crate::entry::has_mui(oldE@.records, rec.multi_uniq_id)
                &&& newE@.records == (if crate::entry::has_mui(oldE@.records, rec.multi_uniq_id) {
                    oldE@.records.update(
                        crate::entry::mui_idx(oldE@.records, rec.multi_uniq_id),
                        rec,
                    )
                } else {
                    oldE@.records.push(rec)
                })
                &&& newE@.withdrawn == oldE@.withdrawn
                &&& newE@.best == oldE@.best
                &&& newE@.backup == oldE@.backup
                &&& newE@.seq == oldE@.seq
                &&& newE@.sel_tbi == oldE@.sel_tbi
                &&& newE@.stale
            },
    {
        let ghost p = pfx@;
        let mui = rec.multi_uniq_id;
        let n = self.ensure_path(pfx);
        let ghost mid = *self;
        let c = self.nodes[n].consumed;
        proof {
            lemma_term_level(self.strides@, self.width(), p.len() as int);
            assert(self.node_wf(n as int));
            assert(3 <= self.strides@[self.nodes@[n as int].level as int] <= 5);
        }
        let rem: u8 = pfx.len - c;
        let v = pfx_chunk(pfx, c, rem);
        proof {
            lemma_heap_idx_bound(rem as nat, v as nat, self.nodes@[n as int].stride as nat);
            lemma2_to64();
            let sp1: nat = (self.nodes@[n as int].stride + 1) as nat;
            if sp1 < 6 {
                vstd::arithmetic::power2::lemma_pow2_strictly_increases(sp1, 6);
            }
            assert(p.subrange(c as int, p.len() as int) =~= p.subrange(
                c as int,
                c as int + rem as int,
            ));
        }
        let i = (pow2_u64(rem) - 1 + v as u64) as usize;
        proof {
            assert(mid.lookup(p) == mid.nodes@[n as int].pfx_slots@[i as int]);
        }
        let slot = self.nodes[n].pfx_slots[i];
        match slot {
            Some(e) => {
                proof {
                    assert(mid.pfx_slot_ok(
                        n as int,
                        rem as nat,
                        seq_val(p.subrange(c as int, p.len() as int)),
                    ));
                    mid.lemma_lookup_sound(p);
                    assert(mid.entries@[e as int].prefix@ == p);
                    assert(mid.has_pfx(p));
                    // the chosen index equals this one
                    let e2 = mid.idx_of(p);
                    if e2 != e as int {
                        mid.lemma_entries_distinct(e2, e as int);
                        assert(false);
                    }
                }
                proof {
                    assert(mid.entry_ok(e as int));
                }
                let ent = entry_mut(&mut self.entries, e);
                proof {
                    assert(ent.wf());
                }
                let mui_new = ent.upsert(rec);
                let cnt = ent.records.len();
                let mui_count: u32 = if cnt < 0xffff_ffff_usize {
                    cnt as u32
                } else {
                    0xffff_ffff_u32
                };
                proof {
                    let e_i = e as int;
                    assert(self.entries@ == mid.entries@.update(e_i, self.entries@[e_i]));
                    // structure is untouched, so every lookup is unchanged
                    assert forall|m: int| 0 <= m < self.nodes@.len() implies self.node_wf(m) by {
                        assert(mid.node_wf(m));
                        assert forall|w: int|
                            0 <= w < self.nodes@[m].child_slots@.len() implies self
                            .child_link_ok(m, w) by {
                            assert(mid.child_link_ok(m, w));
                        }
                        assert forall|rem2: nat, w: nat|
                            rem2 <= self.nodes@[m].stride as nat && w < pow2(rem2) implies self
                            .pfx_slot_ok(m, rem2, w) by {
                            assert(mid.pfx_slot_ok(m, rem2, w));
                            let idx = pow2(rem2) - 1 + w;
                            match self.nodes@[m].pfx_slots@[idx as int] {
                                None => {},
                                Some(e3) => {
                                    assert(self.entries@[e3 as int].prefix
                                        == mid.entries@[e3 as int].prefix);
                                },
                            }
                        }
                    }
                    assert forall|e3: int| 0 <= e3 < self.entries@.len() implies self.entry_ok(
                        e3,
                    ) by {
                        assert(mid.entry_ok(e3));
                        assert(self.entries@[e3].prefix == mid.entries@[e3].prefix);
                        assert(self.lookup(self.entries@[e3].prefix@) == mid.lookup(
                            mid.entries@[e3].prefix@,
                        ));
                        assert(self.withdrawn_muis == mid.withdrawn_muis);
                        if e3 == e_i {
                            assert(self.entries@[e3].stale);
                            crate::entry::lemma_selection_ok_stale(
                                self.entries@[e3],
                                self.withdrawn_muis@,
                            );
                        } else {
                            assert(self.entries@[e3] == mid.entries@[e3]);
                        }
                    }
                    assert(self.wf());
                    assert forall|q: Seq<bool>|
                        q.len() <= old(self).width() implies #[trigger] self.lookup(q) == old(
                        self,
                    ).lookup(q) by {
                        assert(mid.lookup(q) == old(self).lookup(q));
                    }
                    assert(old(self).has_pfx(p)) by {
                        assert(old(self).lookup(p) == mid.lookup(p));
                        old(self).lemma_lookup_sound(p);
                    }
                    // the table position is the same in the old state
                    let eo = old(self).idx_of(p);
                    assert(old(self).entries@ == mid.entries@);
                    if eo != e as int {
                        mid.lemma_entries_distinct(eo, e as int);
                        assert(false);
                    }
                    assert(self.has_pfx(p)) by {
                        assert(self.entries@[e as int].prefix@ == p);
                    }
                }
                UpsertReport { prefix_new: false, mui_new, cas_count: 0, mui_count }
            },
            None => {
                proof {
                    mid.lemma_lookup_sound(p);
                    assert(!mid.has_pfx(p));
                    assert(!old(self).has_pfx(p)) by {
                        if old(self).has_pfx(p) {
                            let eo = old(self).idx_of(p);
                            assert(old(self).entry_ok(eo));
                            assert(old(self).lookup(p) == mid.lookup(p));
                            assert(false);
                        }
                    }
                }
                let e = self.attach_entry(n, rem, v, i, pfx, rec);
                proof {
                    assert forall|q: Seq<bool>|
                        q.len() <= old(self).width() implies #[trigger] self.lookup(q) == (if q
                        == p {
                        Some(e)
                    } else {
                        old(self).lookup(q)
                    }) by {
                        if q != p {
                            assert(self.lookup(q) == mid.lookup(q));
                            assert(mid.lookup(q) == old(self).lookup(q));
                        }
                    }
                    assert(self.entries@.take(old(self).entries@.len() as int)
                        =~= old(self).entries@);
                }
                UpsertReport { prefix_new: true, mui_new: true, cas_count: 0, mui_count: 1 }
            },
        }
    }
}


impl<M: Meta> TreeBitMap<M> {
    /// Installs a fresh table entry for a prefix that terminates in node `n`
    /// at heap position `(rem, v)`, then publishes the slot and its bitmap
    /// bit.
    #[verifier::spinoff_prover]
    #[verifier::rlimit(100)]
    fn attach_entry(
        &mut self,
        n: usize,
        rem: u8,
        v: u8,
        i: usize,
        pfx: &PrefixId,
        rec: Record<M>,
    ) -> (e: usize)
        requires
            old(self).wf(),
            pfx.is_valid(),
            pfx.fam == old(self).fam,
            (n as int) < old(self).nodes@.len(),
            old(self).nodes@[n as int].level as int == term_level(
                old(self).strides@,
                pfx@.len() as int,
            ),
            descend(old(self).nodes@, pfx@, old(self).nodes@[n as int].level as int) == Some(
                n as int,
            ),
            old(self).nodes@[n as int].path@ == pfx@.take(
                old(self).nodes@[n as int].consumed as int,
            ),
            rem as int == pfx@.len() - old(self).nodes@[n as int].consumed as int,
            rem <= old(self).nodes@[n as int].stride,
            (v as nat) == seq_val(
                pfx@.subrange(old(self).nodes@[n as int].consumed as int, pfx@.len() as int),
            ),
            (v as nat) < pow2(rem as nat),
            i as int == pow2(rem as nat) - 1 + v as nat,
            i < 64,
            old(self).nodes@[n as int].pfx_slots@[i as int] is None,
        ensures
            final (self).wf(),
            final (self).fam == old(self).fam,
            final (self).strides@ == old(self).strides@,
            final (self).withdrawn_muis@ == old(self).withdrawn_muis@,
            final (self).nodes@.len() == old(self).nodes@.len(),
            e as int == old(self).entries@.len(),
            final (self).entries@.len() == old(self).entries@.len() + 1,
            forall|e2: int|
                0 <= e2 < old(self).entries@.len() ==> #[trigger] final (self).entries@[e2]
                    == old(self).entries@[e2],
            ({
                let en = final (self).entries@[e as int];
                &&& en.prefix == *pfx
                &&& en@.records =~= seq![rec]
                &&& en@.withdrawn =~= Set::<u32>::empty()
                &&& en@.best is None
                &&& en@.backup is None
                &&& en@.seq == 0
                &&& en@.sel_tbi is None
                &&& en@.stale
            }),
            final (self).lookup(pfx@) == Some(e),
            final (self).has_pfx(pfx@),
            forall|q: Seq<bool>|
                q.len() <= old(self).width() && q != pfx@ ==> #[trigger] final (self).lookup(q)
                    == old(self).lookup(q),
    {
        let ghost p = pfx@;
        let ghost mid = *self;
        let ghost c = self.nodes@[n as int].consumed as int;
        proof {
            assert(mid.node_wf(n as int));
            lemma_heap_idx_bound(rem as nat, v as nat, mid.nodes@[n as int].stride as nat);
        }
        let e = self.entries.len();
        self.entries.push(PrefixEntry::new_entry(*pfx, rec));
        let nd = node_mut(&mut self.nodes, n);
        nd.pfx_slots.set(i, Some(e));
        nd.pfxbitarr = nd.pfxbitarr | (1u64 << (i as u64));
        proof {
            let new_nodes = self.nodes@;
            let v0 = seq_val(p.subrange(c, p.len() as int));
            assert(v0 == v as nat);
            let k = term_level(self.strides@, p.len() as int);
            assert(mid.node_wf(n as int));
            // all nodes stay well-formed
            assert forall|m: int| 0 <= m < new_nodes.len() implies self.node_wf(m) by {
                assert(mid.node_wf(m));
                assert forall|w: int|
                    0 <= w < new_nodes[m].child_slots@.len() implies self.child_link_ok(
                    m,
                    w,
                ) by {
                    assert(mid.child_link_ok(m, w));
                }
                if m == n as int {
                    assert forall|idx: int|
                        0 <= idx < new_nodes[m].pfx_slots@.len() implies (u64_bit(
                        new_nodes[m].pfxbitarr,
                        idx as u64,
                    ) <==> new_nodes[m].pfx_slots@[idx] is Some) by {
                        lemma2_to64();
                        lemma_u64_set_bit(mid.nodes@[m].pfxbitarr, i as u64, idx as u64);
                    }
                    assert forall|rem2: nat, w: nat|
                        rem2 <= new_nodes[m].stride as nat && w < pow2(rem2) implies self
                        .pfx_slot_ok(m, rem2, w) by {
                        let idx = pow2(rem2) - 1 + w;
                        if rem2 == rem as nat && w == v0 {
                            assert(new_nodes[m].pfx_slots@[idx as int] == Some(e));
                            assert(self.entries@[e as int].prefix == *pfx);
                            assert(self.entries@[e as int].prefix@.take(c) =~= p.take(c));
                            assert(self.entries@[e as int].prefix@.skip(c) =~= p.subrange(
                                c,
                                p.len() as int,
                            ));
                        } else {
                            lemma_heap_idx_inj(rem2, w, rem as nat, v0);
                            lemma_heap_idx_bound(rem2, w, new_nodes[m].stride as nat);
                            assert(new_nodes[m].pfx_slots@[idx as int]
                                == mid.nodes@[m].pfx_slots@[idx as int]);
                            assert(mid.pfx_slot_ok(m, rem2, w));
                            match new_nodes[m].pfx_slots@[idx as int] {
                                None => {},
                                Some(e3) => {
                                    assert(self.entries@[e3 as int].prefix
                                        == mid.entries@[e3 as int].prefix);
                                },
                            }
                        }
                    }
                    if new_nodes[m].level != 0 {
                        lemma_term_level(mid.strides@, mid.width(), p.len() as int);
                        lemma_pow2_ge2(rem as nat);
                        assert(pow2(rem as nat) - 1 + v0 >= 1);
                        assert(new_nodes[m].pfx_slots@[0] == mid.nodes@[m].pfx_slots@[0]);
                    }
                } else {
                    assert(new_nodes[m] == mid.nodes@[m]);
                    assert forall|rem2: nat, w: nat|
                        rem2 <= new_nodes[m].stride as nat && w < pow2(rem2) implies self
                        .pfx_slot_ok(m, rem2, w) by {
                        assert(mid.pfx_slot_ok(m, rem2, w));
                        let idx = pow2(rem2) - 1 + w;
                        match new_nodes[m].pfx_slots@[idx as int] {
                            None => {},
                            Some(e3) => {
                                assert(self.entries@[e3 as int].prefix
                                    == mid.entries@[e3 as int].prefix);
                            },
                        }
                    }
                }
            }
            assert(self.nodes_wf());
            // descents are unchanged
            assert forall|q: Seq<bool>, kk: int|
                0 <= kk <= self.strides@.len() && q.len() >= cum(
                    self.strides@,
                    kk,
                ) implies #[trigger] descend(new_nodes, q, kk) == descend(mid.nodes@, q, kk) by {
                assert(mid.node_wf(0));
                mid.lemma_descend_update_slots(new_nodes, n as int, 0, q, kk);
            }
            assert forall|m: int| 0 <= m < new_nodes.len() implies #[trigger] descend(
                new_nodes,
                new_nodes[m].path@,
                new_nodes[m].level as int,
            ) == Some(m) by {
                assert(mid.node_wf(m));
                assert(new_nodes[m].path@ == mid.nodes@[m].path@);
                assert(new_nodes[m].level == mid.nodes@[m].level);
                assert(new_nodes[m].path@.len() == cum(
                    self.strides@,
                    new_nodes[m].level as int,
                ));
                assert(descend(new_nodes, new_nodes[m].path@, new_nodes[m].level as int)
                    == descend(mid.nodes@, new_nodes[m].path@, new_nodes[m].level as int));
                assert(descend(mid.nodes@, mid.nodes@[m].path@, mid.nodes@[m].level as int)
                    == Some(m));
            }
            // any other prefix resolves as before
            assert forall|q: Seq<bool>|
                q.len() <= self.width() && q != p implies #[trigger] self.lookup(q) == mid
                .lookup(q) by {
                let kq = term_level(self.strides@, q.len() as int);
                lemma_term_level(self.strides@, self.width(), q.len() as int);
                assert(descend(new_nodes, q, kq) == descend(mid.nodes@, q, kq));
                match descend(mid.nodes@, q, kq) {
                    None => {},
                    Some(m) => {
                        assert(mid.node_wf(0));
                        assert(cum(mid.strides@, 0) == 0);
                        assert(mid.nodes@[0].path@ =~= q.take(0));
                        mid.lemma_descend_path(0, q, kq);
                        if m == n as int {
                            let remq = (q.len() - mid.nodes@[m].consumed as int) as nat;
                            let wq = seq_val(
                                q.subrange(mid.nodes@[m].consumed as int, q.len() as int),
                            );
                            lemma_seq_val_bound(
                                q.subrange(mid.nodes@[m].consumed as int, q.len() as int),
                            );
                            if remq == rem as nat && wq == v0 {
                                assert(q.take(c) == mid.nodes@[m].path@);
                                assert(p.take(c) == mid.nodes@[m].path@);
                                lemma_take_decompose(q, c, q.len() as int);
                                lemma_take_decompose(p, c, p.len() as int);
                                lemma_seq_val_inj(
                                    q.subrange(c, q.len() as int),
                                    p.subrange(c, p.len() as int),
                                );
                                assert(q =~= p);
                                assert(false);
                            } else {
                                assert(mid.node_wf(m));
                                assert(mid.nodes@[m].stride == mid.strides@[kq]);
                                assert(remq <= mid.nodes@[m].stride as nat);
                                lemma_heap_idx_inj(remq, wq, rem as nat, v0);
                                lemma_heap_idx_bound(remq, wq, mid.nodes@[m].stride as nat);
                                assert(new_nodes[m].pfx_slots@[pow2(remq) - 1 + wq]
                                    == mid.nodes@[m].pfx_slots@[pow2(remq) - 1 + wq]);
                            }
                        } else {
                            assert(new_nodes[m] == mid.nodes@[m]);
                        }
                    },
                }
            }
            assert(self.lookup(p) == Some(e)) by {
                lemma_term_level(self.strides@, self.width(), p.len() as int);
                assert(descend(new_nodes, p, k) == descend(mid.nodes@, p, k));
                assert(new_nodes[n as int].pfx_slots@[i as int] == Some(e));
            }
            assert forall|e3: int| 0 <= e3 < self.entries@.len() implies self.entry_ok(e3) by {
                assert(self.withdrawn_muis == mid.withdrawn_muis);
                if e3 < mid.entries@.len() {
                    assert(mid.entry_ok(e3));
                    assert(self.entries@[e3] == mid.entries@[e3]);
                    assert(mid.entries@[e3].prefix@ != p) by {
                        if mid.entries@[e3].prefix@ == p {
                            assert(mid.has_pfx(p));
                            mid.lemma_lookup_sound(p);
                            assert(false);
                        }
                    }
                    assert(self.lookup(self.entries@[e3].prefix@) == mid.lookup(
                        mid.entries@[e3].prefix@,
                    ));
                } else {
                    assert(e3 == e as int);
                    assert(self.entries@[e3].prefix@ == p);
                    assert(self.lookup(p) == Some(e));
                    assert(self.entries@[e3].stale);
                    crate::entry::lemma_selection_ok_stale(
                        self.entries@[e3],
                        self.withdrawn_muis@,
                    );
                }
            }
            assert(self.wf());
            assert(self.has_pfx(p)) by {
                assert(self.entries@[e as int].prefix@ == p);
            }
        }
        e
    }
}


/// Inverting the terminal level: a length that lands in level `k`'s span
/// terminates there.
pub proof fn lemma_term_level_at(strides: Seq<u8>, width: nat, len2: int, k: int)
    requires
        strides_wf(strides, width),
        0 <= k < strides.len(),
        0 <= len2,
        len2 <= cum(strides, k) + strides[k],
        len2 > cum(strides, k) || k == 0,
    ensures
        term_level(strides, len2) == k,
{
    lemma_term_level_at_from(strides, width, len2, k, 0);
}

proof fn lemma_term_level_at_from(strides: Seq<u8>, width: nat, len2: int, k: int, j: int)
    requires
        strides_wf(strides, width),
        0 <= j <= k < strides.len(),
        0 <= len2,
        len2 <= cum(strides, k) + strides[k],
        len2 > cum(strides, k) || k == 0,
    ensures
        term_level_from(strides, len2, j) == k,
    decreases k - j,
{
    if j == k {
    } else {
        lemma_cum_mono(strides, j + 1, k);
        assert(cum(strides, j + 1) == cum(strides, j) + strides[j]);
        assert(len2 > cum(strides, j) + strides[j]);
        lemma_term_level_at_from(strides, width, len2, k, j + 1);
    }
}

impl<M: Meta> TreeBitMap<M> {
    /// Some stored prefix covers the query.
    pub open spec fn has_cover(self, q: Seq<bool>) -> bool {
        exists|e: int|
            0 <= e < self.entries@.len() && covers(#[trigger] self.entries@[e].prefix@, q)
    }

    /// Entry `e` is the longest stored prefix covering the query.
    pub open spec fn is_lpm(self, e: int, q: Seq<bool>) -> bool {
        &&& 0 <= e < self.entries@.len()
        &&& covers(self.entries@[e].prefix@, q)
        &&& forall|e2: int|
            0 <= e2 < self.entries@.len() && covers(#[trigger] self.entries@[e2].prefix@, q)
                ==> self.entries@[e2].prefix@.len() <= self.entries@[e].prefix@.len()
    }

    /// The running result of the match walk: the longest cover among stored
    /// prefixes of length at most `bound`.
    pub open spec fn best_upto(self, q: Seq<bool>, bound: int, r: Option<usize>) -> bool {
        match r {
            None => forall|e2: int|
                0 <= e2 < self.entries@.len() && covers(#[trigger] self.entries@[e2].prefix@, q)
                    ==> self.entries@[e2].prefix@.len() > bound,
            Some(e) => {
                &&& 0 <= (e as int) < self.entries@.len()
                &&& covers(self.entries@[e as int].prefix@, q)
                &&& self.entries@[e as int].prefix@.len() <= bound
                &&& forall|e2: int|
                    0 <= e2 < self.entries@.len() && covers(
                        #[trigger] self.entries@[e2].prefix@,
                        q,
                    ) && self.entries@[e2].prefix@.len() <= bound
                        ==> self.entries@[e2].prefix@.len()
                        <= self.entries@[e as int].prefix@.len()
            },
        }
    }

    /// No stored prefix is exactly the first `l2` bits of `q`.
    proof fn lemma_no_cover_at(self, q: Seq<bool>, n: int, r2: int, l2: int)
        requires
            self.wf(),
            q.len() <= self.width(),
            0 <= n < self.nodes@.len(),
            self.nodes@[n].path@ == q.take(self.nodes@[n].consumed as int),
            descend(self.nodes@, q, self.nodes@[n].level as int) == Some(n),
            l2 == self.nodes@[n].consumed as int + r2,
            0 <= r2 <= self.nodes@[n].stride as int,
            l2 <= q.len(),
            r2 > 0 || self.nodes@[n].level == 0,
            self.nodes@[n].pfx_slots@[pow2(r2 as nat) - 1 + seq_val(
                q.subrange(self.nodes@[n].consumed as int, l2),
            ) as int] is None,
        ensures
            forall|e2: int|
                0 <= e2 < self.entries@.len() ==> !(covers(
                    #[trigger] self.entries@[e2].prefix@,
                    q,
                ) && self.entries@[e2].prefix@.len() == l2),
    {
        let nd = self.nodes@[n];
        let c = nd.consumed as int;
        let q2 = q.take(l2);
        assert(self.node_wf(n));
        // q2 would terminate exactly at this node and slot
        lemma_term_level_at(self.strides@, self.width(), l2, nd.level as int);
        assert(q2.len() == l2);
        lemma_take_decompose(q, c, l2);
        assert(q2.take(c) == q.take(c));
        self.lemma_descend_agree(0, q, q2, nd.level as int);
        assert(descend(self.nodes@, q2, nd.level as int) == Some(n));
        assert(q2.subrange(c, l2) =~= q.subrange(c, l2));
        assert(self.lookup(q2) is None);
        assert forall|e2: int|
            0 <= e2 < self.entries@.len() implies !(covers(
            #[trigger] self.entries@[e2].prefix@,
            q,
        ) && self.entries@[e2].prefix@.len() == l2) by {
            if covers(self.entries@[e2].prefix@, q) && self.entries@[e2].prefix@.len() == l2 {
                assert(self.entries@[e2].prefix@ == q2);
                assert(self.entry_ok(e2));
                assert(false);
            }
        }
    }

    /// Longest-prefix match: the table position of the longest stored prefix
    /// covering the query, including the query itself.
    pub fn lpm_entry(&self, pfx: &PrefixId) -> (r: Option<usize>)
        requires
            self.wf(),
            pfx.is_valid(),
            pfx.fam == self.fam,
        ensures
            match r {
                None => !self.has_cover(pfx@),
                Some(e) => self.is_lpm(e as int, pfx@),
            },
    {
        let ghost q = pfx@;
        let len: u8 = pfx.len;
        let mut best: Option<usize> = None;
        let mut n: usize = 0;
        let mut level: usize = 0;
        let mut c: u8 = 0;
        proof {
            lemma_term_level(self.strides@, self.width(), len as int);
            assert(q.len() == len as int);
            assert(self.nodes@[0].path@ =~= q.take(0));
            assert(self.node_wf(0));
            assert(cum(self.strides@, 0) == 0);
        }
        loop
            invariant
                self.wf(),
                pfx.is_valid(),
                pfx.fam == self.fam,
                q == pfx@,
                len == pfx.len,
                q.len() == len as int,
                (n as int) < self.nodes@.len(),
                self.nodes@[n as int].level == level,
                level < self.strides@.len(),
                c as int == cum(self.strides@, level as int),
                c <= len,
                self.nodes@[n as int].consumed == c,
                self.nodes@[n as int].path@ == q.take(c as int),
                descend(self.nodes@, q, level as int) == Some(n as int),
                level == 0 ==> self.best_upto(q, -1, best),
                level > 0 ==> self.best_upto(q, c as int, best),
            decreases self.strides@.len() - level as int,
        {
            let s: u8 = self.strides[level];
            proof {
                assert(self.node_wf(n as int));
                lemma2_to64();
                let sp1: nat = (s + 1) as nat;
                if sp1 < 6 {
                    vstd::arithmetic::power2::lemma_pow2_strictly_increases(sp1, 6);
                }
            }
            let rem: u8 = len - c;
            let hi: u8 = if rem <= s {
                rem
            } else {
                s
            };
            // scan the internal heap positions on the query's path, shortest
            // first; a later hit is a longer cover and wins
            let mut r2: u8 = 0;
            while r2 <= hi
                invariant
                    self.wf(),
                    q == pfx@,
                    len == pfx.len,
                    q.len() == len as int,
                    (n as int) < self.nodes@.len(),
                    self.nodes@[n as int].level == level,
                    level < self.strides@.len(),
                    c as int == cum(self.strides@, level as int),
                    c <= len,
                    s == self.nodes@[n as int].stride,
                    3 <= s <= 5,
                    hi <= s,
                    c as int + hi as int <= len as int,
                    self.nodes@[n as int].consumed == c,
                    self.nodes@[n as int].path@ == q.take(c as int),
                    descend(self.nodes@, q, level as int) == Some(n as int),
                    pfx.is_valid(),
                    pfx.fam == self.fam,
                    0 <= r2 <= hi + 1,
                    (r2 == 0 && level == 0) ==> self.best_upto(q, -1, best),
                    (r2 == 0 && level > 0) ==> self.best_upto(q, c as int, best),
                    r2 > 0 ==> self.best_upto(q, c as int + r2 as int - 1, best),
                decreases hi as int + 1 - r2 as int,
            {
                let skip_slot_zero = level > 0 && r2 == 0;
                if !skip_slot_zero {
                    let v = pfx_chunk(pfx, c, r2);
                    proof {
                        assert(self.node_wf(n as int));
                        lemma_heap_idx_bound(r2 as nat, v as nat, s as nat);
                        lemma2_to64();
                        let sp1: nat = (s + 1) as nat;
                        if sp1 < 6 {
                            vstd::arithmetic::power2::lemma_pow2_strictly_increases(sp1, 6);
                        }
                    }
                    let i = (pow2_u64(r2) - 1 + v as u64) as usize;
                    let slot = self.nodes[n].pfx_slots[i];
                    proof {
                        let l2 = c as int + r2 as int;
                        assert(self.pfx_slot_ok(n as int, r2 as nat, v as nat));
                        match slot {
                            Some(e) => {
                                // the slot's entry is exactly the cover of
                                // length l2
                                let en = self.entries@[e as int];
                                lemma_take_decompose(q, c as int, l2);
                                assert(en.prefix@ =~= en.prefix@.take(c as int)
                                    + en.prefix@.skip(c as int));
                                lemma_seq_val_inj(
                                    en.prefix@.skip(c as int),
                                    q.subrange(c as int, l2),
                                );
                                assert(en.prefix@ == q.take(l2));
                                assert(covers(en.prefix@, q));
                            },
                            None => {
                                self.lemma_no_cover_at(q, n as int, r2 as int, l2);
                            },
                        }
                    }
                    match slot {
                        Some(e) => {
                            best = Some(e);
                        },
                        None => {},
                    }
                }
                // at a non-root node the heap root holds no prefix: a cover
                // of exactly `c` bits was already seen one level up
                r2 = r2 + 1;
            }
            if rem <= s {
                proof {
                    assert(self.best_upto(q, len as int, best));
                }
                return best;
            }
            let v = pfx_chunk(pfx, c, s);
            proof {
                lemma_seq_val_bound(q.subrange(c as int, c as int + s as int));
                assert(self.child_link_ok(n as int, v as int));
            }
            let child = self.nodes[n].child_slots[v as usize];
            match child {
                None => {
                    proof {
                        // any longer cover would have to live below the
                        // missing child
                        assert(descend_from(self.nodes@, n as int, q, 1) is None);
                        self.lemma_descend_split(q, level as int, 1);
                        assert(cum(self.strides@, level as int + 1) == cum(
                            self.strides@,
                            level as int,
                        ) + self.strides@[level as int]);
                        assert forall|e2: int|
                            0 <= e2 < self.entries@.len() && covers(
                                #[trigger] self.entries@[e2].prefix@,
                                q,
                            ) implies self.entries@[e2].prefix@.len() <= c as int + s as int by {
                            let p2 = self.entries@[e2].prefix@;
                            if p2.len() > c as int + s as int {
                                assert(self.entry_ok(e2));
                                let k2 = term_level(self.strides@, p2.len() as int);
                                lemma_term_level(self.strides@, self.width(), p2.len() as int);
                                assert(k2 > level as int) by {
                                    if k2 <= level as int {
                                        lemma_cum_mono(self.strides@, k2 + 1, level as int + 1);
                                        assert(cum(self.strides@, k2 + 1) == cum(
                                            self.strides@,
                                            k2,
                                        ) + self.strides@[k2]);
                                        assert(false);
                                    }
                                }
                                assert(p2.take(cum(self.strides@, level as int + 1)) == q.take(
                                    cum(self.strides@, level as int + 1),
                                )) by {
                                    assert(p2 == q.take(p2.len() as int));
                                    lemma_take_decompose(q, c as int + s as int, p2.len() as int);
                                }
                                self.lemma_descend_agree(0, q, p2, level as int + 1);
                                self.lemma_descend_none_deeper(p2, level as int, k2);
                                assert(self.lookup(p2) is None);
                                assert(false);
                            }
                        }
                        assert(self.best_upto(q, len as int, best));
                    }
                    return best;
                },
                Some(j) => {
                    proof {
                        let jn = self.nodes@[j as int];
                        assert(self.node_wf(j as int));
                        lemma_take_decompose(q, c as int, c as int + s as int);
                        assert(jn.path@ =~= jn.path@.take(c as int) + jn.path@.skip(c as int));
                        lemma_seq_val_inj(
                            jn.path@.skip(c as int),
                            q.subrange(c as int, c as int + s as int),
                        );
                        assert(jn.path@ == q.take(c as int + s as int));
                        assert(cum(self.strides@, level as int + 1) == cum(
                            self.strides@,
                            level as int,
                        ) + self.strides@[level as int]);
                        self.lemma_descend_split(q, level as int, 1);
                        assert(descend_from(self.nodes@, j as int, q, 0) == Some(j as int));
                        assert(descend_from(self.nodes@, n as int, q, 1) == Some(j as int));
                    }
                    n = j;
                    level = level + 1;
                    c = c + s;
                },
            }
        }
    }
}


impl<M: Meta> TreeBitMap<M> {
    /// Entry `e` is a strictly more specific stored prefix of `q`.
    pub open spec fn is_more_specific(self, e: int, q: Seq<bool>) -> bool {
        &&& 0 <= e < self.entries@.len()
        &&& covers(q, self.entries@[e].prefix@)
        &&& self.entries@[e].prefix@.len() > q.len()
    }

    /// Entry `e` is a strictly less specific stored prefix of `q`.
    pub open spec fn is_less_specific(self, e: int, q: Seq<bool>) -> bool {
        &&& 0 <= e < self.entries@.len()
        &&& covers(self.entries@[e].prefix@, q)
        &&& self.entries@[e].prefix@.len() < q.len()
    }

    /// Entry `e` lives in the subtree rooted at node `j`: its prefix extends
    /// the node's path.
    pub open spec fn in_subtree(self, e: int, j: int) -> bool {
        &&& 0 <= e < self.entries@.len()
        &&& self.entries@[e].prefix@.len() > self.nodes@[j].consumed as int
        &&& self.entries@[e].prefix@.take(self.nodes@[j].consumed as int)
            == self.nodes@[j].path@
    }

    /// Collects every entry held in the internal prefix slots of node `j`.
    #[verifier::spinoff_prover]
    #[verifier::rlimit(100)]
    fn dump_node_slots(&self, j: usize, out: &mut Vec<usize>)
        requires
            self.wf(),
            (j as int) < self.nodes@.len(),
        ensures
            final (out)@.len() >= old(out)@.len(),
            final (out)@.take(old(out)@.len() as int) == old(out)@,
            forall|i: int|
                old(out)@.len() <= i < final (out)@.len() ==> self.in_subtree(
                    #[trigger] final (out)@[i] as int,
                    j as int,
                ) && self.entries@[final (out)@[i] as int].prefix@.len()
                    <= self.nodes@[j as int].consumed as int + self.nodes@[j as int].stride as int,
            forall|e: int|
                self.in_subtree(e, j as int) && self.entries@[e].prefix@.len()
                    <= self.nodes@[j as int].consumed as int
                    + self.nodes@[j as int].stride as int ==> final (out)@.skip(
                    old(out)@.len() as int,
                ).contains(e as usize),
            forall|i1: int, i2: int|
                old(out)@.len() <= i1 < i2 < final (out)@.len() ==> final (out)@[i1]
                    != final (out)@[i2],
    {
        proof {
            assert(self.node_wf(j as int));
        }
        let nd_level = self.nodes[j].level;
        let nd_consumed = self.nodes[j].consumed;
        let s: u8 = self.nodes[j].stride;
        let ghost c = nd_consumed as int;
        let ghost path = self.nodes@[j as int].path@;
        // internal prefix slots, shortest first
        let mut r2: u8 = 1;
        while r2 <= s
            invariant
                self.wf(),
                (j as int) < self.nodes@.len(),
                self.nodes@[j as int].level == nd_level,
                self.nodes@[j as int].consumed == nd_consumed,
                self.nodes@[j as int].stride == s,
                3 <= s <= 5,
                c == nd_consumed as int,
                path == self.nodes@[j as int].path@,
                path.len() == c,
                1 <= r2 <= s + 1,
                out@.len() >= old(out)@.len(),
                out@.take(old(out)@.len() as int) == old(out)@,
                forall|i: int|
                    old(out)@.len() <= i < out@.len() ==> self.in_subtree(
                        #[trigger] out@[i] as int,
                        j as int,
                    ) && self.entries@[out@[i] as int].prefix@.len() < c + r2,
                forall|e: int|
                    self.in_subtree(e, j as int) && self.entries@[e].prefix@.len() < c + r2
                        ==> out@.skip(old(out)@.len() as int).contains(e as usize),
                forall|i1: int, i2: int|
                    old(out)@.len() <= i1 < i2 < out@.len() ==> out@[i1] != out@[i2],
            decreases s as int + 1 - r2 as int,
        {
            let n_vals = pow2_u64(r2);
            let mut w: u64 = 0;
            while w < n_vals
                invariant
                    self.wf(),
                    (j as int) < self.nodes@.len(),
                    self.nodes@[j as int].level == nd_level,
                    self.nodes@[j as int].consumed == nd_consumed,
                    self.nodes@[j as int].stride == s,
                    3 <= s <= 5,
                    c == nd_consumed as int,
                    path == self.nodes@[j as int].path@,
                    path.len() == c,
                    1 <= r2 <= s,
                    n_vals as nat == pow2(r2 as nat),
                    0 <= w <= n_vals,
                    out@.len() >= old(out)@.len(),
                    out@.take(old(out)@.len() as int) == old(out)@,
                    forall|i: int|
                        old(out)@.len() <= i < out@.len() ==> self.in_subtree(
                            #[trigger] out@[i] as int,
                            j as int,
                        ) && (self.entries@[out@[i] as int].prefix@.len() < c + r2 || (
                        self.entries@[out@[i] as int].prefix@.len() == c + r2 && seq_val(
                            self.entries@[out@[i] as int].prefix@.skip(c),
                        ) < w as nat)),
                    forall|e: int|
                        self.in_subtree(e, j as int) && (self.entries@[e].prefix@.len() < c + r2
                            || (self.entries@[e].prefix@.len() == c + r2 && seq_val(
                            self.entries@[e].prefix@.skip(c),
                        ) < w as nat)) ==> out@.skip(old(out)@.len() as int).contains(
                            e as usize,
                        ),
                    forall|i1: int, i2: int|
                        old(out)@.len() <= i1 < i2 < out@.len() ==> out@[i1] != out@[i2],
                decreases n_vals - w,
            {
                proof {
                    assert(self.node_wf(j as int));
                    lemma_heap_idx_bound(r2 as nat, w as nat, s as nat);
                    lemma2_to64();
                    let sp1: nat = (s + 1) as nat;
                    if sp1 < 6 {
                        vstd::arithmetic::power2::lemma_pow2_strictly_increases(sp1, 6);
                    }
                }
                let i = (pow2_u64(r2) - 1 + w) as usize;
                let slot = self.nodes[j].pfx_slots[i];
                let ghost outb = out@;
                match slot {
                    Some(e) => {
                        proof {
                            assert(self.pfx_slot_ok(j as int, r2 as nat, w as nat));
                            assert(self.in_subtree(e as int, j as int));
                        }
                        out.push(e);
                        proof {
                            assert(out@.take(old(out)@.len() as int) =~= outb.take(
                                old(out)@.len() as int,
                            ));
                            assert forall|e2: int|
                                self.in_subtree(e2, j as int) && (self.entries@[e2].prefix@.len()
                                    < c + r2 || (self.entries@[e2].prefix@.len() == c + r2
                                    && seq_val(self.entries@[e2].prefix@.skip(c)) < w as nat
                                    + 1)) implies out@.skip(old(out)@.len() as int).contains(
                                e2 as usize,
                            ) by {
                                if self.entries@[e2].prefix@.len() == c + r2 && seq_val(
                                    self.entries@[e2].prefix@.skip(c),
                                ) == w as nat {
                                    // that is exactly the entry in this slot
                                    assert(self.entries@[e2].prefix@ =~= path + self
                                        .entries@[e2].prefix@.skip(c));
                                    assert(self.entries@[e as int].prefix@ =~= path + self
                                        .entries@[e as int].prefix@.skip(c));
                                    lemma_seq_val_inj(
                                        self.entries@[e2].prefix@.skip(c),
                                        self.entries@[e as int].prefix@.skip(c),
                                    );
                                    if e2 != e as int {
                                        self.lemma_entries_distinct(e2, e as int);
                                        assert(false);
                                    }
                                    assert(out@.skip(old(out)@.len() as int)[out@.len() - 1
                                        - old(out)@.len()] == e);
                                } else {
                                    assert(outb.skip(old(out)@.len() as int).contains(
                                        e2 as usize,
                                    ));
                                    let i0 = choose|i0: int|
                                        0 <= i0 < outb.skip(old(out)@.len() as int).len()
                                            && outb.skip(old(out)@.len() as int)[i0]
                                            == e2 as usize;
                                    assert(out@.skip(old(out)@.len() as int)[i0] == e2 as usize);
                                }
                            }
                            // the new element is none of the previous ones
                            assert forall|i1: int|
                                old(out)@.len() <= i1 < out@.len() - 1 implies #[trigger] out@[i1]
                                != out@[out@.len() - 1] by {
                                let ep = out@[i1] as int;
                                if ep == e as int {
                                    assert(self.entries@[ep].prefix@.len() < c + r2 || seq_val(
                                        self.entries@[ep].prefix@.skip(c),
                                    ) < w as nat);
                                }
                            }
                        }
                    },
                    None => {
                        proof {
                            // no stored prefix sits at this heap position
                            assert forall|e2: int|
                                self.in_subtree(e2, j as int) && (self.entries@[e2].prefix@.len()
                                    < c + r2 || (self.entries@[e2].prefix@.len() == c + r2
                                    && seq_val(self.entries@[e2].prefix@.skip(c)) < w as nat
                                    + 1)) implies out@.skip(old(out)@.len() as int).contains(
                                e2 as usize,
                            ) by {
                                if self.entries@[e2].prefix@.len() == c + r2 && seq_val(
                                    self.entries@[e2].prefix@.skip(c),
                                ) == w as nat {
                                    let p2 = self.entries@[e2].prefix@;
                                    assert(self.entry_ok(e2));
                                    // its lookup would read this very slot
                                    lemma_term_level_at(
                                        self.strides@,
                                        self.width(),
                                        c + r2,
                                        nd_level as int,
                                    );
                                    assert(descend(self.nodes@, p2, nd_level as int) == Some(
                                        j as int,
                                    )) by {
                                        assert(descend(
                                            self.nodes@,
                                            path,
                                            self.nodes@[j as int].level as int,
                                        ) == Some(j as int));
                                        assert(p2.take(c) == path);
                                        assert(path.take(c) == path);
                                        self.lemma_descend_agree(
                                            0,
                                            p2,
                                            path,
                                            nd_level as int,
                                        );
                                    }
                                    assert(self.lookup(p2) == self.nodes@[j as int].pfx_slots@[
                                        pow2(r2 as nat) - 1 + seq_val(p2.skip(c)) as int]) by {
                                        assert(p2.subrange(c, p2.len() as int) =~= p2.skip(c));
                                    }
                                    assert(false);
                                }
                            }
                        }
                    },
                }
                w = w + 1;
            }
            proof {
                assert forall|e2: int|
                    self.in_subtree(e2, j as int) && self.entries@[e2].prefix@.len() < c + r2
                        + 1 implies out@.skip(old(out)@.len() as int).contains(e2 as usize) by {
                    if self.entries@[e2].prefix@.len() == c + r2 {
                        lemma_seq_val_bound(self.entries@[e2].prefix@.skip(c));
                    }
                }
            }
            r2 = r2 + 1;
        }
        proof {
            assert forall|e: int|
                self.in_subtree(e, j as int) && self.entries@[e].prefix@.len() <= c + s implies
                out@.skip(old(out)@.len() as int).contains(e as usize) by {
            }
        }
    }

    /// Collects every entry of the subtree rooted at node `j`.
    #[verifier::spinoff_prover]
    #[verifier::rlimit(100)]
    fn dump_subtree(&self, j: usize, out: &mut Vec<usize>)
        requires
            self.wf(),
            (j as int) < self.nodes@.len(),
        ensures
            final (out)@.len() >= old(out)@.len(),
            final (out)@.take(old(out)@.len() as int) == old(out)@,
            forall|i: int|
                old(out)@.len() <= i < final (out)@.len() ==> self.in_subtree(
                    #[trigger] final (out)@[i] as int,
                    j as int,
                ),
            forall|e: int|
                self.in_subtree(e, j as int) ==> final (out)@.skip(
                    old(out)@.len() as int,
                ).contains(e as usize),
            forall|i1: int, i2: int|
                old(out)@.len() <= i1 < i2 < final (out)@.len() ==> final (out)@[i1]
                    != final (out)@[i2],
        decreases self.strides@.len() - self.nodes@[j as int].level,
    {
        proof {
            assert(self.node_wf(j as int));
        }
        let nd_level = self.nodes[j].level;
        let nd_consumed = self.nodes[j].consumed;
        let s: u8 = self.nodes[j].stride;
        let ghost c = nd_consumed as int;
        let ghost path = self.nodes@[j as int].path@;
        self.dump_node_slots(j, out);
        let ghost after_slots = out@;
        // recurse into every child
        let n_children = pow2_u64(s);
        let mut w: u64 = 0;
        while w < n_children
            invariant
                self.wf(),
                (j as int) < self.nodes@.len(),
                self.nodes@[j as int].level == nd_level,
                self.nodes@[j as int].consumed == nd_consumed,
                self.nodes@[j as int].stride == s,
                3 <= s <= 5,
                c == nd_consumed as int,
                path == self.nodes@[j as int].path@,
                path.len() == c,
                n_children as nat == pow2(s as nat),
                0 <= w <= n_children,
                out@.len() >= old(out)@.len(),
                out@.take(old(out)@.len() as int) == old(out)@,
                forall|i: int|
                    old(out)@.len() <= i < out@.len() ==> self.in_subtree(
                        #[trigger] out@[i] as int,
                        j as int,
                    ) && (self.entries@[out@[i] as int].prefix@.len() <= c + s || seq_val(
                        self.entries@[out@[i] as int].prefix@.subrange(c, c + s as int),
                    ) < w as nat),
                forall|e: int|
                    self.in_subtree(e, j as int) && (self.entries@[e].prefix@.len() <= c + s
                        || seq_val(self.entries@[e].prefix@.subrange(c, c + s as int))
                        < w as nat) ==> out@.skip(old(out)@.len() as int).contains(e as usize),
                forall|i1: int, i2: int|
                    old(out)@.len() <= i1 < i2 < out@.len() ==> out@[i1] != out@[i2],
            decreases n_children - w,
        {
            proof {
                assert(self.node_wf(j as int));
                lemma2_to64();
                if (s as nat) < 6 {
                    vstd::arithmetic::power2::lemma_pow2_strictly_increases(s as nat, 6);
                }
                assert(w < 64);
            }
            let child = self.nodes[j].child_slots[w as usize];
            let ghost outb = out@;
            match child {
                Some(jc) => {
                    proof {
                        assert(self.child_link_ok(j as int, w as int));
                        assert(self.node_wf(jc as int));
                        assert(cum(self.strides@, nd_level as int + 1) == cum(
                            self.strides@,
                            nd_level as int,
                        ) + self.strides@[nd_level as int]);
                    }
                    self.dump_subtree(jc, out);
                    proof {
                        self.lemma_child_block(
                            j as int,
                            jc as int,
                            w,
                            old(out)@.len() as int,
                            outb,
                            out@,
                        );
                    }
                },
                None => {
                    proof {
                        // nothing is stored under a missing child
                        assert forall|e: int|
                            self.in_subtree(e, j as int) && (self.entries@[e].prefix@.len() <= c
                                + s || seq_val(
                                self.entries@[e].prefix@.subrange(c, c + s as int),
                            ) < w as nat + 1) implies out@.skip(
                            old(out)@.len() as int,
                        ).contains(e as usize) by {
                            let p2 = self.entries@[e].prefix@;
                            if !(p2.len() <= c + s || seq_val(p2.subrange(c, c + s as int))
                                < w as nat) {
                                assert(p2.len() > c + s);
                                assert(seq_val(p2.subrange(c, c + s as int)) == w as nat);
                                assert(self.entry_ok(e));
                                let k2 = term_level(self.strides@, p2.len() as int);
                                lemma_term_level(self.strides@, self.width(), p2.len() as int);
                                assert(cum(self.strides@, nd_level as int + 1) == cum(
                                    self.strides@,
                                    nd_level as int,
                                ) + self.strides@[nd_level as int]);
                                assert(k2 > nd_level as int) by {
                                    if k2 <= nd_level as int {
                                        lemma_cum_mono(self.strides@, k2 + 1, nd_level as int + 1);
                                        assert(cum(self.strides@, k2 + 1) == cum(
                                            self.strides@,
                                            k2,
                                        ) + self.strides@[k2]);
                                        assert(false);
                                    }
                                }
                                assert(descend(self.nodes@, p2, nd_level as int) == Some(
                                    j as int,
                                )) by {
                                    assert(descend(self.nodes@, path, nd_level as int) == Some(
                                        j as int,
                                    ));
                                    assert(p2.take(c) =~= path.take(c));
                                    self.lemma_descend_agree(0, p2, path, nd_level as int);
                                }
                                self.lemma_descend_split(p2, nd_level as int, 1);
                                assert(descend_from(self.nodes@, j as int, p2, 1) is None);
                                self.lemma_descend_none_deeper(p2, nd_level as int, k2);
                                assert(self.lookup(p2) is None);
                                assert(false);
                            }
                        }
                    }
                },
            }
            w = w + 1;
        }
        proof {
            assert forall|e: int|
                self.in_subtree(e, j as int) implies out@.skip(old(out)@.len() as int).contains(
                e as usize,
            ) by {
                let p2 = self.entries@[e].prefix@;
                if p2.len() > c + s {
                    lemma_seq_val_bound(p2.subrange(c, c + s as int));
                }
            }
        }
    }
}


impl<M: Meta> TreeBitMap<M> {
    /// Folding one child's dump into the running enumeration of a node's
    /// subtree: the appended entries are exactly those whose chunk under
    /// this node is `w`.
    proof fn lemma_child_block(
        self,
        j: int,
        jc: int,
        w: u64,
        base: int,
        outb: Seq<usize>,
        outn: Seq<usize>,
    )
        requires
            self.nodes_wf(),
            0 <= j < self.nodes@.len(),
            0 <= jc < self.nodes@.len(),
            0 <= w < self.nodes@[j].child_slots@.len(),
            self.nodes@[j].child_slots@[w as int] == Some(jc as usize),
            0 <= base <= outb.len() <= outn.len(),
            outn.take(outb.len() as int) == outb,
            forall|i: int|
                outb.len() <= i < outn.len() ==> self.in_subtree(
                    #[trigger] outn[i] as int,
                    jc,
                ),
            forall|e: int| self.in_subtree(e, jc) ==> outn.skip(outb.len() as int).contains(
                e as usize,
            ),
            forall|i1: int, i2: int|
                outb.len() <= i1 < i2 < outn.len() ==> outn[i1] != outn[i2],
            forall|i: int|
                base <= i < outb.len() ==> self.in_subtree(#[trigger] outb[i] as int, j) && (
                self.entries@[outb[i] as int].prefix@.len() <= self.nodes@[j].consumed as int
                    + self.nodes@[j].stride as int || seq_val(
                    self.entries@[outb[i] as int].prefix@.subrange(
                        self.nodes@[j].consumed as int,
                        self.nodes@[j].consumed as int + self.nodes@[j].stride as int,
                    ),
                ) < w as nat),
            forall|e: int|
                self.in_subtree(e, j) && (self.entries@[e].prefix@.len()
                    <= self.nodes@[j].consumed as int + self.nodes@[j].stride as int || seq_val(
                    self.entries@[e].prefix@.subrange(
                        self.nodes@[j].consumed as int,
                        self.nodes@[j].consumed as int + self.nodes@[j].stride as int,
                    ),
                ) < w as nat) ==> outb.skip(base).contains(e as usize),
            forall|i1: int, i2: int| base <= i1 < i2 < outb.len() ==> outb[i1] != outb[i2],
        ensures
            forall|i: int|
                base <= i < outn.len() ==> self.in_subtree(#[trigger] outn[i] as int, j) && (
                self.entries@[outn[i] as int].prefix@.len() <= self.nodes@[j].consumed as int
                    + self.nodes@[j].stride as int || seq_val(
                    self.entries@[outn[i] as int].prefix@.subrange(
                        self.nodes@[j].consumed as int,
                        self.nodes@[j].consumed as int + self.nodes@[j].stride as int,
                    ),
                ) < w as nat + 1),
            forall|e: int|
                self.in_subtree(e, j) && (self.entries@[e].prefix@.len()
                    <= self.nodes@[j].consumed as int + self.nodes@[j].stride as int || seq_val(
                    self.entries@[e].prefix@.subrange(
                        self.nodes@[j].consumed as int,
                        self.nodes@[j].consumed as int + self.nodes@[j].stride as int,
                    ),
                ) < w as nat + 1) ==> outn.skip(base).contains(e as usize),
            forall|i1: int, i2: int| base <= i1 < i2 < outn.len() ==> outn[i1] != outn[i2],
    {
        self.lemma_child_block_sound(j, jc, w, base, outb, outn);
        self.lemma_child_block_complete(j, jc, w, base, outb, outn);
        self.lemma_child_block_distinct(j, jc, w, base, outb, outn);
    }

    #[verifier::spinoff_prover]
    #[verifier::rlimit(100)]
    proof fn lemma_child_block_sound(
        self,
        j: int,
        jc: int,
        w: u64,
        base: int,
        outb: Seq<usize>,
        outn: Seq<usize>,
    )
        requires
            self.nodes_wf(),
            0 <= j < self.nodes@.len(),
            0 <= jc < self.nodes@.len(),
            0 <= w < self.nodes@[j].child_slots@.len(),
            self.nodes@[j].child_slots@[w as int] == Some(jc as usize),
            0 <= base <= outb.len() <= outn.len(),
            outn.take(outb.len() as int) == outb,
            forall|i: int|
                outb.len() <= i < outn.len() ==> self.in_subtree(
                    #[trigger] outn[i] as int,
                    jc,
                ),
            forall|e: int| self.in_subtree(e, jc) ==> outn.skip(outb.len() as int).contains(
                e as usize,
            ),
            forall|i1: int, i2: int|
                outb.len() <= i1 < i2 < outn.len() ==> outn[i1] != outn[i2],
            forall|i: int|
                base <= i < outb.len() ==> self.in_subtree(#[trigger] outb[i] as int, j) && (
                self.entries@[outb[i] as int].prefix@.len() <= self.nodes@[j].consumed as int
                    + self.nodes@[j].stride as int || seq_val(
                    self.entries@[outb[i] as int].prefix@.subrange(
                        self.nodes@[j].consumed as int,
                        self.nodes@[j].consumed as int + self.nodes@[j].stride as int,
                    ),
                ) < w as nat),
            forall|e: int|
                self.in_subtree(e, j) && (self.entries@[e].prefix@.len()
                    <= self.nodes@[j].consumed as int + self.nodes@[j].stride as int || seq_val(
                    self.entries@[e].prefix@.subrange(
                        self.nodes@[j].consumed as int,
                        self.nodes@[j].consumed as int + self.nodes@[j].stride as int,
                    ),
                ) < w as nat) ==> outb.skip(base).contains(e as usize),
            forall|i1: int, i2: int| base <= i1 < i2 < outb.len() ==> outb[i1] != outb[i2],
        ensures
            forall|i: int|
                base <= i < outn.len() ==> self.in_subtree(#[trigger] outn[i] as int, j) && (
                self.entries@[outn[i] as int].prefix@.len() <= self.nodes@[j].consumed as int
                    + self.nodes@[j].stride as int || seq_val(
                    self.entries@[outn[i] as int].prefix@.subrange(
                        self.nodes@[j].consumed as int,
                        self.nodes@[j].consumed as int + self.nodes@[j].stride as int,
                    ),
                ) < w as nat + 1),
    {
        assert(vstd::std_specs::vec::spec_vec_len(&self.nodes) == self.nodes@.len());
        assert(self.node_wf(j));
        assert(self.child_link_ok(j, w as int));
        assert(self.node_wf(jc));
        let nd = self.nodes@[j];
        let c = nd.consumed as int;
        let s = nd.stride as int;
        let cpath = self.nodes@[jc].path@;
        let path = nd.path@;
        assert(cpath.take(c) == path);
        assert(seq_val(cpath.skip(c)) == w as nat);
        assert(cpath.len() == c + s);
        // characterization of appended elements
        assert forall|i: int|
            base <= i < outn.len() implies self.in_subtree(#[trigger] outn[i] as int, j) && (
            self.entries@[outn[i] as int].prefix@.len() <= c + s || seq_val(
                self.entries@[outn[i] as int].prefix@.subrange(c, c + s),
            ) < w as nat + 1) by {
            if i < outb.len() {
                assert(outn[i] == outb[i]);
            } else {
                let ee = outn[i] as int;
                assert(self.in_subtree(ee, jc));
                let p2 = self.entries@[ee].prefix@;
                assert(p2.take(c + s) == cpath);
                assert(p2.take(c) =~= cpath.take(c));
                assert(p2.subrange(c, c + s) =~= cpath.skip(c));
                assert(seq_val(p2.subrange(c, c + s)) == w as nat);
                assert(self.in_subtree(ee, j));
            }
        }
    }

    #[verifier::spinoff_prover]
    #[verifier::rlimit(100)]
    proof fn lemma_child_block_complete(
        self,
        j: int,
        jc: int,
        w: u64,
        base: int,
        outb: Seq<usize>,
        outn: Seq<usize>,
    )
        requires
            self.nodes_wf(),
            0 <= j < self.nodes@.len(),
            0 <= jc < self.nodes@.len(),
            0 <= w < self.nodes@[j].child_slots@.len(),
            self.nodes@[j].child_slots@[w as int] == Some(jc as usize),
            0 <= base <= outb.len() <= outn.len(),
            outn.take(outb.len() as int) == outb,
            forall|i: int|
                outb.len() <= i < outn.len() ==> self.in_subtree(
                    #[trigger] outn[i] as int,
                    jc,
                ),
            forall|e: int| self.in_subtree(e, jc) ==> outn.skip(outb.len() as int).contains(
                e as usize,
            ),
            forall|i1: int, i2: int|
                outb.len() <= i1 < i2 < outn.len() ==> outn[i1] != outn[i2],
            forall|i: int|
                base <= i < outb.len() ==> self.in_subtree(#[trigger] outb[i] as int, j) && (
                self.entries@[outb[i] as int].prefix@.len() <= self.nodes@[j].consumed as int
                    + self.nodes@[j].stride as int || seq_val(
                    self.entries@[outb[i] as int].prefix@.subrange(
                        self.nodes@[j].consumed as int,
                        self.nodes@[j].consumed as int + self.nodes@[j].stride as int,
                    ),
                ) < w as nat),
            forall|e: int|
                self.in_subtree(e, j) && (self.entries@[e].prefix@.len()
                    <= self.nodes@[j].consumed as int + self.nodes@[j].stride as int || seq_val(
                    self.entries@[e].prefix@.subrange(
                        self.nodes@[j].consumed as int,
                        self.nodes@[j].consumed as int + self.nodes@[j].stride as int,
                    ),
                ) < w as nat) ==> outb.skip(base).contains(e as usize),
            forall|i1: int, i2: int| base <= i1 < i2 < outb.len() ==> outb[i1] != outb[i2],
        ensures
            forall|e: int|
                self.in_subtree(e, j) && (self.entries@[e].prefix@.len()
                    <= self.nodes@[j].consumed as int + self.nodes@[j].stride as int || seq_val(
                    self.entries@[e].prefix@.subrange(
                        self.nodes@[j].consumed as int,
                        self.nodes@[j].consumed as int + self.nodes@[j].stride as int,
                    ),
                ) < w as nat + 1) ==> outn.skip(base).contains(e as usize),
    {
        assert(vstd::std_specs::vec::spec_vec_len(&self.nodes) == self.nodes@.len());
        assert(self.node_wf(j));
        assert(self.child_link_ok(j, w as int));
        assert(self.node_wf(jc));
        let nd = self.nodes@[j];
        let c = nd.consumed as int;
        let s = nd.stride as int;
        let cpath = self.nodes@[jc].path@;
        let path = nd.path@;
        assert(cpath.take(c) == path);
        assert(seq_val(cpath.skip(c)) == w as nat);
        assert(cpath.len() == c + s);
        // completeness
        assert forall|e: int|
            self.in_subtree(e, j) && (self.entries@[e].prefix@.len() <= c + s || seq_val(
                self.entries@[e].prefix@.subrange(c, c + s),
            ) < w as nat + 1) implies outn.skip(base).contains(e as usize) by {
            let p2 = self.entries@[e].prefix@;
            if p2.len() <= c + s || seq_val(p2.subrange(c, c + s)) < w as nat {
                assert(outb.skip(base).contains(e as usize));
                let i0 = choose|i0: int|
                    0 <= i0 < outb.skip(base).len() && outb.skip(base)[i0] == e as usize;
                assert(outn[i0 + base] == outb[i0 + base]);
                assert(outn.skip(base)[i0] == e as usize);
            } else {
                assert(p2.len() > c + s);
                assert(seq_val(p2.subrange(c, c + s)) == w as nat);
                assert(p2.take(c + s) =~= cpath) by {
                    assert(p2.take(c + s).take(c) =~= p2.take(c));
                    assert(cpath.take(c) == path);
                    assert(p2.take(c + s).skip(c) =~= p2.subrange(c, c + s));
                    lemma_seq_val_inj(p2.take(c + s).skip(c), cpath.skip(c));
                    assert(p2.take(c + s) =~= p2.take(c + s).take(c) + p2.take(c + s).skip(c));
                    assert(cpath =~= cpath.take(c) + cpath.skip(c));
                }
                assert(self.in_subtree(e, jc));
                assert(outn.skip(outb.len() as int).contains(e as usize));
                let i1 = choose|i1: int|
                    0 <= i1 < outn.skip(outb.len() as int).len() && outn.skip(
                        outb.len() as int,
                    )[i1] == e as usize;
                assert(outn.skip(base)[i1 + outb.len() - base] == e as usize);
            }
        }
    }

    #[verifier::spinoff_prover]
    #[verifier::rlimit(100)]
    proof fn lemma_child_block_distinct(
        self,
        j: int,
        jc: int,
        w: u64,
        base: int,
        outb: Seq<usize>,
        outn: Seq<usize>,
    )
        requires
            self.nodes_wf(),
            0 <= j < self.nodes@.len(),
            0 <= jc < self.nodes@.len(),
            0 <= w < self.nodes@[j].child_slots@.len(),
            self.nodes@[j].child_slots@[w as int] == Some(jc as usize),
            0 <= base <= outb.len() <= outn.len(),
            outn.take(outb.len() as int) == outb,
            forall|i: int|
                outb.len() <= i < outn.len() ==> self.in_subtree(
                    #[trigger] outn[i] as int,
                    jc,
                ),
            forall|e: int| self.in_subtree(e, jc) ==> outn.skip(outb.len() as int).contains(
                e as usize,
            ),
            forall|i1: int, i2: int|
                outb.len() <= i1 < i2 < outn.len() ==> outn[i1] != outn[i2],
            forall|i: int|
                base <= i < outb.len() ==> self.in_subtree(#[trigger] outb[i] as int, j) && (
                self.entries@[outb[i] as int].prefix@.len() <= self.nodes@[j].consumed as int
                    + self.nodes@[j].stride as int || seq_val(
                    self.entries@[outb[i] as int].prefix@.subrange(
                        self.nodes@[j].consumed as int,
                        self.nodes@[j].consumed as int + self.nodes@[j].stride as int,
                    ),
                ) < w as nat),
            forall|e: int|
                self.in_subtree(e, j) && (self.entries@[e].prefix@.len()
                    <= self.nodes@[j].consumed as int + self.nodes@[j].stride as int || seq_val(
                    self.entries@[e].prefix@.subrange(
                        self.nodes@[j].consumed as int,
                        self.nodes@[j].consumed as int + self.nodes@[j].stride as int,
                    ),
                ) < w as nat) ==> outb.skip(base).contains(e as usize),
            forall|i1: int, i2: int| base <= i1 < i2 < outb.len() ==> outb[i1] != outb[i2],
        ensures
            forall|i1: int, i2: int| base <= i1 < i2 < outn.len() ==> outn[i1] != outn[i2],
    {
        assert(vstd::std_specs::vec::spec_vec_len(&self.nodes) == self.nodes@.len());
        assert(self.node_wf(j));
        assert(self.child_link_ok(j, w as int));
        assert(self.node_wf(jc));
        let nd = self.nodes@[j];
        let c = nd.consumed as int;
        let s = nd.stride as int;
        let cpath = self.nodes@[jc].path@;
        let path = nd.path@;
        assert(cpath.take(c) == path);
        assert(seq_val(cpath.skip(c)) == w as nat);
        assert(cpath.len() == c + s);
        // distinctness
        assert forall|i1: int, i2: int|
            base <= i1 < i2 < outn.len() implies outn[i1] != outn[i2] by {
            if i2 < outb.len() {
                assert(outn[i1] == outb[i1]);
                assert(outn[i2] == outb[i2]);
            } else if i1 >= outb.len() {
            } else {
                assert(outn[i1] == outb[i1]);
                let e1 = outn[i1] as int;
                let e2 = outn[i2] as int;
                assert(self.in_subtree(e2, jc));
                let p1 = self.entries@[e1].prefix@;
                let p2 = self.entries@[e2].prefix@;
                assert(p2.take(c + s) == cpath);
                assert(p2.subrange(c, c + s) =~= cpath.skip(c));
                if e1 == e2 {
                    assert(p1.len() <= c + s || seq_val(p1.subrange(c, c + s)) < w as nat);
                    assert(p2.len() > c + s);
                    assert(seq_val(p2.subrange(c, c + s)) == w as nat);
                    assert(false);
                }
            }
        }
    }    }



/// Reading the leading bits of a chunk from its value: the value determines
/// the top bits by integer division.
proof fn lemma_seq_val_top(t: Seq<bool>, rem: int, v: nat)
    requires
        0 <= rem <= t.len(),
        v * pow2((t.len() - rem) as nat) <= seq_val(t),
        seq_val(t) < (v + 1) * pow2((t.len() - rem) as nat),
    ensures
        seq_val(t.take(rem)) == v,
{
    let d = (t.len() - rem) as nat;
    assert(t =~= t.take(rem) + t.skip(rem));
    crate::prefix::lemma_seq_val_concat(t.take(rem), t.skip(rem));
    lemma_seq_val_bound(t.skip(rem));
    let a = seq_val(t.take(rem));
    let b = seq_val(t.skip(rem));
    lemma_pow2_pos(d);
    assert(a == v) by (nonlinear_arith)
        requires
            a * pow2(d) + b == seq_val(t),
            b < pow2(d),
            v * pow2(d) <= seq_val(t),
            seq_val(t) < (v + 1) * pow2(d),
            pow2(d) >= 1,
    ;
}

/// The converse: a chunk whose leading bits read `v` has a value in `v`'s
/// block.
proof fn lemma_seq_val_top_range(t: Seq<bool>, rem: int)
    requires
        0 <= rem <= t.len(),
    ensures
        seq_val(t.take(rem)) * pow2((t.len() - rem) as nat) <= seq_val(t),
        seq_val(t) < (seq_val(t.take(rem)) + 1) * pow2((t.len() - rem) as nat),
{
    let d = (t.len() - rem) as nat;
    assert(t =~= t.take(rem) + t.skip(rem));
    crate::prefix::lemma_seq_val_concat(t.take(rem), t.skip(rem));
    lemma_seq_val_bound(t.skip(rem));
    let a = seq_val(t.take(rem));
    assert((a + 1) * pow2(d) == a * pow2(d) + pow2(d)) by (nonlinear_arith);
}

/// A longer prefix terminates no earlier.
proof fn lemma_term_mono(strides: Seq<u8>, width: nat, l1: int, l2: int)
    requires
        strides_wf(strides, width),
        0 <= l1 <= l2 <= width,
    ensures
        term_level(strides, l1) <= term_level(strides, l2),
{
    let t1 = term_level(strides, l1);
    let t2 = term_level(strides, l2);
    lemma_term_level(strides, width, l1);
    lemma_term_level(strides, width, l2);
    if t2 < t1 {
        assert(cum(strides, t2 + 1) == cum(strides, t2) + strides[t2]);
        lemma_cum_mono(strides, t2 + 1, t1);
        assert(false);
    }
}

impl<M: Meta> TreeBitMap<M> {
    /// Collects the strictly more specific stored prefixes that live in the
    /// internal slots of the query's terminal node.
    #[verifier::spinoff_prover]
    #[verifier::rlimit(100)]
    fn ms_node_slots(&self, n: usize, pfx: &PrefixId, out: &mut Vec<usize>)
        requires
            self.wf(),
            pfx.is_valid(),
            pfx.fam == self.fam,
            (n as int) < self.nodes@.len(),
            self.nodes@[n as int].level as int == term_level(self.strides@, pfx@.len() as int),
            self.nodes@[n as int].path@ == pfx@.take(self.nodes@[n as int].consumed as int),
            descend(self.nodes@, pfx@, self.nodes@[n as int].level as int) == Some(n as int),
            old(out)@.len() == 0,
        ensures
            final (out)@.len() >= 0,
            forall|i: int|
                0 <= i < final (out)@.len() ==> self.is_more_specific(
                    #[trigger] final (out)@[i] as int,
                    pfx@,
                ) && self.entries@[final (out)@[i] as int].prefix@.len()
                    <= self.nodes@[n as int].consumed as int + self.nodes@[n as int].stride as int,
            forall|e: int|
                self.is_more_specific(e, pfx@) && self.entries@[e].prefix@.len()
                    <= self.nodes@[n as int].consumed as int
                    + self.nodes@[n as int].stride as int ==> final (out)@.contains(e as usize),
            forall|i1: int, i2: int|
                0 <= i1 < i2 < final (out)@.len() ==> final (out)@[i1] != final (out)@[i2],
    {
        let ghost q = pfx@;
        proof {
            assert(self.node_wf(n as int));
            lemma_term_level(self.strides@, self.width(), q.len() as int);
        }
        let c = self.nodes[n].consumed;
        let s: u8 = self.nodes[n].stride;
        let rem: u8 = pfx.len - c;
        let v = pfx_chunk(pfx, c, rem);
        let ghost path = self.nodes@[n as int].path@;
        let mut r2: u8 = rem + 1;
        while r2 <= s
            invariant
                self.wf(),
                pfx.is_valid(),
                pfx.fam == self.fam,
                q == pfx@,
                (n as int) < self.nodes@.len(),
                self.nodes@[n as int].level as int == term_level(self.strides@, q.len() as int),
                self.nodes@[n as int].consumed == c,
                self.nodes@[n as int].stride == s,
                3 <= s <= 5,
                rem as int == q.len() - c as int,
                0 <= rem <= s,
                path == self.nodes@[n as int].path@,
                path == q.take(c as int),
                path.len() == c as int,
                descend(self.nodes@, q, self.nodes@[n as int].level as int) == Some(n as int),
                (v as nat) == seq_val(q.subrange(c as int, q.len() as int)),
                (v as nat) < pow2(rem as nat),
                rem + 1 <= r2 <= s + 1,
                forall|i: int|
                    0 <= i < out@.len() ==> self.is_more_specific(
                        #[trigger] out@[i] as int,
                        q,
                    ) && self.entries@[out@[i] as int].prefix@.len() < c as int + r2 as int,
                forall|e: int|
                    self.is_more_specific(e, q) && self.entries@[e].prefix@.len() < c as int
                        + r2 as int ==> out@.contains(e as usize),
                forall|i1: int, i2: int| 0 <= i1 < i2 < out@.len() ==> out@[i1] != out@[i2],
            decreases s as int + 1 - r2 as int,
        {
            let d2: u8 = r2 - rem;
            proof {
                lemma2_to64();
                lemma_pow2_adds(rem as nat, d2 as nat);
                let sp1: nat = (r2 + 1) as nat;
                if sp1 < 7 {
                    vstd::arithmetic::power2::lemma_pow2_strictly_increases(sp1, 7);
                }
                assert(pow2(r2 as nat) <= 64);
                lemma_pow2_pos(d2 as nat);
                assert((v as nat + 1) * pow2(d2 as nat) <= pow2(rem as nat) * pow2(d2 as nat))
                    by (nonlinear_arith)
                    requires
                        (v as nat) < pow2(rem as nat),
                        pow2(d2 as nat) >= 1,
                ;
                assert((v as nat + 1) * pow2(d2 as nat) == (v as nat) * pow2(d2 as nat) + pow2(
                    d2 as nat,
                )) by (nonlinear_arith);
            }
            let lo: u64 = (v as u64) * pow2_u64(d2);
            let hi: u64 = lo + pow2_u64(d2);
            proof {
                assert forall|e2: int|
                    self.is_more_specific(e2, q) && self.entries@[e2].prefix@.len() == c as int
                        + r2 as int implies seq_val(self.entries@[e2].prefix@.skip(c as int))
                    >= lo as nat by {
                    let p2 = self.entries@[e2].prefix@;
                    lemma_seq_val_top_range(p2.skip(c as int), rem as int);
                    assert(p2.skip(c as int).take(rem as int) =~= p2.subrange(
                        c as int,
                        q.len() as int,
                    ));
                    assert(p2.take(q.len() as int) == q);
                    assert(p2.subrange(c as int, q.len() as int) =~= q.subrange(
                        c as int,
                        q.len() as int,
                    ));
                }
            }
            let mut w: u64 = lo;
            while w < hi
                invariant
                    self.wf(),
                    pfx.is_valid(),
                    pfx.fam == self.fam,
                    q == pfx@,
                    (n as int) < self.nodes@.len(),
                    self.nodes@[n as int].level as int == term_level(
                        self.strides@,
                        q.len() as int,
                    ),
                    self.nodes@[n as int].consumed == c,
                    self.nodes@[n as int].stride == s,
                    3 <= s <= 5,
                    rem as int == q.len() - c as int,
                    0 <= rem < r2 <= s,
                    d2 == r2 - rem,
                    path == self.nodes@[n as int].path@,
                    path == q.take(c as int),
                    path.len() == c as int,
                    descend(self.nodes@, q, self.nodes@[n as int].level as int) == Some(
                        n as int,
                    ),
                    (v as nat) == seq_val(q.subrange(c as int, q.len() as int)),
                    (v as nat) < pow2(rem as nat),
                    lo as nat == (v as nat) * pow2(d2 as nat),
                    hi as nat == (v as nat + 1) * pow2(d2 as nat),
                    hi as nat <= pow2(r2 as nat),
                    lo <= w <= hi,
                    forall|i: int|
                        0 <= i < out@.len() ==> self.is_more_specific(
                            #[trigger] out@[i] as int,
                            q,
                        ) && (self.entries@[out@[i] as int].prefix@.len() < c as int + r2 as int
                            || (self.entries@[out@[i] as int].prefix@.len() == c as int
                            + r2 as int && seq_val(
                            self.entries@[out@[i] as int].prefix@.skip(c as int),
                        ) < w as nat)),
                    forall|e: int|
                        self.is_more_specific(e, q) && (self.entries@[e].prefix@.len() < c as int
                            + r2 as int || (self.entries@[e].prefix@.len() == c as int
                            + r2 as int && seq_val(self.entries@[e].prefix@.skip(c as int))
                            < w as nat)) ==> out@.contains(e as usize),
                    forall|i1: int, i2: int| 0 <= i1 < i2 < out@.len() ==> out@[i1] != out@[i2],
                decreases hi - w,
            {
                proof {
                    assert(self.node_wf(n as int));
                    lemma_heap_idx_bound(r2 as nat, w as nat, s as nat);
                    lemma2_to64();
                    let sp1: nat = (s + 1) as nat;
                    if sp1 < 6 {
                        vstd::arithmetic::power2::lemma_pow2_strictly_increases(sp1, 6);
                    }
                }
                let i = (pow2_u64(r2) - 1 + w) as usize;
                let slot = self.nodes[n].pfx_slots[i];
                let ghost outb = out@;
                match slot {
                    Some(e) => {
                        proof {
                            assert(self.pfx_slot_ok(n as int, r2 as nat, w as nat));
                            let p2 = self.entries@[e as int].prefix@;
                            // the slot's entry strictly extends the query
                            assert(p2.take(c as int) == path);
                            lemma_seq_val_top(p2.skip(c as int), rem as int, v as nat);
                            assert(p2.skip(c as int).take(rem as int) =~= p2.subrange(
                                c as int,
                                q.len() as int,
                            ));
                            lemma_seq_val_inj(
                                p2.subrange(c as int, q.len() as int),
                                q.subrange(c as int, q.len() as int),
                            );
                            assert(q =~= q.take(c as int) + q.subrange(c as int, q.len() as int));
                            assert(p2.take(q.len() as int) =~= p2.take(c as int) + p2.subrange(
                                c as int,
                                q.len() as int,
                            ));
                            assert(covers(q, p2));
                            assert(self.is_more_specific(e as int, q));
                        }
                        out.push(e);
                        proof {
                            assert forall|e2: int|
                                self.is_more_specific(e2, q) && (self.entries@[e2].prefix@.len()
                                    < c as int + r2 as int || (self.entries@[e2].prefix@.len()
                                    == c as int + r2 as int && seq_val(
                                    self.entries@[e2].prefix@.skip(c as int),
                                ) < w as nat + 1)) implies out@.contains(e2 as usize) by {
                                let p2 = self.entries@[e2].prefix@;
                                if p2.len() == c as int + r2 as int && seq_val(
                                    p2.skip(c as int),
                                ) == w as nat {
                                    assert(p2.take(c as int) =~= q.take(c as int));
                                    assert(p2 =~= p2.take(c as int) + p2.skip(c as int));
                                    assert(self.entries@[e as int].prefix@ =~= self.entries@[
                                        e as int].prefix@.take(c as int) + self.entries@[
                                        e as int].prefix@.skip(c as int));
                                    lemma_seq_val_inj(
                                        p2.skip(c as int),
                                        self.entries@[e as int].prefix@.skip(c as int),
                                    );
                                    if e2 != e as int {
                                        self.lemma_entries_distinct(e2, e as int);
                                        assert(false);
                                    }
                                    assert(out@[out@.len() - 1] == e);
                                } else {
                                    assert(outb.contains(e2 as usize));
                                    let i0 = choose|i0: int|
                                        0 <= i0 < outb.len() && outb[i0] == e2 as usize;
                                    assert(out@[i0] == e2 as usize);
                                }
                            }
                            assert forall|i1: int|
                                0 <= i1 < out@.len() - 1 implies #[trigger] out@[i1] != out@[out@.len()
                                - 1] by {
                                let ep = out@[i1] as int;
                                if ep == e as int {
                                    assert(self.entries@[ep].prefix@.len() < c as int + r2 as int
                                        || seq_val(self.entries@[ep].prefix@.skip(c as int))
                                        < w as nat);
                                }
                            }
                        }
                    },
                    None => {
                        proof {
                            assert forall|e2: int|
                                self.is_more_specific(e2, q) && (self.entries@[e2].prefix@.len()
                                    < c as int + r2 as int || (self.entries@[e2].prefix@.len()
                                    == c as int + r2 as int && seq_val(
                                    self.entries@[e2].prefix@.skip(c as int),
                                ) < w as nat + 1)) implies out@.contains(e2 as usize) by {
                                let p2 = self.entries@[e2].prefix@;
                                if p2.len() == c as int + r2 as int && seq_val(
                                    p2.skip(c as int),
                                ) == w as nat {
                                    assert(self.entry_ok(e2));
                                    lemma_term_level_at(
                                        self.strides@,
                                        self.width(),
                                        p2.len() as int,
                                        self.nodes@[n as int].level as int,
                                    );
                                    assert(p2.take(c as int) =~= q.take(c as int));
                                    self.lemma_descend_agree(
                                        0,
                                        p2,
                                        q,
                                        self.nodes@[n as int].level as int,
                                    );
                                    assert(descend(
                                        self.nodes@,
                                        p2,
                                        self.nodes@[n as int].level as int,
                                    ) == Some(n as int));
                                    assert(p2.subrange(c as int, p2.len() as int) =~= p2.skip(
                                        c as int,
                                    ));
                                    assert(self.lookup(p2) is None);
                                    assert(false);
                                }
                            }
                        }
                    },
                }
                w = w + 1;
            }
            proof {
                assert forall|e2: int|
                    self.is_more_specific(e2, q) && self.entries@[e2].prefix@.len() < c as int
                        + r2 as int + 1 implies out@.contains(e2 as usize) by {
                    let p2 = self.entries@[e2].prefix@;
                    if p2.len() == c as int + r2 as int {
                        lemma_seq_val_top_range(p2.skip(c as int), rem as int);
                        assert(p2.skip(c as int).take(rem as int) =~= p2.subrange(
                            c as int,
                            q.len() as int,
                        ));
                        assert(p2.take(q.len() as int) =~= p2.take(c as int) + p2.subrange(
                            c as int,
                            q.len() as int,
                        ));
                        assert(q =~= q.take(c as int) + q.subrange(c as int, q.len() as int));
                        assert(p2.take(c as int) == q.take(c as int));
                        lemma_seq_val_inj(
                            p2.subrange(c as int, q.len() as int),
                            q.subrange(c as int, q.len() as int),
                        );
                        assert(seq_val(p2.skip(c as int)) < hi as nat);
                    }
                }
            }
            r2 = r2 + 1;
        }
        proof {
            assert forall|e2: int|
                self.is_more_specific(e2, q) && self.entries@[e2].prefix@.len() <= c as int
                    + s as int implies out@.contains(e2 as usize) by {
            }
        }
    }

    /// The strictly more specific stored prefixes of the query, gathered by
    /// scanning the heap range below the query's position and then dumping
    /// every child subtree on the query's branch.
    #[verifier::spinoff_prover]
    #[verifier::rlimit(100)]
    pub fn more_specific_entries(&self, pfx: &PrefixId) -> (r: Vec<usize>)
        requires
            self.wf(),
            pfx.is_valid(),
            pfx.fam == self.fam,
        ensures
            forall|i: int|
                0 <= i < r@.len() ==> self.is_more_specific(#[trigger] r@[i] as int, pfx@),
            forall|e: int| self.is_more_specific(e, pfx@) ==> r@.contains(e as usize),
            forall|i1: int, i2: int| 0 <= i1 < i2 < r@.len() ==> r@[i1] != r@[i2],
    {
        let ghost q = pfx@;
        let mut out: Vec<usize> = Vec::new();
        let node = self.walk(pfx);
        proof {
            lemma_term_level(self.strides@, self.width(), q.len() as int);
        }
        match node {
            None => {
                proof {
                    // the path to the query is broken, so nothing extends it
                    let k = term_level(self.strides@, q.len() as int);
                    assert forall|e: int|
                        self.is_more_specific(e, q) implies out@.contains(e as usize) by {
                        let p2 = self.entries@[e].prefix@;
                        assert(self.entry_ok(e));
                        let k2 = term_level(self.strides@, p2.len() as int);
                        lemma_term_mono(self.strides@, self.width(), q.len() as int,
                            p2.len() as int);
                        lemma_term_level(self.strides@, self.width(), p2.len() as int);
                        lemma_cum_mono(self.strides@, 0, k);
                        assert(0 <= cum(self.strides@, k) <= q.len());
                        assert(q.len() < p2.len());
                        assert(p2.take(q.len() as int) == q);
                        assert(p2.take(cum(self.strides@, k)) =~= p2.take(q.len() as int).take(
                            cum(self.strides@, k),
                        ));
                        assert(p2.take(cum(self.strides@, k)) =~= q.take(
                            cum(self.strides@, k),
                        ));
                        self.lemma_descend_agree(0, p2, q, k);
                        if k2 > k {
                            self.lemma_descend_split(p2, k, k2 - k);
                        }
                        assert(self.lookup(p2) is None);
                        assert(false);
                    }
                }
                out
            },
            Some(n) => {
                proof {
                    assert(self.node_wf(n as int));
                }
                let c = self.nodes[n].consumed;
                let s: u8 = self.nodes[n].stride;
                let rem: u8 = pfx.len - c;
                let v = pfx_chunk(pfx, c, rem);
                self.ms_node_slots(n, pfx, &mut out);
                let d2: u8 = s - rem;
                proof {
                    lemma2_to64();
                    lemma_pow2_adds(rem as nat, d2 as nat);
                    let sp1: nat = (s + 1) as nat;
                    if sp1 < 6 {
                        vstd::arithmetic::power2::lemma_pow2_strictly_increases(sp1, 6);
                    }
                    lemma_pow2_pos(d2 as nat);
                    assert((v as nat + 1) * pow2(d2 as nat) <= pow2(rem as nat) * pow2(
                        d2 as nat,
                    )) by (nonlinear_arith)
                        requires
                            (v as nat) < pow2(rem as nat),
                            pow2(d2 as nat) >= 1,
                    ;
                    assert((v as nat + 1) * pow2(d2 as nat) == (v as nat) * pow2(d2 as nat)
                        + pow2(d2 as nat)) by (nonlinear_arith);
                }
                let lo: u64 = (v as u64) * pow2_u64(d2);
                let hi: u64 = lo + pow2_u64(d2);
                let ghost path = self.nodes@[n as int].path@;
                proof {
                    assert forall|e2: int|
                        self.is_more_specific(e2, q) && self.entries@[e2].prefix@.len()
                            > c as int + s as int implies seq_val(
                        self.entries@[e2].prefix@.subrange(c as int, c as int + s as int),
                    ) >= lo as nat by {
                        let p2 = self.entries@[e2].prefix@;
                        let t = p2.subrange(c as int, c as int + s as int);
                        lemma_seq_val_top_range(t, rem as int);
                        assert(t.take(rem as int) =~= p2.subrange(c as int, q.len() as int));
                        assert(p2.take(q.len() as int) == q);
                        assert(p2.subrange(c as int, q.len() as int) =~= q.subrange(
                            c as int,
                            q.len() as int,
                        ));
                    }
                }
                let mut w: u64 = lo;
                while w < hi
                    invariant
                        self.wf(),
                        pfx.is_valid(),
                        pfx.fam == self.fam,
                        q == pfx@,
                        (n as int) < self.nodes@.len(),
                        self.nodes@[n as int].level as int == term_level(
                            self.strides@,
                            q.len() as int,
                        ),
                        self.nodes@[n as int].consumed == c,
                        self.nodes@[n as int].stride == s,
                        3 <= s <= 5,
                        rem as int == q.len() - c as int,
                        0 <= rem <= s,
                        d2 == s - rem,
                        path == self.nodes@[n as int].path@,
                        path == q.take(c as int),
                        path.len() == c as int,
                        descend(self.nodes@, q, self.nodes@[n as int].level as int) == Some(
                            n as int,
                        ),
                        (v as nat) == seq_val(q.subrange(c as int, q.len() as int)),
                        (v as nat) < pow2(rem as nat),
                        lo as nat == (v as nat) * pow2(d2 as nat),
                        hi as nat == (v as nat + 1) * pow2(d2 as nat),
                        hi as nat <= pow2(s as nat),
                        lo <= w <= hi,
                        forall|i: int|
                            0 <= i < out@.len() ==> self.is_more_specific(
                                #[trigger] out@[i] as int,
                                q,
                            ) && (self.entries@[out@[i] as int].prefix@.len() <= c as int
                                + s as int || seq_val(
                                self.entries@[out@[i] as int].prefix@.subrange(
                                    c as int,
                                    c as int + s as int,
                                ),
                            ) < w as nat),
                        forall|e: int|
                            self.is_more_specific(e, q) && (self.entries@[e].prefix@.len()
                                <= c as int + s as int || seq_val(
                                self.entries@[e].prefix@.subrange(c as int, c as int + s as int),
                            ) < w as nat) ==> out@.contains(e as usize),
                        forall|i1: int, i2: int|
                            0 <= i1 < i2 < out@.len() ==> out@[i1] != out@[i2],
                    decreases hi - w,
                {
                    proof {
                        assert(self.node_wf(n as int));
                        lemma2_to64();
                        if (s as nat) < 6 {
                            vstd::arithmetic::power2::lemma_pow2_strictly_increases(s as nat, 6);
                        }
                        assert(w < 64);
                    }
                    let child = self.nodes[n].child_slots[w as usize];
                    let ghost outb = out@;
                    match child {
                        Some(jc) => {
                            proof {
                                assert(self.child_link_ok(n as int, w as int));
                                assert(self.node_wf(jc as int));
                            }
                            self.dump_subtree(jc, &mut out);
                            proof {
                                self.lemma_ms_child_block(
                                    n as int,
                                    jc as int,
                                    w,
                                    q,
                                    v as nat,
                                    outb,
                                    out@,
                                );
                            }
                        },
                        None => {
                            proof {
                                assert forall|e: int|
                                    self.is_more_specific(e, q) && (self.entries@[e].prefix@.len()
                                        <= c as int + s as int || seq_val(
                                        self.entries@[e].prefix@.subrange(
                                            c as int,
                                            c as int + s as int,
                                        ),
                                    ) < w as nat + 1) implies out@.contains(e as usize) by {
                                    let p2 = self.entries@[e].prefix@;
                                    if !(p2.len() <= c as int + s as int || seq_val(
                                        p2.subrange(c as int, c as int + s as int),
                                    ) < w as nat) {
                                        assert(p2.len() > c as int + s as int);
                                        assert(seq_val(
                                            p2.subrange(c as int, c as int + s as int),
                                        ) == w as nat);
                                        assert(self.entry_ok(e));
                                        let k2 = term_level(self.strides@, p2.len() as int);
                                        lemma_term_level(
                                            self.strides@,
                                            self.width(),
                                            p2.len() as int,
                                        );
                                        assert(cum(
                                            self.strides@,
                                            self.nodes@[n as int].level as int + 1,
                                        ) == cum(self.strides@, self.nodes@[n as int].level as int)
                                            + self.strides@[self.nodes@[n as int].level as int]);
                                        assert(k2 > self.nodes@[n as int].level as int) by {
                                            if k2 <= self.nodes@[n as int].level as int {
                                                lemma_cum_mono(
                                                    self.strides@,
                                                    k2 + 1,
                                                    self.nodes@[n as int].level as int + 1,
                                                );
                                                assert(cum(self.strides@, k2 + 1) == cum(
                                                    self.strides@,
                                                    k2,
                                                ) + self.strides@[k2]);
                                                assert(false);
                                            }
                                        }
                                        assert(p2.take(c as int) =~= q.take(c as int)) by {
                                            assert(p2.take(q.len() as int) == q);
                                        }
                                        self.lemma_descend_agree(
                                            0,
                                            p2,
                                            q,
                                            self.nodes@[n as int].level as int,
                                        );
                                        self.lemma_descend_split(
                                            p2,
                                            self.nodes@[n as int].level as int,
                                            1,
                                        );
                                        assert(descend_from(self.nodes@, n as int, p2, 1)
                                            is None);
                                        self.lemma_descend_none_deeper(
                                            p2,
                                            self.nodes@[n as int].level as int,
                                            k2,
                                        );
                                        assert(self.lookup(p2) is None);
                                        assert(false);
                                    }
                                }
                            }
                        },
                    }
                    w = w + 1;
                }
                proof {
                    assert forall|e: int|
                        self.is_more_specific(e, q) implies out@.contains(e as usize) by {
                        let p2 = self.entries@[e].prefix@;
                        if p2.len() > c as int + s as int {
                            lemma_seq_val_top_range(
                                p2.subrange(c as int, c as int + s as int),
                                rem as int,
                            );
                            assert(p2.subrange(c as int, c as int + s as int).take(rem as int)
                                =~= p2.subrange(c as int, q.len() as int));
                            assert(p2.take(q.len() as int) == q);
                            assert(p2.subrange(c as int, q.len() as int) =~= q.subrange(
                                c as int,
                                q.len() as int,
                            ));
                            assert(seq_val(p2.subrange(c as int, c as int + s as int))
                                < hi as nat);
                        }
                    }
                }
                out
            },
        }
    }
}


impl<M: Meta> TreeBitMap<M> {
    /// Folding one child's dump into the more-specifics enumeration: the
    /// appended entries are exactly the strict extensions whose chunk under
    /// the terminal node is `w`.
    #[verifier::spinoff_prover]
    #[verifier::rlimit(100)]
    proof fn lemma_ms_child_block(
        self,
        j: int,
        jc: int,
        w: u64,
        q: Seq<bool>,
        v: nat,
        outb: Seq<usize>,
        outn: Seq<usize>,
    )
        requires
            self.wf(),
            0 <= j < self.nodes@.len(),
            0 <= jc < self.nodes@.len(),
            0 <= w < self.nodes@[j].child_slots@.len(),
            self.nodes@[j].child_slots@[w as int] == Some(jc as usize),
            self.nodes@[j].path@ == q.take(self.nodes@[j].consumed as int),
            self.nodes@[j].consumed as int <= q.len(),
            q.len() <= self.nodes@[j].consumed as int + self.nodes@[j].stride as int,
            v == seq_val(q.subrange(self.nodes@[j].consumed as int, q.len() as int)),
            v * pow2(
                (self.nodes@[j].consumed as int + self.nodes@[j].stride as int - q.len()) as nat,
            ) <= w as nat,
            (w as nat) < (v + 1) * pow2(
                (self.nodes@[j].consumed as int + self.nodes@[j].stride as int - q.len()) as nat,
            ),
            0 <= outb.len() <= outn.len(),
            outn.take(outb.len() as int) == outb,
            forall|i: int|
                outb.len() <= i < outn.len() ==> self.in_subtree(#[trigger] outn[i] as int, jc),
            forall|e: int| self.in_subtree(e, jc) ==> outn.skip(outb.len() as int).contains(
                e as usize,
            ),
            forall|i1: int, i2: int|
                outb.len() <= i1 < i2 < outn.len() ==> outn[i1] != outn[i2],
            forall|i: int|
                0 <= i < outb.len() ==> self.is_more_specific(#[trigger] outb[i] as int, q) && (
                self.entries@[outb[i] as int].prefix@.len() <= self.nodes@[j].consumed as int
                    + self.nodes@[j].stride as int || seq_val(
                    self.entries@[outb[i] as int].prefix@.subrange(
                        self.nodes@[j].consumed as int,
                        self.nodes@[j].consumed as int + self.nodes@[j].stride as int,
                    ),
                ) < w as nat),
            forall|e: int|
                self.is_more_specific(e, q) && (self.entries@[e].prefix@.len()
                    <= self.nodes@[j].consumed as int + self.nodes@[j].stride as int || seq_val(
                    self.entries@[e].prefix@.subrange(
                        self.nodes@[j].consumed as int,
                        self.nodes@[j].consumed as int + self.nodes@[j].stride as int,
                    ),
                ) < w as nat) ==> outb.contains(e as usize),
            forall|i1: int, i2: int| 0 <= i1 < i2 < outb.len() ==> outb[i1] != outb[i2],
        ensures
            forall|i: int|
                0 <= i < outn.len() ==> self.is_more_specific(#[trigger] outn[i] as int, q) &&  (
                self.entries@[outn[i] as int].prefix@.len() <= self.nodes@[j].consumed as int
                    + self.nodes@[j].stride as int || seq_val(
                    self.entries@[outn[i] as int].prefix@.subrange(
                        self.nodes@[j].consumed as int,
                        self.nodes@[j].consumed as int + self.nodes@[j].stride as int,
                    ),
                ) < w as nat + 1),
            forall|e: int|
                self.is_more_specific(e, q) && (self.entries@[e].prefix@.len()
                    <= self.nodes@[j].consumed as int + self.nodes@[j].stride as int || seq_val(
                    self.entries@[e].prefix@.subrange(
                        self.nodes@[j].consumed as int,
                        self.nodes@[j].consumed as int + self.nodes@[j].stride as int,
                    ),
                ) < w as nat + 1) ==> outn.contains(e as usize),
            forall|i1: int, i2: int| 0 <= i1 < i2 < outn.len() ==> outn[i1] != outn[i2],
    {
        assert(vstd::std_specs::vec::spec_vec_len(&self.nodes) == self.nodes@.len());
        assert(self.node_wf(j));
        assert(self.child_link_ok(j, w as int));
        assert(self.node_wf(jc));
        let nd = self.nodes@[j];
        let c = nd.consumed as int;
        let s = nd.stride as int;
        let cpath = self.nodes@[jc].path@;
        let path = nd.path@;
        assert(cpath.take(c) == path);
        assert(seq_val(cpath.skip(c)) == w as nat);
        assert(cpath.len() == c + s);
        // an entry below this child strictly extends the query
        assert forall|ee: int| self.in_subtree(ee, jc) implies self.is_more_specific(ee, q) && (
        seq_val(self.entries@[ee].prefix@.subrange(c, c + s)) == w as nat) by {
            let p2 = self.entries@[ee].prefix@;
            assert(p2.take(c + s) == cpath);
            assert(p2.subrange(c, c + s) =~= cpath.skip(c));
            lemma_seq_val_top(p2.subrange(c, c + s), (q.len() - c) as int, v);
            assert(p2.subrange(c, c + s).take((q.len() - c) as int) =~= p2.subrange(
                c,
                q.len() as int,
            ));
            lemma_seq_val_inj(
                p2.subrange(c, q.len() as int),
                q.subrange(c, q.len() as int),
            );
            assert(p2.take(c) =~= cpath.take(c));
            assert(q =~= q.take(c) + q.subrange(c, q.len() as int));
            assert(p2.take(q.len() as int) =~= p2.take(c) + p2.subrange(c, q.len() as int));
            assert(covers(q, p2));
        }
        assert forall|i: int|
            0 <= i < outn.len() implies self.is_more_specific(#[trigger] outn[i] as int, q) && (
            self.entries@[outn[i] as int].prefix@.len() <= c + s || seq_val(
                self.entries@[outn[i] as int].prefix@.subrange(c, c + s),
            ) < w as nat + 1) by {
            if i < outb.len() {
                assert(outn[i] == outb[i]);
            } else {
                assert(self.in_subtree(outn[i] as int, jc));
            }
        }
        // completeness
        assert forall|e: int|
            self.is_more_specific(e, q) && (self.entries@[e].prefix@.len() <= c + s || seq_val(
                self.entries@[e].prefix@.subrange(c, c + s),
            ) < w as nat + 1) implies outn.contains(e as usize) by {
            let p2 = self.entries@[e].prefix@;
            if p2.len() <= c + s || seq_val(p2.subrange(c, c + s)) < w as nat {
                assert(outb.contains(e as usize));
                let i0 = choose|i0: int| 0 <= i0 < outb.len() && outb[i0] == e as usize;
                assert(outn[i0] == outb[i0]);
            } else {
                assert(p2.len() > c + s);
                assert(seq_val(p2.subrange(c, c + s)) == w as nat);
                assert(p2.take(c + s) =~= cpath) by {
                    assert(p2.take(q.len() as int) == q);
                    assert(p2.take(c + s).take(c) =~= p2.take(c));
                    assert(p2.take(c) =~= q.take(c));
                    assert(cpath.take(c) == path);
                    assert(p2.take(c + s).skip(c) =~= p2.subrange(c, c + s));
                    lemma_seq_val_inj(p2.take(c + s).skip(c), cpath.skip(c));
                    assert(p2.take(c + s) =~= p2.take(c + s).take(c) + p2.take(c + s).skip(c));
                    assert(cpath =~= cpath.take(c) + cpath.skip(c));
                }
                assert(self.in_subtree(e, jc));
                assert(outn.skip(outb.len() as int).contains(e as usize));
                let i1 = choose|i1: int|
                    0 <= i1 < outn.skip(outb.len() as int).len() && outn.skip(
                        outb.len() as int,
                    )[i1] == e as usize;
                assert(outn[i1 + outb.len()] == e as usize);
            }
        }
        // distinctness
        assert forall|i1: int, i2: int|
            0 <= i1 < i2 < outn.len() implies outn[i1] != outn[i2] by {
            if i2 < outb.len() {
                assert(outn[i1] == outb[i1]);
                assert(outn[i2] == outb[i2]);
            } else if i1 >= outb.len() {
            } else {
                assert(outn[i1] == outb[i1]);
                let e1 = outn[i1] as int;
                let e2 = outn[i2] as int;
                assert(self.in_subtree(e2, jc));
                if e1 == e2 {
                    assert(self.entries@[e1].prefix@.len() <= c + s || seq_val(
                        self.entries@[e1].prefix@.subrange(c, c + s),
                    ) < w as nat);
                    assert(self.entries@[e2].prefix@.len() > c + s);
                    assert(seq_val(self.entries@[e2].prefix@.subrange(c, c + s)) == w as nat);
                    assert(false);
                }
            }
        }
    }
}


impl<M: Meta> TreeBitMap<M> {
    /// The running result of the less-specifics walk: every strictly less
    /// specific stored prefix of length at most `bound`, shortest first.
    pub open spec fn ls_upto(self, q: Seq<bool>, bound: int, out: Seq<usize>) -> bool {
        &&& forall|i: int|
            0 <= i < out.len() ==> self.is_less_specific(#[trigger] out[i] as int, q)
                && self.entries@[out[i] as int].prefix@.len() <= bound
        &&& forall|e: int|
            self.is_less_specific(e, q) && self.entries@[e].prefix@.len() <= bound
                ==> out.contains(e as usize)
        &&& forall|i1: int, i2: int|
            0 <= i1 < i2 < out.len() ==> self.entries@[out[i1] as int].prefix@.len()
                < self.entries@[out[i2] as int].prefix@.len()
    }

    /// The strictly less specific stored prefixes of the query, shortest
    /// first, gathered on the walk from the root to the query's terminal
    /// node.
    #[verifier::spinoff_prover]
    #[verifier::rlimit(100)]
    pub fn less_specific_entries(&self, pfx: &PrefixId) -> (r: Vec<usize>)
        requires
            self.wf(),
            pfx.is_valid(),
            pfx.fam == self.fam,
        ensures
            self.ls_upto(pfx@, pfx@.len() as int, r@),
            forall|i1: int, i2: int| 0 <= i1 < i2 < r@.len() ==> r@[i1] != r@[i2],
    {
        let ghost q = pfx@;
        let len: u8 = pfx.len;
        let mut out: Vec<usize> = Vec::new();
        let mut n: usize = 0;
        let mut level: usize = 0;
        let mut c: u8 = 0;
        proof {
            lemma_term_level(self.strides@, self.width(), len as int);
            assert(q.len() == len as int);
            assert(self.nodes@[0].path@ =~= q.take(0));
            assert(self.node_wf(0));
            assert(cum(self.strides@, 0) == 0);
        }
        loop
            invariant
                self.wf(),
                pfx.is_valid(),
                pfx.fam == self.fam,
                q == pfx@,
                len == pfx.len,
                q.len() == len as int,
                (n as int) < self.nodes@.len(),
                self.nodes@[n as int].level == level,
                level < self.strides@.len(),
                c as int == cum(self.strides@, level as int),
                c <= len,
                self.nodes@[n as int].consumed == c,
                self.nodes@[n as int].path@ == q.take(c as int),
                descend(self.nodes@, q, level as int) == Some(n as int),
                level == 0 ==> self.ls_upto(q, -1, out@),
                level > 0 ==> self.ls_upto(q, c as int, out@),
            decreases self.strides@.len() - level as int,
        {
            let s: u8 = self.strides[level];
            proof {
                assert(self.node_wf(n as int));
            }
            let rem: u8 = len - c;
            let hi_excl: u8 = if rem <= s {
                rem
            } else {
                s + 1
            };
            // internal candidates strictly shorter than the query
            let mut r2: u8 = 0;
            while r2 < hi_excl
                invariant
                    self.wf(),
                    pfx.is_valid(),
                    pfx.fam == self.fam,
                    q == pfx@,
                    len == pfx.len,
                    q.len() == len as int,
                    (n as int) < self.nodes@.len(),
                    self.nodes@[n as int].level == level,
                    level < self.strides@.len(),
                    c as int == cum(self.strides@, level as int),
                    c <= len,
                    s == self.nodes@[n as int].stride,
                    3 <= s <= 5,
                    hi_excl <= s + 1,
                    c as int + hi_excl as int - 1 <= len as int,
                    rem as int == len as int - c as int,
                    hi_excl as int == (if rem <= s {
                        rem as int
                    } else {
                        s as int + 1
                    }),
                    self.nodes@[n as int].consumed == c,
                    self.nodes@[n as int].path@ == q.take(c as int),
                    descend(self.nodes@, q, level as int) == Some(n as int),
                    0 <= r2 <= hi_excl,
                    (r2 == 0 && level == 0) ==> self.ls_upto(q, -1, out@),
                    (r2 == 0 && level > 0) ==> self.ls_upto(q, c as int, out@),
                    r2 > 0 ==> self.ls_upto(q, c as int + r2 as int - 1, out@),
                decreases hi_excl as int - r2 as int,
            {
                let skip_slot_zero = level > 0 && r2 == 0;
                if !skip_slot_zero {
                    let v = pfx_chunk(pfx, c, r2);
                    proof {
                        assert(self.node_wf(n as int));
                        lemma_heap_idx_bound(r2 as nat, v as nat, s as nat);
                        lemma2_to64();
                        let sp1: nat = (s + 1) as nat;
                        if sp1 < 6 {
                            vstd::arithmetic::power2::lemma_pow2_strictly_increases(sp1, 6);
                        }
                    }
                    let i = (pow2_u64(r2) - 1 + v as u64) as usize;
                    let slot = self.nodes[n].pfx_slots[i];
                    let ghost outb = out@;
                    let ghost l2 = c as int + r2 as int;
                    match slot {
                        Some(e) => {
                            proof {
                                assert(self.pfx_slot_ok(n as int, r2 as nat, v as nat));
                                let en = self.entries@[e as int];
                                lemma_take_decompose(q, c as int, l2);
                                assert(en.prefix@ =~= en.prefix@.take(c as int)
                                    + en.prefix@.skip(c as int));
                                lemma_seq_val_inj(
                                    en.prefix@.skip(c as int),
                                    q.subrange(c as int, l2),
                                );
                                assert(en.prefix@ == q.take(l2));
                                assert(covers(en.prefix@, q));
                                assert(self.is_less_specific(e as int, q));
                            }
                            out.push(e);
                            proof {
                                assert forall|e2: int|
                                    self.is_less_specific(e2, q)
                                        && self.entries@[e2].prefix@.len() <= l2 implies out@
                                    .contains(e2 as usize) by {
                                    if self.entries@[e2].prefix@.len() == l2 {
                                        assert(self.entries@[e2].prefix@ == q.take(l2));
                                        if e2 != e as int {
                                            self.lemma_entries_distinct(e2, e as int);
                                            assert(false);
                                        }
                                        assert(out@[out@.len() - 1] == e);
                                    } else {
                                        assert(outb.contains(e2 as usize));
                                        let i0 = choose|i0: int|
                                            0 <= i0 < outb.len() && outb[i0] == e2 as usize;
                                        assert(out@[i0] == e2 as usize);
                                    }
                                }
                            }
                        },
                        None => {
                            proof {
                                if r2 > 0 || level == 0 {
                                    self.lemma_no_cover_at(q, n as int, r2 as int, l2);
                                }
                            }
                        },
                    }
                }
                r2 = r2 + 1;
            }
            if rem <= s {
                proof {
                    if rem == 0 && level == 0 {
                        assert(self.ls_upto(q, len as int, out@));
                    }
                    assert(self.ls_upto(q, len as int, out@));
                    assert forall|i1: int, i2: int|
                        0 <= i1 < i2 < out@.len() implies out@[i1] != out@[i2] by {}
                }
                return out;
            }
            let v = pfx_chunk(pfx, c, s);
            proof {
                lemma_seq_val_bound(q.subrange(c as int, c as int + s as int));
                assert(self.child_link_ok(n as int, v as int));
            }
            let child = self.nodes[n].child_slots[v as usize];
            match child {
                None => {
                    proof {
                        assert(descend_from(self.nodes@, n as int, q, 1) is None);
                        self.lemma_descend_split(q, level as int, 1);
                        assert(cum(self.strides@, level as int + 1) == cum(
                            self.strides@,
                            level as int,
                        ) + self.strides@[level as int]);
                        assert forall|e2: int|
                            0 <= e2 < self.entries@.len() && covers(
                                #[trigger] self.entries@[e2].prefix@,
                                q,
                            ) implies self.entries@[e2].prefix@.len() <= c as int + s as int by {
                            let p2 = self.entries@[e2].prefix@;
                            if p2.len() > c as int + s as int {
                                assert(self.entry_ok(e2));
                                let k2 = term_level(self.strides@, p2.len() as int);
                                lemma_term_level(self.strides@, self.width(), p2.len() as int);
                                assert(k2 > level as int) by {
                                    if k2 <= level as int {
                                        lemma_cum_mono(self.strides@, k2 + 1, level as int + 1);
                                        assert(cum(self.strides@, k2 + 1) == cum(
                                            self.strides@,
                                            k2,
                                        ) + self.strides@[k2]);
                                        assert(false);
                                    }
                                }
                                assert(p2.take(cum(self.strides@, level as int + 1)) == q.take(
                                    cum(self.strides@, level as int + 1),
                                )) by {
                                    assert(p2 == q.take(p2.len() as int));
                                    lemma_take_decompose(q, c as int + s as int, p2.len() as int);
                                }
                                self.lemma_descend_agree(0, q, p2, level as int + 1);
                                self.lemma_descend_none_deeper(p2, level as int, k2);
                                assert(self.lookup(p2) is None);
                                assert(false);
                            }
                        }
                        assert(self.ls_upto(q, len as int, out@));
                        assert forall|i1: int, i2: int|
                            0 <= i1 < i2 < out@.len() implies out@[i1] != out@[i2] by {}
                    }
                    return out;
                },
                Some(j) => {
                    proof {
                        let jn = self.nodes@[j as int];
                        assert(self.node_wf(j as int));
                        lemma_take_decompose(q, c as int, c as int + s as int);
                        assert(jn.path@ =~= jn.path@.take(c as int) + jn.path@.skip(c as int));
                        lemma_seq_val_inj(
                            jn.path@.skip(c as int),
                            q.subrange(c as int, c as int + s as int),
                        );
                        assert(jn.path@ == q.take(c as int + s as int));
                        assert(cum(self.strides@, level as int + 1) == cum(
                            self.strides@,
                            level as int,
                        ) + self.strides@[level as int]);
                        self.lemma_descend_split(q, level as int, 1);
                        assert(descend_from(self.nodes@, j as int, q, 0) == Some(j as int));
                        assert(descend_from(self.nodes@, n as int, q, 1) == Some(j as int));
                    }
                    n = j;
                    level = level + 1;
                    c = c + s;
                },
            }
        }
    }
}


impl<M: Meta> TreeBitMap<M> {
    /// Replacing one table entry by another with the same prefix keeps the
    /// whole trie well-formed and every lookup unchanged.
    proof fn lemma_wf_entry_update(self, other: TreeBitMap<M>, e: int)
        requires
            self.wf(),
            0 <= e < self.entries@.len(),
            other.fam == self.fam,
            other.strides == self.strides,
            other.nodes == self.nodes,
            other.withdrawn_muis == self.withdrawn_muis,
            other.entries@ == self.entries@.update(e, other.entries@[e]),
            other.entries@[e].prefix == self.entries@[e].prefix,
            other.entries@[e].wf(),
            other.entries@[e].selection_ok(other.withdrawn_muis@),
        ensures
            other.wf(),
            forall|q: Seq<bool>| #[trigger] other.lookup(q) == self.lookup(q),
    {
        assert forall|q: Seq<bool>| #[trigger] other.lookup(q) == self.lookup(q) by {}
        assert forall|m: int| 0 <= m < other.nodes@.len() implies other.node_wf(m) by {
            assert(self.node_wf(m));
            assert forall|w: int|
                0 <= w < other.nodes@[m].child_slots@.len() implies other.child_link_ok(
                m,
                w,
            ) by {
                assert(self.child_link_ok(m, w));
            }
            assert forall|rem2: nat, w: nat|
                rem2 <= other.nodes@[m].stride as nat && w < pow2(rem2) implies other
                .pfx_slot_ok(m, rem2, w) by {
                assert(self.pfx_slot_ok(m, rem2, w));
                let idx = pow2(rem2) - 1 + w;
                match other.nodes@[m].pfx_slots@[idx as int] {
                    None => {},
                    Some(e3) => {
                        assert(other.entries@[e3 as int].prefix
                            == self.entries@[e3 as int].prefix);
                    },
                }
            }
        }
        assert forall|e3: int| 0 <= e3 < other.entries@.len() implies other.entry_ok(e3) by {
            assert(self.entry_ok(e3));
            assert(other.entries@[e3].prefix == self.entries@[e3].prefix);
            assert(other.lookup(other.entries@[e3].prefix@) == self.lookup(
                self.entries@[e3].prefix@,
            ));
            if e3 != e {
                assert(other.entries@[e3] == self.entries@[e3]);
                assert(other.entries@[e3].selection_ok(other.withdrawn_muis@));
            }
        }
    }

    /// Well-formedness carries over to a tree with the same structure, given
    /// that every entry's cached selection still holds under the other
    /// tree's global withdrawn set.
    proof fn lemma_wf_same_structure(self, other: TreeBitMap<M>)
        requires
            self.wf(),
            other.fam == self.fam,
            other.strides == self.strides,
            other.nodes == self.nodes,
            other.entries == self.entries,
            forall|e: int|
                0 <= e < other.entries@.len() ==> (#[trigger] other.entries@[e]).selection_ok(
                    other.withdrawn_muis@,
                ),
        ensures
            other.wf(),
    {
        assert forall|m: int| 0 <= m < other.nodes@.len() implies other.node_wf(m) by {
            assert(self.node_wf(m));
            assert forall|w: int|
                0 <= w < other.nodes@[m].child_slots@.len() implies other.child_link_ok(
                m,
                w,
            ) by {
                assert(self.child_link_ok(m, w));
            }
            assert forall|rem2: nat, w: nat|
                rem2 <= other.nodes@[m].stride as nat && w < pow2(rem2) implies other
                .pfx_slot_ok(m, rem2, w) by {
                assert(self.pfx_slot_ok(m, rem2, w));
            }
        }
        assert forall|e3: int| 0 <= e3 < other.entries@.len() implies other.entry_ok(e3) by {
            assert(self.entry_ok(e3));
            assert(other.lookup(other.entries@[e3].prefix@) == self.lookup(
                self.entries@[e3].prefix@,
            ));
        }
    }

    /// The filtered records of a stored prefix, or nothing when the prefix
    /// is absent.
    pub fn get_records_for_prefix(
        &self,
        pfx: &PrefixId,
        mui: Option<u32>,
        include_withdrawn: bool,
    ) -> (r: Option<Vec<Record<M>>>)
        requires
            self.wf(),
            pfx.is_valid(),
            pfx.fam == self.fam,
        ensures
            r is Some <==> self.has_pfx(pfx@),
            match r {
                Some(v) => {
                    let en = self.entries@[self.idx_of(pfx@)];
                    v@ == crate::entry::vis_filter(
                        en@.records,
                        en@.withdrawn,
                        self.withdrawn_muis@,
                        mui,
                        include_withdrawn,
                    )
                },
                None => true,
            },
    {
        match self.lookup_entry(pfx) {
            None => None,
            Some(e) => {
                proof {
                    let e2 = self.idx_of(pfx@);
                    assert(self.entries@[e2].prefix@ == pfx@);
                    if e2 != e as int {
                        self.lemma_entries_distinct(e2, e as int);
                        assert(false);
                    }
                }
                Some(self.entries[e].filtered_records(mui, include_withdrawn, &self.withdrawn_muis))
            },
        }
    }

    /// Marks a producer withdrawn or active again for one prefix.  Stored
    /// record statuses are untouched; the path selection goes stale.
    pub fn mark_mui_for_prefix(&mut self, pfx: &PrefixId, mui: u32, withdrawn: bool) -> (r:
        Result<(), PrefixStoreError>)
        requires
            old(self).wf(),
            pfx.is_valid(),
            pfx.fam == old(self).fam,
        ensures
            final (self).wf(),
            final (self).fam == old(self).fam,
            final (self).strides@ == old(self).strides@,
            final (self).nodes@ == old(self).nodes@,
            final (self).withdrawn_muis@ == old(self).withdrawn_muis@,
            r is Err <==> !old(self).has_pfx(pfx@),
            r is Err ==> *final (self) == *old(self) && r == Err::<(), PrefixStoreError>(
                PrefixStoreError::StoreNotReadyError,
            ),
            r is Ok ==> {
                let e = old(self).idx_of(pfx@);
                let oldE = old(self).entries@[e];
                let newE = final (self).entries@[e];
                &&& final (self).entries@ == old(self).entries@.update(e, newE)
                &&& newE.prefix == oldE.prefix
                &&& newE@.records == oldE@.records
                &&& newE@.withdrawn == (if withdrawn {
                    oldE@.withdrawn.insert(mui)
                } else {
                    oldE@.withdrawn.remove(mui)
                })
                &&& newE@.best == oldE@.best
                &&& newE@.backup == oldE@.backup
                &&& newE@.seq == oldE@.seq
                &&& newE@.sel_tbi == oldE@.sel_tbi
                &&& newE@.stale
            },
    {
        let found = self.lookup_entry(pfx);
        match found {
            None => Err(PrefixStoreError::StoreNotReadyError),
            Some(e) => {
                let ghost mid = *self;
                proof {
                    let e2 = self.idx_of(pfx@);
                    assert(self.entries@[e2].prefix@ == pfx@);
                    if e2 != e as int {
                        self.lemma_entries_distinct(e2, e as int);
                        assert(false);
                    }
                    assert(self.entry_ok(e as int));
                }
                let ent = entry_mut(&mut self.entries, e);
                if withdrawn {
                    ent.mark_mui_withdrawn(mui);
                } else {
                    ent.mark_mui_active(mui);
                }
                proof {
                    crate::entry::lemma_selection_ok_stale(
                        self.entries@[e as int],
                        self.withdrawn_muis@,
                    );
                    mid.lemma_wf_entry_update(*self, e as int);
                }
                Ok(())
            },
        }
    }

    /// Marks a producer withdrawn or active across the whole family; the
    /// path selection of every prefix holding a record of that producer goes
    /// stale.
    pub fn mark_mui_global(&mut self, mui: u32, withdrawn: bool)
        requires
            old(self).wf(),
        ensures
            final (self).wf(),
            final (self).fam == old(self).fam,
            final (self).strides@ == old(self).strides@,
            final (self).nodes@ == old(self).nodes@,
            final (self).withdrawn_muis@ == (if withdrawn {
                old(self).withdrawn_muis@.insert(mui)
            } else {
                old(self).withdrawn_muis@.remove(mui)
            }),
            final (self).entries@.len() == old(self).entries@.len(),
            forall|e: int|
                0 <= e < old(self).entries@.len() ==> {
                    let oldE = old(self).entries@[e];
                    let newE = #[trigger] final (self).entries@[e];
                    &&& newE.prefix == oldE.prefix
                    &&& newE@.records == oldE@.records
                    &&& newE@.withdrawn == oldE@.withdrawn
                    &&& newE@.best == oldE@.best
                    &&& newE@.backup == oldE@.backup
                    &&& newE@.seq == oldE@.seq
                    &&& newE@.sel_tbi == oldE@.sel_tbi
                    &&& newE@.stale == (oldE@.stale || crate::entry::has_mui(oldE@.records, mui))
                },
    {
        // first mark every touched selection stale, then flip the global
        // set: an untouched entry's cached selection does not depend on
        // this producer
        let mut e: usize = 0;
        while e < self.entries.len()
            invariant
                self.wf(),
                self.fam == old(self).fam,
                self.strides@ == old(self).strides@,
                self.nodes@ == old(self).nodes@,
                self.withdrawn_muis@ == old(self).withdrawn_muis@,
                self.withdrawn_muis == old(self).withdrawn_muis,
                self.entries@.len() == old(self).entries@.len(),
                0 <= e <= self.entries@.len(),
                forall|e2: int|
                    0 <= e2 < e as int ==> {
                        let oldE = old(self).entries@[e2];
                        let newE = #[trigger] self.entries@[e2];
                        &&& newE.prefix == oldE.prefix
                        &&& newE@.records == oldE@.records
                        &&& newE@.withdrawn == oldE@.withdrawn
                        &&& newE@.best == oldE@.best
                        &&& newE@.backup == oldE@.backup
                        &&& newE@.seq == oldE@.seq
                        &&& newE@.sel_tbi == oldE@.sel_tbi
                        &&& newE@.stale == (oldE@.stale || crate::entry::has_mui(
                            oldE@.records,
                            mui,
                        ))
                    },
                forall|e2: int|
                    e as int <= e2 < self.entries@.len() ==> #[trigger] self.entries@[e2] == old(
                        self,
                    ).entries@[e2],
            decreases self.entries@.len() - e as int,
        {
            let ghost mid = *self;
            let touches = self.entries[e].contains_mui(mui);
            if touches {
                let ent = entry_mut(&mut self.entries, e);
                ent.stale = true;
                proof {
                    assert(mid.entry_ok(e as int));
                    crate::entry::lemma_selection_ok_stale(
                        self.entries@[e as int],
                        self.withdrawn_muis@,
                    );
                    mid.lemma_wf_entry_update(*self, e as int);
                }
            }
            e = e + 1;
        }
        let ghost pre = *self;
        if withdrawn {
            self.withdrawn_muis.add(mui);
        } else {
            self.withdrawn_muis.remove(mui);
        }
        proof {
            assert forall|e2: int|
                0 <= e2 < self.entries@.len() implies (#[trigger] self.entries@[e2]).selection_ok(
                self.withdrawn_muis@,
            ) by {
                assert(pre.entry_ok(e2));
                let en = self.entries@[e2];
                if crate::entry::has_mui(en.records@, mui) {
                    assert(en.stale);
                    crate::entry::lemma_selection_ok_stale(en, self.withdrawn_muis@);
                } else {
                    crate::entry::lemma_selection_gw_irrelevant(
                        en,
                        pre.withdrawn_muis@,
                        self.withdrawn_muis@,
                        mui,
                    );
                }
            }
            pre.lemma_wf_same_structure(*self);
        }
    }

    /// The best path of a prefix.  The cached selection is served when it is
    /// current; a stale selection is re-derived lazily, in place, under the
    /// tie-break input of the last recomputation.  On a prefix whose
    /// selection was never computed there is no best path yet:
    /// `BestPathNotFound`.
    pub fn best_path(&mut self, pfx: &PrefixId) -> (r: Option<Result<Record<M>, PrefixStoreError>>)
        requires
            old(self).wf(),
            pfx.is_valid(),
            pfx.fam == old(self).fam,
        ensures
            final (self).wf(),
            final (self).fam == old(self).fam,
            final (self).strides@ == old(self).strides@,
            final (self).nodes@ == old(self).nodes@,
            final (self).withdrawn_muis@ == old(self).withdrawn_muis@,
            r is None <==> !old(self).has_pfx(pfx@),
            !old(self).has_pfx(pfx@) ==> *final (self) == *old(self),
            old(self).has_pfx(pfx@) ==> ({
                let e = old(self).idx_of(pfx@);
                let oldE = old(self).entries@[e];
                let newE = final (self).entries@[e];
                &&& final (self).entries@ == old(self).entries@.update(e, newE)
                &&& newE.prefix == oldE.prefix
                &&& newE@.records == oldE@.records
                &&& newE@.withdrawn == oldE@.withdrawn
                // a current selection is served untouched
                &&& (!oldE@.stale ==> newE == oldE)
                // nothing to re-derive before the first recomputation
                &&& ((oldE@.stale && oldE@.sel_tbi is None) ==> newE == oldE && r == Some(
                    Err::<Record<M>, PrefixStoreError>(PrefixStoreError::BestPathNotFound),
                ))
                // a stale selection is re-derived under the last tie-break
                // input
                &&& ((oldE@.stale && oldE@.sel_tbi is Some) ==> {
                    &&& !newE@.stale
                    &&& newE@.sel_tbi == oldE@.sel_tbi
                    &&& newE@.seq == (if oldE@.seq == u64::MAX {
                        0u64
                    } else {
                        ((oldE@.seq + 1) as u64)
                    })
                    &&& match newE@.best {
                        None => forall|i: int|
                            0 <= i < oldE@.records.len() ==> !crate::entry::visible_active(
                                #[trigger] oldE@.records[i],
                                oldE@.withdrawn,
                                old(self).withdrawn_muis@,
                            ),
                        Some(m) => exists|i: int|
                            crate::entry::best_at_recs(
                                oldE@.records,
                                oldE@.withdrawn,
                                old(self).withdrawn_muis@,
                                &oldE@.sel_tbi->0,
                                i,
                            ) && oldE@.records[i].multi_uniq_id == m,
                    }
                })
                &&& match r {
                    None => false,
                    Some(inner) => match inner {
                        Err(err) => err == PrefixStoreError::BestPathNotFound && (newE@.best
                            is None || (oldE@.stale && oldE@.sel_tbi is None)),
                        Ok(rec) => !newE@.stale && newE@.best == Some(rec.multi_uniq_id)
                            && crate::entry::has_mui(newE@.records, rec.multi_uniq_id) && rec
                            == newE@.records[crate::entry::mui_idx(
                            newE@.records,
                            rec.multi_uniq_id,
                        )],
                    },
                }
            }),
    {
        let found = self.lookup_entry(pfx);
        match found {
            None => None,
            Some(e) => {
                proof {
                    let e2 = self.idx_of(pfx@);
                    assert(self.entries@[e2].prefix@ == pfx@);
                    if e2 != e as int {
                        self.lemma_entries_distinct(e2, e as int);
                        assert(false);
                    }
                    assert(self.entry_ok(e as int));
                }
                if self.entries[e].stale {
                    let tbi_opt: Option<M::TBI> = match &self.entries[e].sel_tbi {
                        Some(t) => Some(M::clone_tbi(t)),
                        None => None,
                    };
                    match tbi_opt {
                        None => {
                            proof {
                                let e2 = old(self).idx_of(pfx@);
                                assert(self.entries@ =~= old(self).entries@.update(
                                    e2,
                                    self.entries@[e2],
                                ));
                            }
                            return Some(Err(PrefixStoreError::BestPathNotFound));
                        },
                        Some(t) => {
                            // lazy re-derivation of the stale selection
                            let ghost mid = *self;
                            let ent = entry_mut(&mut self.entries, e);
                            let _sel = ent.calc_best_backup(&t, &self.withdrawn_muis);
                            proof {
                                assert(self.entries@[e as int].selection_ok(
                                    self.withdrawn_muis@,
                                ));
                                mid.lemma_wf_entry_update(*self, e as int);
                            }
                        },
                    }
                }
                proof {
                    assert(self.entry_ok(e as int));
                }
                match self.entries[e].best {
                    None => Some(Err(PrefixStoreError::BestPathNotFound)),
                    Some(m) => {
                        let ghost recs = self.entries@[e as int]@.records;
                        proof {
                            // a fresh selection names a producer that exists
                            crate::entry::lemma_selection_best(
                                self.entries@[e as int],
                                self.withdrawn_muis@,
                                m,
                            );
                            assert(crate::entry::has_mui(recs, m));
                        }
                        let pr = PrefixRecord {
                            prefix: *pfx,
                            meta: self.entries[e].records_clone(),
                        };
                        let found_rec = pr.get_record_for_mui(m);
                        match found_rec {
                            None => {
                                proof {
                                    let i2 = crate::entry::mui_idx(recs, m);
                                    assert(recs[i2].multi_uniq_id == m);
                                    assert(false);
                                }
                                Some(Err(PrefixStoreError::BestPathNotFound))
                            },
                            Some(rec) => {
                                let out = rec.clone_record();
                                proof {
                                    let i = choose|i: int|
                                        0 <= i < recs.len() && recs[i] == out && recs[
                                            i].multi_uniq_id == m;
                                    let i2 = crate::entry::mui_idx(recs, m);
                                    assert(recs[i2].multi_uniq_id == m);
                                    if i2 != i {
                                        assert(recs[i].multi_uniq_id != recs[i2].multi_uniq_id);
                                    }
                                }
                                Some(Ok(out))
                            },
                        }
                    },
                }
            },
        }
    }

    /// Recomputes and stores the best and backup producers for one prefix.
    pub fn calc_best_backup_for(&mut self, pfx: &PrefixId, tbi: &M::TBI) -> (r: Result<
        (Option<u32>, Option<u32>),
        PrefixStoreError,
    >)
        requires
            old(self).wf(),
            pfx.is_valid(),
            pfx.fam == old(self).fam,
        ensures
            final (self).wf(),
            final (self).fam == old(self).fam,
            final (self).strides@ == old(self).strides@,
            final (self).nodes@ == old(self).nodes@,
            final (self).withdrawn_muis@ == old(self).withdrawn_muis@,
            r is Err <==> !old(self).has_pfx(pfx@),
            r is Err ==> *final (self) == *old(self) && r == Err::<
                (Option<u32>, Option<u32>),
                PrefixStoreError,
            >(PrefixStoreError::StoreNotReadyError),
            r is Ok ==> {
                let e = old(self).idx_of(pfx@);
                let oldE = old(self).entries@[e];
                let newE = final (self).entries@[e];
                &&& final (self).entries@ == old(self).entries@.update(e, newE)
                &&& newE.prefix == oldE.prefix
                &&& newE@.records == oldE@.records
                &&& newE@.withdrawn == oldE@.withdrawn
                &&& !newE@.stale
                &&& r == Ok::<(Option<u32>, Option<u32>), PrefixStoreError>(
                    (newE@.best, newE@.backup),
                )
                &&& match newE@.best {
                    None => forall|i: int|
                        0 <= i < oldE@.records.len() ==> !crate::entry::visible_active(
                            #[trigger] oldE@.records[i],
                            oldE@.withdrawn,
                            old(self).withdrawn_muis@,
                        ),
                    Some(m) => exists|i: int|
                        old(self).entries@[e].best_at(old(self).withdrawn_muis@, tbi, i) && oldE@
                            .records[i].multi_uniq_id == m,
                }
                &&& match newE@.backup {
                    None => newE@.best matches Some(m) ==> forall|i: int|
                        0 <= i < oldE@.records.len() && crate::entry::visible_active(
                            #[trigger] oldE@.records[i],
                            oldE@.withdrawn,
                            old(self).withdrawn_muis@,
                        ) ==> oldE@.records[i].multi_uniq_id == m,
                    Some(m2) => exists|b: int, i: int|
                        old(self).entries@[e].best_at(old(self).withdrawn_muis@, tbi, b)
                            && newE@.best == Some(oldE@.records[b].multi_uniq_id) && old(
                            self,
                        ).entries@[e].backup_at(old(self).withdrawn_muis@, tbi, b, i) && oldE@
                            .records[i].multi_uniq_id == m2,
                }
                &&& (newE@.backup is Some ==> newE@.best is Some)
                &&& newE@.seq == (if oldE@.seq == u64::MAX {
                    0u64
                } else {
                    ((oldE@.seq + 1) as u64)
                })
                &&& newE@.sel_tbi == Some(*tbi)
            },
    {
        let found = self.lookup_entry(pfx);
        match found {
            None => Err(PrefixStoreError::StoreNotReadyError),
            Some(e) => {
                let ghost mid = *self;
                proof {
                    let e2 = self.idx_of(pfx@);
                    assert(self.entries@[e2].prefix@ == pfx@);
                    if e2 != e as int {
                        self.lemma_entries_distinct(e2, e as int);
                        assert(false);
                    }
                    assert(self.entry_ok(e as int));
                }
                let ent = entry_mut(&mut self.entries, e);
                let r = ent.calc_best_backup(tbi, &self.withdrawn_muis);
                proof {
                    assert(self.entries@[e as int].selection_ok(self.withdrawn_muis@));
                    mid.lemma_wf_entry_update(*self, e as int);
                }
                Ok(r)
            },
        }
    }

    /// Whether the cached path selection of a prefix is stale.
    pub fn is_ps_outdated_for(&self, pfx: &PrefixId) -> (r: Result<bool, PrefixStoreError>)
        requires
            self.wf(),
            pfx.is_valid(),
            pfx.fam == self.fam,
        ensures
            r is Err <==> !self.has_pfx(pfx@),
            r is Err ==> r == Err::<bool, PrefixStoreError>(PrefixStoreError::StoreNotReadyError),
            r is Ok ==> r == Ok::<bool, PrefixStoreError>(
                self.entries@[self.idx_of(pfx@)]@.stale,
            ),
    {
        match self.lookup_entry(pfx) {
            None => Err(PrefixStoreError::StoreNotReadyError),
            Some(e) => {
                proof {
                    let e2 = self.idx_of(pfx@);
                    assert(self.entries@[e2].prefix@ == pfx@);
                    if e2 != e as int {
                        self.lemma_entries_distinct(e2, e as int);
                        assert(false);
                    }
                }
                Ok(self.entries[e].stale)
            },
        }
    }

    /// How many distinct prefixes this family's table holds.
    pub fn prefixes_len(&self) -> (r: usize)
        ensures
            r == self.entries@.len(),
    {
        self.entries.len()
    }

    /// How many trie nodes this family holds.
    pub fn nodes_len(&self) -> (r: usize)
        ensures
            r == self.nodes@.len(),
    {
        self.nodes.len()
    }

    /// Every stored prefix with all of its records, in insertion order,
    /// with the effective status overlaid at read time: a record withdrawn
    /// by any of the three layers shows as withdrawn.
    pub fn prefixes_iter_records(&self) -> (r: Vec<PrefixRecord<M>>)
        requires
            self.wf(),
        ensures
            r@.len() == self.entries@.len(),
            forall|i: int|
                0 <= i < r@.len() ==> (#[trigger] r@[i]).prefix == self.entries@[i].prefix
                    && r@[i].meta@ == crate::entry::vis_filter(
                    self.entries@[i]@.records,
                    self.entries@[i]@.withdrawn,
                    self.withdrawn_muis@,
                    None,
                    true,
                ),
    {
        let mut out: Vec<PrefixRecord<M>> = Vec::new();
        let mut i: usize = 0;
        while i < self.entries.len()
            invariant
                self.wf(),
                0 <= i <= self.entries@.len(),
                out@.len() == i as int,
                forall|j: int|
                    0 <= j < i as int ==> (#[trigger] out@[j]).prefix == self.entries@[j].prefix
                        && out@[j].meta@ == crate::entry::vis_filter(
                        self.entries@[j]@.records,
                        self.entries@[j]@.withdrawn,
                        self.withdrawn_muis@,
                        None,
                        true,
                    ),
            decreases self.entries@.len() - i as int,
        {
            out.push(
                PrefixRecord {
                    prefix: self.entries[i].prefix,
                    meta: self.entries[i].filtered_records(None, true, &self.withdrawn_muis),
                },
            );
            i = i + 1;
        }
        out
    }
}


impl<M: Meta> TreeBitMap<M> {
    /// A well-formed stride sequence has at most width/3 levels: callers use
    /// this to bound node growth across inserts.
    pub proof fn lemma_strides_len_bound(self)
        requires
            self.wf(),
        ensures
            3 * self.strides@.len() <= self.width(),
    {
        lemma_cum_mono(self.strides@, 0, self.strides@.len() as int);
    }
}

} // verus!
