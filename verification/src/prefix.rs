use vstd::prelude::*;
use vstd::arithmetic::power2::{pow2, lemma_pow2_adds, lemma_pow2_pos, lemma_pow2_unfold};

use crate::errors::PrefixStoreError;

verus! {

/// The address family of a prefix: IPv4 (32 address bits) or IPv6 (128).
#[derive(Clone, Copy, Debug, PartialEq, Eq, Hash, Structural)]
pub enum Fam {
    V4,
    V6,
}

pub open spec fn fam_width(f: Fam) -> nat {
    match f {
        Fam::V4 => 32,
        Fam::V6 => 128,
    }
}

/// Bit `i` of `bits`, counting from the most significant end: bit 0 is the
/// top bit of the 128-bit word.
pub open spec fn bit_of(bits: u128, i: int) -> bool {
    (bits >> (127 - i)) & 1 == 1
}

/// All 128 bits of a word, most significant first.
pub open spec fn bits_seq(bits: u128) -> Seq<bool> {
    Seq::new(128, |i: int| bit_of(bits, i))
}

/// The value of a bit string read as a big-endian number.
pub open spec fn seq_val(s: Seq<bool>) -> nat
    decreases s.len(),
{
    if s.len() == 0 {
        0
    } else {
        2 * seq_val(s.drop_last()) + (if s.last() {
            1nat
        } else {
            0nat
        })
    }
}

/// `p` stands for a shorter-or-equal prefix of the bit string `q`.
pub open spec fn covers(p: Seq<bool>, q: Seq<bool>) -> bool {
    p.len() <= q.len() && q.take(p.len() as int) == p
}

/// No bit of `bits` at position `len` or beyond is set.
pub open spec fn host_clear(bits: u128, len: u8) -> bool {
    forall|i: int| len as int <= i < 128 ==> !bit_of(bits, i)
}

/// A canonical identifier of an IP prefix: the address bits left-aligned in a
/// 128-bit word, the prefix length, and the address family.  Bits at and past
/// the prefix length are zero.
#[derive(Clone, Copy, Debug, PartialEq, Eq, Hash, Structural)]
pub struct PrefixId {
    pub fam: Fam,
    pub bits: u128,
    pub len: u8,
}

impl View for PrefixId {
    type V = Seq<bool>;

    open spec fn view(&self) -> Seq<bool> {
        bits_seq(self.bits).take(self.len as int)
    }
}

impl PrefixId {
    /// The representation invariant: the length fits the family and no bit
    /// below the prefix length is set.
    pub open spec fn is_valid(self) -> bool {
        &&& self.len as nat <= fam_width(self.fam)
        &&& host_clear(self.bits, self.len)
    }

    /// Builds a prefix identifier, rejecting a length beyond the family's bit
    /// width and an address with bits set below the prefix length.
    pub fn new(fam: Fam, bits: u128, len: u8) -> (r: Result<PrefixId, PrefixStoreError>)
        ensures
            match r {
                Ok(p) => {
                    &&& p == (PrefixId { fam, bits, len })
                    &&& p.is_valid()
                },
                Err(e) => {
                    &&& e == PrefixStoreError::PrefixLengthInvalid
                    &&& !(PrefixId { fam, bits, len }).is_valid()
                },
            },
    {
        if len as u32 > fam_bits(fam) {
            return Err(PrefixStoreError::PrefixLengthInvalid);
        }
        if !low_bits_clear(bits, len) {
            return Err(PrefixStoreError::PrefixLengthInvalid);
        }
        Ok(PrefixId { fam, bits, len })
    }

    /// Builds a prefix identifier, zeroing any bits below the prefix length.
    pub fn new_relaxed(fam: Fam, bits: u128, len: u8) -> (r: Result<
        PrefixId,
        PrefixStoreError,
    >)
        ensures
            match r {
                Ok(p) => {
                    &&& p.fam == fam
                    &&& p.len == len
                    &&& p.is_valid()
                    &&& p@ == bits_seq(bits).take(len as int)
                },
                Err(e) => {
                    &&& e == PrefixStoreError::PrefixLengthInvalid
                    &&& len as nat > fam_width(fam)
                },
            },
    {
        if len as u32 > fam_bits(fam) {
            return Err(PrefixStoreError::PrefixLengthInvalid);
        }
        let canon = clear_from(bits, len);
        let p = PrefixId { fam, bits: canon, len };
        proof {
            assert(p@ =~= bits_seq(bits).take(len as int));
        }
        Ok(p)
    }

    /// Builds an IPv4 prefix from an address word, zeroing host bits.
    pub fn v4(addr: u32, len: u8) -> (r: Result<PrefixId, PrefixStoreError>)
        ensures
            match r {
                Ok(p) => {
                    &&& p.fam == Fam::V4
                    &&& p.len == len
                    &&& p.is_valid()
                    &&& p@ == bits_seq((addr as u128) << 96).take(len as int)
                },
                Err(e) => {
                    &&& e == PrefixStoreError::PrefixLengthInvalid
                    &&& len > 32
                },
            },
    {
        PrefixId::new_relaxed(Fam::V4, (addr as u128) << 96, len)
    }

    /// Builds an IPv6 prefix from an address word, zeroing host bits.
    pub fn v6(addr: u128, len: u8) -> (r: Result<PrefixId, PrefixStoreError>)
        ensures
            match r {
                Ok(p) => {
                    &&& p.fam == Fam::V6
                    &&& p.len == len
                    &&& p.is_valid()
                    &&& p@ == bits_seq(addr).take(len as int)
                },
                Err(e) => e == PrefixStoreError::PrefixLengthInvalid,
            },
    {
        PrefixId::new_relaxed(Fam::V6, addr, len)
    }

    /// The address bits, left-aligned in the 128-bit word.
    pub fn addr_bits(&self) -> (r: u128)
        ensures
            r == self.bits,
    {
        self.bits
    }

    /// The prefix length in bits.
    pub fn prefix_len(&self) -> (r: u8)
        ensures
            r == self.len,
    {
        self.len
    }

    /// Checks the representation invariant at run time.
    pub fn check_valid(&self) -> (r: bool)
        ensures
            r == self.is_valid(),
    {
        if self.len as u32 > fam_bits(self.fam) {
            return false;
        }
        low_bits_clear(self.bits, self.len)
    }

    /// The address family.
    pub fn family(&self) -> (r: Fam)
        ensures
            r == self.fam,
    {
        self.fam
    }
}

/// The bit width of an address family.
pub fn fam_bits(f: Fam) -> (r: u32)
    ensures
        r as nat == fam_width(f),
{
    match f {
        Fam::V4 => 32,
        Fam::V6 => 128,
    }
}

/// Reads one bit of a 128-bit word, counting from the most significant end.
pub fn bit_at(bits: u128, i: u8) -> (r: bool)
    requires
        i < 128,
    ensures
        r == bit_of(bits, i as int),
{
    (bits >> ((127 - i) as u32)) & 1 == 1
}

proof fn lemma_clear_one(b: u128, k: u32, m: u32)
    by (bit_vector)
    requires
        k < 128,
        m < 128,
    ensures
        (b & !(1u128 << k)) >> m & 1 == (if m == k {
            0u128
        } else {
            (b >> m) & 1
        }),
{
}

/// Zeroes every bit of `bits` at position `len` or beyond (counting from the
/// most significant end).
fn clear_from(bits: u128, len: u8) -> (r: u128)
    requires
        len <= 128,
    ensures
        forall|i: int| 0 <= i < len as int ==> bit_of(r, i) == bit_of(bits, i),
        forall|i: int| len as int <= i < 128 ==> !bit_of(r, i),
{
    let mut out = bits;
    let mut j: u8 = len;
    while j < 128
        invariant
            len <= j <= 128,
            forall|i: int| 0 <= i < len as int ==> bit_of(out, i) == bit_of(bits, i),
            forall|i: int| len as int <= i < j as int ==> !bit_of(out, i),
        decreases 128 - j as int,
    {
        let prev = out;
        out = out & !(1u128 << ((127 - j) as u32));
        proof {
            assert forall|i: int| 0 <= i < 128 implies bit_of(out, i) == (if i == j as int {
                false
            } else {
                bit_of(prev, i)
            }) by {
                lemma_clear_one(prev, (127 - j) as u32, (127 - i) as u32);
            }
        }
        j = j + 1;
    }
    out
}

/// True when no bit of `bits` at position `len` or beyond is set.
fn low_bits_clear(bits: u128, len: u8) -> (r: bool)
    requires
        len <= 128,
    ensures
        r == host_clear(bits, len),
{
    let mut j: u8 = len;
    while j < 128
        invariant
            len <= j <= 128,
            forall|i: int| len as int <= i < j as int ==> !bit_of(bits, i),
        decreases 128 - j as int,
    {
        if bit_at(bits, j) {
            proof {
                assert(bit_of(bits, j as int));
            }
            return false;
        }
        j = j + 1;
    }
    true
}

/// Extracts the value of the bit slice `[start, start + width)` of `bits` as
/// a number, most significant bit first.
pub fn chunk_of(bits: u128, start: u8, width: u8) -> (v: u8)
    requires
        start as int + width as int <= 128,
        width <= 7,
    ensures
        v as nat == seq_val(bits_seq(bits).subrange(start as int, start as int + width as int)),
        (v as nat) < pow2(width as nat),
{
    let ghost full = bits_seq(bits);
    let mut v: u8 = 0;
    let mut j: u8 = 0;
    proof {
        assert(full.subrange(start as int, start as int) =~= Seq::<bool>::empty());
        lemma_seq_val_bound(full.subrange(start as int, start as int));
    }
    while j < width
        invariant
            0 <= j <= width,
            width <= 7,
            start as int + width as int <= 128,
            full == bits_seq(bits),
            v as nat == seq_val(full.subrange(start as int, start as int + j as int)),
            (v as nat) < pow2(j as nat),
        decreases width as int - j as int,
    {
        let b = bit_at(bits, start + j);
        proof {
            vstd::arithmetic::power2::lemma2_to64();
            if (j as nat) < 6 {
                vstd::arithmetic::power2::lemma_pow2_strictly_increases(j as nat, 6);
            }
            lemma_pow2_unfold((j + 1) as nat);
            assert(full.subrange(start as int, start as int + j as int + 1).drop_last() =~= full
                .subrange(start as int, start as int + j as int));
            assert(full.subrange(start as int, start as int + j as int + 1).last() == bit_of(
                bits,
                start as int + j as int,
            ));
        }
        v = 2 * v + (if b {
            1
        } else {
            0
        });
        j = j + 1;
    }
    v
}

/// The value of a bit string is below two to its length.
pub proof fn lemma_seq_val_bound(s: Seq<bool>)
    ensures
        seq_val(s) < pow2(s.len()),
    decreases s.len(),
{
    if s.len() == 0 {
        lemma_pow2_pos(0);
        assert(pow2(0) == 1) by {
            vstd::arithmetic::power2::lemma2_to64();
        }
    } else {
        lemma_seq_val_bound(s.drop_last());
        lemma_pow2_unfold(s.len());
    }
}

/// Two bit strings of equal length with the same value are equal.
pub proof fn lemma_seq_val_inj(s: Seq<bool>, t: Seq<bool>)
    requires
        s.len() == t.len(),
        seq_val(s) == seq_val(t),
    ensures
        s == t,
    decreases s.len(),
{
    if s.len() == 0 {
        assert(s =~= t);
    } else {
        if s.last() != t.last() {
            assert(false);
        }
        lemma_seq_val_inj(s.drop_last(), t.drop_last());
        assert forall|i: int| 0 <= i < s.len() implies s[i] == t[i] by {
            if i < s.len() - 1 {
                assert(s.drop_last()[i] == t.drop_last()[i]);
            }
        }
        assert(s =~= t);
    }
}

/// Reading a concatenation of bit strings: the left part is shifted up by the
/// length of the right part.
pub proof fn lemma_seq_val_concat(a: Seq<bool>, b: Seq<bool>)
    ensures
        seq_val(a + b) == seq_val(a) * pow2(b.len()) + seq_val(b),
    decreases b.len(),
{
    if b.len() == 0 {
        assert(a + b =~= a);
        assert(pow2(0) == 1) by {
            vstd::arithmetic::power2::lemma2_to64();
        }
    } else {
        assert((a + b).drop_last() =~= a + b.drop_last());
        assert((a + b).last() == b.last());
        lemma_seq_val_concat(a, b.drop_last());
        lemma_pow2_unfold(b.len());
        assert(seq_val(a + b) == 2 * (seq_val(a) * pow2((b.len() - 1) as nat) + seq_val(
            b.drop_last(),
        )) + (if b.last() {
            1nat
        } else {
            0nat
        }));
        assert(2 * (seq_val(a) * pow2((b.len() - 1) as nat)) == seq_val(a) * pow2(b.len()))
            by (nonlinear_arith)
            requires
                pow2(b.len()) == 2 * pow2((b.len() - 1) as nat),
        ;
    }
}

} // verus!
