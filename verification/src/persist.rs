use vstd::prelude::*;

use crate::prefix::{Fam, PrefixId};
use crate::record::RouteStatus;

verus! {

/// The little-endian bytes of a 32-bit word.
pub open spec fn le_bytes_u32(x: u32) -> Seq<u8> {
    seq![
        (x & 0xff) as u8,
        ((x >> 8) & 0xff) as u8,
        ((x >> 16) & 0xff) as u8,
        ((x >> 24) & 0xff) as u8,
    ]
}

/// The little-endian bytes of a 64-bit word.
pub open spec fn le_bytes_u64(x: u64) -> Seq<u8> {
    seq![
        (x & 0xff) as u8,
        ((x >> 8) & 0xff) as u8,
        ((x >> 16) & 0xff) as u8,
        ((x >> 24) & 0xff) as u8,
        ((x >> 32) & 0xff) as u8,
        ((x >> 40) & 0xff) as u8,
        ((x >> 48) & 0xff) as u8,
        ((x >> 56) & 0xff) as u8,
    ]
}

/// The wire byte of a route status.
pub open spec fn status_byte(s: RouteStatus) -> u8 {
    match s {
        RouteStatus::Active => 0,
        RouteStatus::InActive => 1,
        RouteStatus::Withdrawn => 2,
    }
}

/// The persisted value of one record: producer identity and logical time
/// little-endian, one status byte, then the metadata bytes, byte-aligned.
pub open spec fn spec_value_bytes(
    mui: u32,
    ltime: u64,
    status: RouteStatus,
    meta: Seq<u8>,
) -> Seq<u8> {
    le_bytes_u32(mui) + le_bytes_u64(ltime) + seq![status_byte(status)] + meta
}

/// The persisted key of one record: the prefix identifier's family byte,
/// address word and length, then the producer identity and logical time.
pub open spec fn spec_key_bytes(p: PrefixId, mui: u32, ltime: u64) -> Seq<u8> {
    seq![
        match p.fam {
            Fam::V4 => 4u8,
            Fam::V6 => 6u8,
        },
    ] + Seq::new(16, |i: int| ((p.bits >> ((15 - i) * 8)) & 0xff) as u8) + seq![p.len]
        + le_bytes_u32(mui) + le_bytes_u64(ltime)
}

/// Some fields encode to these bytes.
pub open spec fn value_parseable(b: Seq<u8>) -> bool {
    exists|mui: u32, ltime: u64, status: RouteStatus, meta: Seq<u8>|
        b == #[trigger] spec_value_bytes(mui, ltime, status, meta)
}

proof fn lemma_u32_le_split(a: u32, b: u32, c: u32, d: u32)
    by (bit_vector)
    requires
        a < 0x100,
        b < 0x100,
        c < 0x100,
        d < 0x100,
    ensures
        (a | (b << 8) | (c << 16) | (d << 24)) & 0xff == a,
        ((a | (b << 8) | (c << 16) | (d << 24)) >> 8) & 0xff == b,
        ((a | (b << 8) | (c << 16) | (d << 24)) >> 16) & 0xff == c,
        ((a | (b << 8) | (c << 16) | (d << 24)) >> 24) & 0xff == d,
{
}

proof fn lemma_u64_le_split(a: u64, b: u64, c: u64, d: u64, e: u64, f: u64, g: u64, h: u64)
    by (bit_vector)
    requires
        a < 0x100,
        b < 0x100,
        c < 0x100,
        d < 0x100,
        e < 0x100,
        f < 0x100,
        g < 0x100,
        h < 0x100,
    ensures
        ({
            let x = (a | (b << 8) | (c << 16) | (d << 24) | (e << 32) | (f << 40) | (g << 48) | (
            h << 56));
            &&& x & 0xff == a
            &&& (x >> 8) & 0xff == b
            &&& (x >> 16) & 0xff == c
            &&& (x >> 24) & 0xff == d
            &&& (x >> 32) & 0xff == e
            &&& (x >> 40) & 0xff == f
            &&& (x >> 48) & 0xff == g
            &&& (x >> 56) & 0xff == h
        }),
{
}

/// Appends the little-endian bytes of a 32-bit word.
fn push_le_u32(out: &mut Vec<u8>, x: u32)
    ensures
        final (out)@ == old(out)@ + le_bytes_u32(x),
{
    out.push((x & 0xff) as u8);
    out.push(((x >> 8) & 0xff) as u8);
    out.push(((x >> 16) & 0xff) as u8);
    out.push(((x >> 24) & 0xff) as u8);
    proof {
        assert(out@ =~= old(out)@ + le_bytes_u32(x));
    }
}

/// Appends the little-endian bytes of a 64-bit word.
fn push_le_u64(out: &mut Vec<u8>, x: u64)
    ensures
        final (out)@ == old(out)@ + le_bytes_u64(x),
{
    out.push((x & 0xff) as u8);
    out.push(((x >> 8) & 0xff) as u8);
    out.push(((x >> 16) & 0xff) as u8);
    out.push(((x >> 24) & 0xff) as u8);
    out.push(((x >> 32) & 0xff) as u8);
    out.push(((x >> 40) & 0xff) as u8);
    out.push(((x >> 48) & 0xff) as u8);
    out.push(((x >> 56) & 0xff) as u8);
    proof {
        assert(out@ =~= old(out)@ + le_bytes_u64(x));
    }
}

/// Encodes one record for the persistence tier.
pub fn encode_record_value(mui: u32, ltime: u64, status: RouteStatus, meta: &Vec<u8>) -> (r: Vec<
    u8,
>)
    ensures
        r@ == spec_value_bytes(mui, ltime, status, meta@),
{
    let mut out: Vec<u8> = Vec::new();
    push_le_u32(&mut out, mui);
    push_le_u64(&mut out, ltime);
    out.push(
        match status {
            RouteStatus::Active => 0,
            RouteStatus::InActive => 1,
            RouteStatus::Withdrawn => 2,
        },
    );
    let mut i: usize = 0;
    let ghost before = out@;
    while i < meta.len()
        invariant
            0 <= i <= meta@.len(),
            out@ == before + meta@.take(i as int),
        decreases meta@.len() - i as int,
    {
        out.push(meta[i]);
        proof {
            assert(out@ =~= before + meta@.take(i as int + 1));
        }
        i = i + 1;
    }
    proof {
        assert(meta@.take(meta@.len() as int) =~= meta@);
        assert(out@ =~= spec_value_bytes(mui, ltime, status, meta@));
    }
    out
}

/// Encodes one record's key for the persistence tier.
pub fn encode_record_key(p: &PrefixId, mui: u32, ltime: u64) -> (r: Vec<u8>)
    ensures
        r@ == spec_key_bytes(*p, mui, ltime),
{
    let mut out: Vec<u8> = Vec::new();
    out.push(
        match p.fam {
            Fam::V4 => 4,
            Fam::V6 => 6,
        },
    );
    let ghost before = out@;
    let mut i: usize = 0;
    while i < 16
        invariant
            0 <= i <= 16,
            out@ =~= before + Seq::new(
                i as nat,
                |j: int| ((p.bits >> ((15 - j) * 8)) & 0xff) as u8,
            ),
        decreases 16 - i as int,
    {
        out.push(((p.bits >> ((15 - i) as u32 * 8)) & 0xff) as u8);
        proof {
            assert(out@ =~= before + Seq::new(
                i as nat + 1,
                |j: int| ((p.bits >> ((15 - j) * 8)) & 0xff) as u8,
            ));
        }
        i = i + 1;
    }
    out.push(p.len);
    push_le_u32(&mut out, mui);
    push_le_u64(&mut out, ltime);
    proof {
        assert(out@ =~= spec_key_bytes(*p, mui, ltime));
    }
    out
}

/// Decodes one persisted record value: on the encoding of some fields it
/// returns exactly those fields; a value too short or with an unknown status
/// byte decodes to nothing.
pub fn parse_record_value(b: &Vec<u8>) -> (r: Option<(u32, u64, RouteStatus, Vec<u8>)>)
    ensures
        match r {
            Some(f) => b@ == spec_value_bytes(f.0, f.1, f.2, f.3@),
            None => !value_parseable(b@),
        },
{
    if b.len() < 13 {
        proof {
            assert forall|mui: u32, ltime: u64, status: RouteStatus, meta: Seq<u8>|
                b@ != #[trigger] spec_value_bytes(mui, ltime, status, meta) by {
                assert(spec_value_bytes(mui, ltime, status, meta).len() >= 13);
            }
        }
        return None;
    }
    let mui: u32 = (b[0] as u32) | ((b[1] as u32) << 8) | ((b[2] as u32) << 16) | ((b[3] as u32)
        << 24);
    let ltime: u64 = (b[4] as u64) | ((b[5] as u64) << 8) | ((b[6] as u64) << 16) | ((b[7] as u64)
        << 24) | ((b[8] as u64) << 32) | ((b[9] as u64) << 40) | ((b[10] as u64) << 48) | ((b[11]
        as u64) << 56);
    let status = match b[12] {
        0 => RouteStatus::Active,
        1 => RouteStatus::InActive,
        2 => RouteStatus::Withdrawn,
        _ => {
            proof {
                assert forall|mui2: u32, ltime2: u64, status2: RouteStatus, meta2: Seq<u8>|
                    b@ != #[trigger] spec_value_bytes(mui2, ltime2, status2, meta2) by {
                    if b@ == spec_value_bytes(mui2, ltime2, status2, meta2) {
                        assert(b@[12] == status_byte(status2));
                    }
                }
            }
            return None;
        },
    };
    let mut meta: Vec<u8> = Vec::new();
    let mut i: usize = 13;
    while i < b.len()
        invariant
            13 <= i <= b@.len(),
            meta@ == b@.subrange(13, i as int),
        decreases b@.len() - i as int,
    {
        meta.push(b[i]);
        proof {
            assert(meta@ =~= b@.subrange(13, i as int + 1));
        }
        i = i + 1;
    }
    proof {
        lemma_u32_le_split(b@[0] as u32, b@[1] as u32, b@[2] as u32, b@[3] as u32);
        lemma_u64_le_split(
            b@[4] as u64,
            b@[5] as u64,
            b@[6] as u64,
            b@[7] as u64,
            b@[8] as u64,
            b@[9] as u64,
            b@[10] as u64,
            b@[11] as u64,
        );
        assert(b@ =~= spec_value_bytes(mui, ltime, status, meta@));
    }
    Some((mui, ltime, status, meta))
}

/// Decoding inverts encoding: the round trip through the persisted value
/// layout gives the fields back.
pub proof fn lemma_value_round_trip(mui: u32, ltime: u64, status: RouteStatus, meta: Seq<u8>)
    ensures
        forall|mui2: u32, ltime2: u64, status2: RouteStatus, meta2: Seq<u8>|
            spec_value_bytes(mui, ltime, status, meta) == #[trigger] spec_value_bytes(
                mui2,
                ltime2,
                status2,
                meta2,
            ) ==> mui == mui2 && ltime == ltime2 && status == status2 && meta == meta2,
{
    assert forall|mui2: u32, ltime2: u64, status2: RouteStatus, meta2: Seq<u8>|
        spec_value_bytes(mui, ltime, status, meta) == #[trigger] spec_value_bytes(
            mui2,
            ltime2,
            status2,
            meta2,
        ) implies mui == mui2 && ltime == ltime2 && status == status2 && meta == meta2 by {
        let v1 = spec_value_bytes(mui, ltime, status, meta);
        let v2 = spec_value_bytes(mui2, ltime2, status2, meta2);
        assert(v1[0] == v2[0] && v1[1] == v2[1] && v1[2] == v2[2] && v1[3] == v2[3]);
        lemma_u32_le_value(mui);
        lemma_u32_le_value(mui2);
        assert(v1[4] == v2[4] && v1[5] == v2[5] && v1[6] == v2[6] && v1[7] == v2[7] && v1[8]
            == v2[8] && v1[9] == v2[9] && v1[10] == v2[10] && v1[11] == v2[11]);
        lemma_u64_le_value(ltime);
        lemma_u64_le_value(ltime2);
        assert(v1[12] == v2[12]);
        assert(status == status2);
        assert(meta =~= meta2) by {
            assert(v1.len() == v2.len());
            assert forall|j: int| 0 <= j < meta.len() implies meta[j] == meta2[j] by {
                assert(v1[13 + j] == v2[13 + j]);
            }
        }
    }
}

proof fn lemma_u64_le_value(x: u64)
    by (bit_vector)
    ensures
        x == (x & 0xff) + 0x100 * ((x >> 8) & 0xff) + 0x1_0000 * ((x >> 16) & 0xff) + 0x100_0000
            * ((x >> 24) & 0xff) + 0x1_0000_0000 * ((x >> 32) & 0xff) + 0x100_0000_0000 * ((x
            >> 40) & 0xff) + 0x1_0000_0000_0000 * ((x >> 48) & 0xff) + 0x100_0000_0000_0000 * ((x
            >> 56) & 0xff),
        (x & 0xff) < 0x100,
        ((x >> 8) & 0xff) < 0x100,
        ((x >> 16) & 0xff) < 0x100,
        ((x >> 24) & 0xff) < 0x100,
        ((x >> 32) & 0xff) < 0x100,
        ((x >> 40) & 0xff) < 0x100,
        ((x >> 48) & 0xff) < 0x100,
        ((x >> 56) & 0xff) < 0x100,
{
}

proof fn lemma_u32_le_value(x: u32)
    by (bit_vector)
    ensures
        x == (x & 0xff) + 0x100 * ((x >> 8) & 0xff) + 0x1_0000 * ((x >> 16) & 0xff) + 0x100_0000
            * ((x >> 24) & 0xff),
        (x & 0xff) < 0x100,
        ((x >> 8) & 0xff) < 0x100,
        ((x >> 16) & 0xff) < 0x100,
        ((x >> 24) & 0xff) < 0x100,
{
}

/// One appended key-value pair of the persistence tier.
pub struct PersistEntry {
    pub key: Vec<u8>,
    pub value: Vec<u8>,
}

/// The write-ahead buffer of the persistence tier: an append-only sequence
/// of encoded records, mirroring every upsert under a persisting strategy.
pub struct PersistTree {
    pub items: Vec<PersistEntry>,
    pub bytes: u64,
}

impl PersistTree {
    /// Every buffered value decodes as a record.
    pub open spec fn wf(self) -> bool {
        forall|i: int| 0 <= i < self.items@.len() ==> value_parseable(
            (#[trigger] self.items@[i]).value@,
        )
    }

    pub fn new() -> (r: PersistTree)
        ensures
            r.items@.len() == 0,
            r.bytes == 0,
            r.wf(),
    {
        PersistTree { items: Vec::new(), bytes: 0 }
    }

    /// Appends one encoded record; the byte total saturates rather than
    /// wrapping.
    pub fn append(&mut self, key: Vec<u8>, value: Vec<u8>)
        requires
            old(self).wf(),
            value_parseable(value@),
        ensures
            final (self).wf(),
            final (self).items@.len() == old(self).items@.len() + 1,
            final (self).items@[old(self).items@.len() as int].key == key,
            final (self).items@[old(self).items@.len() as int].value == value,
            forall|i: int|
                0 <= i < old(self).items@.len() ==> #[trigger] final (self).items@[i] == old(
                    self,
                ).items@[i],
    {
        let kl = key.len() as u64;
        let vl = value.len() as u64;
        let added = if kl <= u64::MAX - vl {
            kl + vl
        } else {
            u64::MAX
        };
        self.bytes = if self.bytes <= u64::MAX - added {
            self.bytes + added
        } else {
            u64::MAX
        };
        self.items.push(PersistEntry { key, value });
    }

    /// How many records were appended.
    pub fn len(&self) -> (r: usize)
        ensures
            r == self.items@.len(),
    {
        self.items.len()
    }

    /// How many bytes the buffer holds, saturating.
    pub fn byte_size(&self) -> (r: u64)
        ensures
            r == self.bytes,
    {
        self.bytes
    }
}

} // verus!
