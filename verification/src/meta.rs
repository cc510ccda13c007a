use vstd::prelude::*;

verus! {

/// User metadata stored with a route record.
///
/// A metadata type supplies a total order through a numeric key (used by
/// best-path selection, with a tie-break input `TBI`), an exact clone, and a
/// byte serialization (used by the persistence tier).
pub trait Meta: Sized {
    /// The tie-break input handed to the ordering hook.
    type TBI;

    /// The ordering key of this value under the given tie-break input.
    /// Implementations inside this crate state their own; the default lets
    /// unverified metadata types stay silent about it.
    open spec fn order_key(&self, tbi: &Self::TBI) -> u64 {
        0
    }

    /// The byte serialization of this value.
    open spec fn bytes_spec(&self) -> Seq<u8> {
        Seq::empty()
    }

    /// Computes the ordering key.
    fn as_orderable(&self, tbi: &Self::TBI) -> (r: u64)
        ensures
            r == self.order_key(tbi),
    ;

    /// An exact copy of a tie-break input, kept by the store so that a stale
    /// path selection can be re-derived lazily.
    fn clone_tbi(tbi: &Self::TBI) -> (r: Self::TBI)
        ensures
            r == tbi,
    ;

    /// An exact copy.
    fn clone_meta(&self) -> (r: Self)
        ensures
            r == self,
    ;

    /// Serializes this value.
    fn to_bytes(&self) -> (r: Vec<u8>)
        ensures
            r@ == self.bytes_spec(),
    ;

    /// Deserializes a value: on the serialization of `m` it returns `m`.
    fn from_bytes(b: &[u8]) -> (r: Self)
        ensures
            forall|m: Self| m.bytes_spec() == b@ ==> r == m,
    ;
}

/// Example metadata: the origin AS number of a route.
#[derive(Clone, Copy, Debug, PartialEq, Eq, PartialOrd, Ord, Hash, Structural)]
pub struct PrefixAs(pub u32);

impl PrefixAs {
    pub fn new_from_u32(asn: u32) -> (r: PrefixAs)
        ensures
            r == (PrefixAs(asn)),
    {
        PrefixAs(asn)
    }
}

proof fn lemma_u32_from_le_bytes(x: u32)
    by (bit_vector)
    ensures
        x == (x & 0xff) + 0x100 * ((x >> 8) & 0xff) + 0x1_0000 * ((x >> 16) & 0xff) + 0x100_0000 * (
        (x >> 24) & 0xff),
        (x & 0xff) < 0x100,
        ((x >> 8) & 0xff) < 0x100,
        ((x >> 16) & 0xff) < 0x100,
        ((x >> 24) & 0xff) < 0x100,
{
}

impl Meta for PrefixAs {
    type TBI = ();

    open spec fn order_key(&self, tbi: &()) -> u64 {
        self.0 as u64
    }

    open spec fn bytes_spec(&self) -> Seq<u8> {
        seq![
            (self.0 & 0xff) as u8,
            ((self.0 >> 8) & 0xff) as u8,
            ((self.0 >> 16) & 0xff) as u8,
            ((self.0 >> 24) & 0xff) as u8,
        ]
    }

    fn as_orderable(&self, tbi: &()) -> (r: u64) {
        self.0 as u64
    }

    fn clone_tbi(tbi: &()) -> (r: ()) {
        *tbi
    }

    fn clone_meta(&self) -> (r: Self) {
        PrefixAs(self.0)
    }

    fn to_bytes(&self) -> (r: Vec<u8>) {
        let mut v: Vec<u8> = Vec::new();
        v.push((self.0 & 0xff) as u8);
        v.push(((self.0 >> 8) & 0xff) as u8);
        v.push(((self.0 >> 16) & 0xff) as u8);
        v.push(((self.0 >> 24) & 0xff) as u8);
        proof {
            assert(v@ =~= self.bytes_spec());
        }
        v
    }

    fn from_bytes(b: &[u8]) -> (r: Self) {
        if b.len() == 4 {
            let x: u32 = b[0] as u32 + 0x100 * (b[1] as u32) + 0x1_0000 * (b[2] as u32)
                + 0x100_0000 * (b[3] as u32);
            proof {
                assert forall|m: PrefixAs| m.bytes_spec() == b@ implies m == (PrefixAs(x)) by {
                    assert(m.bytes_spec()[0] == b@[0]);
                    assert(m.bytes_spec()[1] == b@[1]);
                    assert(m.bytes_spec()[2] == b@[2]);
                    assert(m.bytes_spec()[3] == b@[3]);
                    lemma_u32_from_le_bytes(m.0);
                }
            }
            PrefixAs(x)
        } else {
            proof {
                assert forall|m: PrefixAs| m.bytes_spec() == b@ implies false by {
                    assert(m.bytes_spec().len() == 4);
                }
            }
            PrefixAs(0)
        }
    }
}

/// Tree-wide empty metadata type: a store of bare prefixes.
#[derive(Clone, Copy, Debug, PartialEq, Eq, Hash, Structural)]
pub enum NoMeta {
    Empty,
}

impl Meta for NoMeta {
    type TBI = ();

    open spec fn order_key(&self, tbi: &()) -> u64 {
        0
    }

    open spec fn bytes_spec(&self) -> Seq<u8> {
        Seq::empty()
    }

    fn as_orderable(&self, tbi: &()) -> (r: u64) {
        0
    }

    fn clone_tbi(tbi: &()) -> (r: ()) {
        *tbi
    }

    fn clone_meta(&self) -> (r: Self) {
        NoMeta::Empty
    }

    fn to_bytes(&self) -> (r: Vec<u8>) {
        let v: Vec<u8> = Vec::new();
        proof {
            assert(v@ =~= Seq::<u8>::empty());
        }
        v
    }

    fn from_bytes(b: &[u8]) -> (r: Self) {
        NoMeta::Empty
    }
}

} // verus!
