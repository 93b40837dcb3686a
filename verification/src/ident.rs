//! The 128-bit identifier carried by every hairball file and by every
//! external-file reference.
//!
//! A `Uuid` is stored as two 64-bit halves; its view is the sequence of its
//! 16 bytes in file order (little-endian within each half, low half first),
//! which is exactly how it is laid out on disk.

use vstd::prelude::*;
use vstd::bytes::{spec_u64_to_le_bytes, spec_u64_from_le_bytes, lemma_auto_spec_u64_to_from_le_bytes};
use vstd::bytes::u64_from_le_bytes;
use vstd::slice::slice_subrange;

verus! {

/// A 128-bit identifier, viewed as its 16 bytes in file order.
#[derive(Clone, Copy, Debug, PartialEq, Eq, Hash)]
pub struct Uuid {
    lo: u64,
    hi: u64,
}

impl View for Uuid {
    type V = Seq<u8>;

    closed spec fn view(&self) -> Seq<u8> {
        spec_u64_to_le_bytes(self.lo) + spec_u64_to_le_bytes(self.hi)
    }
}

impl Uuid {
    /// Build an identifier from its 16 bytes in file order.
    pub fn from_bytes(b: &[u8]) -> (r: Uuid)
        requires
            b@.len() == 16,
        ensures
            r@ == b@,
    {
        let lo = u64_from_le_bytes(slice_subrange(b, 0, 8));
        let hi = u64_from_le_bytes(slice_subrange(b, 8, 16));
        proof {
            lemma_auto_spec_u64_to_from_le_bytes();
            assert(spec_u64_to_le_bytes(lo) + spec_u64_to_le_bytes(hi) =~= b@);
        }
        Uuid { lo, hi }
    }

    /// The 16 bytes of the identifier in file order.
    pub fn to_bytes(&self) -> (r: Vec<u8>)
        ensures
            r@ == self@,
    {
        let mut r = vstd::bytes::u64_to_le_bytes(self.lo);
        let mut hi_bytes = vstd::bytes::u64_to_le_bytes(self.hi);
        r.append(&mut hi_bytes);
        r
    }

    /// Compare two identifiers; equal exactly when their bytes are equal.
    pub fn same(&self, other: &Uuid) -> (r: bool)
        ensures
            r <==> self@ == other@,
    {
        proof {
            lemma_uuid_view_injective(*self, *other);
        }
        self.lo == other.lo && self.hi == other.hi
    }

    /// A freshly generated random identifier.
    pub fn new_v4() -> Uuid {
        fresh_uuid()
    }
}

/// Two identifiers have equal views exactly when they are equal.
pub proof fn lemma_uuid_view_injective(a: Uuid, b: Uuid)
    ensures
        a@ == b@ <==> a == b,
{
    lemma_auto_spec_u64_to_from_le_bytes();
    if a@ == b@ {
        assert(a@.subrange(0, 8) =~= spec_u64_to_le_bytes(a.lo));
        assert(a@.subrange(8, 16) =~= spec_u64_to_le_bytes(a.hi));
        assert(b@.subrange(0, 8) =~= spec_u64_to_le_bytes(b.lo));
        assert(b@.subrange(8, 16) =~= spec_u64_to_le_bytes(b.hi));
        assert(spec_u64_from_le_bytes(spec_u64_to_le_bytes(a.lo)) == a.lo);
        assert(spec_u64_from_le_bytes(spec_u64_to_le_bytes(b.lo)) == b.lo);
    }
}

/// The view of any identifier is 16 bytes long.
pub proof fn lemma_uuid_view_len(a: Uuid)
    ensures
        a@.len() == 16,
{
    lemma_auto_spec_u64_to_from_le_bytes();
}

/// Relies on `uuid::Uuid::new_v4`: a freshly generated random (version 4)
/// identifier.  The value depends on an OS randomness source, so nothing is
/// promised of it; callers treat it as arbitrary.
#[verifier::external_body]
fn fresh_uuid() -> Uuid {
    let b = uuid::Uuid::new_v4().into_bytes();
    Uuid {
        lo: u64::from_le_bytes([b[0], b[1], b[2], b[3], b[4], b[5], b[6], b[7]]),
        hi: u64::from_le_bytes([b[8], b[9], b[10], b[11], b[12], b[13], b[14], b[15]]),
    }
}

} // verus!
