//! Whole-file CRC32 built from per-slice streaming states that arrive out
//! of order.
//!
//! Each slice hashes its plaintext bytes into its own `crc32fast::Hasher`.
//! Slices finish in completion order, not index order, so the aggregator
//! files each state under its slice index and combines them in index order
//! only once every expected index is present.  The aggregate therefore
//! depends on the per-slice byte streams alone, not on arrival order: it
//! is the CRC32 of the slices' bytes concatenated in index order.

use crc32fast::Hasher;
use vstd::prelude::*;

verus! {

/// The bytes a `crc32fast::Hasher` has absorbed, in order.  A hasher's
/// state is a function of this sequence alone.
pub uninterp spec fn hasher_bytes(h: Hasher) -> Seq<u8>;

/// The CRC32 checksum of a byte sequence, as crc32fast computes it.
pub uninterp spec fn crc32_of(bytes: Seq<u8>) -> u32;

#[verifier::external_type_specification]
#[verifier::external_body]
pub struct ExHasher(Hasher);

/// Relies on `crc32fast::Hasher::new`: a fresh state over the empty input.
#[verifier::external_body]
pub(crate) fn crc_new() -> (h: Hasher)
    ensures
        hasher_bytes(h) == Seq::<u8>::empty(),
{
    Hasher::new()
}

/// Relies on `crc32fast::Hasher::update`: processes the given bytes after
/// everything absorbed so far.
#[verifier::external_body]
pub(crate) fn crc_update(h: &mut Hasher, data: &[u8])
    ensures
        hasher_bytes(*final(h)) == hasher_bytes(*old(h)) + data@,
{
    h.update(data);
}

/// Relies on `crc32fast::Hasher::combine`: merges in the state for the
/// subsequent block of bytes, as if `other`'s input were appended to
/// `h`'s.
#[verifier::external_body]
pub(crate) fn crc_combine(h: &mut Hasher, other: &Hasher)
    ensures
        hasher_bytes(*final(h)) == hasher_bytes(*old(h)) + hasher_bytes(*other),
{
    h.combine(other);
}

/// Relies on `crc32fast::Hasher::finalize`: the CRC32 of the absorbed
/// bytes, named `crc32_of`.
#[verifier::external_body]
pub(crate) fn crc_finalize(h: Hasher) -> (r: u32)
    ensures
        r == crc32_of(hasher_bytes(h)),
{
    h.finalize()
}

/// Concatenation of filled slots, in index order.  Meaningful once every
/// slot is filled.
pub open spec fn concat_slots(s: Seq<Option<Seq<u8>>>) -> Seq<u8>
    decreases s.len(),
{
    if s.len() == 0 {
        Seq::empty()
    } else {
        concat_slots(s.drop_last()) + match s.last() {
            Some(bytes) => bytes,
            None => Seq::empty(),
        }
    }
}

/// Two slices' states may arrive in either order: filing under distinct
/// indices commutes, so the filled slots — and with them the aggregate
/// that `finalize` computes from the slots alone — do not depend on
/// arrival order.
pub proof fn lemma_insert_order_irrelevant(
    s: Seq<Option<Seq<u8>>>,
    i1: int,
    b1: Seq<u8>,
    i2: int,
    b2: Seq<u8>,
)
    requires
        0 <= i1 < s.len(),
        0 <= i2 < s.len(),
        i1 != i2,
    ensures
        s.update(i1, Some(b1)).update(i2, Some(b2)) == s.update(i2, Some(b2)).update(
            i1,
            Some(b1),
        ),
{
    assert(s.update(i1, Some(b1)).update(i2, Some(b2)) =~= s.update(i2, Some(b2)).update(
        i1,
        Some(b1),
    ));
}

/// Collects per-slice checksum states, possibly out of order, and folds
/// them into the whole-file checksum once all expected slices reported.
pub struct ChecksumAggregator {
    slots: Vec<Option<Hasher>>,
}

impl ChecksumAggregator {
    /// The byte stream recorded under each slice index so far.
    pub closed spec fn slot_bytes(&self) -> Seq<Option<Seq<u8>>> {
        self.slots@.map_values(
            |o: Option<Hasher>|
                match o {
                    Some(h) => Some(hasher_bytes(h)),
                    None => None,
                },
        )
    }

    /// How many slices are expected: one state per slot.
    pub open spec fn expected(&self) -> int {
        self.slot_bytes().len() as int
    }

    /// Whether every expected slice has reported.
    pub open spec fn is_complete(&self) -> bool {
        forall|i: int| 0 <= i < self.expected() ==> self.slot_bytes()[i] is Some
    }

    /// An aggregator expecting `expected` slice states, all pending.
    pub fn new(expected: usize) -> (r: ChecksumAggregator)
        ensures
            r.expected() == expected,
            forall|i: int| 0 <= i < expected ==> r.slot_bytes()[i] is None,
    {
        let mut slots: Vec<Option<Hasher>> = Vec::new();
        let mut i: usize = 0;
        while i < expected
            invariant
                0 <= i <= expected,
                slots@.len() == i,
                forall|j: int| 0 <= j < i ==> slots@[j] is None,
            decreases expected - i,
        {
            slots.push(None);
            i = i + 1;
        }
        ChecksumAggregator { slots }
    }

    pub fn expected_len(&self) -> (r: usize)
        ensures
            r == self.expected(),
    {
        self.slots.len()
    }

    /// Whether slice `index` has reported already.
    pub fn has(&self, index: usize) -> (r: bool)
        requires
            index < self.expected(),
        ensures
            r == (self.slot_bytes()[index as int] is Some),
    {
        self.slots[index].is_some()
    }

    /// Files the state of slice `index`.  Each slice reports exactly once.
    pub fn insert(&mut self, index: usize, h: Hasher)
        requires
            index < old(self).expected(),
            old(self).slot_bytes()[index as int] is None,
        ensures
            final(self).expected() == old(self).expected(),
            final(self).slot_bytes() == old(self).slot_bytes().update(
                index as int,
                Some(hasher_bytes(h)),
            ),
    {
        self.slots[index] = Some(h);
        proof {
            assert(self.slot_bytes() =~= old(self).slot_bytes().update(
                index as int,
                Some(hasher_bytes(h)),
            ));
        }
    }

    /// Whether every expected slice has reported.
    pub fn complete(&self) -> (r: bool)
        ensures
            r == self.is_complete(),
    {
        let mut i: usize = 0;
        let n = self.slots.len();
        while i < n
            invariant
                0 <= i <= n,
                n == self.expected(),
                forall|j: int| 0 <= j < i ==> self.slot_bytes()[j] is Some,
            decreases n - i,
        {
            if self.slots[i].is_none() {
                proof {
                    assert(self.slot_bytes()[i as int] is None);
                }
                return false;
            }
            i = i + 1;
        }
        true
    }

    /// Folds the collected states, in index order, into the checksum of
    /// the concatenated byte streams.  Arrival order is absent from the
    /// result: it depends only on what each slice hashed.
    pub fn finalize(self) -> (r: u32)
        requires
            self.is_complete(),
        ensures
            r == crc32_of(concat_slots(self.slot_bytes())),
    {
        let mut acc = crc_new();
        let n = self.slots.len();
        let mut i: usize = 0;
        while i < n
            invariant
                0 <= i <= n,
                n == self.expected(),
                self.is_complete(),
                hasher_bytes(acc) == concat_slots(self.slot_bytes().take(i as int)),
            decreases n - i,
        {
            match &self.slots[i] {
                Some(h) => {
                    crc_combine(&mut acc, h);
                },
                None => {
                    proof {
                        assert(self.slot_bytes()[i as int] is Some);
                        assert(false);
                    }
                },
            }
            proof {
                let sb = self.slot_bytes();
                assert(sb.take(i + 1).drop_last() =~= sb.take(i as int));
                assert(sb.take(i + 1).last() == sb[i as int]);
            }
            i = i + 1;
        }
        proof {
            assert(self.slot_bytes().take(n as int) =~= self.slot_bytes());
        }
        crc_finalize(acc)
    }
}

} // verus!
