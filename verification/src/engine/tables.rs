//! The two hash-indexed tables of the block-hash matcher, and the block hash
//! itself.
//!
//! Both tables are `hashbrown` maps keyed by a 64-bit block hash. They are
//! held behind opaque structs; everything the matcher knows about them is
//! what the small functions below state.

use vstd::prelude::*;
use std::hash::BuildHasher;

verus! {

/// The value the standard library's default hasher, freshly created, yields
/// for a string with the given characters.
pub uninterp spec fn block_hash(block: Seq<char>) -> u64;

/// Hashes `block` with a fresh `std::hash::DefaultHasher`, through
/// `BuildHasher::hash_one`. A fresh default hasher carries fixed keys, so the
/// result depends on the characters alone.
#[verifier::external_body]
pub(crate) fn hash_str(block: &str) -> (h: u64)
    ensures
        h == block_hash(block@),
{
    std::hash::BuildHasherDefault::<std::hash::DefaultHasher>::default().hash_one(block)
}

/// Map from block hash to the minimum safe skip distance.
#[verifier::external_body]
pub struct ShiftTable {
    map: hashbrown::HashMap<u64, usize>,
}

/// The entries held by a shift table.
pub uninterp spec fn shift_entries(t: ShiftTable) -> Map<u64, usize>;

impl View for ShiftTable {
    type V = Map<u64, usize>;

    open spec fn view(&self) -> Map<u64, usize> {
        shift_entries(*self)
    }
}

impl ShiftTable {
    /// `hashbrown::HashMap::new` creates a map without entries.
    #[verifier::external_body]
    pub(crate) fn new() -> (t: ShiftTable)
        ensures
            forall|h: u64| !shift_entries(t).contains_key(h),
    {
        ShiftTable { map: hashbrown::HashMap::new() }
    }

    /// `hashbrown::HashMap::get` returns the value stored under the key, if
    /// the key is present.
    #[verifier::external_body]
    pub(crate) fn get(&self, h: u64) -> (r: Option<usize>)
        ensures
            r == (if shift_entries(*self).contains_key(h) {
                Some(shift_entries(*self)[h])
            } else {
                None
            }),
    {
        self.map.get(&h).copied()
    }

    /// `hashbrown::HashMap::insert` stores the value under the key, replacing
    /// what was stored there, and leaves every other entry as it was.
    #[verifier::external_body]
    pub(crate) fn insert(&mut self, h: u64, shift: usize)
        ensures
            shift_entries(*final(self)) == shift_entries(*old(self)).insert(h, shift),
    {
        self.map.insert(h, shift);
    }

    /// `hashbrown::HashMap::len` returns the number of entries.
    #[verifier::external_body]
    pub(crate) fn len(&self) -> (n: usize)
        ensures
            n == shift_entries(*self).len(),
    {
        self.map.len()
    }
}

/// Map from block hash to the indices of the patterns that end in a block
/// with that hash. Each list is a `smallvec::SmallVec` with four inline
/// slots.
#[verifier::external_body]
pub struct SuffixTable {
    map: hashbrown::HashMap<u64, smallvec::SmallVec<[usize; 4]>>,
}

/// The entries held by a suffix table, each list in insertion order.
pub uninterp spec fn suffix_entries(t: SuffixTable) -> Map<u64, Seq<usize>>;

impl View for SuffixTable {
    type V = Map<u64, Seq<usize>>;

    open spec fn view(&self) -> Map<u64, Seq<usize>> {
        suffix_entries(*self)
    }
}

/// The list stored under `h`, or the empty list.
pub open spec fn list_at(m: Map<u64, Seq<usize>>, h: u64) -> Seq<usize> {
    if m.contains_key(h) {
        m[h]
    } else {
        Seq::empty()
    }
}

impl SuffixTable {
    /// `hashbrown::HashMap::new` creates a map without entries.
    #[verifier::external_body]
    pub(crate) fn new() -> (t: SuffixTable)
        ensures
            forall|h: u64| !suffix_entries(t).contains_key(h),
    {
        SuffixTable { map: hashbrown::HashMap::new() }
    }

    /// `hashbrown::HashMap::get` returns the list stored under the key, if
    /// the key is present; the list is copied out element by element.
    #[verifier::external_body]
    pub(crate) fn get(&self, h: u64) -> (r: Option<Vec<usize>>)
        ensures
            match r {
                Some(v) => suffix_entries(*self).contains_key(h) && v@ == suffix_entries(*self)[h],
                None => !suffix_entries(*self).contains_key(h),
            },
    {
        self.map.get(&h).map(|v| v.to_vec())
    }

    /// `hashbrown::HashMap::entry` followed by `Entry::or_default` yields the
    /// list under the key, inserting an empty one if the key was absent;
    /// `SmallVec::push` appends to that list. Other entries stay as they
    /// were.
    #[verifier::external_body]
    pub(crate) fn push(&mut self, h: u64, index: usize)
        ensures
            suffix_entries(*final(self)) == suffix_entries(*old(self)).insert(
                h,
                list_at(suffix_entries(*old(self)), h).push(index),
            ),
    {
        self.map.entry(h).or_default().push(index);
    }

    /// `hashbrown::HashMap::len` returns the number of entries.
    #[verifier::external_body]
    pub(crate) fn len(&self) -> (n: usize)
        ensures
            n == suffix_entries(*self).len(),
    {
        self.map.len()
    }
}

/// `core::mem::size_of` for the list type of the suffix table: the number
/// of bytes one list occupies in its map entry. The number depends on the
/// machine.
#[verifier::external_body]
pub(crate) fn suffix_slot_size() -> (n: usize) {
    core::mem::size_of::<smallvec::SmallVec<[usize; 4]>>()
}

} // verus!
