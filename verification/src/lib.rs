//! A static double-array trie: a compact, read-only map from byte strings to
//! 31-bit values with exact-match and common-prefix search.
//!
//! A trie is built once, by [`builder::DoubleArrayBuilder`], from a sorted
//! keyset into one contiguous byte image. [`DoubleArray`] reads such an
//! image: a flat array of little-endian 32-bit units, of which unit 0 is the
//! root. From a unit with offset `o` the byte `c` leads to the unit at index
//! `o ^ c`, provided that unit carries the label `c`. A key ends at a unit
//! that has a leaf; the leaf is the unit that the terminator byte 0 leads to,
//! and it carries the value of the key. Keys hold no byte 0 themselves.
//!
//! The modules:
//!
//! * [`unit`]: the 32-bit word of a unit and its fields.
//! * [`block`]: a block of 256 cells with the list of its unused cells.
//! * [`keyset`]: what a valid keyset is and what it holds for a key.
//! * [`runs`]: the keys below a node, grouped by their next label.
//! * [`builder`]: the builder.
//! * [`model`]: the image of a keyset as a function of the keyset.
//! * [`layout`]: how a trie lies in the cells of the array.
//! * [`soundness`]: why the image answers as the keyset does.
//! * [`capacity`]: why no small keyset outgrows the array.
//! * [`laws`]: what holds of every image that is built.
//! * [`lexicon`]: from a list of words to a keyset.
//! * [`text`]: numbers and labels as text.

pub mod block;
pub mod builder;
pub mod capacity;
pub mod keyset;
pub mod laws;
pub mod layout;
pub mod lexicon;
pub mod model;
pub mod runs;
pub mod soundness;
pub mod text;
pub mod unit;

use crate::keyset::{lookup, prefix_matches, zero_free, Keys};
use crate::unit::{
    word_has_leaf, word_is_leaf, word_label, word_offset, word_value, Unit, UnitID, UNIT_SIZE,
};
use vstd::prelude::*;

verus! {

/// The 32-bit word that four bytes spell in little-endian order.
pub open spec fn le_word(b0: u8, b1: u8, b2: u8, b3: u8) -> u32 {
    (b0 as u32) | ((b1 as u32) << 8) | ((b2 as u32) << 16) | ((b3 as u32) << 24)
}

/// The word of the unit at `index`: bytes `4 * index` to `4 * index + 3` of
/// the image, or nothing where the image does not hold all four.
pub open spec fn unit_at(image: Seq<u8>, index: int) -> Option<u32> {
    if 0 <= index && 4 * index + 4 <= image.len() {
        Some(
            le_word(
                image[4 * index],
                image[4 * index + 1],
                image[4 * index + 2],
                image[4 * index + 3],
            ),
        )
    } else {
        None
    }
}

/// The index of the unit that the byte `c` leads to from a unit with the
/// word `parent`.
pub open spec fn child_index(parent: u32, c: u8) -> int {
    (word_offset(parent) ^ (c as u32)) as int
}

/// The word of the unit that `key[pos..]` leads to from a unit with the word
/// `unit`: each byte is followed to the child it names, and the walk fails
/// where that child lies outside the image or carries another label.
pub open spec fn descend(image: Seq<u8>, unit: u32, key: Seq<u8>, pos: int) -> Option<u32>
    decreases key.len() - pos,
{
    if pos < 0 || pos >= key.len() {
        Some(unit)
    } else {
        match unit_at(image, child_index(unit, key[pos])) {
            None => None,
            Some(child) => if word_label(child) != key[pos] as u32 {
                None
            } else {
                descend(image, child, key, pos + 1)
            },
        }
    }
}

/// The value that the unit with the word `unit` holds for the key that ends
/// at it: the value of its leaf child, where it has one.
pub open spec fn leaf_value(image: Seq<u8>, unit: u32) -> Option<u32> {
    if !word_has_leaf(unit) {
        None
    } else {
        match unit_at(image, word_offset(unit) as int) {
            None => None,
            Some(leaf) => if word_is_leaf(leaf) {
                Some(word_value(leaf))
            } else {
                None
            },
        }
    }
}

/// The value that the image holds for `key`, if any: the walk from the root
/// along all of `key` must succeed and end at a unit with a leaf child.
pub open spec fn exact_match(image: Seq<u8>, key: Seq<u8>) -> Option<u32> {
    match unit_at(image, 0) {
        None => None,
        Some(root) => match descend(image, root, key, 0) {
            None => None,
            Some(unit) => leaf_value(image, unit),
        },
    }
}

/// The pairs of value and consumed length that a common-prefix search yields
/// from the unit at `unit_id` on, with `pos` bytes of `key` consumed so far.
/// Each step follows one byte; the search ends with the key, or where a unit
/// lies outside the image or carries another label than the byte.
pub open spec fn search_from(image: Seq<u8>, key: Seq<u8>, unit_id: int, pos: int) -> Seq<
    (u32, usize),
>
    decreases key.len() - pos,
{
    if pos < 0 || pos >= key.len() {
        Seq::empty()
    } else {
        match unit_at(image, unit_id) {
            None => Seq::empty(),
            Some(parent) => {
                let child_id = child_index(parent, key[pos]);
                match unit_at(image, child_id) {
                    None => Seq::empty(),
                    Some(child) => if word_label(child) != key[pos] as u32 {
                        Seq::empty()
                    } else if word_has_leaf(child) {
                        match unit_at(image, word_offset(child) as int) {
                            None => Seq::empty(),
                            Some(leaf) => seq![(word_value(leaf), (pos + 1) as usize)]
                                + search_from(image, key, child_id, pos + 1),
                        }
                    } else {
                        search_from(image, key, child_id, pos + 1)
                    },
                }
            },
        }
    }
}

/// All pairs of value and key length that a common-prefix search for `key`
/// yields on the image, in the order of the lengths.
pub open spec fn common_prefixes(image: Seq<u8>, key: Seq<u8>) -> Seq<(u32, usize)> {
    search_from(image, key, 0, 0)
}

/// The image answers every search for a key without the byte 0 as the
/// keyset does: an exact match gives the value of the key or nothing, and a
/// common-prefix search gives the keys of at least one byte that the probe
/// starts with.
pub open spec fn holds_keys(image: Seq<u8>, keys: Keys) -> bool {
    &&& forall|key: Seq<u8>|
        zero_free(key) ==> #[trigger] exact_match(image, key) == lookup(keys, key)
    &&& forall|probe: Seq<u8>|
        zero_free(probe) ==> #[trigger] common_prefixes(image, probe) == prefix_matches(
            keys,
            probe,
        )
}

/// A double-array trie over a byte image.
pub struct DoubleArray(pub Vec<u8>);

impl DoubleArray {
    /// Creates a `DoubleArray` that reads `bytes`.
    pub fn new(bytes: Vec<u8>) -> (da: Self)
        ensures
            da.0 == bytes,
    {
        Self(bytes)
    }

    /// Finds the value stored for `key`.
    pub fn exact_match_search(&self, key: &[u8]) -> (value: Option<u32>)
        ensures
            value == exact_match(self.0@, key@),
    {
        self.exact_match_search_bytes(key)
    }

    fn exact_match_search_bytes(&self, key: &[u8]) -> (value: Option<u32>)
        ensures
            value == exact_match(self.0@, key@),
    {
        // traverse from the root
        let mut unit = match self.get_unit(0) {
            Some(unit) => unit,
            None => {
                return None;
            },
        };
        let ghost root = unit@;

        let mut pos: usize = 0;
        while pos < key.len()
            invariant
                pos <= key.len(),
                unit_at(self.0@, 0) == Some(root),
                descend(self.0@, root, key@, 0) == descend(self.0@, unit@, key@, pos as int),
            decreases key.len() - pos,
        {
            let c = key[pos];
            let node_pos = (unit.offset() ^ (c as u32)) as UnitID;
            unit = match self.get_unit(node_pos) {
                Some(unit) => unit,
                None => {
                    return None;
                },
            };
            if unit.label() != c as u32 {
                return None;
            }
            pos += 1;
        }

        if !unit.has_leaf() {
            return None;
        }
        // follow the terminator to the leaf
        let node_pos = unit.offset() as UnitID;
        let leaf = match self.get_unit(node_pos) {
            Some(unit) => unit,
            None => {
                return None;
            },
        };
        if !leaf.is_leaf() {
            return None;
        }
        Some(leaf.value())
    }

    /// Starts a search for all stored keys that are a prefix of `key`. The
    /// search yields, for each such key in the order of their lengths, its
    /// value and its length.
    pub fn common_prefix_search<'k, 'd>(&'d self, key: &'k [u8]) -> (search: CommonPrefixSearch<
        'k,
        'd,
    >)
        ensures
            search.remaining() == common_prefixes(self.0@, key@),
            search.image() == self.0@,
            search.probe() == key@,
    {
        self.common_prefix_search_bytes(key)
    }

    fn common_prefix_search_bytes<'k, 'd>(&'d self, key: &'k [u8]) -> (search: CommonPrefixSearch<
        'k,
        'd,
    >)
        ensures
            search.remaining() == common_prefixes(self.0@, key@),
            search.image() == self.0@,
            search.probe() == key@,
    {
        CommonPrefixSearch { key, double_array: self, unit_id: 0, key_pos: 0 }
    }

    /// Reads the unit at `index`, if the image holds it.
    fn get_unit(&self, index: usize) -> (unit: Option<Unit>)
        ensures
            match unit {
                Some(unit) => unit_at(self.0@, index as int) == Some(unit@),
                None => unit_at(self.0@, index as int) is None,
            },
    {
        if index >= self.0.len() / UNIT_SIZE {
            return None;
        }
        let at = index * UNIT_SIZE;
        let b0 = self.0[at];
        let b1 = self.0[at + 1];
        let b2 = self.0[at + 2];
        let b3 = self.0[at + 3];
        let word = (b0 as u32) | ((b1 as u32) << 8) | ((b2 as u32) << 16) | ((b3 as u32) << 24);
        Some(Unit::from_u32(word))
    }
}

/// A running common-prefix search: hands out the matches one by one.
pub struct CommonPrefixSearch<'k, 'd> {
    key: &'k [u8],
    double_array: &'d DoubleArray,
    unit_id: UnitID,
    key_pos: usize,
}

impl<'k, 'd> CommonPrefixSearch<'k, 'd> {
    /// The image that is searched.
    pub closed spec fn image(&self) -> Seq<u8> {
        self.double_array.0@
    }

    /// The key whose prefixes are searched for.
    pub closed spec fn probe(&self) -> Seq<u8> {
        self.key@
    }

    /// The pairs that the search has yet to yield.
    pub closed spec fn remaining(&self) -> Seq<(u32, usize)> {
        search_from(self.double_array.0@, self.key@, self.unit_id as int, self.key_pos as int)
    }

    /// Yields the next match: the value of the next longer stored key that is
    /// a prefix of the searched key, and its length. Yields nothing once no
    /// match is left.
    pub fn next(&mut self) -> (item: Option<(u32, usize)>)
        ensures
            final(self).image() == old(self).image(),
            final(self).probe() == old(self).probe(),
            old(self).remaining().len() == 0 ==> item is None && final(self).remaining().len() == 0,
            old(self).remaining().len() > 0 ==> item == Some(old(self).remaining()[0])
                && final(self).remaining() == old(self).remaining().skip(1),
    {
        while self.key_pos < self.key.len()
            invariant
                self.key == old(self).key,
                self.double_array == old(self).double_array,
                self.remaining() == old(self).remaining(),
            decreases self.key.len() - self.key_pos,
        {
            let parent = match self.double_array.get_unit(self.unit_id) {
                Some(unit) => unit,
                None => {
                    self.key_pos = self.key.len();
                    return None;
                },
            };
            let c = self.key[self.key_pos];
            let child_id = (parent.offset() ^ (c as u32)) as UnitID;
            let child = match self.double_array.get_unit(child_id) {
                Some(unit) => unit,
                None => {
                    self.key_pos = self.key.len();
                    return None;
                },
            };
            if child.label() != c as u32 {
                self.key_pos = self.key.len();
                return None;
            }
            let ghost before = self.remaining();
            self.unit_id = child_id;
            self.key_pos += 1;
            if child.has_leaf() {
                let leaf_pos = child.offset() as UnitID;
                match self.double_array.get_unit(leaf_pos) {
                    Some(leaf) => {
                        let found = (leaf.value(), self.key_pos);
                        assert(before == seq![found] + self.remaining());
                        assert(before.skip(1) =~= self.remaining());
                        return Some(found);
                    },
                    None => {
                        self.key_pos = self.key.len();
                        return None;
                    },
                }
            }
        }
        None
    }

    /// Runs the search to its end and returns all matches that were left.
    pub fn collect(self) -> (found: Vec<(u32, usize)>)
        ensures
            found@ == self.remaining(),
    {
        let mut search = self;
        let mut found: Vec<(u32, usize)> = Vec::new();
        loop
            invariant
                self.remaining() == found@ + search.remaining(),
            ensures
                self.remaining() == found@,
            decreases search.remaining().len(),
        {
            match search.next() {
                Some(item) => {
                    found.push(item);
                    assert(self.remaining() =~= found@ + search.remaining());
                },
                None => {
                    assert(self.remaining() =~= found@);
                    break ;
                },
            }
        }
        found
    }
}

} // verus!
