//! What holds of every image that is built of a keyset, and of every path
//! that a search follows.

use crate::keyset::{
    has_prefix, is_key, lemma_lookup_at, lookup, matches_from, prefix_matches, zero_free, Keys,
};
use crate::model::built_image;
use crate::soundness::theorem_built_image_holds_keys;
use crate::unit::{
    lemma_word_basics, offset_fits, word_has_leaf, word_is_leaf, word_label, word_offset,
};
use crate::{child_index, common_prefixes, descend, exact_match, holds_keys, unit_at};
use vstd::prelude::*;

verus! {

/// The word of the unit that the byte `c` leads to from a unit with the word
/// `unit`, if that unit lies in the image and carries the label `c`.
pub open spec fn step(image: Seq<u8>, unit: u32, c: u8) -> Option<u32> {
    match unit_at(image, child_index(unit, c)) {
        None => None,
        Some(child) => if word_label(child) == c as u32 {
            Some(child)
        } else {
            None
        },
    }
}

/// The word of the unit that the first `n` bytes of `key` lead to from the
/// root, if each byte leads on.
pub open spec fn unit_after(image: Seq<u8>, key: Seq<u8>, n: int) -> Option<u32>
    decreases n,
{
    if n <= 0 {
        unit_at(image, 0)
    } else {
        match unit_after(image, key, n - 1) {
            None => None,
            Some(unit) => step(image, unit, key[n - 1]),
        }
    }
}

/// A walk along the rest of a key from the unit that its first `pos` bytes
/// lead to ends where the whole key leads to.
proof fn lemma_descend_is_unit_after(image: Seq<u8>, key: Seq<u8>, pos: int)
    requires
        0 <= pos <= key.len(),
        unit_after(image, key, pos) is Some,
    ensures
        descend(image, unit_after(image, key, pos).unwrap(), key, pos) == unit_after(
            image,
            key,
            key.len() as int,
        ),
    decreases key.len() - pos,
{
    if pos < key.len() {
        if unit_after(image, key, pos + 1) is Some {
            lemma_descend_is_unit_after(image, key, pos + 1);
        } else {
            lemma_unit_after_stays_none(image, key, pos + 1, key.len() as int);
        }
    }
}

/// Where a prefix of a key leads nowhere, the key leads nowhere.
proof fn lemma_unit_after_stays_none(image: Seq<u8>, key: Seq<u8>, n: int, m: int)
    requires
        0 <= n <= m,
        unit_after(image, key, n) is None,
    ensures
        unit_after(image, key, m) is None,
    decreases m - n,
{
    if n < m {
        lemma_unit_after_stays_none(image, key, n, m - 1);
    }
}

/// Every key of a keyset is found in the image that is built of the
/// keyset, with its value.
pub proof fn law_roundtrip(keys: Keys, image: Seq<u8>, i: int)
    requires
        built_image(keys) == Some(image),
        keys.len() <= usize::MAX,
        0 <= i < keys.len(),
    ensures
        exact_match(image, keys[i].0) == Some(keys[i].1),
{
    theorem_built_image_holds_keys(keys);
    lemma_lookup_at(keys, i);
    assert(zero_free(keys[i].0));
}

/// A string without the byte 0 that is not in the keyset is not found in
/// the image that is built of the keyset.
pub proof fn law_absence(keys: Keys, image: Seq<u8>, key: Seq<u8>)
    requires
        built_image(keys) == Some(image),
        keys.len() <= usize::MAX,
        zero_free(key),
        !is_key(keys, key),
    ensures
        exact_match(image, key) is None,
{
    theorem_built_image_holds_keys(keys);
}

/// On the image that is built of a keyset, a common-prefix search for a
/// probe without the byte 0 yields, for each key of at least one byte that
/// the probe starts with, the value of the key and its length, and nothing
/// else, in ascending order of the lengths. Keyset and probe are such that
/// slices can hold them.
pub proof fn law_prefix_correctness(keys: Keys, image: Seq<u8>, probe: Seq<u8>)
    requires
        built_image(keys) == Some(image),
        keys.len() <= usize::MAX,
        zero_free(probe),
        probe.len() <= usize::MAX,
    ensures
        common_prefixes(image, probe) == prefix_matches(keys, probe),
        forall|k: int|
            0 <= k < common_prefixes(image, probe).len() ==> {
                let (value, len) = #[trigger] common_prefixes(image, probe)[k];
                1 <= len <= probe.len() && lookup(keys, probe.subrange(0, len as int)) == Some(
                    value,
                )
            },
        forall|i: int|
            0 <= i < keys.len() && keys[i].0.len() >= 1 && has_prefix(probe, keys[i].0)
                ==> common_prefixes(image, probe).contains(
                (#[trigger] keys[i].1, keys[i].0.len() as usize),
            ),
        forall|k1: int, k2: int|
            0 <= k1 < k2 < common_prefixes(image, probe).len() ==> common_prefixes(
                image,
                probe,
            )[k1].1 < common_prefixes(image, probe)[k2].1,
{
    theorem_built_image_holds_keys(keys);
    let found = prefix_matches(keys, probe);
    assert forall|k: int| 0 <= k < found.len() implies {
        let (value, len) = #[trigger] found[k];
        1 <= len <= probe.len() && lookup(keys, probe.subrange(0, len as int)) == Some(value)
    } by {
        lemma_matches_members(keys, probe, 0, k);
    }
    assert forall|i: int|
        0 <= i < keys.len() && keys[i].0.len() >= 1 && has_prefix(probe, keys[i].0) implies found.contains(
        (#[trigger] keys[i].1, keys[i].0.len() as usize),
    ) by {
        lemma_lookup_at(keys, i);
        lemma_matches_complete(keys, probe, 0, keys[i].0.len() as int);
    }
    assert forall|k1: int, k2: int| 0 <= k1 < k2 < found.len() implies found[k1].1
        < found[k2].1 by {
        lemma_matches_ascend(keys, probe, 0, k1, k2);
    }
}

/// Each pair among the matches from `from` on is a key that is a prefix of
/// the probe, of more than `from` bytes, with its value.
proof fn lemma_matches_members(keys: Keys, probe: Seq<u8>, from: int, k: int)
    requires
        0 <= from,
        probe.len() <= usize::MAX,
        0 <= k < matches_from(keys, probe, from).len(),
    ensures
        from < matches_from(keys, probe, from)[k].1 <= probe.len(),
        lookup(keys, probe.subrange(0, matches_from(keys, probe, from)[k].1 as int)) == Some(
            matches_from(keys, probe, from)[k].0,
        ),
    decreases probe.len() - from,
{
    if from < probe.len() {
        let rest = matches_from(keys, probe, from + 1);
        match lookup(keys, probe.subrange(0, from + 1)) {
            Some(value) => {
                if k > 0 {
                    lemma_matches_members(keys, probe, from + 1, k - 1);
                    assert((seq![(value, (from + 1) as usize)] + rest)[k] == rest[k - 1]);
                }
            },
            None => {
                lemma_matches_members(keys, probe, from + 1, k);
            },
        }
    }
}

/// A key that is the first `n` bytes of the probe, for an `n` above `from`,
/// is among the matches from `from` on.
proof fn lemma_matches_complete(keys: Keys, probe: Seq<u8>, from: int, n: int)
    requires
        0 <= from < n <= probe.len(),
        probe.len() <= usize::MAX,
        lookup(keys, probe.subrange(0, n)) is Some,
    ensures
        matches_from(keys, probe, from).contains(
            (lookup(keys, probe.subrange(0, n)).unwrap(), n as usize),
        ),
    decreases n - from,
{
    let rest = matches_from(keys, probe, from + 1);
    let here = matches_from(keys, probe, from);
    let pair = (lookup(keys, probe.subrange(0, n)).unwrap(), n as usize);
    if n == from + 1 {
        assert(here[0] == pair);
    } else {
        lemma_matches_complete(keys, probe, from + 1, n);
        let at = choose|k: int| 0 <= k < rest.len() && rest[k] == pair;
        match lookup(keys, probe.subrange(0, from + 1)) {
            Some(value) => {
                assert(here[at + 1] == pair);
            },
            None => {},
        }
    }
}

/// The matches come in ascending order of their lengths.
proof fn lemma_matches_ascend(keys: Keys, probe: Seq<u8>, from: int, k1: int, k2: int)
    requires
        0 <= from,
        probe.len() <= usize::MAX,
        0 <= k1 < k2 < matches_from(keys, probe, from).len(),
    ensures
        matches_from(keys, probe, from)[k1].1 < matches_from(keys, probe, from)[k2].1,
    decreases probe.len() - from,
{
    if from < probe.len() {
        let rest = matches_from(keys, probe, from + 1);
        match lookup(keys, probe.subrange(0, from + 1)) {
            Some(value) => {
                let here = seq![(value, (from + 1) as usize)] + rest;
                assert(here[k2] == rest[k2 - 1]);
                if k1 == 0 {
                    lemma_matches_members(keys, probe, from + 1, k2 - 1);
                } else {
                    assert(here[k1] == rest[k1 - 1]);
                    lemma_matches_ascend(keys, probe, from + 1, k1 - 1, k2 - 1);
                }
            },
            None => {
                lemma_matches_ascend(keys, probe, from + 1, k1, k2);
            },
        }
    }
}

/// Two images that answer for the same keyset give the same answer to every
/// search for a string without the byte 0: what is found depends on the
/// keyset alone, not on where the nodes lie.
pub proof fn law_answers_depend_on_keyset(a: Seq<u8>, b: Seq<u8>, keys: Keys, probe: Seq<u8>)
    requires
        holds_keys(a, keys),
        holds_keys(b, keys),
        zero_free(probe),
    ensures
        exact_match(a, probe) == exact_match(b, probe),
        common_prefixes(a, probe) == common_prefixes(b, probe),
{
}

/// Along a key that is found in an image, each byte leads from the unit
/// before it to a unit that carries the byte as its label, and the unit at
/// the end of the key has a leaf, which is a leaf unit.
pub proof fn law_path_of_found_key(image: Seq<u8>, key: Seq<u8>)
    requires
        exact_match(image, key) is Some,
    ensures
        forall|n: int|
            0 <= n < key.len() ==> match #[trigger] unit_after(image, key, n) {
                Some(unit) => match unit_at(image, child_index(unit, key[n])) {
                    Some(child) => word_label(child) == key[n] as u32 && !word_is_leaf(child),
                    None => false,
                },
                None => false,
            },
        match unit_after(image, key, key.len() as int) {
            Some(unit) => word_has_leaf(unit) && match unit_at(image, word_offset(unit) as int) {
                Some(leaf) => word_is_leaf(leaf),
                None => false,
            },
            None => false,
        },
{
    lemma_descend_is_unit_after(image, key, 0);
    assert forall|n: int| 0 <= n < key.len() implies match #[trigger] unit_after(image, key, n) {
        Some(unit) => match unit_at(image, child_index(unit, key[n])) {
            Some(child) => word_label(child) == key[n] as u32 && !word_is_leaf(child),
            None => false,
        },
        None => false,
    } by {
        if unit_after(image, key, n + 1) is None {
            lemma_unit_after_stays_none(image, key, n + 1, key.len() as int);
        }
        let unit = unit_after(image, key, n).unwrap();
        let child = unit_at(image, child_index(unit, key[n])).unwrap();
        lemma_word_basics(child);
    }
}

/// Along every key of a keyset, in the image that is built of the keyset,
/// each byte leads to a unit that carries it as its label, and the unit at
/// the end of the key has a leaf, which is a leaf unit.
pub proof fn law_node_invariant(keys: Keys, image: Seq<u8>, i: int)
    requires
        built_image(keys) == Some(image),
        keys.len() <= usize::MAX,
        0 <= i < keys.len(),
    ensures
        forall|n: int|
            0 <= n < keys[i].0.len() ==> match #[trigger] unit_after(image, keys[i].0, n) {
                Some(unit) => match unit_at(image, child_index(unit, keys[i].0[n])) {
                    Some(child) => word_label(child) == keys[i].0[n] as u32 && !word_is_leaf(
                        child,
                    ),
                    None => false,
                },
                None => false,
            },
        match unit_after(image, keys[i].0, keys[i].0.len() as int) {
            Some(unit) => word_has_leaf(unit) && match unit_at(image, word_offset(unit) as int) {
                Some(leaf) => word_is_leaf(leaf),
                None => false,
            },
            None => false,
        },
{
    law_roundtrip(keys, image, i);
    law_path_of_found_key(image, keys[i].0);
}

/// The offset that is read from an internal node is below 2^29 and, from
/// 2^21 on, has zero in its low 8 bits.
pub proof fn law_offset_bound(w: u32)
    requires
        !word_is_leaf(w),
    ensures
        offset_fits(word_offset(w)),
{
    lemma_word_basics(w);
}

} // verus!
