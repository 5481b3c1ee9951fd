//! The keyset a trie is built from: what makes it valid, what it maps a key
//! to, and which of its keys are prefixes of a probe.
//!
//! Keys are byte strings without the byte 0, which the trie uses as the
//! terminator of a key. A valid keyset is in strictly ascending order of its
//! keys as strings of unsigned bytes, so that no key occurs twice, and its
//! values are below 2^31.

use crate::unit::VALUE_LIMIT;
use vstd::prelude::*;

verus! {

/// A keyset as a sequence of pairs of key and value.
pub type Keys = Seq<(Seq<u8>, u32)>;

/// The keyset that a slice of pairs stands for.
pub open spec fn keys_of(keyset: &[(&[u8], u32)]) -> Keys {
    Seq::new(keyset@.len(), |i: int| (keyset@[i].0@, keyset@[i].1))
}

/// Whether `a` comes before `b` from byte `i` on, the bytes before being
/// equal: at the first difference `a` has the smaller byte, or `a` ends
/// first.
pub open spec fn lt_from(a: Seq<u8>, b: Seq<u8>, i: int) -> bool
    decreases b.len() - i,
{
    if i >= b.len() {
        false
    } else if i >= a.len() {
        true
    } else if a[i] != b[i] {
        a[i] < b[i]
    } else {
        lt_from(a, b, i + 1)
    }
}

/// Whether `a` comes strictly before `b` as a string of unsigned bytes.
pub open spec fn key_lt(a: Seq<u8>, b: Seq<u8>) -> bool {
    lt_from(a, b, 0)
}

/// Whether `key` holds no byte 0.
pub open spec fn zero_free(key: Seq<u8>) -> bool {
    forall|i: int| 0 <= i < key.len() ==> key[i] != 0
}

/// Whether `key` starts with `prefix`.
pub open spec fn has_prefix(key: Seq<u8>, prefix: Seq<u8>) -> bool {
    prefix.len() <= key.len() && key.subrange(0, prefix.len() as int) == prefix
}

/// The label by which `key` goes on after `depth` bytes: its byte at
/// `depth`, or the terminator 0 where it ends there.
pub open spec fn label_at(key: Seq<u8>, depth: int) -> u8 {
    if 0 <= depth < key.len() {
        key[depth]
    } else {
        0
    }
}

/// Whether the keyset is valid: strictly ascending keys, no byte 0 in a key,
/// and values below 2^31.
pub open spec fn valid_keyset(keys: Keys) -> bool {
    &&& forall|i: int, j: int|
        0 <= i < j < keys.len() ==> key_lt(#[trigger] keys[i].0, #[trigger] keys[j].0)
    &&& forall|i: int| 0 <= i < keys.len() ==> zero_free(#[trigger] keys[i].0)
    &&& forall|i: int| 0 <= i < keys.len() ==> (#[trigger] keys[i]).1 < VALUE_LIMIT
}

/// Whether `key` is one of the keys.
pub open spec fn is_key(keys: Keys, key: Seq<u8>) -> bool {
    exists|i: int| 0 <= i < keys.len() && (#[trigger] keys[i]).0 == key
}

/// Whether some key starts with `prefix`.
pub open spec fn is_key_prefix(keys: Keys, prefix: Seq<u8>) -> bool {
    exists|i: int| 0 <= i < keys.len() && has_prefix((#[trigger] keys[i]).0, prefix)
}

/// The value that the keyset holds for `key`, if it holds the key.
pub open spec fn lookup(keys: Keys, key: Seq<u8>) -> Option<u32> {
    if is_key(keys, key) {
        Some(keys[choose|i: int| 0 <= i < keys.len() && (#[trigger] keys[i]).0 == key].1)
    } else {
        None
    }
}

/// For each key that is the first `n` bytes of `probe`, for an `n` above
/// `from`, the pair of its value and `n`, in ascending order of `n`.
pub open spec fn matches_from(keys: Keys, probe: Seq<u8>, from: int) -> Seq<(u32, usize)>
    decreases probe.len() - from,
{
    if from < 0 || from >= probe.len() {
        Seq::empty()
    } else {
        let rest = matches_from(keys, probe, from + 1);
        match lookup(keys, probe.subrange(0, from + 1)) {
            Some(value) => seq![(value, (from + 1) as usize)] + rest,
            None => rest,
        }
    }
}

/// For each key of at least one byte that `probe` starts with, the pair of
/// its value and its length, in ascending order of the lengths.
pub open spec fn prefix_matches(keys: Keys, probe: Seq<u8>) -> Seq<(u32, usize)> {
    matches_from(keys, probe, 0)
}

/// The sum, over the keys from `begin` up to `end`, of the bytes that each
/// has beyond `depth`.
pub open spec fn span(keys: Keys, begin: int, end: int, depth: int) -> int
    decreases end - begin,
{
    if begin >= end {
        0
    } else {
        span(keys, begin, end - 1, depth) + (keys[end - 1].0.len() - depth)
    }
}

/// The number of bytes in all keys together.
pub open spec fn total_len(keys: Keys) -> int {
    span(keys, 0, keys.len() as int, 0)
}

/// No key comes before itself.
pub proof fn lemma_lt_irreflexive(a: Seq<u8>, i: int)
    ensures
        !lt_from(a, a, i),
    decreases a.len() - i,
{
    if i < a.len() {
        lemma_lt_irreflexive(a, i + 1);
    }
}

/// The order of keys is transitive.
pub proof fn lemma_lt_transitive(a: Seq<u8>, b: Seq<u8>, c: Seq<u8>, i: int)
    requires
        0 <= i,
        lt_from(a, b, i),
        lt_from(b, c, i),
    ensures
        lt_from(a, c, i),
    decreases c.len() - i,
{
    if i < a.len() && i < b.len() && i < c.len() && a[i] == b[i] && b[i] == c[i] {
        lemma_lt_transitive(a, b, c, i + 1);
    }
}

/// Of two different keys that agree before byte `i`, one comes before the
/// other.
pub proof fn lemma_order_is_total(a: Seq<u8>, b: Seq<u8>, i: int)
    requires
        0 <= i <= a.len(),
        i <= b.len(),
        forall|k: int| 0 <= k < i ==> a[k] == b[k],
        a != b,
    ensures
        lt_from(a, b, i) || lt_from(b, a, i),
    decreases a.len() - i,
{
    if i < a.len() && i < b.len() && a[i] == b[i] {
        lemma_order_is_total(a, b, i + 1);
    } else if i == a.len() && i == b.len() {
        assert(a =~= b);
    }
}

/// Keys that share their first `depth` bytes are ordered by what follows.
pub proof fn lemma_lt_skips_common(a: Seq<u8>, b: Seq<u8>, i: int, depth: int)
    requires
        0 <= i <= depth,
        depth <= a.len(),
        depth <= b.len(),
        forall|k: int| i <= k < depth ==> a[k] == b[k],
    ensures
        lt_from(a, b, i) == lt_from(a, b, depth),
    decreases depth - i,
{
    if i < depth {
        lemma_lt_skips_common(a, b, i + 1, depth);
    }
}

/// Of two keys that start with the same `depth` bytes, the first in order
/// goes on with a label that is not above the other's, and the second does
/// not end there.
pub proof fn lemma_labels_ascend(a: Seq<u8>, b: Seq<u8>, prefix: Seq<u8>)
    requires
        key_lt(a, b),
        has_prefix(a, prefix),
        has_prefix(b, prefix),
    ensures
        label_at(a, prefix.len() as int) <= label_at(b, prefix.len() as int),
        prefix.len() < b.len(),
{
    let depth = prefix.len() as int;
    assert forall|k: int| 0 <= k < depth implies a[k] == b[k] by {
        assert(a.subrange(0, depth)[k] == b.subrange(0, depth)[k]);
    }
    lemma_lt_skips_common(a, b, 0, depth);
}

/// A key that starts with `prefix` and goes on with the byte `label` starts
/// with `prefix` followed by `label`, and the other way round.
pub proof fn lemma_prefix_push(key: Seq<u8>, prefix: Seq<u8>, label: u8)
    ensures
        has_prefix(key, prefix.push(label)) <==> has_prefix(key, prefix) && prefix.len()
            < key.len() && key[prefix.len() as int] == label,
{
    let depth = prefix.len() as int;
    let longer = prefix.push(label);
    if has_prefix(key, longer) {
        assert(key.subrange(0, depth) =~= longer.subrange(0, depth));
        assert(longer.subrange(0, depth) =~= prefix);
        assert(key.subrange(0, depth + 1)[depth] == longer[depth]);
    }
    if has_prefix(key, prefix) && depth < key.len() && key[depth] == label {
        assert(key.subrange(0, depth + 1) =~= key.subrange(0, depth).push(label));
    }
}

/// In a valid keyset a key is found at one index only, and `lookup` gives
/// the value at that index.
pub proof fn lemma_lookup_at(keys: Keys, i: int)
    requires
        valid_keyset(keys),
        0 <= i < keys.len(),
    ensures
        lookup(keys, keys[i].0) == Some(keys[i].1),
        forall|j: int| 0 <= j < keys.len() && keys[j].0 == keys[i].0 ==> j == i,
{
    assert forall|j: int| 0 <= j < keys.len() && keys[j].0 == keys[i].0 implies j == i by {
        lemma_lt_irreflexive(keys[i].0, 0);
        if j < i {
            assert(key_lt(keys[j].0, keys[i].0));
        } else if i < j {
            assert(key_lt(keys[i].0, keys[j].0));
        }
    }
    assert(is_key(keys, keys[i].0));
}

/// The span of a range is the sum of the spans of its two parts.
pub proof fn lemma_span_split(keys: Keys, begin: int, mid: int, end: int, depth: int)
    requires
        begin <= mid <= end,
    ensures
        span(keys, begin, end, depth) == span(keys, begin, mid, depth) + span(
            keys,
            mid,
            end,
            depth,
        ),
    decreases end - mid,
{
    if mid < end {
        lemma_span_split(keys, begin, mid, end - 1, depth);
    }
}

/// In a range whose keys all have more than `depth` bytes, the span at
/// `depth + 1` is smaller by the number of keys.
pub proof fn lemma_span_deeper(keys: Keys, begin: int, end: int, depth: int)
    requires
        0 <= begin <= end <= keys.len(),
        forall|i: int| begin <= i < end ==> depth < (#[trigger] keys[i]).0.len(),
    ensures
        span(keys, begin, end, depth) == span(keys, begin, end, depth + 1) + (end - begin),
        span(keys, begin, end, depth + 1) >= 0,
    decreases end - begin,
{
    if begin < end {
        lemma_span_deeper(keys, begin, end - 1, depth);
        assert(depth < keys[end - 1].0.len());
    }
}

/// Whether `a` comes strictly before `b` as a string of unsigned bytes.
pub fn key_less(a: &[u8], b: &[u8]) -> (less: bool)
    ensures
        less == key_lt(a@, b@),
{
    let mut i: usize = 0;
    while i < a.len() && i < b.len()
        invariant
            i <= a.len(),
            i <= b.len(),
            key_lt(a@, b@) == lt_from(a@, b@, i as int),
        decreases a.len() - i,
    {
        if a[i] != b[i] {
            return a[i] < b[i];
        }
        i += 1;
    }
    a.len() < b.len()
}

/// Whether `key` holds no byte 0.
pub fn is_zero_free(key: &[u8]) -> (free: bool)
    ensures
        free == zero_free(key@),
{
    let mut i: usize = 0;
    while i < key.len()
        invariant
            i <= key.len(),
            forall|k: int| 0 <= k < i ==> key@[k] != 0,
        decreases key.len() - i,
    {
        if key[i] == 0 {
            return false;
        }
        i += 1;
    }
    true
}

/// Whether a trie can be built from the keyset: its keys are in strictly
/// ascending order and hold no byte 0, and its values are below 2^31.
pub fn is_valid_keyset(keyset: &[(&[u8], u32)]) -> (valid: bool)
    ensures
        valid == valid_keyset(keys_of(keyset)),
{
    let ghost keys = keys_of(keyset);
    let mut i: usize = 0;
    while i < keyset.len()
        invariant
            i <= keyset.len(),
            keys == keys_of(keyset),
            forall|a: int, b: int| 0 <= a < b < i ==> key_lt(#[trigger] keys[a].0, #[trigger] keys[b].0),
            forall|a: int| 0 <= a < i ==> zero_free(#[trigger] keys[a].0),
            forall|a: int| 0 <= a < i ==> (#[trigger] keys[a]).1 < VALUE_LIMIT,
        decreases keyset.len() - i,
    {
        let key = keyset[i].0;
        let value = keyset[i].1;
        assert(keys[i as int] == (key@, value));
        if value >= VALUE_LIMIT {
            return false;
        }
        if !is_zero_free(key) {
            assert(!zero_free(keys[i as int].0));
            return false;
        }
        if i > 0 {
            let before = keyset[i - 1].0;
            assert(keys[i - 1].0 == before@);
            if !key_less(before, key) {
                assert(!key_lt(keys[i - 1].0, keys[i as int].0));
                return false;
            }
            assert forall|a: int| 0 <= a < i implies key_lt(#[trigger] keys[a].0, keys[i as int].0) by {
                if a < i - 1 {
                    assert(key_lt(keys[a].0, keys[i - 1].0));
                    lemma_lt_transitive(keys[a].0, keys[i - 1].0, keys[i as int].0, 0);
                }
            }
        }
        i += 1;
    }
    true
}

} // verus!
