//! How a trie lies in the cells of the double array, and why an array that
//! is laid out so answers every search as the keyset does.
//!
//! A [`Layout`] names, for each used cell, what it stands for: the internal
//! node of a prefix of some key, or the leaf of a key. While a trie is being
//! built, a node is first placed (its cell carries its label and nothing
//! else) and later expanded (its cell carries the offset of its children,
//! which are placed then). The invariant [`laid_out`] ties the words in the
//! cells to the layout and to the keyset.

use crate::keyset::{
    has_prefix, is_key, is_key_prefix, lemma_lookup_at, lookup, matches_from, prefix_matches,
    valid_keyset, zero_free, Keys,
};
use crate::model::{cells_expanded, cells_placed, expanded_word, image_of, Cells};
use crate::unit::{
    lemma_has_leaf_roundtrip, lemma_label_word, lemma_offset_roundtrip, lemma_value_roundtrip,
    lemma_word_basics, offset_fits, word_has_leaf, word_is_leaf, word_label, word_offset,
    word_value, word_with_offset, word_with_value,
};
use crate::{common_prefixes, descend, exact_match, holds_keys, leaf_value, search_from, unit_at};
use vstd::prelude::*;

verus! {

/// What the used cells stand for.
pub struct Layout {
    /// For the cell of each internal node, the prefix that leads to it.
    pub nodes: Map<int, Seq<u8>>,
    /// For the cell of each internal node but the root, the cell of its
    /// parent.
    pub parent: Map<int, int>,
    /// For the cell of each leaf, the index of its key in the keyset.
    pub leaves: Map<int, int>,
    /// The cells of the nodes whose children have been placed.
    pub expanded: Set<int>,
}

/// The word of a node that was placed and not yet expanded: its label, which
/// is the last byte of its prefix, and nothing else.
pub open spec fn placed_word(prefix: Seq<u8>) -> u32 {
    if prefix.len() == 0 {
        0
    } else {
        prefix.last() as u32
    }
}

/// The cell that the label `c` leads to from cell `j`.
pub open spec fn child_cell(cs: Cells, j: int, c: u8) -> int {
    (word_offset(cs.words[j]) ^ (c as u32)) as int
}

/// The internal node in cell `x` is in order: the word carries the label of
/// the node and is no leaf, only the root has the empty prefix, a node that
/// is not expanded carries its label only, and a node below the root hangs
/// on an expanded parent whose offset and its label give its cell.
pub open spec fn node_ok(cs: Cells, lay: Layout, keys: Keys, x: int) -> bool {
    let p = lay.nodes[x];
    let w = cs.words[x];
    &&& !word_is_leaf(w)
    &&& word_label(w) == placed_word(p)
    &&& (x == 0 <==> p.len() == 0)
    &&& !lay.expanded.contains(x) ==> w == placed_word(p)
    &&& x != 0 ==> {
        let j = lay.parent[x];
        &&& p.last() != 0
        &&& is_key_prefix(keys, p)
        &&& lay.expanded.contains(j)
        &&& lay.nodes[j] == p.drop_last()
        &&& child_cell(cs, j, p.last()) == x
    }
}

/// The leaf in cell `x` is in order: it carries the value of its key.
pub open spec fn leaf_ok(cs: Cells, lay: Layout, keys: Keys, x: int) -> bool {
    &&& 0 <= lay.leaves[x] < keys.len()
    &&& cs.words[x] == word_with_value(keys[lay.leaves[x]].1)
}

/// The child of the expanded node in cell `j` by the label `c` is in place,
/// if the keyset asks for one: by the terminator 0 the leaf of the key that
/// ends at the node, by another label the node of the longer prefix.
pub open spec fn child_ok(cs: Cells, lay: Layout, keys: Keys, j: int, c: u8) -> bool {
    let q = lay.nodes[j];
    let y = child_cell(cs, j, c);
    if c == 0 {
        word_has_leaf(cs.words[j]) ==> lay.leaves.contains_key(y) && keys[lay.leaves[y]].0 == q
    } else {
        is_key_prefix(keys, q.push(c)) ==> lay.nodes.contains_key(y) && lay.nodes[y] == q.push(c)
    }
}

/// The expanded node in cell `j` is in order: its offset is among the
/// offsets given out, it has a leaf exactly if its prefix is a key, and its
/// children are in place, but for those by the labels in `todo` where `j` is
/// the cell `cur`.
pub open spec fn expanded_ok(
    cs: Cells,
    lay: Layout,
    keys: Keys,
    j: int,
    cur: int,
    todo: Set<u8>,
) -> bool {
    &&& lay.nodes.contains_key(j)
    &&& cs.offsets.contains(word_offset(cs.words[j]))
    &&& word_has_leaf(cs.words[j]) <==> is_key(keys, lay.nodes[j])
    &&& forall|c: u8| (j != cur || !todo.contains(c)) ==> #[trigger] child_ok(cs, lay, keys, j, c)
}

/// The cells hold the trie of `keys` as far as `lay` says, with the children
/// of the node in cell `cur` by the labels in `todo` yet to be placed.
pub closed spec fn laid_out_but(cs: Cells, lay: Layout, keys: Keys, cur: int, todo: Set<u8>) -> bool {
    &&& cs.used.len() == cs.words.len()
    &&& lay.nodes.contains_key(0)
    &&& forall|x: int| #[trigger]
        lay.nodes.contains_key(x) ==> 0 <= x < cs.used.len() && cs.used[x]
            && !lay.leaves.contains_key(x) && node_ok(cs, lay, keys, x)
    &&& forall|x: int| #[trigger]
        lay.leaves.contains_key(x) ==> 0 <= x < cs.used.len() && cs.used[x] && leaf_ok(
            cs,
            lay,
            keys,
            x,
        )
    &&& forall|x: int|
        0 <= x < cs.used.len() ==> if #[trigger] cs.used[x] {
            lay.nodes.contains_key(x) || lay.leaves.contains_key(x)
        } else {
            cs.words[x] == 0
        }
    &&& forall|j: int| #[trigger] lay.expanded.contains(j) ==> expanded_ok(cs, lay, keys, j, cur, todo)
    &&& forall|j1: int, j2: int|
        #[trigger] lay.expanded.contains(j1) && #[trigger] lay.expanded.contains(j2) && word_offset(
            cs.words[j1],
        ) == word_offset(cs.words[j2]) ==> j1 == j2
    &&& forall|b: u32| #[trigger] cs.offsets.contains(b) ==> b < cs.used.len()
}

/// The cells hold the trie of `keys` as far as `lay` says.
pub open spec fn laid_out(cs: Cells, lay: Layout, keys: Keys) -> bool {
    laid_out_but(cs, lay, keys, 0, Set::empty())
}

/// Every node of the layout is expanded.
pub open spec fn complete(lay: Layout) -> bool {
    forall|x: int| #[trigger] lay.nodes.contains_key(x) ==> lay.expanded.contains(x)
}

/// From an expanded node the label `c` leads to the node of the longer
/// prefix, if some key starts with it, and to no matching cell otherwise.
proof fn lemma_step(image: Seq<u8>, cs: Cells, lay: Layout, keys: Keys, x: int, c: u8)
    requires
        laid_out(cs, lay, keys),
        complete(lay),
        image_of(image, cs.words),
        lay.nodes.contains_key(x),
        c != 0,
    ensures
        is_key_prefix(keys, lay.nodes[x].push(c)) ==> {
            let y = child_cell(cs, x, c);
            &&& lay.nodes.contains_key(y)
            &&& lay.nodes[y] == lay.nodes[x].push(c)
            &&& unit_at(image, y) == Some(cs.words[y])
            &&& word_label(cs.words[y]) == c as u32
        },
        !is_key_prefix(keys, lay.nodes[x].push(c)) ==> match unit_at(image, child_cell(cs, x, c)) {
            None => true,
            Some(child) => word_label(child) != c as u32,
        },
{
    let q = lay.nodes[x];
    let y = child_cell(cs, x, c);
    assert(lay.expanded.contains(x));
    assert(expanded_ok(cs, lay, keys, x, 0, Set::empty()));
    assert(child_ok(cs, lay, keys, x, c));
    if is_key_prefix(keys, q.push(c)) {
        assert(lay.nodes.contains_key(y));
        assert(node_ok(cs, lay, keys, y));
        assert(q.push(c).last() == c);
    } else {
        if unit_at(image, y) is Some {
            let child = unit_at(image, y).unwrap();
            assert(0 <= y < cs.words.len());
            assert(child == cs.words[y]);
            if word_label(child) == c as u32 {
                lemma_word_basics(child);
                assert(cs.used[y]);
                if lay.leaves.contains_key(y) {
                    assert(leaf_ok(cs, lay, keys, y));
                    lemma_value_roundtrip(keys[lay.leaves[y]].1);
                    assert(false);
                }
                assert(lay.nodes.contains_key(y));
                assert(node_ok(cs, lay, keys, y));
                let p = lay.nodes[y];
                let j = lay.parent[y];
                assert(p.len() > 0);
                assert(p.last() == c);
                lemma_label_word(c, word_offset(cs.words[j]), word_offset(cs.words[x]));
                assert(j == x);
                assert(p =~= p.drop_last().push(p.last()));
                assert(false);
            }
        }
    }
}

/// At the node of a key, the leaf holds the value of the key; at the node of
/// a prefix that is no key, there is no leaf.
proof fn lemma_leaf(image: Seq<u8>, cs: Cells, lay: Layout, keys: Keys, x: int)
    requires
        laid_out(cs, lay, keys),
        complete(lay),
        image_of(image, cs.words),
        valid_keyset(keys),
        lay.nodes.contains_key(x),
    ensures
        leaf_value(image, cs.words[x]) == lookup(keys, lay.nodes[x]),
        word_has_leaf(cs.words[x]) <==> is_key(keys, lay.nodes[x]),
        word_has_leaf(cs.words[x]) ==> {
            let leaf = unit_at(image, word_offset(cs.words[x]) as int);
            leaf is Some && word_is_leaf(leaf.unwrap()) && Some(word_value(leaf.unwrap()))
                == lookup(keys, lay.nodes[x])
        },
{
    assert(lay.expanded.contains(x));
    assert(expanded_ok(cs, lay, keys, x, 0, Set::empty()));
    assert(child_ok(cs, lay, keys, x, 0));
    if word_has_leaf(cs.words[x]) {
        let b = word_offset(cs.words[x]);
        lemma_label_word(0, b, b);
        let y = child_cell(cs, x, 0);
        assert(y == b as int);
        assert(leaf_ok(cs, lay, keys, y));
        let i = lay.leaves[y];
        lemma_value_roundtrip(keys[i].1);
        lemma_lookup_at(keys, i);
    }
}

/// A walk from the node of the first `pos` bytes of `key` along the rest of
/// `key` ends at a unit that holds for `key` what the keyset holds, or fails
/// where the keyset holds nothing.
proof fn lemma_descend(
    image: Seq<u8>,
    cs: Cells,
    lay: Layout,
    keys: Keys,
    key: Seq<u8>,
    pos: int,
    x: int,
)
    requires
        laid_out(cs, lay, keys),
        complete(lay),
        image_of(image, cs.words),
        valid_keyset(keys),
        zero_free(key),
        0 <= pos <= key.len(),
        lay.nodes.contains_key(x),
        lay.nodes[x] == key.subrange(0, pos),
    ensures
        match descend(image, cs.words[x], key, pos) {
            Some(unit) => leaf_value(image, unit) == lookup(keys, key),
            None => lookup(keys, key) is None,
        },
    decreases key.len() - pos,
{
    if pos == key.len() {
        assert(key.subrange(0, pos) =~= key);
        lemma_leaf(image, cs, lay, keys, x);
    } else {
        let c = key[pos];
        let longer = key.subrange(0, pos + 1);
        assert(longer =~= lay.nodes[x].push(c));
        lemma_step(image, cs, lay, keys, x, c);
        if is_key_prefix(keys, longer) {
            lemma_descend(image, cs, lay, keys, key, pos + 1, child_cell(cs, x, c));
        } else {
            if is_key(keys, key) {
                let i = choose|i: int| 0 <= i < keys.len() && (#[trigger] keys[i]).0 == key;
                assert(has_prefix(keys[i].0, longer));
            }
        }
    }
}

/// Where no key starts with the first `pos + 1` bytes of `probe`, no key is
/// a prefix of `probe` of more than `pos` bytes.
proof fn lemma_no_matches(keys: Keys, probe: Seq<u8>, pos: int, from: int)
    requires
        0 <= pos <= from,
        pos < probe.len(),
        !is_key_prefix(keys, probe.subrange(0, pos + 1)),
    ensures
        matches_from(keys, probe, from) == Seq::<(u32, usize)>::empty(),
    decreases probe.len() - from,
{
    if from < probe.len() {
        lemma_no_matches(keys, probe, pos, from + 1);
        let longer = probe.subrange(0, from + 1);
        if is_key(keys, longer) {
            let i = choose|i: int| 0 <= i < keys.len() && (#[trigger] keys[i]).0 == longer;
            assert(longer.subrange(0, pos + 1) =~= probe.subrange(0, pos + 1));
            assert(has_prefix(keys[i].0, probe.subrange(0, pos + 1)));
        }
    }
}

/// A common-prefix search from the node of the first `pos` bytes of `probe`
/// yields the keys that are longer prefixes of `probe`.
proof fn lemma_search(
    image: Seq<u8>,
    cs: Cells,
    lay: Layout,
    keys: Keys,
    probe: Seq<u8>,
    pos: int,
    x: int,
)
    requires
        laid_out(cs, lay, keys),
        complete(lay),
        image_of(image, cs.words),
        valid_keyset(keys),
        zero_free(probe),
        0 <= pos <= probe.len(),
        lay.nodes.contains_key(x),
        lay.nodes[x] == probe.subrange(0, pos),
    ensures
        search_from(image, probe, x, pos) == matches_from(keys, probe, pos),
    decreases probe.len() - pos,
{
    if pos < probe.len() {
        let c = probe[pos];
        let longer = probe.subrange(0, pos + 1);
        assert(longer =~= lay.nodes[x].push(c));
        assert(unit_at(image, x) == Some(cs.words[x]));
        lemma_step(image, cs, lay, keys, x, c);
        if is_key_prefix(keys, longer) {
            let y = child_cell(cs, x, c);
            lemma_search(image, cs, lay, keys, probe, pos + 1, y);
            lemma_leaf(image, cs, lay, keys, y);
        } else {
            lemma_no_matches(keys, probe, pos, pos);
        }
    }
}

/// An image of cells in which the whole trie of a valid keyset is laid out
/// answers every search as the keyset does.
pub proof fn lemma_complete_layout_holds_keys(image: Seq<u8>, cs: Cells, lay: Layout, keys: Keys)
    requires
        laid_out(cs, lay, keys),
        complete(lay),
        image_of(image, cs.words),
        valid_keyset(keys),
    ensures
        holds_keys(image, keys),
{
    assert(node_ok(cs, lay, keys, 0));
    assert(unit_at(image, 0) == Some(cs.words[0]));
    assert forall|key: Seq<u8>| zero_free(key) implies #[trigger] exact_match(image, key)
        == lookup(keys, key) by {
        assert(key.subrange(0, 0) =~= lay.nodes[0]);
        lemma_descend(image, cs, lay, keys, key, 0, 0);
    }
    assert forall|probe: Seq<u8>| zero_free(probe) implies #[trigger] common_prefixes(image, probe)
        == prefix_matches(keys, probe) by {
        assert(probe.subrange(0, 0) =~= lay.nodes[0]);
        lemma_search(image, cs, lay, keys, probe, 0, 0);
    }
}

/// The layout of an array in which only the root is placed.
pub open spec fn root_layout() -> Layout {
    Layout {
        nodes: Map::empty().insert(0int, Seq::<u8>::empty()),
        parent: Map::empty(),
        leaves: Map::empty(),
        expanded: Set::empty(),
    }
}

/// The layout after the node in cell `j` was expanded.
pub open spec fn layout_expanded(lay: Layout, j: int) -> Layout {
    Layout { expanded: lay.expanded.insert(j), ..lay }
}

/// The layout after the child of the node in cell `cur` by the label `c` was
/// placed in cell `y`.
pub open spec fn layout_with_node(lay: Layout, cur: int, y: int, c: u8) -> Layout {
    Layout {
        nodes: lay.nodes.insert(y, lay.nodes[cur].push(c)),
        parent: lay.parent.insert(y, cur),
        ..lay
    }
}

/// The layout after the leaf of key `i` was placed in cell `y`.
pub open spec fn layout_with_leaf(lay: Layout, y: int, i: int) -> Layout {
    Layout { leaves: lay.leaves.insert(y, i), ..lay }
}

/// Cells of which only the first is used, and all are empty, hold the trie
/// as far as the layout with the root alone says.
pub proof fn lemma_root_laid_out(cs: Cells, keys: Keys)
    requires
        cs.used.len() == cs.words.len(),
        cs.used.len() > 0,
        cs.used[0],
        forall|x: int| 0 < x < cs.used.len() ==> !cs.used[x],
        forall|x: int| 0 <= x < cs.words.len() ==> cs.words[x] == 0,
        cs.offsets == Set::<u32>::empty(),
    ensures
        laid_out(cs, root_layout(), keys),
{
    let lay = root_layout();
    lemma_word_basics(0);
    assert forall|x: int| #[trigger] lay.nodes.contains_key(x) implies 0 <= x < cs.used.len()
        && cs.used[x] && !lay.leaves.contains_key(x) && node_ok(cs, lay, keys, x) by {
        assert(x == 0);
    }
}

/// Unused empty cells appended to the array change nothing.
pub proof fn lemma_grown_laid_out(cs: Cells, more: Cells, lay: Layout, keys: Keys)
    requires
        laid_out(cs, lay, keys),
        more.used.len() == more.words.len(),
        more.used.len() >= cs.used.len(),
        more.offsets == cs.offsets,
        forall|x: int|
            0 <= x < cs.used.len() ==> more.used[x] == cs.used[x] && more.words[x] == cs.words[x],
        forall|x: int| cs.used.len() <= x < more.used.len() ==> !more.used[x] && more.words[x] == 0,
    ensures
        laid_out(more, lay, keys),
{
    let none = Set::<u8>::empty();
    assert forall|x: int| #[trigger] lay.nodes.contains_key(x) implies 0 <= x < more.used.len()
        && more.used[x] && !lay.leaves.contains_key(x) && node_ok(more, lay, keys, x) by {
        assert(node_ok(cs, lay, keys, x));
        if x != 0 {
            let j = lay.parent[x];
            assert(expanded_ok(cs, lay, keys, j, 0, none));
            assert(lay.nodes.contains_key(j));
        }
    }
    assert forall|x: int| #[trigger] lay.leaves.contains_key(x) implies 0 <= x < more.used.len()
        && more.used[x] && leaf_ok(more, lay, keys, x) by {
        assert(leaf_ok(cs, lay, keys, x));
    }
    assert forall|j: int| #[trigger] lay.expanded.contains(j) implies expanded_ok(
        more,
        lay,
        keys,
        j,
        0,
        none,
    ) by {
        assert(expanded_ok(cs, lay, keys, j, 0, none));
        assert forall|c: u8| #[trigger] child_ok(more, lay, keys, j, c) by {
            assert(child_ok(cs, lay, keys, j, c));
        }
    }
    assert forall|j1: int, j2: int|
        #[trigger] lay.expanded.contains(j1) && #[trigger] lay.expanded.contains(j2) && word_offset(
            more.words[j1],
        ) == word_offset(more.words[j2]) implies j1 == j2 by {
        assert(expanded_ok(cs, lay, keys, j1, 0, none));
        assert(expanded_ok(cs, lay, keys, j2, 0, none));
    }
}

/// Giving a placed node its offset, one that no node has yet, and its
/// has-leaf flag leaves the trie laid out but for the children of that node.
pub proof fn lemma_expanded_laid_out(
    cs: Cells,
    lay: Layout,
    keys: Keys,
    j: int,
    offset: u32,
    has_leaf: bool,
    todo: Set<u8>,
)
    requires
        laid_out(cs, lay, keys),
        lay.nodes.contains_key(j),
        !lay.expanded.contains(j),
        !cs.offsets.contains(offset),
        offset < cs.used.len(),
        offset_fits(offset),
        has_leaf <==> is_key(keys, lay.nodes[j]),
        has_leaf ==> todo.contains(0),
        forall|c: u8|
            c != 0 && is_key_prefix(keys, #[trigger] lay.nodes[j].push(c)) ==> todo.contains(c),
    ensures
        word_offset(expanded_word(cs.words[j], offset, has_leaf)) == offset,
        laid_out_but(
            cells_expanded(cs, j, expanded_word(cs.words[j], offset, has_leaf)),
            layout_expanded(lay, j),
            keys,
            j,
            todo,
        ),
{
    let none = Set::<u8>::empty();
    let w = expanded_word(cs.words[j], offset, has_leaf);
    let cs2 = cells_expanded(cs, j, w);
    let lay2 = layout_expanded(lay, j);
    assert(node_ok(cs, lay, keys, j));
    lemma_offset_roundtrip(cs.words[j], offset);
    lemma_has_leaf_roundtrip(word_with_offset(cs.words[j], offset), has_leaf);
    if lay.nodes[j].len() > 0 {
        lemma_label_word(lay.nodes[j].last(), 0, 0);
    } else {
        lemma_label_word(0, 0, 0);
    }
    assert(word_label(w) == word_label(cs.words[j]));
    assert forall|x: int| #[trigger] lay2.nodes.contains_key(x) implies 0 <= x < cs2.used.len()
        && cs2.used[x] && !lay2.leaves.contains_key(x) && node_ok(cs2, lay2, keys, x) by {
        assert(node_ok(cs, lay, keys, x));
        if x != 0 {
            let parent = lay.parent[x];
            assert(expanded_ok(cs, lay, keys, parent, 0, none));
            assert(parent != j);
        }
    }
    assert forall|x: int| #[trigger] lay2.leaves.contains_key(x) implies 0 <= x < cs2.used.len()
        && cs2.used[x] && leaf_ok(cs2, lay2, keys, x) by {
        assert(leaf_ok(cs, lay, keys, x));
        assert(!lay.nodes.contains_key(x));
    }
    assert forall|k: int| #[trigger] lay2.expanded.contains(k) implies expanded_ok(
        cs2,
        lay2,
        keys,
        k,
        j,
        todo,
    ) by {
        if k != j {
            assert(expanded_ok(cs, lay, keys, k, 0, none));
            assert forall|c: u8| #[trigger] child_ok(cs2, lay2, keys, k, c) by {
                assert(child_ok(cs, lay, keys, k, c));
            }
        } else {
            assert forall|c: u8| !todo.contains(c) implies #[trigger] child_ok(
                cs2,
                lay2,
                keys,
                k,
                c,
            ) by {}
        }
    }
    assert forall|j1: int, j2: int|
        #[trigger] lay2.expanded.contains(j1) && #[trigger] lay2.expanded.contains(j2)
            && word_offset(cs2.words[j1]) == word_offset(cs2.words[j2]) implies j1 == j2 by {
        if j1 != j {
            assert(expanded_ok(cs, lay, keys, j1, 0, none));
        }
        if j2 != j {
            assert(expanded_ok(cs, lay, keys, j2, 0, none));
        }
    }
}

/// What holds of the cells wherever a trie is laid out in them: a node lies
/// in a used cell, an expanded cell holds a node, an unused cell is empty,
/// and every offset given out lies within the array.
pub proof fn lemma_laid_out_cells(cs: Cells, lay: Layout, keys: Keys, cur: int, todo: Set<u8>)
    requires
        laid_out_but(cs, lay, keys, cur, todo),
    ensures
        cs.used.len() == cs.words.len(),
        lay.nodes.contains_key(0),
        lay.nodes[0] == Seq::<u8>::empty(),
        forall|x: int| #[trigger] lay.nodes.contains_key(x) ==> 0 <= x < cs.used.len() && cs.used[x],
        forall|x: int| #[trigger] lay.expanded.contains(x) ==> lay.nodes.contains_key(x),
        forall|x: int| 0 <= x < cs.used.len() && !#[trigger] cs.used[x] ==> cs.words[x] == 0,
        forall|offset: u32| #[trigger] cs.offsets.contains(offset) ==> offset < cs.used.len(),
{
    assert(node_ok(cs, lay, keys, 0));
    assert(lay.nodes[0] =~= Seq::<u8>::empty());
    assert forall|x: int| #[trigger] lay.expanded.contains(x) implies lay.nodes.contains_key(x) by {
        assert(expanded_ok(cs, lay, keys, x, cur, todo));
    }
}

/// Placing the child of the node that is being expanded by a label other
/// than the terminator, in an unused cell, takes that label off the list.
pub proof fn lemma_node_placed_laid_out(
    cs: Cells,
    lay: Layout,
    keys: Keys,
    cur: int,
    todo: Set<u8>,
    c: u8,
)
    requires
        laid_out_but(cs, lay, keys, cur, todo),
        lay.expanded.contains(cur),
        c != 0,
        is_key_prefix(keys, lay.nodes[cur].push(c)),
        0 <= child_cell(cs, cur, c) < cs.used.len(),
        !cs.used[child_cell(cs, cur, c)],
    ensures
        laid_out_but(
            cells_placed(cs, child_cell(cs, cur, c), c as u32),
            layout_with_node(lay, cur, child_cell(cs, cur, c), c),
            keys,
            cur,
            todo.remove(c),
        ),
{
    let y = child_cell(cs, cur, c);
    let cs2 = cells_placed(cs, y, c as u32);
    let lay2 = layout_with_node(lay, cur, y, c);
    let p = lay.nodes[cur].push(c);
    lemma_label_word(c, 0, 0);
    assert(expanded_ok(cs, lay, keys, cur, cur, todo));
    assert(p.drop_last() =~= lay.nodes[cur]);
    assert(p.last() == c);
    assert forall|x: int| #[trigger] lay2.nodes.contains_key(x) implies 0 <= x < cs2.used.len()
        && cs2.used[x] && !lay2.leaves.contains_key(x) && node_ok(cs2, lay2, keys, x) by {
        if x != y {
            assert(lay.nodes.contains_key(x));
            assert(node_ok(cs, lay, keys, x));
            if x != 0 {
                let parent = lay.parent[x];
                assert(expanded_ok(cs, lay, keys, parent, cur, todo));
                assert(parent != y);
            }
        } else {
            assert(node_ok(cs2, lay2, keys, y));
        }
    }
    assert forall|x: int| #[trigger] lay2.leaves.contains_key(x) implies 0 <= x < cs2.used.len()
        && cs2.used[x] && leaf_ok(cs2, lay2, keys, x) by {
        assert(leaf_ok(cs, lay, keys, x));
    }
    assert forall|k: int| #[trigger] lay2.expanded.contains(k) implies expanded_ok(
        cs2,
        lay2,
        keys,
        k,
        cur,
        todo.remove(c),
    ) by {
        assert(expanded_ok(cs, lay, keys, k, cur, todo));
        assert(k != y);
        assert forall|d: u8| (k != cur || !todo.remove(c).contains(d)) implies #[trigger] child_ok(
            cs2,
            lay2,
            keys,
            k,
            d,
        ) by {
            if k == cur && d == c {
            } else {
                assert(child_ok(cs, lay, keys, k, d));
            }
        }
    }
    assert forall|j1: int, j2: int|
        #[trigger] lay2.expanded.contains(j1) && #[trigger] lay2.expanded.contains(j2)
            && word_offset(cs2.words[j1]) == word_offset(cs2.words[j2]) implies j1 == j2 by {
        assert(expanded_ok(cs, lay, keys, j1, cur, todo));
        assert(expanded_ok(cs, lay, keys, j2, cur, todo));
    }
}

/// Placing the leaf of the key that ends at the node that is being expanded,
/// in an unused cell, takes the terminator off the list.
pub proof fn lemma_leaf_placed_laid_out(
    cs: Cells,
    lay: Layout,
    keys: Keys,
    cur: int,
    todo: Set<u8>,
    i: int,
)
    requires
        laid_out_but(cs, lay, keys, cur, todo),
        lay.expanded.contains(cur),
        0 <= i < keys.len(),
        keys[i].0 == lay.nodes[cur],
        0 <= child_cell(cs, cur, 0) < cs.used.len(),
        !cs.used[child_cell(cs, cur, 0)],
    ensures
        laid_out_but(
            cells_placed(cs, child_cell(cs, cur, 0), word_with_value(keys[i].1)),
            layout_with_leaf(lay, child_cell(cs, cur, 0), i),
            keys,
            cur,
            todo.remove(0),
        ),
{
    let y = child_cell(cs, cur, 0);
    let cs2 = cells_placed(cs, y, word_with_value(keys[i].1));
    let lay2 = layout_with_leaf(lay, y, i);
    assert(expanded_ok(cs, lay, keys, cur, cur, todo));
    assert forall|x: int| #[trigger] lay2.nodes.contains_key(x) implies 0 <= x < cs2.used.len()
        && cs2.used[x] && !lay2.leaves.contains_key(x) && node_ok(cs2, lay2, keys, x) by {
        assert(node_ok(cs, lay, keys, x));
        if x != 0 {
            let parent = lay.parent[x];
            assert(expanded_ok(cs, lay, keys, parent, cur, todo));
            assert(parent != y);
        }
    }
    assert forall|x: int| #[trigger] lay2.leaves.contains_key(x) implies 0 <= x < cs2.used.len()
        && cs2.used[x] && leaf_ok(cs2, lay2, keys, x) by {
        if x != y {
            assert(leaf_ok(cs, lay, keys, x));
        }
    }
    assert forall|k: int| #[trigger] lay2.expanded.contains(k) implies expanded_ok(
        cs2,
        lay2,
        keys,
        k,
        cur,
        todo.remove(0),
    ) by {
        assert(expanded_ok(cs, lay, keys, k, cur, todo));
        assert(k != y);
        assert forall|d: u8| (k != cur || !todo.remove(0).contains(d)) implies #[trigger] child_ok(
            cs2,
            lay2,
            keys,
            k,
            d,
        ) by {
            if k == cur && d == 0 {
            } else {
                assert(child_ok(cs, lay, keys, k, d));
            }
        }
    }
    assert forall|j1: int, j2: int|
        #[trigger] lay2.expanded.contains(j1) && #[trigger] lay2.expanded.contains(j2)
            && word_offset(cs2.words[j1]) == word_offset(cs2.words[j2]) implies j1 == j2 by {
        assert(expanded_ok(cs, lay, keys, j1, cur, todo));
        assert(expanded_ok(cs, lay, keys, j2, cur, todo));
    }
}

/// With no child left to place, the trie is laid out.
pub proof fn lemma_nothing_left(cs: Cells, lay: Layout, keys: Keys, cur: int, todo: Set<u8>)
    requires
        laid_out_but(cs, lay, keys, cur, todo),
        forall|c: u8| !todo.contains(c),
    ensures
        laid_out(cs, lay, keys),
{
    let none = Set::<u8>::empty();
    assert forall|j: int| #[trigger] lay.expanded.contains(j) implies expanded_ok(
        cs,
        lay,
        keys,
        j,
        0,
        none,
    ) by {
        assert(expanded_ok(cs, lay, keys, j, cur, todo));
        assert forall|c: u8| #[trigger] child_ok(cs, lay, keys, j, c) by {}
    }
    assert forall|x: int| #[trigger] lay.nodes.contains_key(x) implies 0 <= x < cs.used.len()
        && cs.used[x] && !lay.leaves.contains_key(x) && node_ok(cs, lay, keys, x) by {}
}

/// An image of at least 256 empty units answers every search as the empty
/// keyset does: it finds nothing.
pub proof fn lemma_empty_image_holds_no_keys(image: Seq<u8>, words: Seq<u32>, keys: Keys)
    requires
        image_of(image, words),
        words.len() >= 256,
        forall|x: int| 0 <= x < words.len() ==> words[x] == 0,
        keys.len() == 0,
    ensures
        holds_keys(image, keys),
{
    lemma_word_basics(0);
    assert(unit_at(image, 0) == Some(words[0]));
    assert forall|key: Seq<u8>| zero_free(key) implies #[trigger] exact_match(image, key)
        == lookup(keys, key) by {
        if key.len() > 0 {
            lemma_label_word(key[0], 0, 0);
            let y = crate::child_index(0, key[0]);
            assert(y == key[0] as int) by {
                lemma_xor_zero(key[0]);
            }
            assert(unit_at(image, y) == Some(words[y]));
        }
    }
    assert forall|probe: Seq<u8>| zero_free(probe) implies #[trigger] common_prefixes(image, probe)
        == prefix_matches(keys, probe) by {
        lemma_no_keys_no_matches(keys, probe, 0);
        if probe.len() > 0 {
            let y = crate::child_index(0, probe[0]);
            assert(y == probe[0] as int) by {
                lemma_xor_zero(probe[0]);
            }
            assert(unit_at(image, y) == Some(words[y]));
        }
    }
}

/// From the offset 0 a label leads to the cell of its own number.
proof fn lemma_xor_zero(c: u8)
    by (bit_vector)
    ensures
        0u32 ^ (c as u32) == c as u32,
{
}

/// The empty keyset has no key that is a prefix of a probe.
proof fn lemma_no_keys_no_matches(keys: Keys, probe: Seq<u8>, from: int)
    requires
        keys.len() == 0,
    ensures
        matches_from(keys, probe, from) == Seq::<(u32, usize)>::empty(),
    decreases probe.len() - from,
{
    if 0 <= from < probe.len() {
        lemma_no_keys_no_matches(keys, probe, from + 1);
    }
}

} // verus!
