//! The array that the builder makes of a keyset, as a function of the
//! keyset: which offset each node gets, which cells its children take, and
//! the bytes that the image consists of.

use crate::block::{absolute, DoubleArrayBlock, MAX_BLOCKS, NUM_TARGET_BLOCKS};
use crate::keyset::{valid_keyset, Keys};
use crate::runs::{labels_of, runs_of};
use crate::unit::{offset_fits, word_offset, word_with_has_leaf, word_with_offset, word_with_value};
use crate::unit_at;
use vstd::prelude::*;

verus! {

/// The cells of an array under construction: which are used, the word in
/// each, and the offsets that were given to nodes.
pub struct Cells {
    pub used: Seq<bool>,
    pub words: Seq<u32>,
    pub offsets: Set<u32>,
}

/// The word of a placed node after it got the offset of its children and
/// its has-leaf flag.
pub open spec fn expanded_word(w: u32, offset: u32, has_leaf: bool) -> u32 {
    word_with_has_leaf(word_with_offset(w, offset), has_leaf)
}

/// The cells after the node in cell `j` got the word `w` with its offset.
pub open spec fn cells_expanded(cs: Cells, j: int, w: u32) -> Cells {
    Cells { used: cs.used, words: cs.words.update(j, w), offsets: cs.offsets.insert(word_offset(w)) }
}

/// The cells after cell `y` was reserved and got the word `w`.
pub open spec fn cells_placed(cs: Cells, y: int, w: u32) -> Cells {
    Cells { used: cs.used.update(y, true), words: cs.words.update(y, w), ..cs }
}

/// The first of the blocks in which an offset is looked for.
pub open spec fn window_start(len: int) -> int {
    if len > NUM_TARGET_BLOCKS {
        len - NUM_TARGET_BLOCKS
    } else {
        0
    }
}

/// The number of blocks that the cells make up.
pub open spec fn block_count(cs: Cells) -> int {
    cs.used.len() as int / 256
}

/// Whether the labels fit into block `id` at `offset`: the offset can be
/// stored in a unit, and the cell of every label is unused.
pub open spec fn cells_fit(cs: Cells, id: int, labels: Seq<u8>, offset: u8) -> bool {
    &&& offset_fits(absolute(id as usize, offset))
    &&& forall|k: int|
        0 <= k < labels.len() ==> !cs.used[id * 256 + (offset ^ #[trigger] labels[k])]
}

/// The offsets in block `id` at which the labels fit, one for each unused
/// cell from `from` on that can hold the first label, in ascending order of
/// that cell.
pub open spec fn cells_candidates(cs: Cells, id: int, labels: Seq<u8>, from: int) -> Seq<u8>
    decreases 256 - from,
{
    if from < 0 || from >= 256 || labels.len() == 0 {
        Seq::empty()
    } else {
        let offset = (from as u8) ^ labels[0];
        let rest = cells_candidates(cs, id, labels, from + 1);
        if !cs.used[id * 256 + from] && cells_fit(cs, id, labels, offset) {
            seq![offset] + rest
        } else {
            rest
        }
    }
}

/// The first candidate whose offset in the whole array was not given to a
/// node yet, as that offset.
pub open spec fn first_free(candidates: Seq<u8>, id: usize, offsets: Set<u32>) -> Option<u32>
    decreases candidates.len(),
{
    if candidates.len() == 0 {
        None
    } else if !offsets.contains(absolute(id, candidates[0])) {
        Some(absolute(id, candidates[0]))
    } else {
        first_free(candidates.skip(1), id, offsets)
    }
}

/// The offset that a search through the blocks from `from` on finds for the
/// labels: in the first block that has one, the first at which the labels
/// fit and which was not given to a node yet.
pub open spec fn cells_find(cs: Cells, labels: Seq<u8>, from: int) -> Option<u32>
    decreases block_count(cs) - from,
{
    if from < 0 || from >= block_count(cs) {
        None
    } else {
        match first_free(cells_candidates(cs, from, labels, 0), from as usize, cs.offsets) {
            Some(offset) => Some(offset),
            None => cells_find(cs, labels, from + 1),
        }
    }
}

/// The cells with one block of unused, empty cells more.
pub open spec fn grown(cs: Cells) -> Cells {
    Cells {
        used: cs.used + Seq::new(256, |i: int| false),
        words: cs.words + Seq::new(256, |i: int| 0u32),
        offsets: cs.offsets,
    }
}

/// The offset that is chosen for the labels, and the cells it is chosen in:
/// the offset found in the last blocks or, if they have none and a block
/// can be appended, the offset found with one block more.
pub open spec fn chosen(cs: Cells, labels: Seq<u8>) -> Option<(Cells, u32)> {
    match cells_find(cs, labels, window_start(block_count(cs))) {
        Some(offset) => Some((cs, offset)),
        None => if block_count(cs) >= MAX_BLOCKS {
            None
        } else {
            match cells_find(grown(cs), labels, window_start(block_count(cs) + 1)) {
                Some(offset) => Some((grown(cs), offset)),
                None => None,
            }
        },
    }
}

/// The word that is written into the cell of a child: for the terminator
/// the leaf with the value, for another label the label.
pub open spec fn child_word(label: u8, value: Option<u32>) -> u32 {
    if label == 0 {
        word_with_value(value.unwrap())
    } else {
        label as u32
    }
}

/// The cells after the children by the first `upto` labels were placed at
/// `offset`.
pub open spec fn placed_upto(
    cs: Cells,
    offset: u32,
    labels: Seq<u8>,
    value: Option<u32>,
    upto: int,
) -> Cells
    decreases upto,
{
    if upto <= 0 {
        cs
    } else {
        cells_placed(
            placed_upto(cs, offset, labels, value, upto - 1),
            (offset ^ (labels[upto - 1] as u32)) as int,
            child_word(labels[upto - 1], value),
        )
    }
}

/// The cells after the node in cell `unit_id` was expanded at `offset` and
/// its children by the labels were placed.
pub open spec fn expanded_and_placed(
    cs: Cells,
    unit_id: int,
    offset: u32,
    labels: Seq<u8>,
    value: Option<u32>,
) -> Cells {
    placed_upto(
        cells_expanded(cs, unit_id, expanded_word(cs.words[unit_id], offset, labels[0] == 0)),
        offset,
        labels,
        value,
        labels.len() as int,
    )
}

/// The value of the key that ends where the runs begin, if the first run is
/// that of the terminator.
pub open spec fn value_of_runs(keys: Keys, begin: int, runs: Seq<(u8, usize, usize)>) -> Option<
    u32,
> {
    if runs[0].0 == 0 {
        Some(keys[begin].1)
    } else {
        None
    }
}

/// The candidates of a block are the candidates in its cells.
pub proof fn lemma_candidates_of_block(
    block: &DoubleArrayBlock,
    cs: Cells,
    labels: Seq<u8>,
    from: int,
)
    requires
        0 <= from,
        forall|i: int| 0 <= i < 256 ==> block.is_used[i] == cs.used[block.id * 256 + i],
    ensures
        block.candidates_from(labels, from) == cells_candidates(cs, block.id as int, labels, from),
    decreases 256 - from,
{
    if from < 256 && labels.len() > 0 {
        lemma_candidates_of_block(block, cs, labels, from + 1);
        let offset = (from as u8) ^ labels[0];
        assert(block.fits(labels, offset) == cells_fit(cs, block.id as int, labels, offset)) by {
            if block.fits(labels, offset) {
                assert forall|k: int| 0 <= k < labels.len() implies !cs.used[block.id * 256 + (
                offset ^ #[trigger] labels[k])] by {
                    assert(!block.is_used[(offset ^ labels[k]) as int]);
                }
            }
            if cells_fit(cs, block.id as int, labels, offset) {
                assert forall|k: int| 0 <= k < labels.len() implies !block.is_used[(offset
                    ^ #[trigger] labels[k]) as int] by {
                    assert(!cs.used[block.id * 256 + (offset ^ labels[k])]);
                }
            }
        }
    }
}

/// A candidate that was not given to a node yet is found.
pub proof fn lemma_first_free_some(candidates: Seq<u8>, id: usize, offsets: Set<u32>, k: int)
    requires
        0 <= k < candidates.len(),
        !offsets.contains(absolute(id, candidates[k])),
    ensures
        first_free(candidates, id, offsets) is Some,
    decreases k,
{
    if k > 0 && offsets.contains(absolute(id, candidates[0])) {
        assert(candidates.skip(1)[k - 1] == candidates[k]);
        lemma_first_free_some(candidates.skip(1), id, offsets, k - 1);
    }
}

/// What is found in a later block is found from an earlier block on, unless
/// a block before has an offset too.
pub proof fn lemma_cells_find_some(cs: Cells, labels: Seq<u8>, from: int, at: int)
    requires
        0 <= from <= at < block_count(cs),
        first_free(cells_candidates(cs, at, labels, 0), at as usize, cs.offsets) is Some,
    ensures
        cells_find(cs, labels, from) is Some,
    decreases at - from,
{
    if from < at {
        lemma_cells_find_some(cs, labels, from + 1, at);
    }
}

/// The length of the longest key.
pub open spec fn longest(keys: Keys) -> nat
    decreases keys.len(),
{
    if keys.len() == 0 {
        0
    } else {
        let before = longest(keys.drop_last());
        if keys.last().0.len() > before {
            keys.last().0.len()
        } else {
            before
        }
    }
}

/// No key is longer than the longest.
pub proof fn lemma_longest(keys: Keys, i: int)
    requires
        0 <= i < keys.len(),
    ensures
        keys[i].0.len() <= longest(keys),
    decreases keys.len(),
{
    if i < keys.len() - 1 {
        lemma_longest(keys.drop_last(), i);
        assert(keys.drop_last()[i] == keys[i]);
    }
}

/// The number of levels of the trie from `depth` on.
pub open spec fn levels(keys: Keys, depth: int) -> nat {
    if depth <= longest(keys) {
        (longest(keys) + 1 - depth) as nat
    } else {
        0
    }
}

/// The cells after the part of the trie below the placed node in cell
/// `unit_id` was built, which stands for the first `depth` bytes of the keys
/// from `begin` up to `end`; nothing where the array would outgrow its
/// limit. `fuel` is the number of levels that may follow.
pub open spec fn built_below(
    keys: Keys,
    fuel: nat,
    depth: int,
    begin: int,
    end: int,
    unit_id: int,
    cs: Cells,
) -> Option<Cells>
    decreases fuel, 1int, 0int,
{
    if fuel == 0 {
        None
    } else {
        let runs = runs_of(keys, depth, begin, end);
        match chosen(cs, labels_of(runs)) {
            None => None,
            Some((cs1, offset)) => built_children(
                keys,
                fuel,
                depth,
                runs,
                0,
                offset,
                expanded_and_placed(
                    cs1,
                    unit_id,
                    offset,
                    labels_of(runs),
                    value_of_runs(keys, begin, runs),
                ),
            ),
        }
    }
}

/// The cells after the parts of the trie below the children of a node were
/// built, from the child by the label of run `k` on. The children lie at
/// `offset`; the child by the terminator is a leaf, below which there is
/// nothing to build.
pub open spec fn built_children(
    keys: Keys,
    fuel: nat,
    depth: int,
    runs: Seq<(u8, usize, usize)>,
    k: int,
    offset: u32,
    cs: Cells,
) -> Option<Cells>
    decreases fuel, 0int, runs.len() - k,
{
    if k < 0 || k >= runs.len() {
        Some(cs)
    } else if runs[k].0 == 0 {
        built_children(keys, fuel, depth, runs, k + 1, offset, cs)
    } else if fuel == 0 {
        None
    } else {
        match built_below(
            keys,
            (fuel - 1) as nat,
            depth + 1,
            runs[k].1 as int,
            runs[k].2 as int,
            (offset ^ (runs[k].0 as u32)) as int,
            cs,
        ) {
            None => None,
            Some(next) => built_children(keys, fuel, depth, runs, k + 1, offset, next),
        }
    }
}

/// The cells of a new array: one block, of which the first cell is taken by
/// the root.
pub open spec fn root_cells() -> Cells {
    Cells {
        used: Seq::new(256, |i: int| i == 0),
        words: Seq::new(256, |i: int| 0u32),
        offsets: Set::empty(),
    }
}

/// The cells of the whole trie of the keyset; nothing where the array would
/// outgrow its limit.
pub open spec fn built_cells(keys: Keys) -> Option<Cells> {
    if keys.len() == 0 {
        Some(root_cells())
    } else {
        built_below(keys, levels(keys, 0), 0, 0, keys.len() as int, 0, root_cells())
    }
}

/// Byte `i` of the image of the words: the words one after the other, each
/// as four bytes in little-endian order.
pub open spec fn image_byte(words: Seq<u32>, i: int) -> u8 {
    let w = words[i / 4];
    if i % 4 == 0 {
        (w & 0xFF) as u8
    } else if i % 4 == 1 {
        ((w >> 8) & 0xFF) as u8
    } else if i % 4 == 2 {
        ((w >> 16) & 0xFF) as u8
    } else {
        ((w >> 24) & 0xFF) as u8
    }
}

/// The image of the words.
pub open spec fn bytes_of(words: Seq<u32>) -> Seq<u8> {
    Seq::new(4 * words.len(), |i: int| image_byte(words, i))
}

/// The image spells out the words, four bytes each.
pub open spec fn image_of(image: Seq<u8>, words: Seq<u32>) -> bool {
    &&& image.len() == 4 * words.len()
    &&& forall|x: int| 0 <= x < words.len() ==> #[trigger] unit_at(image, x) == Some(words[x])
}

/// The image that is built of the keyset: the image of the cells of its
/// trie. There is none where the keyset is not valid, and none where the
/// array would outgrow its limit.
pub open spec fn built_image(keys: Keys) -> Option<Seq<u8>> {
    if !valid_keyset(keys) {
        None
    } else {
        match built_cells(keys) {
            Some(cs) => Some(bytes_of(cs.words)),
            None => None,
        }
    }
}

} // verus!
