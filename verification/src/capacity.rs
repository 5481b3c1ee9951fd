//! Why no keyset of at most 2^21 - 2 bytes outgrows the array: a node
//! that finds no offset in the last blocks finds one in a block of its own,
//! so that the array grows by one block for each node at most, and a trie
//! has no more nodes than its keys have bytes, and the root.

use crate::block::{lemma_absolute, MAX_BLOCKS};
use crate::keyset::{has_prefix, span, total_len, valid_keyset, Keys};
use crate::model::{
    block_count, built_below, built_children, built_image, cells_candidates, cells_expanded,
    cells_find, cells_fit, chosen, expanded_and_placed, expanded_word, grown, lemma_cells_find_some,
    lemma_first_free_some, lemma_longest, levels, placed_upto, root_cells, value_of_runs,
    window_start, Cells,
};
use crate::runs::{
    grouped, is_range, labels_of, lemma_run_is_range, lemma_runs_of_range, lemma_span_nonnegative,
    lemma_span_of_runs, prefix_of, runs_of,
};
use crate::soundness::{lemma_child_cells, lemma_found_fits};
use crate::unit::{lemma_offset_roundtrip_of_expanded, offset_fits};
use vstd::prelude::*;

verus! {

/// The cells make up whole blocks, and every offset given out lies within
/// them.
pub open spec fn whole_blocks(cs: Cells) -> bool {
    &&& cs.used.len() == cs.words.len()
    &&& cs.used.len() == 256 * block_count(cs)
    &&& block_count(cs) <= MAX_BLOCKS
    &&& forall|offset: u32| #[trigger] cs.offsets.contains(offset) ==> offset < cs.used.len()
}

/// Every offset at which the labels fit into the cells of a block, and
/// whose cell for the first label is at `from` or above, is among the
/// candidates.
pub proof fn lemma_cells_candidates_complete(
    cs: Cells,
    id: int,
    labels: Seq<u8>,
    from: int,
    offset: u8,
)
    requires
        labels.len() > 0,
        0 <= id < MAX_BLOCKS,
        cells_fit(cs, id, labels, offset),
        0 <= from <= (offset ^ labels[0]),
    ensures
        cells_candidates(cs, id, labels, from).contains(offset),
    decreases 256 - from,
{
    let cell = offset ^ labels[0];
    lemma_absolute(id as u32, offset, labels[0]);
    lemma_absolute(id as u32, from as u8, labels[0]);
    let rest = cells_candidates(cs, id, labels, from + 1);
    if from == cell {
        assert(((from as u8) ^ labels[0]) == offset);
        assert(!cs.used[id * 256 + (offset ^ labels[0])]);
        assert((seq![offset] + rest)[0] == offset);
    } else {
        lemma_cells_candidates_complete(cs, id, labels, from + 1, offset);
        let at = choose|k: int| 0 <= k < rest.len() && rest[k] == offset;
        let here = (from as u8) ^ labels[0];
        if !cs.used[id * 256 + from] && cells_fit(cs, id, labels, here) {
            assert((seq![here] + rest)[at + 1] == offset);
        }
    }
}

/// With one block more, an offset is found for any labels.
pub proof fn lemma_grown_has_room(cs: Cells, labels: Seq<u8>)
    requires
        whole_blocks(cs),
        block_count(cs) < MAX_BLOCKS,
        labels.len() > 0,
    ensures
        whole_blocks(grown(cs)),
        block_count(grown(cs)) == block_count(cs) + 1,
        cells_find(grown(cs), labels, window_start(block_count(cs) + 1)) is Some,
{
    let more = grown(cs);
    let last = block_count(cs);
    lemma_absolute(last as u32, 0, 0);
    assert forall|k: int| 0 <= k < labels.len() implies !more.used[last * 256 + (0u8
        ^ #[trigger] labels[k])] by {
        lemma_child_cells(0, labels[k], 0);
    }
    assert(cells_fit(more, last, labels, 0));
    lemma_child_cells(0, labels[0], 0);
    lemma_cells_candidates_complete(more, last, labels, 0, 0);
    let candidates = cells_candidates(more, last, labels, 0);
    let k = choose|k: int| 0 <= k < candidates.len() && candidates[k] == 0;
    lemma_first_free_some(candidates, last as usize, more.offsets, k);
    lemma_cells_find_some(more, labels, window_start(last + 1), last);
}

/// An offset is chosen wherever a block can still be appended, in whole
/// blocks, of which there is at most one more than before.
pub proof fn lemma_chosen_exists(cs: Cells, labels: Seq<u8>)
    requires
        whole_blocks(cs),
        block_count(cs) < MAX_BLOCKS,
        labels.len() > 0,
    ensures
        chosen(cs, labels) is Some,
        whole_blocks(chosen(cs, labels).unwrap().0),
        block_count(cs) <= block_count(chosen(cs, labels).unwrap().0) <= block_count(cs) + 1,
        ({
            let (cs1, offset) = chosen(cs, labels).unwrap();
            &&& offset_fits(offset)
            &&& offset < cs1.used.len()
            &&& forall|m: int|
                0 <= m < labels.len() ==> 0 <= (offset ^ (#[trigger] labels[m] as u32))
                    < cs1.used.len()
        }),
{
    if cells_find(cs, labels, window_start(block_count(cs))) is Some {
        lemma_found_fits(cs, labels, window_start(block_count(cs)));
    } else {
        lemma_grown_has_room(cs, labels);
        lemma_found_fits(grown(cs), labels, window_start(block_count(cs) + 1));
    }
}

/// Placing children changes no size, and gives out no offset.
pub proof fn lemma_placed_shape(
    cs: Cells,
    offset: u32,
    labels: Seq<u8>,
    value: Option<u32>,
    upto: int,
)
    requires
        cs.used.len() == cs.words.len(),
        0 <= upto <= labels.len(),
        forall|m: int|
            0 <= m < labels.len() ==> 0 <= (offset ^ (#[trigger] labels[m] as u32)) < cs.used.len(),
    ensures
        placed_upto(cs, offset, labels, value, upto).used.len() == cs.used.len(),
        placed_upto(cs, offset, labels, value, upto).words.len() == cs.words.len(),
        placed_upto(cs, offset, labels, value, upto).offsets == cs.offsets,
    decreases upto,
{
    if upto > 0 {
        lemma_placed_shape(cs, offset, labels, value, upto - 1);
    }
}

/// What holds of a range of keys whose part of the trie is to be built in
/// cells that have room for it: one block for the node of the range, and
/// one for each byte that its keys have beyond the node.
pub open spec fn has_room(keys: Keys, depth: int, begin: int, end: int, cs: Cells) -> bool {
    &&& valid_keyset(keys)
    &&& keys.len() <= usize::MAX
    &&& is_range(keys, depth, begin, end)
    &&& whole_blocks(cs)
    &&& block_count(cs) + 1 + span(keys, begin, end, depth) <= MAX_BLOCKS
}

/// The part of the trie below a node is built wherever the cells have room
/// for it, and takes no more blocks than one for the node and one for each
/// byte that its keys have beyond the node.
pub proof fn lemma_built_below_exists(
    keys: Keys,
    depth: int,
    begin: int,
    end: int,
    unit_id: int,
    cs: Cells,
)
    requires
        has_room(keys, depth, begin, end, cs),
        0 <= unit_id < cs.used.len(),
    ensures
        built_below(keys, levels(keys, depth), depth, begin, end, unit_id, cs) is Some,
        block_count(cs) <= block_count(
            built_below(keys, levels(keys, depth), depth, begin, end, unit_id, cs).unwrap(),
        ),
        whole_blocks(
            built_below(keys, levels(keys, depth), depth, begin, end, unit_id, cs).unwrap(),
        ),
        block_count(
            built_below(keys, levels(keys, depth), depth, begin, end, unit_id, cs).unwrap(),
        ) <= block_count(cs) + 1 + span(keys, begin, end, depth),
    decreases levels(keys, depth), 1int, 0int,
{
    let runs = runs_of(keys, depth, begin, end);
    let labels = labels_of(runs);
    lemma_longest(keys, begin);
    lemma_runs_of_range(keys, depth, begin, end);
    lemma_span_nonnegative(keys, depth, begin, end, begin, end);
    lemma_chosen_exists(cs, labels);
    let (cs1, offset) = chosen(cs, labels).unwrap();
    let value = value_of_runs(keys, begin, runs);
    let cs2 = expanded_and_placed(cs1, unit_id, offset, labels, value);
    lemma_placed_shape(
        cells_expanded(
            cs1,
            unit_id,
            expanded_word(cs1.words[unit_id], offset, labels[0] == 0),
        ),
        offset,
        labels,
        value,
        labels.len() as int,
    );
    lemma_offset_roundtrip_of_expanded(cs1.words[unit_id], offset, labels[0] == 0);
    assert(whole_blocks(cs2)) by {
        assert(cs2.used.len() == cs1.used.len());
        assert(block_count(cs2) == block_count(cs1));
    }
    assert forall|m: int| 0 <= m < runs.len() implies 0 <= (offset ^ ((#[trigger] runs[m]).0 as u32))
        < cs2.used.len() by {
        assert(labels[m] == runs[m].0);
    }
    lemma_built_children_exist(keys, depth, begin, end, runs, 0, offset, cs2, block_count(cs));
}

/// The parts of the trie below the children of a node are built wherever
/// the cells have room for them.
pub proof fn lemma_built_children_exist(
    keys: Keys,
    depth: int,
    begin: int,
    end: int,
    runs: Seq<(u8, usize, usize)>,
    k: int,
    offset: u32,
    cs: Cells,
    blocks_before: int,
)
    requires
        valid_keyset(keys),
        keys.len() <= usize::MAX,
        is_range(keys, depth, begin, end),
        grouped(keys, depth, begin, end, runs),
        0 <= k <= runs.len(),
        whole_blocks(cs),
        forall|m: int|
            0 <= m < runs.len() ==> 0 <= (offset ^ ((#[trigger] runs[m]).0 as u32)) < cs.used.len(),
        blocks_before + 1 + span(keys, begin, end, depth) <= MAX_BLOCKS,
        block_count(cs) + span(
            keys,
            if k < runs.len() {
                runs[k].1 as int
            } else {
                end
            },
            end,
            depth,
        ) <= blocks_before + 1 + span(keys, begin, end, depth),
    ensures
        built_children(keys, levels(keys, depth), depth, runs, k, offset, cs) is Some,
        block_count(cs) <= block_count(
            built_children(keys, levels(keys, depth), depth, runs, k, offset, cs).unwrap(),
        ),
        whole_blocks(
            built_children(keys, levels(keys, depth), depth, runs, k, offset, cs).unwrap(),
        ),
        block_count(built_children(keys, levels(keys, depth), depth, runs, k, offset, cs).unwrap())
            <= blocks_before + 1 + span(keys, begin, end, depth),
    decreases levels(keys, depth), 0int, runs.len() - k,
{
    if k < runs.len() {
        lemma_span_of_runs(keys, depth, begin, end, runs, k);
        if k + 1 < runs.len() {
            assert(runs[k].2 == runs[k + 1].1);
        } else {
            assert(runs.last().2 == end);
        }
        lemma_longest(keys, begin);
        if runs[k].0 == 0 {
            lemma_built_children_exist(
                keys,
                depth,
                begin,
                end,
                runs,
                k + 1,
                offset,
                cs,
                blocks_before,
            );
        } else {
            let child = (offset ^ (runs[k].0 as u32)) as int;
            lemma_run_is_range(keys, depth, begin, end, runs, k);
            lemma_longest(keys, runs[k].1 as int);
            assert(levels(keys, depth + 1) == levels(keys, depth) - 1);
            lemma_built_below_exists(keys, depth + 1, runs[k].1 as int, runs[k].2 as int, child, cs);
            let next = built_below(
                keys,
                levels(keys, depth + 1),
                depth + 1,
                runs[k].1 as int,
                runs[k].2 as int,
                child,
                cs,
            ).unwrap();
            lemma_built_children_exist(
                keys,
                depth,
                begin,
                end,
                runs,
                k + 1,
                offset,
                next,
                blocks_before,
            );
        }
    }
}

/// Of every valid keyset of at most 2^21 - 2 bytes in all an image is
/// built. The keyset is one that a slice can hold.
pub proof fn theorem_small_keysets_are_built(keys: Keys)
    requires
        valid_keyset(keys),
        keys.len() <= usize::MAX,
        total_len(keys) + 2 <= MAX_BLOCKS,
    ensures
        built_image(keys) is Some,
{
    if keys.len() > 0 {
        let root = root_cells();
        assert(block_count(root) == 1);
        assert forall|i: int| 0 <= i < keys.len() implies has_prefix(
            (#[trigger] keys[i]).0,
            prefix_of(keys, 0, 0),
        ) by {
            assert(keys[i].0.subrange(0, 0) =~= prefix_of(keys, 0, 0));
        }
        lemma_built_below_exists(keys, 0, 0, keys.len() as int, 0, root);
    }
}

} // verus!
