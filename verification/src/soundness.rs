//! Why the image that is built of a valid keyset answers every search as
//! the keyset does: each step of the build keeps the trie laid out in the
//! cells, and at the end the whole trie is laid out.

use crate::block::{absolute, lemma_absolute, MAX_BLOCKS};
use crate::keyset::{has_prefix, is_key, is_key_prefix, valid_keyset, Keys};
use crate::layout::{
    child_cell, complete, laid_out, laid_out_but, layout_expanded, layout_with_leaf,
    layout_with_node, lemma_complete_layout_holds_keys, lemma_empty_image_holds_no_keys,
    lemma_expanded_laid_out, lemma_grown_laid_out, lemma_laid_out_cells, lemma_leaf_placed_laid_out,
    lemma_node_placed_laid_out, lemma_nothing_left, lemma_root_laid_out, root_layout, Layout,
};
use crate::model::{
    block_count, built_below, built_cells, built_children, built_image, bytes_of, cells_candidates,
    cells_expanded, cells_find, cells_fit, chosen, expanded_and_placed, expanded_word, first_free,
    grown, image_byte, image_of, levels, placed_upto, root_cells, value_of_runs, window_start,
    Cells,
};
use crate::runs::{
    grouped, is_range, label_set, labels_of, lemma_label_set_step, lemma_labels_of_range,
    lemma_run_is_range, lemma_runs_of_range, prefix_of, runs_of,
};
use crate::unit::{offset_fits, word_offset};
use crate::{holds_keys, unit_at};
use vstd::prelude::*;

verus! {

/// A label moves a cell index within its block, and two labels move it to
/// two cells.
pub proof fn lemma_child_cells(offset: u32, a: u8, b: u8)
    by (bit_vector)
    ensures
        (offset ^ (a as u32)) / 256u32 == offset / 256u32,
        (offset ^ (a as u32)) == (offset ^ (b as u32)) ==> a == b,
        offset ^ 0u32 == offset,
        0u8 ^ a == a,
{
}

/// Within its block a label moves a cell index as it moves the cell.
pub proof fn lemma_child_cell_in_block(offset: u32, a: u8)
    by (bit_vector)
    ensures
        (offset ^ (a as u32)) % 256u32 == (((offset % 256u32) as u8) ^ a) as u32,
{
}

/// A word is spelled by its four bytes in little-endian order.
pub proof fn lemma_word_bytes(w: u32)
    by (bit_vector)
    ensures
        ((w & 0xFF) as u8 as u32) | (((w >> 8) & 0xFF) as u8 as u32) << 8 | (((w >> 16)
            & 0xFF) as u8 as u32) << 16 | (((w >> 24) & 0xFF) as u8 as u32) << 24 == w,
        w & 0xFF < 256,
        (w >> 8) & 0xFF < 256,
        (w >> 16) & 0xFF < 256,
        (w >> 24) & 0xFF < 256,
{
}

/// The cells of the children that were placed for the first `upto` labels,
/// not counting the leaf.
pub open spec fn kid_cells(offset: u32, labels: Seq<u8>, upto: int) -> Set<int>
    decreases upto,
{
    if upto <= 0 {
        Set::empty()
    } else {
        let rest = kid_cells(offset, labels, upto - 1);
        if labels[upto - 1] != 0 {
            rest.insert((offset ^ (labels[upto - 1] as u32)) as int)
        } else {
            rest
        }
    }
}

/// The layout `after` has the nodes of `before` and more, and in it the
/// node in cell `unit_id` and all new nodes are expanded, and no other node
/// that was not.
pub open spec fn grows(before: Layout, after: Layout, unit_id: int) -> bool {
    &&& forall|x: int| #[trigger]
        before.nodes.contains_key(x) ==> after.nodes.contains_key(x) && after.nodes[x]
            == before.nodes[x]
    &&& after.expanded == before.expanded.insert(unit_id).union(
        after.nodes.dom().difference(before.nodes.dom()),
    )
}

/// The cell of a label that is not among the first `upto` is not among the
/// cells of their children.
pub proof fn lemma_not_kid(offset: u32, labels: Seq<u8>, upto: int, c: u8)
    requires
        0 <= upto <= labels.len(),
        forall|m: int| 0 <= m < upto ==> labels[m] != c,
    ensures
        !kid_cells(offset, labels, upto).contains((offset ^ (c as u32)) as int),
    decreases upto,
{
    if upto > 0 {
        lemma_not_kid(offset, labels, upto - 1, c);
        lemma_child_cells(offset, labels[upto - 1], c);
    }
}

/// The cell of a label among the first `upto`, other than the terminator, is
/// among the cells of their children.
pub proof fn lemma_is_kid(offset: u32, labels: Seq<u8>, upto: int, m: int)
    requires
        0 <= m < upto <= labels.len(),
        labels[m] != 0,
    ensures
        kid_cells(offset, labels, upto).contains((offset ^ (labels[m] as u32)) as int),
    decreases upto,
{
    if m < upto - 1 {
        lemma_is_kid(offset, labels, upto - 1, m);
    }
}

/// Every candidate in the cells of a block is an offset at which the labels
/// fit.
pub proof fn lemma_cells_candidates_fit(cs: Cells, id: int, labels: Seq<u8>, from: int, k: int)
    requires
        0 <= k < cells_candidates(cs, id, labels, from).len(),
    ensures
        cells_fit(cs, id, labels, cells_candidates(cs, id, labels, from)[k]),
    decreases 256 - from,
{
    if from < 0 || from >= 256 || labels.len() == 0 {
    } else {
        let offset = (from as u8) ^ labels[0];
        if !cs.used[id * 256 + from] && cells_fit(cs, id, labels, offset) {
            if k > 0 {
                lemma_cells_candidates_fit(cs, id, labels, from + 1, k - 1);
            }
        } else {
            lemma_cells_candidates_fit(cs, id, labels, from + 1, k);
        }
    }
}

/// The first free candidate is one of the candidates, and was not given to
/// a node yet.
pub proof fn lemma_first_free_member(candidates: Seq<u8>, id: usize, offsets: Set<u32>) -> (k: int)
    requires
        first_free(candidates, id, offsets) is Some,
    ensures
        0 <= k < candidates.len(),
        first_free(candidates, id, offsets) == Some(absolute(id, candidates[k])),
        !offsets.contains(absolute(id, candidates[k])),
    decreases candidates.len(),
{
    if !offsets.contains(absolute(id, candidates[0])) {
        0
    } else {
        let k = lemma_first_free_member(candidates.skip(1), id, offsets);
        assert(candidates.skip(1)[k] == candidates[k + 1]);
        k + 1
    }
}

/// The offset that is found for the labels can be stored in a unit and was
/// not given to a node yet, and the cells that it and the labels name lie
/// in one block of the array and are unused.
pub proof fn lemma_found_fits(cs: Cells, labels: Seq<u8>, from: int)
    requires
        0 <= from,
        block_count(cs) <= MAX_BLOCKS,
        cells_find(cs, labels, from) is Some,
    ensures
        ({
            let offset = cells_find(cs, labels, from).unwrap();
            &&& offset_fits(offset)
            &&& !cs.offsets.contains(offset)
            &&& offset / 256 < block_count(cs)
            &&& forall|m: int|
                0 <= m < labels.len() ==> 0 <= (offset ^ (#[trigger] labels[m] as u32))
                    < cs.used.len() && !cs.used[(offset ^ (labels[m] as u32)) as int]
        }),
    decreases block_count(cs) - from,
{
    let candidates = cells_candidates(cs, from, labels, 0);
    if first_free(candidates, from as usize, cs.offsets) is Some {
        let k = lemma_first_free_member(candidates, from as usize, cs.offsets);
        let cell = candidates[k];
        let offset = absolute(from as usize, cell);
        lemma_cells_candidates_fit(cs, from, labels, 0, k);
        lemma_absolute(from as u32, cell, 0);
        assert forall|m: int| 0 <= m < labels.len() implies 0 <= (offset ^ (
        #[trigger] labels[m] as u32)) < cs.used.len() && !cs.used[(offset ^ (
        labels[m] as u32)) as int] by {
            lemma_absolute(from as u32, cell, labels[m]);
            lemma_absolute(from as u32, cell ^ labels[m], 0);
            assert((offset ^ (labels[m] as u32)) == from * 256 + (cell ^ labels[m]));
        }
    } else {
        lemma_found_fits(cs, labels, from + 1);
    }
}

/// What holds before the children of a node are placed: the trie is laid
/// out, the node is placed and not expanded, the offset is new and can be
/// stored, the cells of all labels are unused, and the labels are those
/// with which the keys below the node go on.
pub open spec fn ready_to_place(
    cs: Cells,
    lay0: Layout,
    keys: Keys,
    unit_id: int,
    offset: u32,
    labels: Seq<u8>,
    first: int,
    value: Option<u32>,
) -> bool {
    let prefix = lay0.nodes[unit_id];
    &&& laid_out(cs, lay0, keys)
    &&& lay0.nodes.contains_key(unit_id)
    &&& !lay0.expanded.contains(unit_id)
    &&& labels.len() > 0
    &&& offset < cs.used.len()
    &&& !cs.offsets.contains(offset)
    &&& offset_fits(offset)
    &&& forall|m: int|
        0 <= m < labels.len() ==> 0 <= (offset ^ (#[trigger] labels[m] as u32)) < cs.used.len()
            && !cs.used[(offset ^ (labels[m] as u32)) as int]
    &&& forall|k1: int, k2: int| 0 <= k1 < k2 < labels.len() ==> labels[k1] < labels[k2]
    &&& labels[0] == 0 <==> is_key(keys, prefix)
    &&& labels[0] == 0 ==> 0 <= first < keys.len() && keys[first].0 == prefix && value == Some(
        keys[first].1,
    )
    &&& forall|c: u8|
        c != 0 && is_key_prefix(keys, #[trigger] prefix.push(c)) ==> label_set(labels, 0).contains(
            c,
        )
    &&& forall|m: int|
        0 <= m < labels.len() && labels[m] != 0 ==> is_key_prefix(
            keys,
            prefix.push(#[trigger] labels[m]),
        )
}

/// What holds after the children by the first `upto` labels were placed.
pub open spec fn placed_so_far(
    cs: Cells,
    lay0: Layout,
    keys: Keys,
    unit_id: int,
    offset: u32,
    labels: Seq<u8>,
    first: int,
    value: Option<u32>,
    upto: int,
    lay: Layout,
) -> bool {
    let prefix = lay0.nodes[unit_id];
    let now = placed_upto(
        cells_expanded(cs, unit_id, expanded_word(cs.words[unit_id], offset, labels[0] == 0)),
        offset,
        labels,
        value,
        upto,
    );
    &&& laid_out_but(now, lay, keys, unit_id, label_set(labels, upto))
    &&& now.used.len() == cs.used.len()
    &&& lay.expanded == lay0.expanded.insert(unit_id)
    &&& lay.nodes[unit_id] == prefix
    &&& word_offset(now.words[unit_id]) == offset
    &&& forall|x: int| #[trigger]
        lay0.nodes.contains_key(x) ==> lay.nodes.contains_key(x) && lay.nodes[x] == lay0.nodes[x]
    &&& lay.nodes.dom() == lay0.nodes.dom().union(kid_cells(offset, labels, upto))
    &&& forall|x: int| kid_cells(offset, labels, upto).contains(x) ==> !lay0.nodes.contains_key(x)
    &&& forall|m: int|
        upto <= m < labels.len() ==> !now.used[(offset ^ (#[trigger] labels[m] as u32)) as int]
    &&& forall|m: int|
        0 <= m < upto && labels[m] != 0 ==> lay.nodes.contains_key(
            (offset ^ (#[trigger] labels[m] as u32)) as int,
        ) && lay.nodes[(offset ^ (labels[m] as u32)) as int] == prefix.push(labels[m])
}

/// Expanding a node and placing its children one by one keeps the trie laid
/// out, but for the children that are yet to be placed.
pub proof fn lemma_placed_sound(
    cs: Cells,
    lay0: Layout,
    keys: Keys,
    unit_id: int,
    offset: u32,
    labels: Seq<u8>,
    first: int,
    value: Option<u32>,
    upto: int,
) -> (lay: Layout)
    requires
        ready_to_place(cs, lay0, keys, unit_id, offset, labels, first, value),
        0 <= upto <= labels.len(),
    ensures
        placed_so_far(cs, lay0, keys, unit_id, offset, labels, first, value, upto, lay),
    decreases upto,
{
    let has_leaf = labels[0] == 0;
    let word = expanded_word(cs.words[unit_id], offset, has_leaf);
    let expanded = cells_expanded(cs, unit_id, word);
    if upto == 0 {
        let lay = layout_expanded(lay0, unit_id);
        assert(label_set(labels, 0).contains(labels[0]));
        lemma_expanded_laid_out(cs, lay0, keys, unit_id, offset, has_leaf, label_set(labels, 0));
        lemma_laid_out_cells(cs, lay0, keys, 0, Set::empty());
        assert(lay.nodes.dom() =~= lay0.nodes.dom().union(kid_cells(offset, labels, 0)));
        lay
    } else {
        let k = upto - 1;
        let before = lemma_placed_sound(cs, lay0, keys, unit_id, offset, labels, first, value, k);
        let then = placed_upto(expanded, offset, labels, value, k);
        let now = placed_upto(expanded, offset, labels, value, upto);
        let label = labels[k];
        let child = (offset ^ (label as u32)) as int;
        let todo = label_set(labels, k);
        lemma_child_cells(offset, label, 0);
        lemma_laid_out_cells(then, before, keys, unit_id, todo);
        lemma_laid_out_cells(cs, lay0, keys, 0, Set::empty());
        if k > 0 {
            assert(labels[0] < labels[k]);
        }
        assert(child_cell(then, unit_id, label) == child);
        assert(before.expanded.contains(unit_id));
        assert(before.nodes.contains_key(unit_id));
        assert(unit_id != child);
        assert(!before.nodes.contains_key(child));
        lemma_label_set_step(labels, k);
        let lay = if label == 0 {
            lemma_leaf_placed_laid_out(then, before, keys, unit_id, todo, first);
            layout_with_leaf(before, child, first)
        } else {
            lemma_node_placed_laid_out(then, before, keys, unit_id, todo, label);
            assert(!lay0.nodes.contains_key(child));
            layout_with_node(before, unit_id, child, label)
        };
        assert(lay.nodes.dom() =~= lay0.nodes.dom().union(kid_cells(offset, labels, upto)));
        assert forall|m: int| upto <= m < labels.len() implies !now.used[(offset ^ (
        #[trigger] labels[m] as u32)) as int] by {
            lemma_child_cells(offset, labels[m], label);
            assert(labels[k] < labels[m]);
            assert(!then.used[(offset ^ (labels[m] as u32)) as int]);
        }
        lay
    }
}

/// What holds of a node before the part of the trie below it is built: the
/// trie is laid out as far as it was built, the node is placed and not
/// expanded, and it stands for the prefix of its range of keys.
pub open spec fn ready_to_build(
    keys: Keys,
    depth: int,
    begin: int,
    end: int,
    unit_id: int,
    cs: Cells,
    lay0: Layout,
) -> bool {
    &&& valid_keyset(keys)
    &&& keys.len() <= usize::MAX
    &&& is_range(keys, depth, begin, end)
    &&& block_count(cs) <= MAX_BLOCKS
    &&& laid_out(cs, lay0, keys)
    &&& lay0.nodes.contains_key(unit_id)
    &&& lay0.nodes[unit_id] == prefix_of(keys, begin, depth)
    &&& !lay0.expanded.contains(unit_id)
}

/// The offset that is chosen for the labels is new and can be stored, the
/// cells that it and the labels name are unused, and the cells it is chosen
/// in hold the trie as before.
pub proof fn lemma_chosen_sound(cs: Cells, lay: Layout, keys: Keys, labels: Seq<u8>)
    requires
        laid_out(cs, lay, keys),
        block_count(cs) <= MAX_BLOCKS,
        chosen(cs, labels) is Some,
    ensures
        ({
            let (cs1, offset) = chosen(cs, labels).unwrap();
            &&& laid_out(cs1, lay, keys)
            &&& block_count(cs) <= block_count(cs1) <= MAX_BLOCKS
            &&& offset_fits(offset)
            &&& !cs1.offsets.contains(offset)
            &&& offset < cs1.used.len()
            &&& forall|m: int|
                0 <= m < labels.len() ==> 0 <= (offset ^ (#[trigger] labels[m] as u32))
                    < cs1.used.len() && !cs1.used[(offset ^ (labels[m] as u32)) as int]
        }),
{
    let start = window_start(block_count(cs));
    if cells_find(cs, labels, start) is Some {
        lemma_found_fits(cs, labels, start);
    } else {
        let more = grown(cs);
        lemma_laid_out_cells(cs, lay, keys, 0, Set::empty());
        lemma_grown_laid_out(cs, more, lay, keys);
        assert(block_count(more) == block_count(cs) + 1);
        lemma_found_fits(more, labels, window_start(block_count(cs) + 1));
    }
}

/// Building the part of the trie below a placed node leaves the trie laid
/// out, with that node and all nodes below it expanded.
pub proof fn lemma_built_below_sound(
    keys: Keys,
    fuel: nat,
    depth: int,
    begin: int,
    end: int,
    unit_id: int,
    cs: Cells,
    lay0: Layout,
) -> (lay: Layout)
    requires
        ready_to_build(keys, depth, begin, end, unit_id, cs, lay0),
        built_below(keys, fuel, depth, begin, end, unit_id, cs) is Some,
    ensures
        laid_out(built_below(keys, fuel, depth, begin, end, unit_id, cs).unwrap(), lay, keys),
        grows(lay0, lay, unit_id),
        block_count(built_below(keys, fuel, depth, begin, end, unit_id, cs).unwrap())
            <= MAX_BLOCKS,
    decreases fuel, 1int, 0int,
{
    let prefix = prefix_of(keys, begin, depth);
    let runs = runs_of(keys, depth, begin, end);
    let labels = labels_of(runs);
    lemma_runs_of_range(keys, depth, begin, end);
    lemma_labels_of_range(keys, depth, begin, end, runs);
    lemma_chosen_sound(cs, lay0, keys, labels);
    let (cs1, offset) = chosen(cs, labels).unwrap();
    assert forall|m: int| 0 <= m < labels.len() && labels[m] != 0 implies is_key_prefix(
        keys,
        prefix.push(#[trigger] labels[m]),
    ) by {
        lemma_run_is_range(keys, depth, begin, end, runs, m);
    }
    assert forall|k1: int, k2: int| 0 <= k1 < k2 < labels.len() implies labels[k1]
        < labels[k2] by {
        assert(runs[k1].0 < runs[k2].0);
    }
    let value = value_of_runs(keys, begin, runs);
    assert(ready_to_place(cs1, lay0, keys, unit_id, offset, labels, begin, value));
    let lay1 = lemma_placed_sound(
        cs1,
        lay0,
        keys,
        unit_id,
        offset,
        labels,
        begin,
        value,
        labels.len() as int,
    );
    let cs2 = expanded_and_placed(cs1, unit_id, offset, labels, value);
    lemma_label_set_step(labels, labels.len() as int);
    lemma_nothing_left(cs2, lay1, keys, unit_id, label_set(labels, labels.len() as int));
    lemma_laid_out_cells(cs, lay0, keys, 0, Set::empty());
    assert(lay1.expanded =~= lay1.expanded.union(
        lay1.nodes.dom().difference(lay1.nodes.dom()),
    ).union(kid_cells(offset, labels, 0)));
    let lay = lemma_built_children_sound(
        keys,
        fuel,
        depth,
        begin,
        end,
        unit_id,
        runs,
        0,
        offset,
        cs2,
        lay0,
        lay1,
        lay1,
    );
    let kids = kid_cells(offset, labels, labels.len() as int);
    let target = lay0.expanded.insert(unit_id).union(lay.nodes.dom().difference(lay0.nodes.dom()));
    assert forall|x: int| lay.expanded.contains(x) == target.contains(x) by {
        if kids.contains(x) {
            assert(lay1.nodes.dom().contains(x));
            assert(lay1.nodes.contains_key(x));
            assert(lay.nodes.contains_key(x));
        }
        if lay.nodes.contains_key(x) && !lay0.nodes.contains_key(x) {
            if lay1.nodes.contains_key(x) {
                assert(lay1.nodes.dom().contains(x));
                assert(kids.contains(x));
            }
        }
        if lay0.nodes.contains_key(x) {
            assert(lay1.nodes.contains_key(x));
        }
    }
    assert(lay.expanded =~= target);
    lay
}

/// What holds between the builds below two children of a node: the trie is
/// laid out, the children that were placed are there, and of the new nodes
/// those are expanded that lie below the children that were built.
pub open spec fn between_children(
    keys: Keys,
    depth: int,
    begin: int,
    end: int,
    unit_id: int,
    runs: Seq<(u8, usize, usize)>,
    k: int,
    offset: u32,
    cs: Cells,
    lay0: Layout,
    lay1: Layout,
    lay: Layout,
) -> bool {
    let labels = labels_of(runs);
    let prefix = prefix_of(keys, begin, depth);
    let kids = kid_cells(offset, labels, labels.len() as int);
    &&& valid_keyset(keys)
    &&& keys.len() <= usize::MAX
    &&& is_range(keys, depth, begin, end)
    &&& grouped(keys, depth, begin, end, runs)
    &&& 0 <= k <= runs.len()
    &&& block_count(cs) <= MAX_BLOCKS
    &&& lay0.nodes.contains_key(unit_id)
    &&& forall|x: int| #[trigger] lay0.expanded.contains(x) ==> lay0.nodes.contains_key(x)
    &&& lay1.expanded == lay0.expanded.insert(unit_id)
    &&& forall|x: int| #[trigger]
        lay0.nodes.contains_key(x) ==> lay1.nodes.contains_key(x) && lay1.nodes[x]
            == lay0.nodes[x]
    &&& lay1.nodes.dom() == lay0.nodes.dom().union(kids)
    &&& forall|x: int| kids.contains(x) ==> !lay0.nodes.contains_key(x)
    &&& forall|m: int|
        0 <= m < labels.len() && labels[m] != 0 ==> lay1.nodes.contains_key(
            (offset ^ (#[trigger] labels[m] as u32)) as int,
        ) && lay1.nodes[(offset ^ (labels[m] as u32)) as int] == prefix.push(labels[m])
    &&& laid_out(cs, lay, keys)
    &&& forall|x: int| #[trigger]
        lay1.nodes.contains_key(x) ==> lay.nodes.contains_key(x) && lay.nodes[x] == lay1.nodes[x]
    &&& lay.expanded == lay1.expanded.union(lay.nodes.dom().difference(lay1.nodes.dom())).union(
        kid_cells(offset, labels, k),
    )
}

/// Building the parts of the trie below the children of a node, one after
/// the other, leaves the trie laid out, with all children and all nodes
/// below them expanded.
pub proof fn lemma_built_children_sound(
    keys: Keys,
    fuel: nat,
    depth: int,
    begin: int,
    end: int,
    unit_id: int,
    runs: Seq<(u8, usize, usize)>,
    k: int,
    offset: u32,
    cs: Cells,
    lay0: Layout,
    lay1: Layout,
    lay: Layout,
) -> (last: Layout)
    requires
        between_children(keys, depth, begin, end, unit_id, runs, k, offset, cs, lay0, lay1, lay),
        built_children(keys, fuel, depth, runs, k, offset, cs) is Some,
    ensures
        between_children(
            keys,
            depth,
            begin,
            end,
            unit_id,
            runs,
            runs.len() as int,
            offset,
            built_children(keys, fuel, depth, runs, k, offset, cs).unwrap(),
            lay0,
            lay1,
            last,
        ),
    decreases fuel, 0int, runs.len() - k,
{
    let labels = labels_of(runs);
    if k >= runs.len() {
        lay
    } else if runs[k].0 == 0 {
        assert(labels[k] == 0);
        lemma_built_children_sound(
            keys,
            fuel,
            depth,
            begin,
            end,
            unit_id,
            runs,
            k + 1,
            offset,
            cs,
            lay0,
            lay1,
            lay,
        )
    } else {
        let label = runs[k].0;
        let child = (offset ^ (label as u32)) as int;
        let kids = kid_cells(offset, labels, labels.len() as int);
        assert(labels[k] == label);
        lemma_run_is_range(keys, depth, begin, end, runs, k);
        assert forall|m: int| 0 <= m < k implies labels[m] != label by {
            assert(runs[m].0 < runs[k].0);
        }
        lemma_not_kid(offset, labels, k, label);
        lemma_is_kid(offset, labels, labels.len() as int, k);
        assert(kids.contains(child));
        assert(lay1.nodes.contains_key(child));
        assert(!lay0.nodes.contains_key(child));
        assert(!lay.expanded.contains(child));
        let next = lemma_built_below_sound(
            keys,
            (fuel - 1) as nat,
            depth + 1,
            runs[k].1 as int,
            runs[k].2 as int,
            child,
            cs,
            lay,
        );
        let built = built_below(
            keys,
            (fuel - 1) as nat,
            depth + 1,
            runs[k].1 as int,
            runs[k].2 as int,
            child,
            cs,
        ).unwrap();
        assert(next.expanded =~= lay1.expanded.union(
            next.nodes.dom().difference(lay1.nodes.dom()),
        ).union(kid_cells(offset, labels, k + 1)));
        lemma_built_children_sound(
            keys,
            fuel,
            depth,
            begin,
            end,
            unit_id,
            runs,
            k + 1,
            offset,
            built,
            lay0,
            lay1,
            next,
        )
    }
}

/// The image of words spells out the words.
pub proof fn lemma_bytes_of_words(words: Seq<u32>)
    ensures
        image_of(bytes_of(words), words),
{
    let image = bytes_of(words);
    assert forall|x: int| 0 <= x < words.len() implies #[trigger] unit_at(image, x) == Some(
        words[x],
    ) by {
        lemma_word_bytes(words[x]);
        assert((4 * x) / 4 == x && (4 * x) % 4 == 0);
        assert((4 * x + 1) / 4 == x && (4 * x + 1) % 4 == 1);
        assert((4 * x + 2) / 4 == x && (4 * x + 2) % 4 == 2);
        assert((4 * x + 3) / 4 == x && (4 * x + 3) % 4 == 3);
        assert(image[4 * x] == image_byte(words, 4 * x));
        assert(image[4 * x + 1] == image_byte(words, 4 * x + 1));
        assert(image[4 * x + 2] == image_byte(words, 4 * x + 2));
        assert(image[4 * x + 3] == image_byte(words, 4 * x + 3));
    }
}

/// The image that is built of a valid keyset answers every search for a
/// string without the byte 0 as the keyset does. The keyset is one that a
/// slice can hold.
pub proof fn theorem_built_image_holds_keys(keys: Keys)
    requires
        built_image(keys) is Some,
        keys.len() <= usize::MAX,
    ensures
        valid_keyset(keys),
        holds_keys(built_image(keys).unwrap(), keys),
{
    let cs = built_cells(keys).unwrap();
    let image = bytes_of(cs.words);
    lemma_bytes_of_words(cs.words);
    if keys.len() == 0 {
        lemma_empty_image_holds_no_keys(image, cs.words, keys);
    } else {
        let root = root_cells();
        lemma_root_laid_out(root, keys);
        assert forall|i: int| 0 <= i < keys.len() implies has_prefix(
            (#[trigger] keys[i]).0,
            prefix_of(keys, 0, 0),
        ) by {
            assert(keys[i].0.subrange(0, 0) =~= prefix_of(keys, 0, 0));
        }
        assert(prefix_of(keys, 0, 0) =~= root_layout().nodes[0]);
        let lay = lemma_built_below_sound(
            keys,
            levels(keys, 0),
            0,
            0,
            keys.len() as int,
            0,
            root,
            root_layout(),
        );
        assert(complete(lay)) by {
            assert forall|x: int| #[trigger] lay.nodes.contains_key(x) implies lay.expanded.contains(
                x,
            ) by {
                if x != 0 {
                    assert(lay.nodes.dom().difference(root_layout().nodes.dom()).contains(x));
                }
            }
        }
        lemma_complete_layout_holds_keys(image, cs, lay, keys);
    }
}

} // verus!
