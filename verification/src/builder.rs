//! The builder of a double-array trie.
//!
//! The builder walks a sorted keyset depth first. For each node it groups
//! the keys below the node by their next label, looks for an offset at which
//! the cells of all labels are unused, writes the offset into the node and
//! the labels into the cells of the children, and goes on with each child.
//! The cell of the terminator label holds the value of the key that ends at
//! the node. The walk is as deep as the longest key is long.
//!
//! Offsets are looked for in the last 16 blocks only; if they have none, a
//! block is appended. Two rules decide whether an offset is taken:
//!
//! * No two nodes get the same offset. A cell that carries the label `c`
//!   can then be reached by `c` from its own parent only, so that a search
//!   never mistakes the child of another node for a child of the node it
//!   stands at.
//! * Every offset can be stored in a unit: from 2^21 on its low 8 bits are
//!   zero.
//!
//! Keys are given without a terminator and hold no byte 0; the builder ends
//! each key with the terminator of its own.

pub use crate::block::{DoubleArrayBlock, FindOffset};

use crate::block::{absolute, lemma_absolute, BLOCK_SIZE, MAX_BLOCKS, NUM_TARGET_BLOCKS};
use crate::capacity::{lemma_grown_has_room, theorem_small_keysets_are_built, whole_blocks};
use crate::keyset::{has_prefix, is_valid_keyset, keys_of, span, total_len, valid_keyset};
use crate::model::{
    built_below, built_cells, built_children, built_image, bytes_of, cells_candidates,
    cells_expanded, cells_find, cells_placed, child_word, chosen, expanded_and_placed,
    expanded_word, first_free, grown, image_byte, lemma_candidates_of_block, lemma_longest, levels,
    placed_upto, root_cells, window_start, Cells,
};
use crate::runs::{
    group_labels, grouped, is_range, labels_of, lemma_run_is_range, lemma_run_span, prefix_of,
    run_labels,
};
use crate::soundness::{
    lemma_child_cell_in_block, lemma_child_cells, lemma_word_bytes, theorem_built_image_holds_keys,
};
use crate::unit::{
    lemma_has_leaf_roundtrip, lemma_label_roundtrip, lemma_offset_roundtrip, offset_fits,
    word_with_has_leaf, word_with_offset, word_with_value, Unit, UnitID, UNIT_SIZE,
};
use crate::holds_keys;
use std::collections::HashSet;
use vstd::prelude::*;

verus! {

/// The number of used cells among the first `upto`.
pub open spec fn count_used(used: Seq<bool>, upto: int) -> int
    decreases upto,
{
    if upto <= 0 {
        0
    } else {
        count_used(used, upto - 1) + if used[upto - 1] {
            1int
        } else {
            0int
        }
    }
}

/// A double-array trie builder.
pub struct DoubleArrayBuilder {
    pub blocks: Vec<DoubleArrayBlock>,
    pub used_offsets: HashSet<u32>,
}

impl DoubleArrayBuilder {
    /// The builder is well formed: it has at least one block and no more
    /// than fit, and each block is well formed and knows its index.
    pub open spec fn wf(&self) -> bool {
        &&& 1 <= self.blocks.len() <= MAX_BLOCKS
        &&& forall|i: int|
            0 <= i < self.blocks.len() ==> (#[trigger] self.blocks[i]).wf() && self.blocks[i].id
                == i
    }

    /// The cells of all blocks, one after the other.
    pub open spec fn cells(&self) -> Cells {
        Cells {
            used: Seq::new(
                (self.blocks.len() * 256) as nat,
                |x: int| self.blocks[x / 256].is_used[x % 256],
            ),
            words: Seq::new(
                (self.blocks.len() * 256) as nat,
                |x: int| self.blocks[x / 256].units[x % 256]@,
            ),
            offsets: self.used_offsets@,
        }
    }

    /// The builder is as `new` makes it: one block, nothing used, no offset
    /// given out.
    pub open spec fn is_fresh(&self) -> bool {
        &&& self.wf()
        &&& self.blocks.len() == 1
        &&& forall|i: int| 0 <= i < 256 ==> !#[trigger] self.blocks[0].is_used[i]
        &&& forall|i: int| 0 <= i < 256 ==> (#[trigger] self.blocks[0].units[i])@ == 0
        &&& self.used_offsets@ == Set::<u32>::empty()
    }

    /// The cells are tidy: an unused cell is empty, and every offset given
    /// out lies within the array.
    pub open spec fn tidy(&self) -> bool {
        &&& forall|x: int|
            0 <= x < self.blocks.len() * 256 && !#[trigger] self.cells().used[x]
                ==> self.cells().words[x] == 0
        &&& forall|offset: u32| #[trigger]
            self.used_offsets@.contains(offset) ==> offset < self.blocks.len() * 256
    }

    /// The cells of a block are the cells of the builder that its index
    /// names.
    pub proof fn lemma_cells_of_block(&self, id: int)
        requires
            self.wf(),
            0 <= id < self.blocks.len(),
        ensures
            self.blocks[id].id == id,
            forall|i: int|
                0 <= i < 256 ==> self.blocks[id].is_used[i] == #[trigger] self.cells().used[id * 256
                    + i],
            forall|i: int|
                0 <= i < 256 ==> self.blocks[id].units[i]@ == #[trigger] self.cells().words[id * 256
                    + i],
    {
        assert(self.blocks[id].wf());
        assert forall|i: int| 0 <= i < 256 implies self.blocks[id].is_used[i]
            == #[trigger] self.cells().used[id * 256 + i] && self.blocks[id].units[i]@
            == self.cells().words[id * 256 + i] by {
            assert((id * 256 + i) / 256 == id && (id * 256 + i) % 256 == i);
        }
    }

    /// Constructs a new `DoubleArrayBuilder` with one empty block.
    pub fn new() -> (builder: Self)
        ensures
            builder.is_fresh(),
    {
        let mut blocks: Vec<DoubleArrayBlock> = Vec::new();
        blocks.push(DoubleArrayBlock::new(0));
        let builder = Self { blocks, used_offsets: HashSet::new() };
        assert(builder.blocks[0].wf());
        builder
    }

    /// Returns the number of units that this builder holds.
    pub fn num_units(&self) -> (count: u32)
        requires
            self.blocks.len() <= MAX_BLOCKS,
        ensures
            count == self.blocks.len() * 256,
    {
        (self.blocks.len() * BLOCK_SIZE) as u32
    }

    /// Returns the number of used units that this builder holds.
    pub fn num_used_units(&self) -> (count: u32)
        requires
            self.blocks.len() <= MAX_BLOCKS,
        ensures
            count == count_used(self.cells().used, self.blocks.len() * 256),
    {
        let ghost used = self.cells().used;
        let mut count: u32 = 0;
        let mut i: usize = 0;
        while i < self.blocks.len()
            invariant
                i <= self.blocks.len() <= MAX_BLOCKS,
                used == self.cells().used,
                count == count_used(used, i * 256),
                count <= i * 256,
            decreases self.blocks.len() - i,
        {
            let block = &self.blocks[i];
            let mut c: usize = 0;
            while c < BLOCK_SIZE
                invariant
                    i < self.blocks.len() <= MAX_BLOCKS,
                    c <= 256,
                    block == self.blocks[i as int],
                    used == self.cells().used,
                    count == count_used(used, i * 256 + c),
                    count <= i * 256 + c,
                decreases 256 - c,
            {
                assert(used[i * 256 + c] == block.is_used[c as int]);
                if block.is_used[c] {
                    count += 1;
                }
                c += 1;
            }
            i += 1;
        }
        count
    }

    /// Appends an empty block.
    fn extend_block(&mut self)
        requires
            old(self).wf(),
            old(self).blocks.len() < MAX_BLOCKS,
        ensures
            final(self).wf(),
            final(self).blocks.len() == old(self).blocks.len() + 1,
            final(self).used_offsets == old(self).used_offsets,
            forall|i: int|
                0 <= i < old(self).blocks.len() ==> final(self).blocks[i] == old(self).blocks[i],
            forall|i: int|
                0 <= i < 256
                    ==> !#[trigger] final(self).blocks[old(self).blocks.len() as int].is_used[i],
            forall|i: int|
                0 <= i < 256
                    ==> (#[trigger] final(self).blocks[old(self).blocks.len() as int].units[i])@
                    == 0,
    {
        let block_id = self.blocks.len();
        self.blocks.push(DoubleArrayBlock::new(block_id));
        assert forall|i: int| 0 <= i < self.blocks.len() implies (#[trigger] self.blocks[i]).wf()
            && self.blocks[i].id == i by {
            if i < block_id {
                assert(self.blocks[i] == old(self).blocks[i]);
            }
        }
    }

    /// Hands out the unit in cell `unit_id`.
    fn get_unit_mut(&mut self, unit_id: UnitID) -> (unit: &mut Unit)
        requires
            unit_id < old(self).blocks.len() * 256,
        ensures
            *unit == old(self).blocks[(unit_id / 256) as int].units[(unit_id % 256) as int],
            final(self).blocks.len() == old(self).blocks.len(),
            final(self).used_offsets == old(self).used_offsets,
            final(self).blocks[(unit_id / 256) as int].units@ == old(self).blocks[(unit_id
                / 256) as int].units@.update((unit_id % 256) as int, *final(unit)),
            final(self).blocks[(unit_id / 256) as int].id == old(self).blocks[(unit_id
                / 256) as int].id,
            final(self).blocks[(unit_id / 256) as int].is_used == old(self).blocks[(unit_id
                / 256) as int].is_used,
            final(self).blocks[(unit_id / 256) as int].head_unused == old(self).blocks[(unit_id
                / 256) as int].head_unused,
            final(self).blocks[(unit_id / 256) as int].next_unused == old(self).blocks[(unit_id
                / 256) as int].next_unused,
            final(self).blocks[(unit_id / 256) as int].prev_unused == old(self).blocks[(unit_id
                / 256) as int].prev_unused,
            forall|j: int|
                0 <= j < old(self).blocks.len() && j != unit_id / 256 ==> final(self).blocks[j]
                    == old(self).blocks[j],
    {
        &mut self.blocks[unit_id / BLOCK_SIZE].units[unit_id % BLOCK_SIZE]
    }

    /// What a builder looks like after the unit in one cell was written.
    pub open spec fn written(&self, before: &Self, unit_id: int, word: u32) -> bool {
        &&& self.blocks.len() == before.blocks.len()
        &&& self.used_offsets == before.used_offsets
        &&& self.blocks[unit_id / 256].units@ == before.blocks[unit_id / 256].units@.update(
            unit_id % 256,
            self.blocks[unit_id / 256].units[unit_id % 256],
        )
        &&& self.blocks[unit_id / 256].units[unit_id % 256]@ == word
        &&& self.blocks[unit_id / 256].id == before.blocks[unit_id / 256].id
        &&& self.blocks[unit_id / 256].is_used == before.blocks[unit_id / 256].is_used
        &&& self.blocks[unit_id / 256].head_unused == before.blocks[unit_id / 256].head_unused
        &&& self.blocks[unit_id / 256].next_unused == before.blocks[unit_id / 256].next_unused
        &&& self.blocks[unit_id / 256].prev_unused == before.blocks[unit_id / 256].prev_unused
        &&& forall|j: int|
            0 <= j < before.blocks.len() && j != unit_id / 256 ==> self.blocks[j]
                == before.blocks[j]
    }

    /// Writing the unit in one cell changes the word in that cell and
    /// nothing else.
    pub proof fn lemma_written(&self, before: &Self, unit_id: int, word: u32)
        requires
            before.wf(),
            0 <= unit_id < before.blocks.len() * 256,
            self.written(before, unit_id, word),
        ensures
            self.wf(),
            self.cells().used == before.cells().used,
            self.cells().words == before.cells().words.update(unit_id, word),
            self.cells().offsets == before.cells().offsets,
    {
        assert forall|i: int| 0 <= i < self.blocks.len() implies (#[trigger] self.blocks[i]).wf()
            && self.blocks[i].id == i by {
            assert(before.blocks[i].wf());
            if i == unit_id / 256 {
                assert forall|u: int| 0 <= u < 256 && !self.blocks[i].is_used[u] implies (
                #[trigger] self.blocks[i].links_ok(u)) by {
                    assert(before.blocks[i].links_ok(u));
                }
            }
        }
        assert(self.cells().used =~= before.cells().used);
        assert(self.cells().words =~= before.cells().words.update(unit_id, word)) by {
            assert forall|x: int| 0 <= x < self.blocks.len() * 256 implies self.cells().words[x]
                == before.cells().words.update(unit_id, word)[x] by {
                if x / 256 == unit_id / 256 && x != unit_id {
                    assert(x % 256 != unit_id % 256);
                }
            }
        }
    }

    /// Marks the unused cell `unit_id` used.
    fn reserve(&mut self, unit_id: UnitID)
        requires
            old(self).wf(),
            unit_id < old(self).blocks.len() * 256,
            !old(self).cells().used[unit_id as int],
        ensures
            final(self).wf(),
            final(self).blocks.len() == old(self).blocks.len(),
            final(self).cells().used == old(self).cells().used.update(unit_id as int, true),
            final(self).cells().words == old(self).cells().words,
            final(self).cells().offsets == old(self).cells().offsets,
    {
        let block_id = unit_id / BLOCK_SIZE;
        assert(self.blocks[block_id as int].wf());
        self.blocks[block_id].reserve((unit_id % BLOCK_SIZE) as u8);
        proof {
            assert forall|i: int| 0 <= i < self.blocks.len() implies (
            #[trigger] self.blocks[i]).wf() && self.blocks[i].id == i by {
                if i != block_id {
                    assert(self.blocks[i] == old(self).blocks[i]);
                }
            }
            assert(self.cells().words =~= old(self).cells().words);
            assert(self.cells().used =~= old(self).cells().used.update(unit_id as int, true)) by {
                assert forall|x: int| 0 <= x < self.blocks.len() * 256 implies self.cells().used[x]
                    == old(self).cells().used.update(unit_id as int, true)[x] by {
                    if x / 256 == unit_id / 256 && x != unit_id {
                        assert(x % 256 != unit_id % 256);
                    }
                }
            }
        }
    }

    /// Looks in the last blocks for an offset at which the cells of all
    /// labels are unused and which no node has yet: the first such offset of
    /// the first block that has one.
    fn find_offset(&self, labels: &Vec<u8>) -> (found: Option<u32>)
        requires
            self.wf(),
            labels.len() > 0,
        ensures
            found == cells_find(
                self.cells(),
                labels@,
                window_start(self.blocks.len() as int),
            ),
            match found {
                Some(offset) => {
                    &&& offset / 256 < self.blocks.len()
                    &&& self.blocks[(offset / 256) as int].fits(labels@, (offset % 256) as u8)
                    &&& !self.used_offsets@.contains(offset)
                    &&& offset_fits(offset)
                },
                None => true,
            },
    {
        let ghost cs = self.cells();
        let head_block = if self.blocks.len() > NUM_TARGET_BLOCKS {
            self.blocks.len() - NUM_TARGET_BLOCKS
        } else {
            0
        };
        let mut i: usize = head_block;
        while i < self.blocks.len()
            invariant
                head_block <= i <= self.blocks.len(),
                head_block == window_start(self.blocks.len() as int),
                self.wf(),
                cs == self.cells(),
                labels.len() > 0,
                cells_find(cs, labels@, head_block as int) == cells_find(cs, labels@, i as int),
            decreases self.blocks.len() - i,
        {
            let block = &self.blocks[i];
            let mut search = block.find_offset(labels);
            let ghost all = block.candidates_from(labels@, 0);
            let ghost mut at: int = 0;
            proof {
                self.lemma_cells_of_block(i as int);
                lemma_candidates_of_block(block, cs, labels@, 0);
                assert(all.skip(0) =~= all);
            }
            loop
                invariant
                    i < self.blocks.len(),
                    head_block == window_start(self.blocks.len() as int),
                    self.wf(),
                    cs == self.cells(),
                    block == self.blocks[i as int],
                    block.id == i,
                    all == block.candidates_from(labels@, 0),
                    all == cells_candidates(cs, i as int, labels@, 0),
                    search.wf(),
                    search.block() == block,
                    search.labels() == labels@,
                    0 <= at <= all.len(),
                    search.remaining() == all.skip(at),
                    first_free(all, i, cs.offsets) == first_free(all.skip(at), i, cs.offsets),
                    cells_find(cs, labels@, head_block as int) == cells_find(cs, labels@, i as int),
                ensures
                    first_free(all, i, cs.offsets) is None,
                decreases all.len() - at,
            {
                match search.next() {
                    None => {
                        break ;
                    },
                    Some(offset) => {
                        assert(offset == all[at]);
                        let offset_u32 = ((block.id as u32) << 8) | (offset as u32);
                        if !self.used_offsets.contains(&offset_u32) {
                            proof {
                                lemma_absolute(block.id as u32, offset, 0);
                                block.lemma_candidates_fit(labels@, 0, at);
                                assert(all.skip(at)[0] == offset);
                                assert(offset_u32 == absolute(block.id, offset));
                                assert(first_free(all.skip(at), i, cs.offsets) == Some(offset_u32));
                                assert(cells_find(cs, labels@, i as int) == Some(offset_u32));
                            }
                            return Some(offset_u32);
                        }
                        proof {
                            assert(all.skip(at).skip(1) =~= all.skip(at + 1));
                            at = at + 1;
                        }
                    },
                }
            }
            i += 1;
        }
        None
    }

    /// Writes the offset of its children and the has-leaf flag into the node
    /// in cell `unit_id`.
    fn write_offset(&mut self, unit_id: UnitID, offset: u32, has_leaf: bool)
        requires
            old(self).wf(),
            unit_id < old(self).blocks.len() * 256,
            offset_fits(offset),
        ensures
            final(self).wf(),
            final(self).blocks.len() == old(self).blocks.len(),
            final(self).cells().used == old(self).cells().used,
            final(self).cells().offsets == old(self).cells().offsets,
            final(self).cells().words == old(self).cells().words.update(
                unit_id as int,
                word_with_has_leaf(
                    word_with_offset(old(self).cells().words[unit_id as int], offset),
                    has_leaf,
                ),
            ),
    {
        let ghost before = *self;
        let parent_unit = self.get_unit_mut(unit_id);
        parent_unit.set_offset(offset);
        parent_unit.set_has_leaf(has_leaf);
        proof {
            let word = word_with_has_leaf(
                word_with_offset(before.cells().words[unit_id as int], offset),
                has_leaf,
            );
            self.lemma_written(&before, unit_id as int, word);
        }
    }

    /// Reserves the unused, empty cell `child_id` for a child and writes the
    /// child into it: for the terminator the leaf with the value, for
    /// another label the node with that label.
    fn place_child(&mut self, child_id: UnitID, label: u8, value: Option<u32>)
        requires
            old(self).wf(),
            child_id < old(self).blocks.len() * 256,
            !old(self).cells().used[child_id as int],
            old(self).cells().words[child_id as int] == 0,
            label == 0 ==> value is Some,
        ensures
            final(self).wf(),
            final(self).blocks.len() == old(self).blocks.len(),
            final(self).cells().used == old(self).cells().used.update(child_id as int, true),
            final(self).cells().offsets == old(self).cells().offsets,
            final(self).cells().words == old(self).cells().words.update(
                child_id as int,
                if label == 0 {
                    word_with_value(value.unwrap())
                } else {
                    label as u32
                },
            ),
    {
        self.reserve(child_id);
        let ghost before = *self;
        let unit = self.get_unit_mut(child_id);
        if label == 0 {
            unit.set_value(value.unwrap());
        } else {
            unit.set_label(label);
        }
        proof {
            lemma_label_roundtrip(0, label);
            let word = if label == 0 {
                word_with_value(value.unwrap())
            } else {
                label as u32
            };
            self.lemma_written(&before, child_id as int, word);
        }
    }

    /// Spells out the units of all blocks, each as four bytes in
    /// little-endian order.
    fn to_bytes(&self) -> (bytes: Vec<u8>)
        requires
            self.wf(),
        ensures
            bytes@ == bytes_of(self.cells().words),
            bytes@.len() == 1024 * self.blocks.len(),
    {
        let ghost words = self.cells().words;
        let mut da_bytes: Vec<u8> = Vec::with_capacity(
            self.blocks.len() * BLOCK_SIZE * UNIT_SIZE,
        );
        let mut i: usize = 0;
        while i < self.blocks.len()
            invariant
                i <= self.blocks.len() <= MAX_BLOCKS,
                words == self.cells().words,
                da_bytes@.len() == 4 * (i * 256),
                forall|j: int| 0 <= j < da_bytes@.len() ==> da_bytes@[j] == image_byte(words, j),
            decreases self.blocks.len() - i,
        {
            let block = &self.blocks[i];
            let mut c: usize = 0;
            while c < BLOCK_SIZE
                invariant
                    i < self.blocks.len() <= MAX_BLOCKS,
                    c <= 256,
                    block == self.blocks[i as int],
                    words == self.cells().words,
                    da_bytes@.len() == 4 * (i * 256 + c),
                    forall|j: int| 0 <= j < da_bytes@.len() ==> da_bytes@[j] == image_byte(words, j),
                decreases 256 - c,
            {
                let word = block.units[c].as_u32();
                let ghost before = da_bytes@;
                proof {
                    lemma_word_bytes(word);
                    assert(words[i * 256 + c] == word);
                }
                da_bytes.push((word & 0xFF) as u8);
                da_bytes.push(((word >> 8) & 0xFF) as u8);
                da_bytes.push(((word >> 16) & 0xFF) as u8);
                da_bytes.push(((word >> 24) & 0xFF) as u8);
                proof {
                    let now = da_bytes@;
                    let at = i * 256 + c;
                    assert forall|j: int| 0 <= j < now.len() implies now[j] == image_byte(
                        words,
                        j,
                    ) by {
                        if j < 4 * at {
                            assert(now[j] == before[j]);
                        } else {
                            assert(j / 4 == at);
                        }
                    }
                }
                c += 1;
            }
            i += 1;
        }
        assert(da_bytes@ =~= bytes_of(words));
        da_bytes
    }

    /// Finds an offset for the labels, appending one block if the last
    /// blocks have none. Fails only where no block can be appended.
    fn choose_offset(&mut self, labels: &Vec<u8>) -> (found: Option<u32>)
        requires
            old(self).wf(),
            old(self).tidy(),
            labels.len() > 0,
        ensures
            final(self).wf(),
            final(self).tidy(),
            old(self).blocks.len() <= final(self).blocks.len() <= old(self).blocks.len() + 1,
            final(self).used_offsets == old(self).used_offsets,
            forall|x: int|
                0 <= x < old(self).blocks.len() * 256
                    ==> final(self).cells().used[x] == old(self).cells().used[x],
            old(self).blocks.len() < MAX_BLOCKS ==> found is Some,
            match chosen(old(self).cells(), labels@) {
                Some((cs, offset)) => found == Some(offset) && final(self).cells() == cs,
                None => found is None,
            },
            match found {
                Some(offset) => {
                    &&& offset / 256 < final(self).blocks.len()
                    &&& final(self).blocks[(offset / 256) as int].fits(
                        labels@,
                        (offset % 256) as u8,
                    )
                    &&& !final(self).used_offsets@.contains(offset)
                    &&& offset_fits(offset)
                },
                None => true,
            },
    {
        let mut extended = false;
        assert(whole_blocks(self.cells()));
        loop
            invariant
                self.wf(),
                self.tidy(),
                whole_blocks(old(self).cells()),
                labels.len() > 0,
                self.used_offsets == old(self).used_offsets,
                old(self).blocks.len() <= self.blocks.len(),
                forall|x: int|
                    0 <= x < old(self).blocks.len() * 256
                        ==> self.cells().used[x] == old(self).cells().used[x],
                !extended ==> self.blocks.len() == old(self).blocks.len()
                    && self.cells() == old(self).cells(),
                extended ==> self.blocks.len() == old(self).blocks.len() + 1 && self.cells()
                    == grown(old(self).cells()) && old(self).blocks.len() < MAX_BLOCKS
                    && cells_find(
                    old(self).cells(),
                    labels@,
                    window_start(old(self).blocks.len() as int),
                ) is None,
            decreases MAX_BLOCKS - self.blocks.len(),
        {
            match self.find_offset(labels) {
                Some(offset) => {
                    return Some(offset);
                },
                None => {},
            }
            proof {
                if extended {
                    lemma_grown_has_room(old(self).cells(), labels@);
                }
            }
            if self.blocks.len() >= MAX_BLOCKS {
                return None;
            }
            let ghost before = *self;
            self.extend_block();
            extended = true;
            proof {
                let cs = before.cells();
                let more = self.cells();
                assert forall|x: int| 0 <= x < cs.used.len() implies more.used[x] == cs.used[x]
                    && more.words[x] == cs.words[x] by {
                    assert(self.blocks[x / 256] == before.blocks[x / 256]);
                }
                assert forall|x: int| cs.used.len() <= x < more.used.len() implies !more.used[x]
                    && more.words[x] == 0 by {
                    assert(x / 256 == before.blocks.len());
                }
                assert(more.used =~= grown(cs).used);
                assert(more.words =~= grown(cs).words);
            }
        }
    }

    /// Expands the placed node in cell `unit_id`: gives it `offset` and its
    /// has-leaf flag, and places its children by `labels` in the cells that
    /// `offset` and the labels name.
    fn place_children(
        &mut self,
        unit_id: UnitID,
        offset: u32,
        labels: &Vec<u8>,
        value: Option<u32>,
    )
        requires
            old(self).wf(),
            old(self).tidy(),
            labels.len() > 0,
            unit_id < old(self).blocks.len() * 256,
            old(self).cells().used[unit_id as int],
            offset / 256 < old(self).blocks.len(),
            old(self).blocks[(offset / 256) as int].fits(labels@, (offset % 256) as u8),
            !old(self).used_offsets@.contains(offset),
            offset_fits(offset),
            forall|k1: int, k2: int| 0 <= k1 < k2 < labels.len() ==> labels@[k1] < labels@[k2],
            labels@[0] == 0 ==> value is Some,
        ensures
            final(self).wf(),
            final(self).tidy(),
            final(self).blocks.len() == old(self).blocks.len(),
            final(self).cells() == expanded_and_placed(
                old(self).cells(),
                unit_id as int,
                offset,
                labels@,
                value,
            ),
            forall|x: int|
                0 <= x < old(self).blocks.len() * 256 && old(self).cells().used[x]
                    ==> final(self).cells().used[x],
            forall|m: int|
                0 <= m < labels.len() ==> 0 <= (offset ^ (#[trigger] labels@[m] as u32))
                    < final(self).blocks.len() * 256
                    && final(self).cells().used[(offset ^ (labels@[m] as u32)) as int],
    {
        let ghost cs0 = self.cells();
        proof {
            assert forall|m: int| 0 <= m < labels.len() implies !cs0.used[(offset ^ (
            #[trigger] labels@[m] as u32)) as int] && (offset ^ (labels@[m] as u32)) / 256
                == offset / 256 by {
                lemma_child_cells(offset, labels@[m], 0);
                lemma_child_cell_in_block(offset, labels@[m]);
            }
        }

        // mark the offset used
        self.used_offsets.insert(offset);

        let has_leaf = labels[0] == 0;

        // write offset and has-leaf flag into the parent node
        self.write_offset(unit_id, offset, has_leaf);

        let ghost word = expanded_word(cs0.words[unit_id as int], offset, has_leaf);
        proof {
            lemma_offset_roundtrip(cs0.words[unit_id as int], offset);
            lemma_has_leaf_roundtrip(word_with_offset(cs0.words[unit_id as int], offset), has_leaf);
            assert(self.cells().used =~= cs0.used);
            assert(self.cells() == cells_expanded(cs0, unit_id as int, word));
        }

        // write the label or the value into the cells of the children
        let mut k: usize = 0;
        while k < labels.len()
            invariant
                k <= labels.len(),
                labels.len() > 0,
                self.wf(),
                self.tidy(),
                self.blocks.len() == old(self).blocks.len(),
                offset / 256 < self.blocks.len(),
                forall|k1: int, k2: int| 0 <= k1 < k2 < labels.len() ==> labels@[k1] < labels@[k2],
                labels@[0] == 0 ==> value is Some,
                cs0 == old(self).cells(),
                word == expanded_word(cs0.words[unit_id as int], offset, labels@[0] == 0),
                self.cells() == placed_upto(
                    cells_expanded(cs0, unit_id as int, word),
                    offset,
                    labels@,
                    value,
                    k as int,
                ),
                forall|x: int|
                    0 <= x < self.blocks.len() * 256 && cs0.used[x] ==> self.cells().used[x],
                forall|m: int|
                    0 <= m < labels.len() ==> (offset ^ (#[trigger] labels@[m] as u32)) / 256
                        == offset / 256,
                forall|m: int|
                    k <= m < labels.len() ==> !self.cells().used[(offset ^ (
                    #[trigger] labels@[m] as u32)) as int],
                forall|m: int|
                    0 <= m < k ==> self.cells().used[(offset ^ (
                    #[trigger] labels@[m] as u32)) as int],
            decreases labels.len() - k,
        {
            let label = labels[k];
            let child_id = (offset ^ (label as u32)) as UnitID;
            let ghost cs = self.cells();
            proof {
                assert((offset ^ (labels@[k as int] as u32)) / 256 == offset / 256);
                assert(!cs.used[child_id as int]);
                if k > 0 {
                    assert(labels@[0] < labels@[k as int]);
                }
            }

            self.place_child(child_id, label, value);

            proof {
                assert(self.cells() == cells_placed(cs, child_id as int, child_word(label, value)));
                assert forall|m: int| k + 1 <= m < labels.len() implies !self.cells().used[(offset
                    ^ (#[trigger] labels@[m] as u32)) as int] by {
                    lemma_child_cells(offset, labels@[m], label);
                    assert(labels@[k as int] < labels@[m]);
                    assert(!cs.used[(offset ^ (labels@[m] as u32)) as int]);
                }
                assert forall|m: int| 0 <= m < k + 1 implies self.cells().used[(offset ^ (
                #[trigger] labels@[m] as u32)) as int] by {
                    if m < k {
                        assert(cs.used[(offset ^ (labels@[m] as u32)) as int]);
                    }
                }
            }
            k += 1;
        }
    }

    /// Builds the part of the trie below the placed node in cell `unit_id`,
    /// which stands for the first `depth` bytes of the keys from `begin` up
    /// to `end`: expands the node and, depth first, the nodes below it.
    /// Fails only where the array would outgrow its limit.
    fn build_recursive(
        &mut self,
        keyset: &[(&[u8], u32)],
        depth: usize,
        begin: usize,
        end: usize,
        unit_id: UnitID,
    ) -> (done: Option<()>)
        requires
            old(self).wf(),
            old(self).tidy(),
            valid_keyset(keys_of(keyset)),
            is_range(keys_of(keyset), depth as int, begin as int, end as int),
            unit_id < old(self).blocks.len() * 256,
            old(self).cells().used[unit_id as int],
        ensures
            final(self).wf(),
            final(self).tidy(),
            final(self).blocks.len() >= old(self).blocks.len(),
            forall|x: int|
                0 <= x < old(self).blocks.len() * 256 && old(self).cells().used[x]
                    ==> final(self).cells().used[x],
            match built_below(
                keys_of(keyset),
                levels(keys_of(keyset), depth as int),
                depth as int,
                begin as int,
                end as int,
                unit_id as int,
                old(self).cells(),
            ) {
                Some(cs) => done is Some && final(self).cells() == cs,
                None => done is None,
            },
        decreases span(keys_of(keyset), begin as int, end as int, depth as int),
    {
        let ghost keys = keys_of(keyset);
        let ghost fuel = levels(keys, depth as int);
        let ghost target = built_below(
            keys,
            fuel,
            depth as int,
            begin as int,
            end as int,
            unit_id as int,
            self.cells(),
        );

        // group the keys by their label at this depth
        let (runs, value) = group_labels(keyset, depth, begin, end);
        let labels = run_labels(&runs);
        proof {
            lemma_longest(keys, begin as int);
            assert forall|k1: int, k2: int| 0 <= k1 < k2 < labels.len() implies labels@[k1]
                < labels@[k2] by {
                assert(runs@[k1].0 < runs@[k2].0);
            }
        }

        // search an offset where the children fit into unused cells
        let offset = match self.choose_offset(&labels) {
            Some(offset) => offset,
            None => {
                return None;
            },
        };

        // write the parent and its children
        self.place_children(unit_id, offset, &labels, value);

        // recursive call in depth-first order
        let mut k: usize = 0;
        while k < runs.len()
            invariant
                k <= runs.len(),
                runs.len() == labels.len(),
                labels@ == labels_of(runs@),
                keys == keys_of(keyset),
                valid_keyset(keys),
                is_range(keys, depth as int, begin as int, end as int),
                grouped(keys, depth as int, begin as int, end as int, runs@),
                fuel == levels(keys, depth as int),
                fuel > 0,
                target == built_children(
                    keys,
                    fuel,
                    depth as int,
                    runs@,
                    k as int,
                    offset,
                    self.cells(),
                ),
                target == built_below(
                    keys,
                    fuel,
                    depth as int,
                    begin as int,
                    end as int,
                    unit_id as int,
                    old(self).cells(),
                ),
                forall|m: int|
                    0 <= m < runs@.len() && (#[trigger] runs@[m]).0 != 0 ==> depth < usize::MAX,
                self.wf(),
                self.tidy(),
                old(self).blocks.len() <= self.blocks.len(),
                forall|x: int|
                    0 <= x < old(self).blocks.len() * 256 && old(self).cells().used[x]
                        ==> self.cells().used[x],
                forall|m: int|
                    0 <= m < labels.len() ==> 0 <= (offset ^ (#[trigger] labels@[m] as u32))
                        < self.blocks.len() * 256 && self.cells().used[(offset ^ (
                    labels@[m] as u32)) as int],
            decreases runs.len() - k,
        {
            let (label, run_begin, run_end) = runs[k];
            if label != 0 {
                let child_id = (offset ^ (label as u32)) as UnitID;
                proof {
                    assert(labels@[k as int] == label);
                    lemma_run_is_range(
                        keys,
                        depth as int,
                        begin as int,
                        end as int,
                        runs@,
                        k as int,
                    );
                    lemma_run_span(keys, depth as int, begin as int, end as int, runs@, k as int);
                    lemma_longest(keys, run_begin as int);
                    assert(levels(keys, depth + 1) == fuel - 1);
                }
                let ghost before = *self;
                let done = self.build_recursive(keyset, depth + 1, run_begin, run_end, child_id);
                if done.is_none() {
                    return None;
                }
                proof {
                    assert forall|m: int| 0 <= m < labels.len() implies 0 <= (offset ^ (
                    #[trigger] labels@[m] as u32)) < self.blocks.len() * 256
                        && self.cells().used[(offset ^ (labels@[m] as u32)) as int] by {
                        assert(before.cells().used[(offset ^ (labels@[m] as u32)) as int]);
                    }
                }
            }
            k += 1;
        }
        Some(())
    }

    /// Builds the double-array trie of `keyset` with this builder, which
    /// must be new, and returns the image of the trie. The keys are given
    /// without a terminator; the builder ends each with the byte 0 of its
    /// own. Returns `None` where the keyset is not valid (its keys are not in
    /// strictly ascending order of their bytes, a key holds the byte 0, or a
    /// value is 2^31 or more) and where the array would outgrow its limit of
    /// 2^21 blocks, which no keyset of at most 2^21 - 2 bytes in all does.
    ///
    /// The image is a function of the keyset. It answers every search for a
    /// string without the byte 0 as the keyset does.
    pub fn build_from_keyset(&mut self, keyset: &[(&[u8], u32)]) -> (image: Option<Vec<u8>>)
        requires
            old(self).is_fresh(),
        ensures
            final(self).wf(),
            !valid_keyset(keys_of(keyset)) ==> image is None,
            valid_keyset(keys_of(keyset)) && total_len(keys_of(keyset)) + 2 <= MAX_BLOCKS
                ==> image is Some,
            match image {
                Some(bytes) => {
                    &&& built_image(keys_of(keyset)) == Some(bytes@)
                    &&& built_cells(keys_of(keyset)) == Some(final(self).cells())
                    &&& valid_keyset(keys_of(keyset))
                    &&& bytes@.len() == 1024 * final(self).blocks.len()
                    &&& holds_keys(bytes@, keys_of(keyset))
                },
                None => built_image(keys_of(keyset)) is None,
            },
    {
        let ghost keys = keys_of(keyset);
        if !is_valid_keyset(keyset) {
            return None;
        }
        let count = keyset.len();
        proof {
            assert(keys.len() == count);
            if total_len(keys) + 2 <= MAX_BLOCKS {
                theorem_small_keysets_are_built(keys);
            }
        }
        let ghost fresh = self.cells();
        proof {
            assert forall|x: int| 0 <= x < fresh.words.len() implies fresh.words[x] == 0
                && !fresh.used[x] by {
                assert(x / 256 == 0 && x % 256 == x);
                assert(!self.blocks[0].is_used[x] && self.blocks[0].units[x]@ == 0);
            }
        }
        self.reserve(0);  // reserve the root node
        proof {
            assert(self.cells().used =~= root_cells().used);
            assert(self.cells().words =~= root_cells().words);
        }
        if count > 0 {
            proof {
                assert forall|i: int| 0 <= i < keys.len() implies has_prefix(
                    (#[trigger] keys[i]).0,
                    prefix_of(keys, 0, 0),
                ) by {
                    assert(keys[i].0.subrange(0, 0) =~= prefix_of(keys, 0, 0));
                }
            }
            let done = self.build_recursive(keyset, 0, 0, count, 0);
            if done.is_none() {
                return None;
            }
        }
        let da_bytes = self.to_bytes();
        proof {
            theorem_built_image_holds_keys(keys);
        }
        Some(da_bytes)
    }

    /// Builds the double-array trie of `keyset` and returns its image. The
    /// keys are given without a terminator; the builder ends each with the
    /// byte 0 of its own. Returns `None` where the keyset is not valid (its
    /// keys are not in strictly ascending order of their bytes, a key holds
    /// the byte 0, or a value is 2^31 or more) and where the array would
    /// outgrow its limit of 2^21 blocks, which no keyset of at most
    /// 2^21 - 2 bytes in all does.
    ///
    /// The image is a function of the keyset. It answers every search for a
    /// string without the byte 0 as the keyset does.
    pub fn build(keyset: &[(&[u8], u32)]) -> (image: Option<Vec<u8>>)
        ensures
            !valid_keyset(keys_of(keyset)) ==> image is None,
            valid_keyset(keys_of(keyset)) && total_len(keys_of(keyset)) + 2 <= MAX_BLOCKS
                ==> image is Some,
            match image {
                Some(bytes) => {
                    &&& built_image(keys_of(keyset)) == Some(bytes@)
                    &&& valid_keyset(keys_of(keyset))
                    &&& bytes@.len() % 1024 == 0
                    &&& holds_keys(bytes@, keys_of(keyset))
                },
                None => built_image(keys_of(keyset)) is None,
            },
    {
        let mut builder = Self::new();
        builder.build_from_keyset(keyset)
    }
}

} // verus!
