//! One block of 256 cells of the double array under construction, with the
//! list of its unused cells and the search for an offset at which a set of
//! labels fits into them.
//!
//! The unused cells of a block form a doubly-linked list in ascending order:
//! the next of an unused cell is the nearest unused cell above it, its prev
//! the nearest unused cell below it. `0` stands for "no next" and `255` for
//! "no prev"; neither collides with a real link, because a next is above and
//! a prev below the cell it belongs to.

use crate::unit::{offset_fits, Unit};
use vstd::prelude::*;

verus! {

/// The number of cells in a block.
pub const BLOCK_SIZE: usize = 256;

/// The next of the last unused cell.
pub const INVALID_NEXT: u8 = 0;

/// The prev of the first unused cell.
pub const INVALID_PREV: u8 = 255;

/// No builder holds more blocks than this, so that every cell index is below
/// 2^29.
pub const MAX_BLOCKS: usize = 0x20_0000;

/// The number of blocks, counted from the last, in which an offset is looked
/// for.
pub const NUM_TARGET_BLOCKS: usize = 16;

/// The index in the whole array of cell `cell` of block `id`.
pub open spec fn absolute(id: usize, cell: u8) -> u32 {
    ((id as u32) << 8) | (cell as u32)
}

/// How a cell index is made of a block and a cell in it, and how a label
/// moves it within the block.
pub proof fn lemma_absolute(id: u32, cell: u8, label: u8)
    by (bit_vector)
    requires
        id < 0x20_0000,
    ensures
        ((id << 8) | (cell as u32)) == id * 256 + cell,
        ((id << 8) | (cell as u32)) < 0x2000_0000,
        ((id << 8) | (cell as u32)) ^ (label as u32) == (id << 8) | ((cell ^ label) as u32),
        (cell ^ label) ^ label == cell,
        cell ^ 0 == cell,
        ((id << 8) | (cell as u32)) & 0xFF == cell,
        (((id << 8) | (cell as u32)) & 0x1FE0_0000 > 0) <==> ((id << 8) | (cell as u32))
            >= 0x20_0000,
{
}

/// A block of the double array together with the bookkeeping of its unused
/// cells.
pub struct DoubleArrayBlock {
    pub id: usize,
    pub units: [Unit; 256],
    pub is_used: [bool; 256],
    pub head_unused: u8,
    pub next_unused: [u8; 256],
    pub prev_unused: [u8; 256],
}

impl DoubleArrayBlock {
    /// Every cell strictly between `lo` and `hi` is used.
    pub open spec fn used_between(&self, lo: int, hi: int) -> bool {
        forall|i: int| lo < i < hi && 0 <= i < 256 ==> self.is_used[i]
    }

    /// The links of the unused cell `u` point to its nearest unused
    /// neighbours.
    pub open spec fn links_ok(&self, u: int) -> bool {
        let n = self.next_unused[u] as int;
        let p = self.prev_unused[u] as int;
        &&& if n == 0 {
            self.used_between(u, 256)
        } else {
            u < n && !self.is_used[n] && self.used_between(u, n)
        }
        &&& if p == 255 {
            self.used_between(-1, u)
        } else {
            p < u && !self.is_used[p] && self.used_between(p, u)
        }
    }

    /// The block is well formed: its head is the lowest unused cell, or 0 in
    /// a full block, and the links of every unused cell are right.
    pub open spec fn wf(&self) -> bool {
        &&& self.id < MAX_BLOCKS
        &&& self.used_between(-1, self.head_unused as int)
        &&& self.is_used[self.head_unused as int] ==> self.head_unused == 0 && self.used_between(
            -1,
            256,
        )
        &&& forall|u: int| 0 <= u < 256 && !self.is_used[u] ==> #[trigger] self.links_ok(u)
    }

    /// Whether the labels fit at `offset`: the offset can be stored in a
    /// unit, and the cell of every label is unused.
    pub open spec fn fits(&self, labels: Seq<u8>, offset: u8) -> bool {
        &&& offset_fits(absolute(self.id, offset))
        &&& forall|k: int|
            0 <= k < labels.len() ==> !self.is_used[(offset ^ #[trigger] labels[k]) as int]
    }

    /// The offsets at which the labels fit, one for each unused cell from
    /// `from` on that can hold the first label, in ascending order of that
    /// cell.
    pub open spec fn candidates_from(&self, labels: Seq<u8>, from: int) -> Seq<u8>
        decreases 256 - from,
    {
        if from < 0 || from >= 256 || labels.len() == 0 {
            Seq::empty()
        } else {
            let offset = (from as u8) ^ labels[0];
            let rest = self.candidates_from(labels, from + 1);
            if !self.is_used[from] && self.fits(labels, offset) {
                seq![offset] + rest
            } else {
                rest
            }
        }
    }

    /// Every candidate is an offset at which the labels fit.
    pub proof fn lemma_candidates_fit(&self, labels: Seq<u8>, from: int, k: int)
        requires
            0 <= k < self.candidates_from(labels, from).len(),
        ensures
            self.fits(labels, self.candidates_from(labels, from)[k]),
        decreases 256 - from,
    {
        if from < 0 || from >= 256 || labels.len() == 0 {
        } else {
            let offset = (from as u8) ^ labels[0];
            if !self.is_used[from] && self.fits(labels, offset) {
                if k > 0 {
                    self.lemma_candidates_fit(labels, from + 1, k - 1);
                }
            } else {
                self.lemma_candidates_fit(labels, from + 1, k);
            }
        }
    }

    /// Used cells yield no candidate.
    pub proof fn lemma_candidates_skip(&self, labels: Seq<u8>, lo: int, hi: int)
        requires
            0 <= lo <= hi <= 256,
            forall|i: int| lo <= i < hi ==> self.is_used[i],
        ensures
            self.candidates_from(labels, lo) == self.candidates_from(labels, hi),
        decreases hi - lo,
    {
        if lo < hi {
            self.lemma_candidates_skip(labels, lo + 1, hi);
        }
    }

    /// Creates block `id` with all cells unused and all units empty.
    pub fn new(id: usize) -> (block: Self)
        requires
            id < MAX_BLOCKS,
        ensures
            block.wf(),
            block.id == id,
            forall|i: int| 0 <= i < 256 ==> !#[trigger] block.is_used[i],
            forall|i: int| 0 <= i < 256 ==> (#[trigger] block.units[i])@ == 0,
    {
        let mut next_unused = [INVALID_NEXT;256];
        let mut prev_unused = [INVALID_PREV;256];
        let mut i: usize = 0;
        while i < 255
            invariant
                i <= 255,
                next_unused[255] == 0,
                prev_unused[0] == 255,
                forall|j: int| 0 <= j < i ==> next_unused[j] == j + 1,
                forall|j: int| 1 <= j <= i ==> prev_unused[j] == j - 1,
            decreases 255 - i,
        {
            next_unused[i] = (i + 1) as u8;
            prev_unused[i + 1] = i as u8;
            i += 1;
        }
        let block = Self {
            id,
            units: [Unit::new();256],
            is_used: [false;256],
            head_unused: 0,
            next_unused,
            prev_unused,
        };
        assert forall|u: int| 0 <= u < 256 && !block.is_used[u] implies #[trigger] block.links_ok(
            u,
        ) by {
            if u < 255 {
                assert(block.next_unused[u] == u + 1);
            }
            if u > 0 {
                assert(block.prev_unused[u] == u - 1);
            }
        }
        block
    }

    /// Starts the search for the offsets in this block at which `labels`
    /// fit, from the first unused cell on.
    pub fn find_offset<'a>(&'a self, labels: &'a Vec<u8>) -> (search: FindOffset<'a>)
        requires
            self.wf(),
            labels.len() > 0,
        ensures
            search.wf(),
            search.block() == self,
            search.labels() == labels@,
            search.remaining() == self.candidates_from(labels@, 0),
    {
        let exhausted = self.is_used[self.head_unused as usize];
        proof {
            if exhausted {
                self.lemma_candidates_skip(labels@, 0, 256);
            } else {
                self.lemma_candidates_skip(labels@, 0, self.head_unused as int);
            }
        }
        FindOffset { unused_id: self.head_unused, exhausted, block: self, labels }
    }

    /// Marks the unused cell `id` used and takes it out of the list of
    /// unused cells.
    pub fn reserve(&mut self, id: u8)
        requires
            old(self).wf(),
            !old(self).is_used[id as int],
        ensures
            final(self).wf(),
            final(self).is_used@ == old(self).is_used@.update(id as int, true),
            final(self).units == old(self).units,
            final(self).id == old(self).id,
    {
        assert(self.links_ok(id as int));
        // maintain is_used
        self.is_used[id as usize] = true;

        let prev_id = self.prev_unused[id as usize];
        let next_id = self.next_unused[id as usize];

        // maintain next_unused
        if prev_id != INVALID_PREV {
            self.next_unused[prev_id as usize] = next_id;
        }
        self.next_unused[id as usize] = INVALID_NEXT;

        // maintain prev_unused
        if next_id != INVALID_NEXT {
            self.prev_unused[next_id as usize] = prev_id;
        }
        self.prev_unused[id as usize] = INVALID_PREV;

        // maintain head_unused
        if id == self.head_unused {
            self.head_unused = next_id;
        }
        proof {
            assert forall|u: int| 0 <= u < 256 && !self.is_used[u] implies #[trigger] self.links_ok(
                u,
            ) by {
                assert(old(self).links_ok(u));
                assert(!old(self).is_used[u]);
            }
        }
    }
}

/// A running search for the offsets at which a list of labels fits into a
/// block: hands out the candidates one by one.
pub struct FindOffset<'a> {
    unused_id: u8,
    exhausted: bool,
    block: &'a DoubleArrayBlock,
    labels: &'a Vec<u8>,
}

impl<'a> FindOffset<'a> {
    /// The block that is searched.
    pub closed spec fn block(&self) -> &DoubleArrayBlock {
        self.block
    }

    /// The labels that are to fit.
    pub closed spec fn labels(&self) -> Seq<u8> {
        self.labels@
    }

    /// The search stands at an unused cell of a well-formed block, or is
    /// over.
    pub closed spec fn wf(&self) -> bool {
        &&& self.block.wf()
        &&& self.labels@.len() > 0
        &&& !self.exhausted ==> !self.block.is_used[self.unused_id as int]
    }

    /// The candidates that the search has yet to yield.
    pub closed spec fn remaining(&self) -> Seq<u8> {
        if self.exhausted {
            Seq::empty()
        } else {
            self.block.candidates_from(self.labels@, self.unused_id as int)
        }
    }

    /// Whether the labels after the first fit at `offset`, and the offset can
    /// be stored in a unit.
    fn is_valid_offset(&self, offset: u8) -> (valid: bool)
        requires
            self.wf(),
        ensures
            valid == (offset_fits(absolute(self.block.id, offset)) && forall|k: int|
                1 <= k < self.labels@.len() ==> !self.block.is_used[(offset
                    ^ #[trigger] self.labels@[k]) as int]),
    {
        let offset_u32 = ((self.block.id as u32) << 8) | (offset as u32);
        proof {
            lemma_absolute(self.block.id as u32, offset, 0);
        }
        if (offset_u32 & 0x1FE0_0000) > 0 && (offset_u32 & 0xFF) > 0 {
            return false;
        }
        let mut k: usize = 1;
        while k < self.labels.len()
            invariant
                1 <= k,
                forall|j: int|
                    1 <= j < k && j < self.labels@.len() ==> !self.block.is_used[(offset
                        ^ #[trigger] self.labels@[j]) as int],
            decreases self.labels.len() - k,
        {
            let id = offset ^ self.labels[k];
            if self.block.is_used[id as usize] {
                return false;
            }
            k += 1;
        }
        true
    }

    /// Yields the next offset at which the labels fit, in ascending order of
    /// the cell that holds the first label. Yields nothing once the unused
    /// cells are exhausted.
    pub fn next(&mut self) -> (found: Option<u8>)
        requires
            old(self).wf(),
        ensures
            final(self).wf(),
            final(self).block() == old(self).block(),
            final(self).labels() == old(self).labels(),
            old(self).remaining().len() == 0 ==> found is None && final(self).remaining().len()
                == 0,
            old(self).remaining().len() > 0 ==> found == Some(old(self).remaining()[0])
                && final(self).remaining() == old(self).remaining().skip(1),
    {
        if self.exhausted {
            return None;
        }
        loop
            invariant
                self.wf(),
                !self.exhausted,
                self.block == old(self).block,
                self.labels == old(self).labels,
                self.remaining() == old(self).remaining(),
            decreases 256 - self.unused_id,
        {
            let first_label = self.labels[0];
            let offset = self.unused_id ^ first_label;
            let is_valid_offset = self.is_valid_offset(offset);
            let ghost before = self.remaining();
            let ghost cell = self.unused_id as int;
            proof {
                lemma_absolute(self.block.id as u32, self.unused_id, first_label);
                assert(self.block.links_ok(cell));
                assert(is_valid_offset == self.block.fits(self.labels@, offset)) by {
                    if is_valid_offset {
                        assert forall|k: int| 0 <= k < self.labels@.len() implies !self.block.is_used[(
                        offset ^ #[trigger] self.labels@[k]) as int] by {
                            if k == 0 {
                                assert((offset ^ self.labels@[0]) == self.unused_id);
                            }
                        }
                    }
                }
            }

            // move on to the next unused cell
            let next_id = self.block.next_unused[self.unused_id as usize];
            if next_id == INVALID_NEXT {
                self.exhausted = true;
                proof {
                    self.block.lemma_candidates_skip(self.labels@, cell + 1, 256);
                }
            } else {
                self.unused_id = next_id;
                proof {
                    self.block.lemma_candidates_skip(self.labels@, cell + 1, next_id as int);
                }
            }
            let ghost rest = self.block.candidates_from(self.labels@, cell + 1);
            assert(rest == self.remaining());

            if is_valid_offset {
                assert(before == seq![offset] + rest);
                assert(before.skip(1) =~= rest);
                return Some(offset);
            }
            assert(before == rest);
            if self.exhausted {
                return None;
            }
        }
    }
}

} // verus!
