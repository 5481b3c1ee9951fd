//! The 32-bit node word of the double array.
//!
//! The bit layout of an internal node, least significant bit first:
//!
//! ```text
//!  0                   1                   2                   3
//!  0 1 2 3 4 5 6 7 8 9 0 1 2 3 4 5 6 7 8 9 0 1 2 3 4 5 6 7 8 9 0 1
//! +---------------+-+-+-----------------------------------------+-+
//! |     LABEL     |H|E|                 OFFSET                  |I|
//! +---------------+-+-+-----------------------------------------+-+
//! ```
//!
//! * `LABEL`: the byte by which the node is reached from its parent.
//! * `H` (has leaf): one of the node's children is the leaf of a key that
//!   ends here.
//! * `E` (extend offset): the offset field stands for `offset >> 8`.
//! * `OFFSET`: 21 bits of offset.
//! * `I` (is leaf): always 0 in an internal node.
//!
//! The bit layout of a leaf node:
//!
//! ```text
//!  0                   1                   2                   3
//!  0 1 2 3 4 5 6 7 8 9 0 1 2 3 4 5 6 7 8 9 0 1 2 3 4 5 6 7 8 9 0 1
//! +-------------------------------------------------------------+-+
//! |                            VALUE                            |I|
//! +-------------------------------------------------------------+-+
//! ```
//!
//! * `VALUE`: the 31-bit value stored for the key.
//! * `I` (is leaf): always 1 in a leaf node.

use crate::text::{decimal_text, escaped_text, push_decimal, push_escaped};
use vstd::prelude::*;
use vstd::string::StringExecFns;

verus! {

/// Index of a unit in the double array.
pub type UnitID = usize;

/// Size of a serialized unit in bytes.
pub const UNIT_SIZE: usize = 4;

/// Offsets below this bound fit the offset field as they are.
pub const OFFSET_DIRECT_LIMIT: u32 = 0x20_0000;

/// No offset reaches this bound.
pub const OFFSET_LIMIT: u32 = 0x2000_0000;

/// No stored value reaches this bound.
pub const VALUE_LIMIT: u32 = 0x8000_0000;

/// Bit 8 of the word.
pub open spec fn word_has_leaf(w: u32) -> bool {
    ((w >> 8) & 1) == 1
}

/// Bit 31 of the word.
pub open spec fn word_is_leaf(w: u32) -> bool {
    (w >> 31) == 1
}

/// The low 31 bits of the word.
pub open spec fn word_value(w: u32) -> u32 {
    w & 0x7FFF_FFFF
}

/// The low 8 bits of the word together with its leaf bit, so that the label
/// of a leaf is above every byte.
pub open spec fn word_label(w: u32) -> u32 {
    w & 0x8000_00FF
}

/// The offset field, shifted left by 8 where the extend bit is set.
pub open spec fn word_offset(w: u32) -> u32 {
    (w >> 10) << ((w & 0x200) >> 6)
}

/// Whether `offset` can be stored in a unit: it is below 2^29, and from 2^21
/// on its low 8 bits are zero.
pub open spec fn offset_fits(offset: u32) -> bool {
    offset < OFFSET_LIMIT && (offset < OFFSET_DIRECT_LIMIT || offset & 0xFF == 0)
}

/// The word `w` after `offset` was stored in it: label and has-leaf bit stay,
/// everything else is replaced.
pub open spec fn word_with_offset(w: u32, offset: u32) -> u32 {
    if offset < OFFSET_DIRECT_LIMIT {
        (offset << 10) | (w & 0x1FF)
    } else {
        (offset << 2) | 0x200 | (w & 0x1FF)
    }
}

/// The word `w` with bit 8 set to `has_leaf`.
pub open spec fn word_with_has_leaf(w: u32, has_leaf: bool) -> u32 {
    if has_leaf {
        w | 0x100
    } else {
        w & !0x100u32
    }
}

/// The word `w` with its low 8 bits replaced by `label`.
pub open spec fn word_with_label(w: u32, label: u8) -> u32 {
    ((w >> 8) << 8) | (label as u32)
}

/// The leaf word that carries `value`.
pub open spec fn word_with_value(value: u32) -> u32 {
    value | 0x8000_0000
}

/// What the accessors read from the zero word and from a leaf word.
pub proof fn lemma_word_basics(w: u32)
    by (bit_vector)
    ensures
        !word_has_leaf(0) && !word_is_leaf(0) && word_value(0) == 0 && word_label(0) == 0
            && word_offset(0) == 0,
        (w & 0x200) >> 6 == 0 || (w & 0x200) >> 6 == 8,
        word_is_leaf(w) <==> word_label(w) > 0xFF,
        word_is_leaf(w) <==> w >= 0x8000_0000,
        word_value(w) < 0x8000_0000,
        word_offset(w) < 0x2000_0000 || word_is_leaf(w),
        !word_is_leaf(w) ==> offset_fits(word_offset(w)),
{
}

/// Storing an offset that fits and reading it back gives the same offset;
/// label and has-leaf bit are untouched and the word is an internal node.
pub proof fn lemma_offset_roundtrip(w: u32, offset: u32)
    by (bit_vector)
    requires
        offset_fits(offset),
    ensures
        word_offset(word_with_offset(w, offset)) == offset,
        word_has_leaf(word_with_offset(w, offset)) == word_has_leaf(w),
        !word_is_leaf(word_with_offset(w, offset)),
        word_label(word_with_offset(w, offset)) == w & 0xFF,
        !word_is_leaf(w) ==> word_label(word_with_offset(w, offset)) == word_label(w),
        (w << 23) >> 23 == w & 0x1FF,
{
}

/// Setting the has-leaf bit and reading it back gives the same flag; nothing
/// else in the word changes.
pub proof fn lemma_has_leaf_roundtrip(w: u32, has_leaf: bool)
    by (bit_vector)
    ensures
        word_has_leaf(word_with_has_leaf(w, has_leaf)) == has_leaf,
        word_offset(word_with_has_leaf(w, has_leaf)) == word_offset(w),
        word_label(word_with_has_leaf(w, has_leaf)) == word_label(w),
        word_is_leaf(word_with_has_leaf(w, has_leaf)) == word_is_leaf(w),
{
}

/// Setting the label of an internal node and reading it back gives the same
/// label; on any word the bits above the label are untouched.
pub proof fn lemma_label_roundtrip(w: u32, label: u8)
    by (bit_vector)
    ensures
        word_label(word_with_label(w, label)) == (label as u32) | (w & 0x8000_0000),
        !word_is_leaf(w) ==> word_label(word_with_label(w, label)) == label as u32,
        word_offset(word_with_label(w, label)) == word_offset(w),
        word_has_leaf(word_with_label(w, label)) == word_has_leaf(w),
        word_is_leaf(word_with_label(w, label)) == word_is_leaf(w),
        word_with_label(0, label) == label as u32,
{
}

/// Storing a value and reading it back gives its low 31 bits, and the word
/// is a leaf.
pub proof fn lemma_value_roundtrip(value: u32)
    by (bit_vector)
    ensures
        word_value(word_with_value(value)) == value & 0x7FFF_FFFF,
        value < 0x8000_0000 ==> word_value(word_with_value(value)) == value,
        word_is_leaf(word_with_value(value)),
        word_label(word_with_value(value)) > 0xFF,
{
}

/// The offset that was stored in a word is read back after the has-leaf bit
/// was set as well.
pub proof fn lemma_offset_roundtrip_of_expanded(w: u32, offset: u32, has_leaf: bool)
    requires
        offset_fits(offset),
    ensures
        word_offset(word_with_has_leaf(word_with_offset(w, offset), has_leaf)) == offset,
{
    lemma_offset_roundtrip(w, offset);
    lemma_has_leaf_roundtrip(word_with_offset(w, offset), has_leaf);
}

/// What the accessors read from a word that carries a label and nothing
/// else, and that two offsets which lead to the same child by the same label
/// are one offset.
pub proof fn lemma_label_word(label: u8, a: u32, b: u32)
    by (bit_vector)
    ensures
        word_label(label as u32) == label as u32,
        !word_is_leaf(label as u32),
        !word_has_leaf(label as u32),
        word_offset(label as u32) == 0,
        (label as u32) & 0xFF == label as u32,
        (a ^ (label as u32)) == (b ^ (label as u32)) ==> a == b,
        a ^ 0 == a,
{
}

/// The description of a unit with the word `w`: of a leaf its value, of an
/// internal node its offset, its label and its has-leaf flag. The label 0 is
/// shown as `NULL`, any other as the escaped character with that code.
pub open spec fn unit_text(w: u32) -> Seq<char> {
    if word_is_leaf(w) {
        "Unit { value: "@ + decimal_text(word_value(w) as nat) + " }"@
    } else {
        "Unit { offset: "@ + decimal_text(word_offset(w) as nat) + ", label: "@ + (if word_label(w)
            == 0 {
            "NULL"@
        } else {
            escaped_text(word_label(w) as u8)
        }) + ", has_leaf: "@ + (if word_has_leaf(w) {
            "true"@
        } else {
            "false"@
        }) + " }"@
    }
}

/// One element of the double array.
#[derive(Copy, Clone)]
pub struct Unit(u32);

impl View for Unit {
    type V = u32;

    /// The 32-bit word of the unit.
    closed spec fn view(&self) -> u32 {
        self.0
    }
}

impl Unit {
    /// Creates an empty unit: an internal node with label 0, offset 0 and no
    /// leaf.
    pub fn new() -> (unit: Self)
        ensures
            unit@ == 0,
            !word_is_leaf(unit@),
            !word_has_leaf(unit@),
            word_offset(unit@) == 0,
            word_label(unit@) == 0,
            word_value(unit@) == 0,
    {
        proof {
            lemma_word_basics(0);
        }
        Self(0)
    }

    /// Creates a unit from its 32-bit word.
    pub fn from_u32(value: u32) -> (unit: Self)
        ensures
            unit@ == value,
    {
        Self(value)
    }

    /// Returns the 32-bit word of the unit.
    pub fn as_u32(&self) -> (word: u32)
        ensures
            word == self@,
    {
        self.0
    }

    /// Returns true if one of the unit's children is a leaf.
    pub fn has_leaf(&self) -> (flag: bool)
        ensures
            flag == word_has_leaf(self@),
    {
        ((self.0 >> 8) & 1) == 1
    }

    /// Returns true if the unit is a leaf, which carries a value.
    pub fn is_leaf(&self) -> (flag: bool)
        ensures
            flag == word_is_leaf(self@),
    {
        (self.0 >> 31) == 1
    }

    /// Returns the 31-bit value of the unit.
    pub fn value(&self) -> (value: u32)
        ensures
            value == word_value(self@),
            value < VALUE_LIMIT,
    {
        proof {
            lemma_word_basics(self.0);
        }
        self.0 & 0x7FFF_FFFF
    }

    /// Returns the label of the unit: at most 255 for an internal node, more
    /// than 255 for a leaf.
    pub fn label(&self) -> (label: u32)
        ensures
            label == word_label(self@),
            label > 0xFF <==> word_is_leaf(self@),
    {
        proof {
            lemma_word_basics(self.0);
        }
        self.0 & 0x8000_00FF
    }

    /// Returns the offset of the unit: the offset field, times 256 where the
    /// extend bit is set.
    pub fn offset(&self) -> (offset: u32)
        ensures
            offset == word_offset(self@),
    {
        proof {
            lemma_word_basics(self.0);
        }
        (self.0 >> 10) << ((self.0 & 0x200) >> 6)
    }

    /// Stores `offset` in the unit. An offset of 2^21 or more is stored
    /// without its low 8 bits, which must be zero, and with the extend bit
    /// set. The label and the has-leaf bit of the unit stay as they are; the
    /// unit is an internal node afterwards.
    pub fn set_offset(&mut self, offset: u32)
        requires
            offset_fits(offset),
        ensures
            final(self)@ == word_with_offset(old(self)@, offset),
            word_offset(final(self)@) == offset,
            word_has_leaf(final(self)@) == word_has_leaf(old(self)@),
            word_label(final(self)@) == old(self)@ & 0xFF,
            !word_is_leaf(old(self)@) ==> word_label(final(self)@) == word_label(old(self)@),
            !word_is_leaf(final(self)@),
    {
        proof {
            lemma_offset_roundtrip(self.0, offset);
        }
        if offset < OFFSET_DIRECT_LIMIT {
            self.0 = (offset << 10) | ((self.0 << 23) >> 23);
        } else {
            self.0 = (offset << 2) | 0x200 | ((self.0 << 23) >> 23);
        }
    }

    /// Sets the has-leaf bit of the unit to `has_leaf`.
    pub fn set_has_leaf(&mut self, has_leaf: bool)
        ensures
            final(self)@ == word_with_has_leaf(old(self)@, has_leaf),
            word_has_leaf(final(self)@) == has_leaf,
            word_offset(final(self)@) == word_offset(old(self)@),
            word_label(final(self)@) == word_label(old(self)@),
            word_is_leaf(final(self)@) == word_is_leaf(old(self)@),
    {
        proof {
            lemma_has_leaf_roundtrip(self.0, has_leaf);
        }
        self.0 = if has_leaf {
            self.0 | 0x100
        } else {
            self.0 & !0x100u32
        }
    }

    /// Sets the low 8 bits of the unit to `label`. On an internal node this
    /// is the label that is read back.
    pub fn set_label(&mut self, label: u8)
        ensures
            final(self)@ == word_with_label(old(self)@, label),
            !word_is_leaf(old(self)@) ==> word_label(final(self)@) == label as u32,
            word_offset(final(self)@) == word_offset(old(self)@),
            word_has_leaf(final(self)@) == word_has_leaf(old(self)@),
            word_is_leaf(final(self)@) == word_is_leaf(old(self)@),
    {
        proof {
            lemma_label_roundtrip(self.0, label);
        }
        self.0 = ((self.0 >> 8) << 8) | (label as u32);
    }

    /// Makes the unit the leaf that carries `value`. Bit 31 of `value` is
    /// lost to the leaf bit.
    pub fn set_value(&mut self, value: u32)
        ensures
            final(self)@ == word_with_value(value),
            word_value(final(self)@) == value & 0x7FFF_FFFF,
            value < VALUE_LIMIT ==> word_value(final(self)@) == value,
            word_is_leaf(final(self)@),
    {
        proof {
            lemma_value_roundtrip(value);
        }
        self.0 = value | 0x8000_0000;
    }

    /// Returns a description of the unit.
    pub fn to_string(&self) -> (text: String)
        ensures
            text@ == unit_text(self@),
    {
        if self.is_leaf() {
            // leaf node
            let mut text = String::from_str("Unit { value: ");
            push_decimal(&mut text, self.value());
            text.append(" }");
            text
        } else {
            // internal node
            let label = self.label();
            let mut text = String::from_str("Unit { offset: ");
            push_decimal(&mut text, self.offset());
            text.append(", label: ");
            if label == 0 {
                text.append("NULL");
            } else {
                push_escaped(&mut text, label as u8);
            }
            text.append(", has_leaf: ");
            if self.has_leaf() {
                text.append("true");
            } else {
                text.append("false");
            }
            text.append(" }");
            text
        }
    }
}

} // verus!
