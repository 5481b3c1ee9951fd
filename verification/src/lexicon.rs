//! From a list of words to a keyset: the first column of a line of
//! comma-separated text, and the distinct words of a list in ascending
//! order, numbered from 1.

use crate::keyset::{key_lt, lemma_order_is_total};
use crate::unit::VALUE_LIMIT;
use itertools::Itertools;
use vstd::prelude::*;
use vstd::slice::slice_to_vec;

verus! {

/// The words as byte strings.
pub open spec fn views(words: Seq<Vec<u8>>) -> Seq<Seq<u8>> {
    words.map_values(|word: Vec<u8>| word@)
}

/// The words of a list of numbered words.
pub open spec fn words_of(pairs: Seq<(Vec<u8>, u32)>) -> Seq<Seq<u8>> {
    pairs.map_values(|pair: (Vec<u8>, u32)| pair.0@)
}

/// The words of a list without those that occurred before in it, in the
/// order of the list.
pub open spec fn first_occurrences(words: Seq<Seq<u8>>) -> Seq<Seq<u8>>
    decreases words.len(),
{
    if words.len() == 0 {
        Seq::empty()
    } else {
        let before = first_occurrences(words.drop_last());
        if before.contains(words.last()) {
            before
        } else {
            before.push(words.last())
        }
    }
}

/// The number of bytes of a line before its first comma, or of the whole
/// line if it has none, counted from byte `from` on.
pub open spec fn column_end(line: Seq<u8>, from: int) -> int
    decreases line.len() - from,
{
    if from < 0 || from >= line.len() || line[from] == 0x2C {
        from
    } else {
        column_end(line, from + 1)
    }
}

/// The first occurrences hold each word of the list once, and no other
/// word.
pub proof fn lemma_first_occurrences(words: Seq<Seq<u8>>)
    ensures
        first_occurrences(words).no_duplicates(),
        forall|word: Seq<u8>| #[trigger]
            first_occurrences(words).contains(word) ==> words.contains(word),
        forall|word: Seq<u8>| #[trigger]
            words.contains(word) ==> first_occurrences(words).contains(word),
    decreases words.len(),
{
    if words.len() > 0 {
        let shorter = words.drop_last();
        let before = first_occurrences(shorter);
        let all = first_occurrences(words);
        lemma_first_occurrences(shorter);
        assert forall|word: Seq<u8>| #[trigger] all.contains(word) implies words.contains(word) by {
            let k = choose|k: int| 0 <= k < all.len() && all[k] == word;
            if k < before.len() {
                assert(before[k] == word);
                assert(before.contains(word));
                assert(shorter.contains(word));
                let m = choose|m: int| 0 <= m < shorter.len() && shorter[m] == word;
                assert(words[m] == word);
            } else {
                assert(words[words.len() - 1] == word);
            }
        }
        assert forall|word: Seq<u8>| #[trigger] words.contains(word) implies all.contains(word) by {
            let m = choose|m: int| 0 <= m < words.len() && words[m] == word;
            if m < shorter.len() {
                assert(shorter[m] == word);
                assert(shorter.contains(word));
                assert(before.contains(word));
                let k = choose|k: int| 0 <= k < before.len() && before[k] == word;
                assert(all[k] == word);
            } else {
                if before.contains(word) {
                } else {
                    assert(all[before.len() as int] == word);
                }
            }
        }
    }
}

/// The distinct words of the list, each at its first place. This is
/// `Itertools::unique`, which is trusted to yield each item of the list the
/// first time it occurs and to pass over it later, as its documentation
/// says.
#[verifier::external_body]
fn unique_words(lexicon: &Vec<Vec<u8>>) -> (unique: Vec<Vec<u8>>)
    ensures
        views(unique@) == first_occurrences(views(lexicon@)),
{
    lexicon.iter().unique().cloned().collect()
}

/// Sorts the words in ascending order as strings of unsigned bytes. This is
/// `sort` of slices of the standard library, which is trusted to reorder the
/// words and to leave none before a smaller one.
#[verifier::external_body]
fn sort_words(words: &mut Vec<Vec<u8>>)
    ensures
        views(final(words)@).to_multiset() == views(old(words)@).to_multiset(),
        forall|i: int, j: int|
            0 <= i < j < final(words)@.len() ==> !key_lt(
                #[trigger] final(words)@[j]@,
                #[trigger] final(words)@[i]@,
            ),
{
    words.sort();
}

/// Returns the first column of a line of comma-separated text: the bytes
/// before the first comma, or the whole line if it has none.
pub fn first_column(line: &[u8]) -> (column: Vec<u8>)
    ensures
        column@ == line@.subrange(0, column_end(line@, 0)),
        0 <= column_end(line@, 0) <= line@.len(),
{
    let mut column: Vec<u8> = Vec::new();
    let mut i: usize = 0;
    while i < line.len() && line[i] != 0x2C
        invariant
            i <= line.len(),
            column_end(line@, 0) == column_end(line@, i as int),
            column@ == line@.subrange(0, i as int),
        decreases line.len() - i,
    {
        column.push(line[i]);
        assert(column@ =~= line@.subrange(0, i + 1));
        i += 1;
    }
    column
}

/// Returns the distinct words of the lexicon in strictly ascending order as
/// strings of unsigned bytes, each with its number in that order, from 1 on.
/// Returns `None` where the lexicon has 2^31 distinct words or more, for
/// which there are no values.
pub fn number_words(lexicon: &Vec<Vec<u8>>) -> (numbered: Option<Vec<(Vec<u8>, u32)>>)
    ensures
        match numbered {
            Some(pairs) => {
                &&& pairs@.len() == first_occurrences(views(lexicon@)).len()
                &&& pairs@.len() < VALUE_LIMIT
                &&& forall|i: int, j: int|
                    0 <= i < j < pairs@.len() ==> key_lt(
                        (#[trigger] pairs@[i]).0@,
                        (#[trigger] pairs@[j]).0@,
                    )
                &&& forall|i: int| 0 <= i < pairs@.len() ==> (#[trigger] pairs@[i]).1 == i + 1
                &&& forall|word: Seq<u8>| #[trigger]
                    words_of(pairs@).contains(word) ==> views(lexicon@).contains(word)
                &&& forall|word: Seq<u8>| #[trigger]
                    views(lexicon@).contains(word) ==> words_of(pairs@).contains(word)
            },
            None => first_occurrences(views(lexicon@)).len() >= VALUE_LIMIT,
        },
{
    // unique words
    let mut words = unique_words(lexicon);
    let ghost unique = views(words@);

    // sort by byte order
    sort_words(&mut words);
    let ghost sorted = views(words@);
    proof {
        lemma_first_occurrences(views(lexicon@));
        unique.lemma_multiset_has_no_duplicates();
        sorted.lemma_multiset_has_no_duplicates_conv();
        broadcast use vstd::seq_lib::to_multiset_contains;

        assert forall|word: Seq<u8>| sorted.contains(word) == unique.contains(word) by {
            assert(sorted.to_multiset().count(word) == unique.to_multiset().count(word));
        }
        vstd::seq_lib::to_multiset_len(sorted);
        vstd::seq_lib::to_multiset_len(unique);
        assert forall|i: int, j: int| 0 <= i < j < sorted.len() implies key_lt(
            sorted[i],
            sorted[j],
        ) by {
            assert(sorted[i] == words@[i]@ && sorted[j] == words@[j]@);
            assert(sorted[i] != sorted[j]);
            lemma_order_is_total(sorted[i], sorted[j], 0);
        }
    }
    if words.len() >= VALUE_LIMIT as usize {
        return None;
    }
    // number the words
    let mut pairs: Vec<(Vec<u8>, u32)> = Vec::with_capacity(words.len());
    let mut i: usize = 0;
    while i < words.len()
        invariant
            i <= words.len() < VALUE_LIMIT,
            sorted == views(words@),
            pairs@.len() == i,
            forall|k: int|
                0 <= k < i ==> (#[trigger] pairs@[k]).0@ == sorted[k] && pairs@[k].1 == k + 1,
        decreases words.len() - i,
    {
        let word = slice_to_vec(words[i].as_slice());
        assert(word@ == sorted[i as int]);
        pairs.push((word, (i + 1) as u32));
        i += 1;
    }
    proof {
        assert(words_of(pairs@) =~= sorted);
    }
    Some(pairs)
}

} // verus!
