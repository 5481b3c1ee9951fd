//! The runs of a range of keys: the keys of a valid keyset that start with
//! one prefix, grouped by the label with which each goes on.
//!
//! A run is a triple of a label, the index of its first key and the index
//! after its last key. Because the keyset is sorted, the keys that go on
//! with one label lie side by side, and the runs come in ascending order of
//! their labels. Only the first run can have the terminator 0 as its label,
//! and it then holds one key: the prefix itself.

use crate::keyset::{
    has_prefix, is_key, is_key_prefix, key_lt, keys_of, label_at, lemma_labels_ascend,
    lemma_prefix_push, lemma_span_deeper, lemma_span_split, span, valid_keyset, zero_free, Keys,
};
use vstd::prelude::*;

verus! {

/// The first `depth` bytes of key `begin`.
pub open spec fn prefix_of(keys: Keys, begin: int, depth: int) -> Seq<u8> {
    keys[begin].0.subrange(0, depth)
}

/// The keys from `begin` up to `end` are the keys that start with the first
/// `depth` bytes of key `begin`.
pub open spec fn is_range(keys: Keys, depth: int, begin: int, end: int) -> bool {
    &&& 0 <= begin < end <= keys.len()
    &&& 0 <= depth <= keys[begin].0.len()
    &&& forall|i: int|
        0 <= i < keys.len() ==> ((begin <= i < end) <==> has_prefix(
            (#[trigger] keys[i]).0,
            prefix_of(keys, begin, depth),
        ))
}

/// The runs lie side by side from `begin` up to `upto`, each holds the keys
/// that go on with its label after `depth` bytes, and the labels ascend.
pub open spec fn grouped_upto(
    keys: Keys,
    depth: int,
    begin: int,
    upto: int,
    runs: Seq<(u8, usize, usize)>,
) -> bool {
    &&& runs.len() > 0
    &&& runs[0].1 == begin
    &&& runs.last().2 == upto
    &&& forall|k: int| 0 <= k < runs.len() ==> begin <= (#[trigger] runs[k]).1 < runs[k].2 <= upto
    &&& forall|k: int| 0 <= k < runs.len() - 1 ==> (#[trigger] runs[k]).2 == runs[k + 1].1
    &&& forall|k: int, i: int|
        0 <= k < runs.len() && runs[k].1 <= i < runs[k].2 ==> label_at(
            (#[trigger] keys[i]).0,
            depth,
        ) == (#[trigger] runs[k]).0
    &&& forall|k1: int, k2: int|
        0 <= k1 < k2 < runs.len() ==> (#[trigger] runs[k1]).0 < (#[trigger] runs[k2]).0
}

/// The runs are the runs of the range from `begin` up to `end`.
pub open spec fn grouped(
    keys: Keys,
    depth: int,
    begin: int,
    end: int,
    runs: Seq<(u8, usize, usize)>,
) -> bool {
    grouped_upto(keys, depth, begin, end, runs)
}

/// The labels of the runs.
pub open spec fn labels_of(runs: Seq<(u8, usize, usize)>) -> Seq<u8> {
    Seq::new(runs.len(), |k: int| runs[k].0)
}

/// The labels from index `from` on, as a set.
pub open spec fn label_set(labels: Seq<u8>, from: int) -> Set<u8> {
    Set::new(|c: u8| exists|m: int| from <= m < labels.len() && #[trigger] labels[m] == c)
}

/// The index of the run that holds key `i`.
pub open spec fn run_of(runs: Seq<(u8, usize, usize)>, i: int) -> int
    decreases runs.len(),
{
    if runs.len() <= 1 || i >= runs.last().1 {
        runs.len() - 1
    } else {
        run_of(runs.drop_last(), i)
    }
}

/// Every key of the range lies in one of its runs.
pub proof fn lemma_run_of(
    keys: Keys,
    depth: int,
    begin: int,
    end: int,
    runs: Seq<(u8, usize, usize)>,
    i: int,
)
    requires
        grouped_upto(keys, depth, begin, end, runs),
        begin <= i < end,
    ensures
        0 <= run_of(runs, i) < runs.len(),
        runs[run_of(runs, i)].1 <= i < runs[run_of(runs, i)].2,
    decreases runs.len(),
{
    if runs.len() <= 1 || i >= runs.last().1 {
    } else {
        let shorter = runs.drop_last();
        assert(runs[runs.len() - 2].2 == runs[runs.len() - 1].1);
        assert(shorter.last() == runs[runs.len() - 2]);
        assert(shorter[0] == runs[0]);
        assert forall|k: int| 0 <= k < shorter.len() implies begin <= (#[trigger] shorter[k]).1
            < shorter[k].2 <= runs.last().1 by {
            assert(shorter[k] == runs[k]);
            if k < shorter.len() - 1 {
                assert(runs[k].2 == runs[k + 1].1);
                assert(runs[k + 1].0 < runs.last().0 || k + 1 == runs.len() - 1);
            }
            lemma_run_starts_ascend(keys, depth, begin, end, runs, k, runs.len() - 1);
        }
        assert(grouped_upto(keys, depth, begin, runs.last().1 as int, shorter)) by {
            assert forall|k: int| 0 <= k < shorter.len() - 1 implies (#[trigger] shorter[k]).2
                == shorter[k + 1].1 by {
                assert(shorter[k] == runs[k]);
                assert(shorter[k + 1] == runs[k + 1]);
            }
            assert forall|k: int, j: int|
                0 <= k < shorter.len() && shorter[k].1 <= j < shorter[k].2 implies label_at(
                (#[trigger] keys[j]).0,
                depth,
            ) == (#[trigger] shorter[k]).0 by {
                assert(shorter[k] == runs[k]);
            }
            assert forall|k1: int, k2: int| 0 <= k1 < k2 < shorter.len() implies (
            #[trigger] shorter[k1]).0 < (#[trigger] shorter[k2]).0 by {
                assert(shorter[k1] == runs[k1]);
                assert(shorter[k2] == runs[k2]);
            }
        }
        lemma_run_of(keys, depth, begin, runs.last().1 as int, shorter, i);
        assert(shorter[run_of(shorter, i)] == runs[run_of(shorter, i)]);
    }
}

/// A later run starts where an earlier run ends, or after that.
pub proof fn lemma_run_starts_ascend(
    keys: Keys,
    depth: int,
    begin: int,
    end: int,
    runs: Seq<(u8, usize, usize)>,
    k1: int,
    k2: int,
)
    requires
        grouped_upto(keys, depth, begin, end, runs),
        0 <= k1 < k2 < runs.len(),
    ensures
        runs[k1].2 <= runs[k2].1,
    decreases k2 - k1,
{
    assert(runs[k1].2 == runs[k1 + 1].1);
    if k1 + 1 < k2 {
        lemma_run_starts_ascend(keys, depth, begin, end, runs, k1 + 1, k2);
        assert(runs[k1 + 1].1 < runs[k1 + 1].2);
    }
}

/// The runs of the keys from `begin` up to `upto`, grouped by the label
/// after `depth` bytes: key by key, a key that goes on with the label of
/// the last run makes that run longer, and any other key starts a run.
pub open spec fn runs_upto(keys: Keys, depth: int, begin: int, upto: int) -> Seq<
    (u8, usize, usize),
>
    decreases upto - begin,
{
    if upto <= begin {
        Seq::empty()
    } else {
        let before = runs_upto(keys, depth, begin, upto - 1);
        let label = label_at(keys[upto - 1].0, depth);
        if before.len() > 0 && before.last().0 == label {
            before.update(before.len() - 1, (label, before.last().1, upto as usize))
        } else {
            before.push((label, (upto - 1) as usize, upto as usize))
        }
    }
}

/// The runs of the range from `begin` up to `end`, grouped by the label
/// after `depth` bytes.
pub open spec fn runs_of(keys: Keys, depth: int, begin: int, end: int) -> Seq<(u8, usize, usize)> {
    runs_upto(keys, depth, begin, end)
}

/// The runs of the first keys of a range lie side by side, each holds the
/// keys with its label, and their labels ascend.
pub proof fn lemma_runs_grouped(keys: Keys, depth: int, begin: int, end: int, upto: int)
    requires
        valid_keyset(keys),
        is_range(keys, depth, begin, end),
        begin < upto <= end <= usize::MAX,
    ensures
        grouped_upto(keys, depth, begin, upto, runs_upto(keys, depth, begin, upto)),
    decreases upto - begin,
{
    let prefix = prefix_of(keys, begin, depth);
    let runs = runs_upto(keys, depth, begin, upto);
    let before = runs_upto(keys, depth, begin, upto - 1);
    let i = upto - 1;
    let label = label_at(keys[i].0, depth);
    if i == begin {
        assert(before =~= Seq::empty());
        assert(runs =~= seq![(label, i as usize, upto as usize)]);
    } else {
        lemma_runs_grouped(keys, depth, begin, end, i);
        let n = before.len() as int;
        let last = before.last();
        assert(last.1 <= i - 1 < last.2);
        assert(label_at(keys[i - 1].0, depth) == last.0);
        assert(key_lt(keys[i - 1].0, keys[i].0));
        assert(has_prefix(keys[i - 1].0, prefix));
        assert(has_prefix(keys[i].0, prefix));
        lemma_labels_ascend(keys[i - 1].0, keys[i].0, prefix);
        if last.0 != label {
            assert(runs.last() == (label, i as usize, upto as usize));
            assert forall|m: int| 0 <= m < n implies runs[m] == before[m] by {}
            assert forall|m: int| 0 <= m < runs.len() - 1 implies (#[trigger] runs[m]).2
                == runs[m + 1].1 by {
                if m < n - 1 {
                    assert(before[m].2 == before[m + 1].1);
                }
            }
            assert forall|k1: int, k2: int| 0 <= k1 < k2 < runs.len() implies (
            #[trigger] runs[k1]).0 < (#[trigger] runs[k2]).0 by {
                if k2 == n {
                    if k1 < n - 1 {
                        assert(before[k1].0 < before[n - 1].0);
                    }
                } else {
                    assert(before[k1].0 < before[k2].0);
                }
            }
            assert forall|m: int, j: int|
                0 <= m < runs.len() && runs[m].1 <= j < runs[m].2 implies label_at(
                (#[trigger] keys[j]).0,
                depth,
            ) == (#[trigger] runs[m]).0 by {
                if m < n {
                    assert(before[m].1 <= j < before[m].2);
                }
            }
            assert forall|m: int| 0 <= m < runs.len() implies begin <= (#[trigger] runs[m]).1
                < runs[m].2 <= upto by {
                if m < n {
                    assert(begin <= before[m].1 < before[m].2 <= i);
                }
            }
        } else {
            assert(runs.last() == (last.0, last.1, upto as usize));
            assert forall|m: int| 0 <= m < n - 1 implies runs[m] == before[m] by {}
            assert forall|m: int| 0 <= m < runs.len() - 1 implies (#[trigger] runs[m]).2
                == runs[m + 1].1 by {
                assert(before[m].2 == before[m + 1].1);
            }
            assert forall|k1: int, k2: int| 0 <= k1 < k2 < runs.len() implies (
            #[trigger] runs[k1]).0 < (#[trigger] runs[k2]).0 by {
                assert(before[k1].0 < before[k2].0);
            }
            assert forall|m: int, j: int|
                0 <= m < runs.len() && runs[m].1 <= j < runs[m].2 implies label_at(
                (#[trigger] keys[j]).0,
                depth,
            ) == (#[trigger] runs[m]).0 by {
                if j < i {
                    assert(before[m].1 <= j < before[m].2);
                }
            }
            assert forall|m: int| 0 <= m < runs.len() implies begin <= (#[trigger] runs[m]).1
                < runs[m].2 <= upto by {
                assert(begin <= before[m].1 < before[m].2 <= i);
            }
            assert(runs[0].0 == before[0].0);
            assert(runs[0].1 == before[0].1);
        }
    }
}

/// The runs of a range are a grouping of the range.
pub proof fn lemma_runs_of_range(keys: Keys, depth: int, begin: int, end: int)
    requires
        valid_keyset(keys),
        is_range(keys, depth, begin, end),
        end <= usize::MAX,
    ensures
        grouped(keys, depth, begin, end, runs_of(keys, depth, begin, end)),
{
    lemma_runs_grouped(keys, depth, begin, end, end);
}

/// The prefix of a range is a key exactly if the first run has the
/// terminator as its label, and the key is then the first of the range. Some
/// key goes on from the prefix with a label other than the terminator
/// exactly if that label is among the labels of the runs.
pub proof fn lemma_labels_of_range(
    keys: Keys,
    depth: int,
    begin: int,
    end: int,
    runs: Seq<(u8, usize, usize)>,
)
    requires
        valid_keyset(keys),
        is_range(keys, depth, begin, end),
        grouped(keys, depth, begin, end, runs),
    ensures
        is_key(keys, prefix_of(keys, begin, depth)) <==> runs[0].0 == 0,
        runs[0].0 == 0 ==> keys[begin].0 == prefix_of(keys, begin, depth),
        forall|c: u8|
            c != 0 && is_key_prefix(keys, #[trigger] prefix_of(keys, begin, depth).push(c))
                ==> label_set(labels_of(runs), 0).contains(c),
{
    let prefix = prefix_of(keys, begin, depth);
    assert(label_at(keys[begin].0, depth) == runs[0].0);
    assert(zero_free(keys[begin].0));
    if runs[0].0 == 0 {
        assert(keys[begin].0 =~= prefix);
    }
    if is_key(keys, prefix) {
        let i = choose|i: int| 0 <= i < keys.len() && (#[trigger] keys[i]).0 == prefix;
        assert(keys[i].0.subrange(0, depth) =~= prefix);
        assert(has_prefix(keys[i].0, prefix));
        lemma_run_of(keys, depth, begin, end, runs, i);
        let k = run_of(runs, i);
        assert(label_at(keys[i].0, depth) == runs[k].0);
        if k > 0 {
            assert(runs[0].0 < runs[k].0);
        }
    }
    assert forall|c: u8| c != 0 && is_key_prefix(keys, #[trigger] prefix.push(c)) implies label_set(
        labels_of(runs),
        0,
    ).contains(c) by {
        let i = choose|i: int|
            0 <= i < keys.len() && has_prefix((#[trigger] keys[i]).0, prefix.push(c));
        lemma_prefix_push(keys[i].0, prefix, c);
        lemma_run_of(keys, depth, begin, end, runs, i);
        let k = run_of(runs, i);
        assert(label_at(keys[i].0, depth) == runs[k].0);
        assert(labels_of(runs)[k] == c);
    }
}

/// A run with a label other than the terminator is the range of the keys
/// that start with the prefix followed by that label. Its keys take part of
/// the span of the whole range.
pub proof fn lemma_run_is_range(
    keys: Keys,
    depth: int,
    begin: int,
    end: int,
    runs: Seq<(u8, usize, usize)>,
    k: int,
)
    requires
        valid_keyset(keys),
        is_range(keys, depth, begin, end),
        grouped(keys, depth, begin, end, runs),
        0 <= k < runs.len(),
        runs[k].0 != 0,
    ensures
        is_range(keys, depth + 1, runs[k].1 as int, runs[k].2 as int),
        prefix_of(keys, runs[k].1 as int, depth + 1) == prefix_of(keys, begin, depth).push(runs[k].0),
        is_key_prefix(keys, prefix_of(keys, begin, depth).push(runs[k].0)),
        span(keys, runs[k].1 as int, runs[k].2 as int, depth + 1) >= 0,
        span(keys, runs[k].1 as int, runs[k].2 as int, depth + 1) < span(
            keys,
            runs[k].1 as int,
            runs[k].2 as int,
            depth,
        ),
{
    let prefix = prefix_of(keys, begin, depth);
    let c = runs[k].0;
    let first = runs[k].1 as int;
    let after = runs[k].2 as int;
    let longer = prefix_of(keys, first, depth + 1);
    assert(label_at(keys[first].0, depth) == c);
    assert(has_prefix(keys[first].0, prefix));
    assert(longer =~= prefix.push(c));
    lemma_prefix_push(keys[first].0, prefix, c);
    assert forall|i: int| 0 <= i < keys.len() implies ((first <= i < after) <==> has_prefix(
        (#[trigger] keys[i]).0,
        longer,
    )) by {
        lemma_prefix_push(keys[i].0, prefix, c);
        if first <= i < after {
            assert(label_at(keys[i].0, depth) == runs[k].0);
            assert(has_prefix(keys[i].0, prefix));
        }
        if has_prefix(keys[i].0, longer) {
            lemma_run_of(keys, depth, begin, end, runs, i);
            let k2 = run_of(runs, i);
            assert(label_at(keys[i].0, depth) == runs[k2].0);
            if k2 < k {
                assert(runs[k2].0 < runs[k].0);
            }
            if k < k2 {
                assert(runs[k].0 < runs[k2].0);
            }
        }
    }
    assert forall|i: int| first <= i < after implies depth < (#[trigger] keys[i]).0.len() by {
        assert(label_at(keys[i].0, depth) == runs[k].0);
    }
    lemma_span_deeper(keys, first, after, depth);
}

/// The keys of a run with a label other than the terminator have fewer
/// bytes beyond the longer prefix than the keys of the whole range have
/// beyond the prefix.
pub proof fn lemma_run_span(
    keys: Keys,
    depth: int,
    begin: int,
    end: int,
    runs: Seq<(u8, usize, usize)>,
    k: int,
)
    requires
        valid_keyset(keys),
        is_range(keys, depth, begin, end),
        grouped(keys, depth, begin, end, runs),
        0 <= k < runs.len(),
        runs[k].0 != 0,
    ensures
        0 <= span(keys, runs[k].1 as int, runs[k].2 as int, depth + 1) < span(
            keys,
            begin,
            end,
            depth,
        ),
{
    let first = runs[k].1 as int;
    let after = runs[k].2 as int;
    lemma_run_is_range(keys, depth, begin, end, runs, k);
    lemma_span_split(keys, begin, first, end, depth);
    lemma_span_split(keys, first, after, end, depth);
    lemma_span_nonnegative(keys, depth, begin, end, begin, first);
    lemma_span_nonnegative(keys, depth, begin, end, after, end);
}

/// The keys of a run with the terminator as its label have no bytes beyond
/// the prefix, and those of any run have none missing.
pub proof fn lemma_span_of_runs(
    keys: Keys,
    depth: int,
    begin: int,
    end: int,
    runs: Seq<(u8, usize, usize)>,
    k: int,
)
    requires
        valid_keyset(keys),
        is_range(keys, depth, begin, end),
        grouped(keys, depth, begin, end, runs),
        0 <= k < runs.len(),
    ensures
        span(keys, runs[k].1 as int, end, depth) == span(
            keys,
            runs[k].1 as int,
            runs[k].2 as int,
            depth,
        ) + span(keys, runs[k].2 as int, end, depth),
        span(keys, runs[k].1 as int, runs[k].2 as int, depth) >= 0,
        span(keys, runs[k].2 as int, end, depth) >= 0,
{
    lemma_span_split(keys, runs[k].1 as int, runs[k].2 as int, end, depth);
    lemma_span_nonnegative(keys, depth, begin, end, runs[k].1 as int, runs[k].2 as int);
    lemma_span_nonnegative(keys, depth, begin, end, runs[k].2 as int, end);
}

/// The span of a part of a range is not negative.
pub proof fn lemma_span_nonnegative(
    keys: Keys,
    depth: int,
    begin: int,
    end: int,
    from: int,
    to: int,
)
    requires
        is_range(keys, depth, begin, end),
        begin <= from <= to <= end,
    ensures
        span(keys, from, to, depth) >= 0,
    decreases to - from,
{
    if from < to {
        lemma_span_nonnegative(keys, depth, begin, end, from, to - 1);
        assert(has_prefix(keys[to - 1].0, prefix_of(keys, begin, depth)));
    }
}

/// Taking the label at `from` out of the set of the labels from `from` on
/// leaves the labels after it; no label is left after the last.
pub proof fn lemma_label_set_step(labels: Seq<u8>, from: int)
    requires
        0 <= from <= labels.len(),
        forall|k1: int, k2: int| 0 <= k1 < k2 < labels.len() ==> labels[k1] < labels[k2],
    ensures
        from < labels.len() ==> label_set(labels, from).contains(labels[from]) && label_set(
            labels,
            from,
        ).remove(labels[from]) == label_set(labels, from + 1),
        from == labels.len() ==> forall|c: u8| !label_set(labels, from).contains(c),
{
    if from < labels.len() {
        let here = label_set(labels, from);
        let after = label_set(labels, from + 1);
        assert(here.contains(labels[from]));
        assert forall|c: u8| here.remove(labels[from]).contains(c) == after.contains(c) by {
            if here.remove(labels[from]).contains(c) {
                let m = choose|m: int| from <= m < labels.len() && #[trigger] labels[m] == c;
                assert(m != from);
                assert(from + 1 <= m < labels.len() && labels[m] == c);
            }
            if after.contains(c) {
                let m = choose|m: int| from + 1 <= m < labels.len() && #[trigger] labels[m] == c;
                assert(from <= m < labels.len() && labels[m] == c);
                assert(labels[from] < labels[m]);
            }
        }
        assert(here.remove(labels[from]) =~= after);
    }
}

/// Groups the keys from `begin` up to `end`, which start with the same
/// `depth` bytes, into runs by the label with which each goes on. Returns
/// the runs and, where the prefix itself is a key, its value.
pub fn group_labels(keyset: &[(&[u8], u32)], depth: usize, begin: usize, end: usize) -> (res: (
    Vec<(u8, usize, usize)>,
    Option<u32>,
))
    requires
        valid_keyset(keys_of(keyset)),
        is_range(keys_of(keyset), depth as int, begin as int, end as int),
    ensures
        res.0@ == runs_of(keys_of(keyset), depth as int, begin as int, end as int),
        grouped(keys_of(keyset), depth as int, begin as int, end as int, res.0@),
        res.1 == if res.0@[0].0 == 0 {
            Some(keys_of(keyset)[begin as int].1)
        } else {
            None
        },
        forall|k: int| 0 <= k < res.0@.len() && (#[trigger] res.0@[k]).0 != 0 ==> depth < usize::MAX,
{
    let ghost keys = keys_of(keyset);
    let ghost prefix = prefix_of(keys, begin as int, depth as int);
    // an element of labels is a triple (label, start position, end position)
    let mut labels: Vec<(u8, usize, usize)> = Vec::with_capacity(256);
    let mut value: Option<u32> = None;

    let mut i: usize = begin;
    while i < end
        invariant
            begin <= i <= end <= keyset.len(),
            keys == keys_of(keyset),
            prefix == prefix_of(keys, begin as int, depth as int),
            valid_keyset(keys),
            is_range(keys, depth as int, begin as int, end as int),
            labels@ == runs_upto(keys, depth as int, begin as int, i as int),
            value == if i > begin && label_at(keys[begin as int].0, depth as int) == 0 {
                Some(keys[begin as int].1)
            } else {
                None
            },
            forall|j: int|
                begin <= j < i && label_at((#[trigger] keys[j]).0, depth as int) != 0 ==> depth
                    < usize::MAX,
        decreases end - i,
    {
        let key = keyset[i].0;
        let ghost k = keys[i as int];
        assert(k == (key@, keyset[i as int].1));
        assert(has_prefix(k.0, prefix));
        let label = if depth == key.len() {
            0
        } else {
            key[depth]
        };
        assert(label == label_at(k.0, depth as int));
        proof {
            if i > begin {
                assert(key_lt(keys[begin as int].0, keys[i as int].0));
                assert(has_prefix(keys[begin as int].0, prefix));
                lemma_labels_ascend(keys[begin as int].0, k.0, prefix);
                assert(zero_free(k.0));
                assert(label != 0);
            }
        }
        if label == 0 {
            value = Some(keyset[i].1);
        }
        let n = labels.len();
        if n == 0 {
            labels.push((label, i, i + 1));
        } else {
            let last = labels[n - 1];
            if last.0 != label {
                labels.push((label, i, i + 1));
            } else {
                labels[n - 1] = (last.0, last.1, i + 1);
            }
        }
        i += 1;
    }
    proof {
        lemma_runs_grouped(keys, depth as int, begin as int, end as int, end as int);
        assert(label_at(keys[begin as int].0, depth as int) == labels@[0].0);
        assert forall|k: int| 0 <= k < labels@.len() && (#[trigger] labels@[k]).0 != 0 implies depth
            < usize::MAX by {
            let j = labels@[k].1 as int;
            assert(labels@[k].1 <= j < labels@[k].2);
            assert(label_at(keys[j].0, depth as int) == labels@[k].0);
        }
    }
    (labels, value)
}

/// The labels of the runs, in their order.
pub fn run_labels(runs: &Vec<(u8, usize, usize)>) -> (labels: Vec<u8>)
    ensures
        labels@ == labels_of(runs@),
{
    let mut labels: Vec<u8> = Vec::with_capacity(runs.len());
    let mut k: usize = 0;
    while k < runs.len()
        invariant
            k <= runs.len(),
            labels@.len() == k,
            forall|m: int| 0 <= m < k ==> labels@[m] == runs@[m].0,
        decreases runs.len() - k,
    {
        labels.push(runs[k].0);
        k += 1;
    }
    assert(labels@ =~= labels_of(runs@));
    labels
}

} // verus!
