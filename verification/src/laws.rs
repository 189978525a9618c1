//! The laws of the aggregation model: how the spec functions that
//! `TypeTable::from_lines` is specified with relate to one another.

use vstd::prelude::*;

use crate::decode::decode_of;
use crate::table::{
    aggregates, bytes_of, count_of, exclusions_of, keys_of, lemma_absent_key, TypeTable,
};

verus! {

/// Every exclusion is a line that fails to decode, carries that line's error
/// description, and the recorded indices are strictly increasing (so each
/// line index appears at most once); conversely every line that fails to
/// decode is recorded.
pub proof fn lemma_exclusions_shape(lines: Seq<Seq<u8>>)
    ensures
        forall|j: int|
            0 <= j < exclusions_of(lines).len() ==> 0 <= (#[trigger] exclusions_of(lines)[j]).0
                < lines.len() && decode_of(lines[exclusions_of(lines)[j].0]) is Err && exclusions_of(
                lines,
            )[j].1 == decode_of(lines[exclusions_of(lines)[j].0])->Err_0,
        forall|j1: int, j2: int|
            0 <= j1 < j2 < exclusions_of(lines).len() ==> (#[trigger] exclusions_of(
                lines,
            )[j1]).0 < (#[trigger] exclusions_of(lines)[j2]).0,
        forall|i: int|
            0 <= i < lines.len() && decode_of(lines[i]) is Err ==> exclusions_of(lines).contains(
                (i, decode_of(lines[i])->Err_0),
            ),
    decreases lines.len(),
{
    if lines.len() > 0 {
        let prev = lines.drop_last();
        lemma_exclusions_shape(prev);
        assert(forall|i: int| 0 <= i < prev.len() ==> prev[i] == lines[i]);
        match decode_of(lines.last()) {
            Ok(_) => {
                assert(exclusions_of(lines) == exclusions_of(prev));
                assert forall|i: int|
                    0 <= i < lines.len() && decode_of(lines[i]) is Err implies exclusions_of(
                    lines,
                ).contains((i, decode_of(lines[i])->Err_0)) by {
                    assert(i < prev.len());
                    assert(exclusions_of(prev).contains((i, decode_of(prev[i])->Err_0)));
                }
            },
            Err(msg) => {
                let last_idx = lines.len() - 1;
                let e = exclusions_of(lines);
                assert(e == exclusions_of(prev).push((last_idx, msg)));
                assert(e[e.len() - 1] == (last_idx, msg));
                assert(forall|j: int| 0 <= j < e.len() - 1 ==> e[j] == exclusions_of(prev)[j]);
                assert forall|i: int|
                    0 <= i < lines.len() && decode_of(lines[i]) is Err implies e.contains(
                    (i, decode_of(lines[i])->Err_0),
                ) by {
                    if i < last_idx {
                        assert(exclusions_of(prev).contains((i, decode_of(prev[i])->Err_0)));
                        let w = choose|w: int|
                            0 <= w < exclusions_of(prev).len() && exclusions_of(prev)[w] == (
                            i,
                            decode_of(prev[i])->Err_0,
                            );
                        assert(e[w] == (i, decode_of(lines[i])->Err_0));
                    } else {
                        assert(e[e.len() - 1] == (i, decode_of(lines[i])->Err_0));
                    }
                }
            },
        }
    }
}

/// A line that decodes to a key is counted under that key.
pub proof fn lemma_line_counted(lines: Seq<Seq<u8>>, i: int)
    requires
        0 <= i < lines.len(),
        decode_of(lines[i]) is Ok,
    ensures
        count_of(lines, decode_of(lines[i])->Ok_0) >= 1,
    decreases lines.len(),
{
    if i == lines.len() - 1 {
        assert(lines.last() == lines[i]);
    } else {
        let prev = lines.drop_last();
        assert(prev[i] == lines[i]);
        lemma_line_counted(prev, i);
    }
}

/// Every line is classified in exactly one place: a line that fails to decode
/// has exactly one exclusion record carrying its index, and none of its bytes
/// are billed to any summary row; a line that decodes contributes to its
/// key's counters and appears in no exclusion record.
pub proof fn lemma_each_line_classified(lines: Seq<Seq<u8>>, i: int)
    requires
        0 <= i < lines.len(),
    ensures
        decode_of(lines[i]) is Err ==> exclusions_of(lines).contains(
            (i, decode_of(lines[i])->Err_0),
        ),
        decode_of(lines[i]) is Err ==> forall|j1: int, j2: int|
            0 <= j1 < exclusions_of(lines).len() && 0 <= j2 < exclusions_of(lines).len() && (
            #[trigger] exclusions_of(lines)[j1]).0 == i && (#[trigger] exclusions_of(
                lines,
            )[j2]).0 == i ==> j1 == j2,
        decode_of(lines[i]) is Ok ==> count_of(lines, decode_of(lines[i])->Ok_0) >= 1,
        decode_of(lines[i]) is Ok ==> forall|j: int|
            0 <= j < exclusions_of(lines).len() ==> (#[trigger] exclusions_of(lines)[j]).0 != i,
{
    lemma_exclusions_shape(lines);
    if decode_of(lines[i]) is Ok {
        lemma_line_counted(lines, i);
    }
}

/// Exclusion records come in strictly increasing line-index order, matching
/// input order.
pub proof fn lemma_exclusions_ordered(lines: Seq<Seq<u8>>)
    ensures
        forall|j1: int, j2: int|
            0 <= j1 < j2 < exclusions_of(lines).len() ==> (#[trigger] exclusions_of(
                lines,
            )[j1]).0 < (#[trigger] exclusions_of(lines)[j2]).0,
{
    lemma_exclusions_shape(lines);
}

/// The exclusion records of an aggregation result carry strictly increasing
/// line indices: they match input order.
pub proof fn lemma_table_exclusions_ordered(lines: Seq<Seq<u8>>, t: TypeTable)
    requires
        aggregates(lines, t),
    ensures
        forall|j1: int, j2: int|
            0 <= j1 < j2 < t.lines_excluded@.len() ==> (#[trigger] t.lines_excluded@[j1]).index < (
            #[trigger] t.lines_excluded@[j2]).index,
{
    lemma_exclusions_shape(lines);
    assert(t.excl_seq().len() == t.lines_excluded@.len());
    assert(forall|j: int|
        0 <= j < t.lines_excluded@.len() ==> t.excl_seq()[j] == (
        (#[trigger] t.lines_excluded@[j]).index as int,
        t.lines_excluded@[j].error@,
        ));
}

/// The aggregation result is a function of the input lines alone: any two
/// tables that aggregate the same lines agree row for row and record for
/// record, so re-running the pass on unchanged input reproduces the result
/// exactly.
pub proof fn lemma_result_determined(lines: Seq<Seq<u8>>, t1: TypeTable, t2: TypeTable)
    requires
        aggregates(lines, t1),
        aggregates(lines, t2),
    ensures
        t1.types@.len() == t2.types@.len(),
        forall|q: int|
            0 <= q < t1.types@.len() ==> (#[trigger] t1.types@[q]).key@ == t2.types@[q].key@
                && t1.types@[q].data.num_instances == t2.types@[q].data.num_instances
                && t1.types@[q].data.total_byte_size == t2.types@[q].data.total_byte_size,
        t1.excl_seq() == t2.excl_seq(),
        t1.lines_excluded@.len() == t2.lines_excluded@.len(),
        forall|j: int|
            0 <= j < t1.lines_excluded@.len() ==> (#[trigger] t1.lines_excluded@[j]).index
                == t2.lines_excluded@[j].index && t1.lines_excluded@[j].error@
                == t2.lines_excluded@[j].error@,
{
    assert(t1.key_seq().len() == t2.key_seq().len());
    assert(forall|q: int|
        0 <= q < t1.types@.len() ==> (#[trigger] t1.types@[q]).key@ == t1.key_seq()[q]
            && t2.types@[q].key@ == t2.key_seq()[q]);
    assert(t1.excl_seq().len() == t1.lines_excluded@.len());
    assert(t2.excl_seq().len() == t2.lines_excluded@.len());
    assert(forall|j: int|
        0 <= j < t1.lines_excluded@.len() ==> t1.excl_seq()[j] == (
        (#[trigger] t1.lines_excluded@[j]).index as int,
        t1.lines_excluded@[j].error@,
        ) && t2.excl_seq()[j] == (t2.lines_excluded@[j].index as int, t2.lines_excluded@[j].error@));
}

/// Empty input yields an empty type summary and an empty exclusion list.
pub proof fn lemma_empty_input(t: TypeTable)
    requires
        aggregates(Seq::empty(), t),
    ensures
        t.types@.len() == 0,
        t.lines_excluded@.len() == 0,
{
    assert(t.key_seq().len() == keys_of(Seq::empty()).len());
    assert(t.excl_seq().len() == exclusions_of(Seq::empty()).len());
}

/// A key with a summary row occurs among the lines; a key without one never
/// occurs and has count and byte total zero.
pub proof fn lemma_keys_exact(lines: Seq<Seq<u8>>, t: TypeTable, k: Seq<u8>)
    requires
        aggregates(lines, t),
    ensures
        !t.key_seq().contains(k) ==> count_of(lines, k) == 0 && bytes_of(lines, k) == 0,
        t.key_seq().contains(k) ==> count_of(lines, k) >= 1,
{
    if !t.key_seq().contains(k) {
        lemma_absent_key(lines, k);
    } else {
        lemma_present_key(lines, k);
    }
}

/// A key recorded by `keys_of` occurs at least once.
proof fn lemma_present_key(lines: Seq<Seq<u8>>, k: Seq<u8>)
    requires
        keys_of(lines).contains(k),
    ensures
        count_of(lines, k) >= 1,
    decreases lines.len(),
{
    if lines.len() > 0 {
        let prev = lines.drop_last();
        match decode_of(lines.last()) {
            Ok(key) => {
                if key == k {
                } else {
                    if !keys_of(prev).contains(key) {
                        assert(keys_of(lines) == keys_of(prev).push(key));
                        let w = choose|w: int|
                            0 <= w < keys_of(lines).len() && keys_of(lines)[w] == k;
                        assert(w < keys_of(prev).len());
                        assert(keys_of(prev)[w] == k);
                        assert(keys_of(prev).contains(k));
                    }
                    lemma_present_key(prev, k);
                }
            },
            Err(_) => {
                lemma_present_key(prev, k);
            },
        }
    } else {
        assert(false);
    }
}

} // verus!
