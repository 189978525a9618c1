//! The classification-and-aggregation engine.
//!
//! `TypeTable::from_lines` folds an ordered sequence of raw lines into a
//! per-type summary (instance count and total raw byte size, keyed by the
//! decoded `type` field) together with the ordered list of lines that failed
//! to decode. The intended result is pinned down by the spec functions below:
//! `count_of` and `bytes_of` give each key's statistics, `keys_of` the keys in
//! first-occurrence order, and `exclusions_of` the failed lines with their
//! indices and error descriptions.

use vstd::prelude::*;

use crate::decode::{decode_line, decode_of};

verus! {

/// The running statistics of one type key.
#[derive(Debug, Clone, PartialEq, Eq)]
pub struct TypeData {
    /// How many lines decoded to this key.
    pub num_instances: usize,
    /// The summed raw byte length of those lines.
    pub total_byte_size: usize,
}

/// One row of the summary: a type key and its statistics.
#[derive(Debug, Clone, PartialEq, Eq)]
pub struct TypeEntry {
    /// The UTF-8 bytes of the decoded `type` field.
    pub key: Vec<u8>,
    /// The statistics accumulated for this key.
    pub data: TypeData,
}

/// A line that could not be decoded.
#[derive(Debug, Clone, PartialEq, Eq)]
pub struct ExcludedLine {
    /// The 0-based position of the line in the input.
    pub index: usize,
    /// Why decoding failed, in human-readable form.
    pub error: String,
}

/// The terminal state of one aggregation pass: the per-type summary rows (in
/// first-occurrence order, keys unique) and the excluded lines (in input
/// order).
#[derive(Debug, Clone, PartialEq, Eq)]
pub struct TypeTable {
    /// One row per distinct type key observed.
    pub types: Vec<TypeEntry>,
    /// The lines that failed to decode, in input order.
    pub lines_excluded: Vec<ExcludedLine>,
}

/// The byte sequences of a sequence of raw lines.
pub open spec fn line_views(lines: Seq<Vec<u8>>) -> Seq<Seq<u8>> {
    lines.map_values(|l: Vec<u8>| l@)
}

/// How many of the given lines decode to the key.
pub open spec fn count_of(lines: Seq<Seq<u8>>, key: Seq<u8>) -> nat
    decreases lines.len(),
{
    if lines.len() == 0 {
        0
    } else {
        count_of(lines.drop_last(), key) + if decode_of(lines.last()) == Ok::<Seq<u8>, Seq<
            char,
        >>(key) {
            1nat
        } else {
            0nat
        }
    }
}

/// The summed raw byte length of the lines that decode to the key.
pub open spec fn bytes_of(lines: Seq<Seq<u8>>, key: Seq<u8>) -> nat
    decreases lines.len(),
{
    if lines.len() == 0 {
        0
    } else {
        bytes_of(lines.drop_last(), key) + if decode_of(lines.last()) == Ok::<Seq<u8>, Seq<
            char,
        >>(key) {
            lines.last().len()
        } else {
            0nat
        }
    }
}

/// The distinct decoded keys of the lines, in order of first occurrence.
pub open spec fn keys_of(lines: Seq<Seq<u8>>) -> Seq<Seq<u8>>
    decreases lines.len(),
{
    if lines.len() == 0 {
        Seq::empty()
    } else {
        let prev = keys_of(lines.drop_last());
        match decode_of(lines.last()) {
            Ok(key) => if prev.contains(key) {
                prev
            } else {
                prev.push(key)
            },
            Err(_) => prev,
        }
    }
}

/// The lines that fail to decode, each as its 0-based index paired with the
/// error description, in input order.
pub open spec fn exclusions_of(lines: Seq<Seq<u8>>) -> Seq<(int, Seq<char>)>
    decreases lines.len(),
{
    if lines.len() == 0 {
        Seq::empty()
    } else {
        let prev = exclusions_of(lines.drop_last());
        match decode_of(lines.last()) {
            Ok(_) => prev,
            Err(msg) => prev.push((lines.len() - 1, msg)),
        }
    }
}

/// The summed byte length of all lines.
pub open spec fn total_len_of(lines: Seq<Seq<u8>>) -> nat
    decreases lines.len(),
{
    if lines.len() == 0 {
        0
    } else {
        total_len_of(lines.drop_last()) + lines.last().len()
    }
}

impl TypeTable {
    /// The summary's keys, in row order.
    pub open spec fn key_seq(self) -> Seq<Seq<u8>> {
        self.types@.map_values(|e: TypeEntry| e.key@)
    }

    /// No key occurs in two rows.
    pub open spec fn wf(self) -> bool {
        forall|i: int, j: int|
            0 <= i < j < self.types@.len() ==> self.types@[i].key@ != self.types@[j].key@
    }

    /// The excluded lines as (0-based index, error description) pairs.
    pub open spec fn excl_seq(self) -> Seq<(int, Seq<char>)> {
        self.lines_excluded@.map_values(|e: ExcludedLine| (e.index as int, e.error@))
    }
}

/// Whether two byte slices hold the same bytes.
fn bytes_eq(a: &[u8], b: &[u8]) -> (r: bool)
    ensures
        r == (a@ == b@),
{
    if a.len() != b.len() {
        return false;
    }
    let mut i: usize = 0;
    while i < a.len()
        invariant
            a@.len() == b@.len(),
            i <= a@.len(),
            forall|j: int| 0 <= j < i ==> a@[j] == b@[j],
        decreases a@.len() - i,
    {
        if a[i] != b[i] {
            return false;
        }
        i = i + 1;
    }
    proof {
        assert(a@ =~= b@);
    }
    true
}

impl TypeTable {
    /// The row index holding the key, if the key has a row.
    fn find_key(&self, key: &[u8]) -> (r: Option<usize>)
        ensures
            (r matches Some(j) ==> j < self.types@.len() && self.types@[j as int].key@ == key@),
            (r is None ==> forall|i: int|
                0 <= i < self.types@.len() ==> self.types@[i].key@ != key@),
    {
        let mut i: usize = 0;
        while i < self.types.len()
            invariant
                i <= self.types@.len(),
                forall|j: int| 0 <= j < i ==> self.types@[j].key@ != key@,
            decreases self.types@.len() - i,
        {
            if bytes_eq(self.types[i].key.as_slice(), key) {
                return Some(i);
            }
            i = i + 1;
        }
        None
    }
}

/// What it means for a table to be the aggregation of the given lines: keys
/// unique and in first-occurrence order, each row's statistics exactly the
/// key's count and byte total over all lines, and the exclusion list exactly
/// the failed lines in input order.
pub open spec fn aggregates(lines: Seq<Seq<u8>>, t: TypeTable) -> bool {
    &&& t.wf()
    &&& t.key_seq() == keys_of(lines)
    &&& forall|i: int|
        0 <= i < t.types@.len() ==> (#[trigger] t.types@[i]).data.num_instances == count_of(
            lines,
            t.types@[i].key@,
        ) && t.types@[i].data.total_byte_size == bytes_of(lines, t.types@[i].key@)
    &&& t.excl_seq() == exclusions_of(lines)
}

impl TypeTable {
    /// Aggregate the given raw lines in one pass. Each line is decoded and
    /// either folded into its type's summary row or appended to the exclusion
    /// list; a line that fails to decode never aborts the pass.
    pub fn from_lines(lines: &Vec<Vec<u8>>) -> (t: TypeTable)
        requires
            total_len_of(line_views(lines@)) <= usize::MAX,
        ensures
            aggregates(line_views(lines@), t),
    {
        let ghost views = line_views(lines@);
        let mut t = TypeTable { types: Vec::new(), lines_excluded: Vec::new() };
        let mut i: usize = 0;
        proof {
            assert(views.take(0) =~= Seq::<Seq<u8>>::empty());
            assert(t.key_seq() =~= Seq::<Seq<u8>>::empty());
            assert(t.excl_seq() =~= Seq::<(int, Seq<char>)>::empty());
            assert(t.key_seq() =~= keys_of(views.take(0)));
            assert(t.excl_seq() =~= exclusions_of(views.take(0)));
        }
        while i < lines.len()
            invariant
                views == line_views(lines@),
                total_len_of(views) <= usize::MAX,
                i <= lines@.len(),
                aggregates(views.take(i as int), t),
            decreases lines@.len() - i,
        {
            let ghost prefix = views.take(i as int);
            let ghost x = views[i as int];
            let line = &lines[i];
            proof {
                assert(views.take(i + 1) =~= prefix.push(x));
                assert(x == line@);
                lemma_model_push(prefix, x);
            }
            match decode_line(line.as_slice()) {
                Ok(key) => {
                    proof {
                        assert(decode_of(x) == Ok::<Seq<u8>, Seq<char>>(key@));
                        lemma_count_le(prefix, key@);
                        lemma_bytes_le_total(prefix, key@);
                        lemma_total_len_take(views, i + 1);
                    }
                    match t.find_key(key.as_slice()) {
                        Some(j) => {
                            let ghost old_types = t.types@;
                            proof {
                                assert(keys_of(prefix)[j as int] == key@);
                                assert(keys_of(prefix).contains(key@));
                            }
                            let n = t.types[j].data.num_instances;
                            let b = t.types[j].data.total_byte_size;
                            t.types[j] =
                            (TypeEntry {
                                key,
                                data: TypeData {
                                    num_instances: n + 1,
                                    total_byte_size: b + line.len(),
                                },
                            });
                            proof {
                                assert(forall|q: int|
                                    0 <= q < t.types@.len() ==> (#[trigger] t.types@[q]).key@
                                        == old_types[q].key@);
                                assert(t.key_seq() =~= keys_of(prefix));
                                assert forall|q: int|
                                    0 <= q < t.types@.len() implies (#[trigger] t.types@[q]).data.num_instances
                                    == count_of(views.take(i + 1), t.types@[q].key@)
                                    && t.types@[q].data.total_byte_size == bytes_of(
                                    views.take(i + 1),
                                    t.types@[q].key@,
                                ) by {
                                    if q != j as int {
                                        assert(t.types@[q] == old_types[q]);
                                        assert(old_types[q].key@ != key@);
                                    }
                                }
                                assert(aggregates(views.take(i + 1), t));
                            }
                        },
                        None => {
                            let ghost old_types = t.types@;
                            proof {
                                assert(!keys_of(prefix).contains(key@)) by {
                                    if keys_of(prefix).contains(key@) {
                                        let q = choose|q: int|
                                            0 <= q < t.key_seq().len() && t.key_seq()[q] == key@;
                                        assert(t.types@[q].key@ == key@);
                                    }
                                }
                                lemma_absent_key(prefix, key@);
                            }
                            t.types.push(
                                TypeEntry {
                                    key,
                                    data: TypeData { num_instances: 1, total_byte_size: line.len() },
                                },
                            );
                            proof {
                                assert(t.key_seq() =~= keys_of(prefix).push(
                                    decode_of(x)->Ok_0,
                                ));
                                assert forall|q: int|
                                    0 <= q < t.types@.len() implies (#[trigger] t.types@[q]).data.num_instances
                                    == count_of(views.take(i + 1), t.types@[q].key@)
                                    && t.types@[q].data.total_byte_size == bytes_of(
                                    views.take(i + 1),
                                    t.types@[q].key@,
                                ) by {
                                    if q < old_types.len() {
                                        assert(t.types@[q] == old_types[q]);
                                        assert(old_types[q].key@ != key@);
                                    }
                                }
                                assert(aggregates(views.take(i + 1), t));
                            }
                        },
                    }
                },
                Err(msg) => {
                    let ghost old_excl = t.lines_excluded@;
                    proof {
                        assert(decode_of(x) == Err::<Seq<u8>, Seq<char>>(msg@));
                    }
                    t.lines_excluded.push(ExcludedLine { index: i, error: msg });
                    proof {
                        assert(t.excl_seq() =~= exclusions_of(prefix).push(
                            (i as int, decode_of(x)->Err_0),
                        ));
                        assert(aggregates(views.take(i + 1), t));
                    }
                },
            }
            i = i + 1;
        }
        proof {
            assert(views.take(i as int) =~= views);
        }
        t
    }
}

impl TypeTable {
    /// The statistics recorded for the key, if the key has a summary row.
    pub fn get(&self, key: &[u8]) -> (r: Option<&TypeData>)
        ensures
            (r matches Some(d) ==> exists|q: int|
                0 <= q < self.types@.len() && (#[trigger] self.types@[q]).key@ == key@ && *d
                    == self.types@[q].data),
            (r is None ==> !self.key_seq().contains(key@)),
    {
        match self.find_key(key) {
            Some(j) => Some(&self.types[j].data),
            None => {
                proof {
                    if self.key_seq().contains(key@) {
                        let q = choose|q: int|
                            0 <= q < self.key_seq().len() && self.key_seq()[q] == key@;
                        assert(self.types@[q].key@ == key@);
                    }
                }
                None
            },
        }
    }

    /// Aggregate the given raw lines after checking that their total byte
    /// length fits the machine word that the byte totals are kept in; `None`
    /// exactly when it does not.
    pub fn try_from_lines(lines: &Vec<Vec<u8>>) -> (r: Option<TypeTable>)
        ensures
            (r matches Some(t) ==> aggregates(line_views(lines@), t)),
            r is None <==> total_len_of(line_views(lines@)) > usize::MAX,
    {
        let ghost views = line_views(lines@);
        let mut total: usize = 0;
        let mut i: usize = 0;
        proof {
            assert(views.take(0) =~= Seq::<Seq<u8>>::empty());
        }
        while i < lines.len()
            invariant
                views == line_views(lines@),
                i <= lines@.len(),
                total == total_len_of(views.take(i as int)),
            decreases lines@.len() - i,
        {
            proof {
                assert(views.take(i + 1) =~= views.take(i as int).push(views[i as int]));
                lemma_model_push(views.take(i as int), views[i as int]);
            }
            match total.checked_add(lines[i].len()) {
                Some(next) => {
                    total = next;
                },
                None => {
                    proof {
                        lemma_total_len_take(views, i + 1);
                    }
                    return None;
                },
            }
            i = i + 1;
        }
        proof {
            assert(views.take(i as int) =~= views);
        }
        Some(Self::from_lines(lines))
    }
}

/// How one further line changes the aggregation model.
pub proof fn lemma_model_push(s: Seq<Seq<u8>>, x: Seq<u8>)
    ensures
        forall|k: Seq<u8>|
            #[trigger] count_of(s.push(x), k) == count_of(s, k) + if decode_of(x) == Ok::<
                Seq<u8>,
                Seq<char>,
            >(k) {
                1nat
            } else {
                0nat
            },
        forall|k: Seq<u8>|
            #[trigger] bytes_of(s.push(x), k) == bytes_of(s, k) + if decode_of(x) == Ok::<
                Seq<u8>,
                Seq<char>,
            >(k) {
                x.len()
            } else {
                0nat
            },
        decode_of(x) is Ok ==> keys_of(s.push(x)) == (if keys_of(s).contains(
            decode_of(x)->Ok_0,
        ) {
            keys_of(s)
        } else {
            keys_of(s).push(decode_of(x)->Ok_0)
        }),
        decode_of(x) is Err ==> keys_of(s.push(x)) == keys_of(s),
        decode_of(x) is Ok ==> exclusions_of(s.push(x)) == exclusions_of(s),
        decode_of(x) is Err ==> exclusions_of(s.push(x)) == exclusions_of(s).push(
            (s.len() as int, decode_of(x)->Err_0),
        ),
        total_len_of(s.push(x)) == total_len_of(s) + x.len(),
{
    assert(s.push(x).drop_last() =~= s);
    assert(s.push(x).last() == x);
}

/// A key's count never exceeds the number of lines.
pub proof fn lemma_count_le(s: Seq<Seq<u8>>, k: Seq<u8>)
    ensures
        count_of(s, k) <= s.len(),
    decreases s.len(),
{
    if s.len() > 0 {
        lemma_count_le(s.drop_last(), k);
    }
}

/// A key's byte total never exceeds the byte total of all lines.
pub proof fn lemma_bytes_le_total(s: Seq<Seq<u8>>, k: Seq<u8>)
    ensures
        bytes_of(s, k) <= total_len_of(s),
    decreases s.len(),
{
    if s.len() > 0 {
        lemma_bytes_le_total(s.drop_last(), k);
    }
}

/// The byte total of a prefix never exceeds the byte total of the whole.
pub proof fn lemma_total_len_take(s: Seq<Seq<u8>>, j: int)
    requires
        0 <= j <= s.len(),
    ensures
        total_len_of(s.take(j)) <= total_len_of(s),
    decreases s.len() - j,
{
    if j == s.len() {
        assert(s.take(j) =~= s);
    } else {
        assert(s.take(j + 1).drop_last() =~= s.take(j));
        assert(s.take(j + 1).last() == s[j]);
        lemma_total_len_take(s, j + 1);
    }
}

/// A key that never occurs has count and byte total zero.
pub proof fn lemma_absent_key(s: Seq<Seq<u8>>, k: Seq<u8>)
    requires
        !keys_of(s).contains(k),
    ensures
        count_of(s, k) == 0,
        bytes_of(s, k) == 0,
    decreases s.len(),
{
    if s.len() > 0 {
        let prev = keys_of(s.drop_last());
        match decode_of(s.last()) {
            Ok(key) => {
                if !prev.contains(key) {
                    assert(keys_of(s) == prev.push(key));
                    assert(keys_of(s)[keys_of(s).len() - 1] == key);
                    assert(keys_of(s).contains(key));
                    assert(forall|i: int| 0 <= i < prev.len() ==> keys_of(s)[i] == prev[i]);
                }
                assert(!prev.contains(k));
                assert(key != k);
            },
            Err(_) => {
                assert(!prev.contains(k));
            },
        }
        lemma_absent_key(s.drop_last(), k);
    }
}

} // verus!
