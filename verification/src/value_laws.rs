//! What holds of the values that scans collect and count.

use vstd::prelude::*;

use crate::arrays::{distinct_facts, distinct_texts, place_found, text_keys};
use crate::codec::ColumnCodec;
use crate::dict_values::{
    counted_in, entry_of, merge_all, merge_entry, one_if, pair_of, value_texts, PairSeq,
};
use crate::double::F64;
use crate::groupby::{arranged, goes_first, result_place};
use crate::model::V4Footer;
use crate::numeric::TestSeq;
use crate::order::{ascending_strings, insert_string, lex_less, lex_total, lex_transitive};

verus! {

/// Whether every string comes before the next ones.
pub open spec fn strictly_ascending(s: Seq<Seq<u8>>) -> bool {
    forall|i: int, j: int| 0 <= i < j < s.len() ==> lex_less(#[trigger] s[i], #[trigger] s[j])
}

proof fn lex_order(a: Seq<u8>, b: Seq<u8>)
    ensures
        a == b || lex_less(a, b) || lex_less(b, a),
        !(lex_less(a, b) && lex_less(b, a)),
        a == b ==> !lex_less(a, b),
{
    assert(a.take(0) =~= b.take(0));
    lex_total(a, b, 0);
}

proof fn insert_contains(s: Seq<Seq<u8>>, x: Seq<u8>, y: Seq<u8>)
    ensures
        insert_string(s, x).contains(y) == (s.contains(y) || y == x),
    decreases s.len(),
{
    let r = insert_string(s, x);
    if s.len() == 0 {
        assert(r[0] == x);
        assert(r.contains(x));
    } else if s.last() == x {
        assert(s[s.len() - 1] == x);
    } else if lex_less(s.last(), x) {
        contains_push(s, x, y);
    } else {
        insert_contains(s.drop_last(), x, y);
        contains_push(insert_string(s.drop_last(), x), s.last(), y);
        contains_push(s.drop_last(), s.last(), y);
        assert(s.drop_last().push(s.last()) =~= s);
    }
}

proof fn contains_push<T>(s: Seq<T>, x: T, y: T)
    ensures
        s.push(x).contains(y) == (s.contains(y) || y == x),
{
    if s.contains(y) {
        let i = choose|i: int| 0 <= i < s.len() && s[i] == y;
        assert(s.push(x)[i] == y);
    }
    assert(s.push(x)[s.len() as int] == x);
    if s.push(x).contains(y) && y != x {
        let i = choose|i: int| 0 <= i < s.push(x).len() && s.push(x)[i] == y;
        assert(s[i] == y);
    }
}

proof fn push_ascending(s: Seq<Seq<u8>>, x: Seq<u8>)
    requires
        strictly_ascending(s),
        s.len() > 0 ==> lex_less(s.last(), x),
    ensures
        strictly_ascending(s.push(x)),
{
    let r = s.push(x);
    assert forall|i: int, j: int| 0 <= i < j < r.len() implies lex_less(
        #[trigger] r[i],
        #[trigger] r[j],
    ) by {
        if j == s.len() && i < s.len() - 1 {
            assert(lex_less(s[i], s[s.len() - 1]));
            lex_transitive(s[i], s.last(), x, 0);
        }
    }
}

proof fn insert_ascending(s: Seq<Seq<u8>>, x: Seq<u8>)
    requires
        strictly_ascending(s),
    ensures
        strictly_ascending(insert_string(s, x)),
        insert_string(s, x).len() > 0,
        insert_string(s, x).last() == x || s.len() > 0 && insert_string(s, x).last() == s.last(),
    decreases s.len(),
{
    if s.len() > 0 && s.last() != x {
        lex_order(s.last(), x);
        if lex_less(s.last(), x) {
            push_ascending(s, x);
        } else {
            let d = s.drop_last();
            assert(strictly_ascending(d));
            insert_ascending(d, x);
            if d.len() > 0 {
                assert(lex_less(s[s.len() - 2], s[s.len() - 1]));
            }
            push_ascending(insert_string(d, x), s.last());
        }
    }
}

/// What is collected comes in ascending order, each string once, and is just what was given.
pub proof fn law_collected_once(s: Seq<Seq<u8>>, x: Seq<u8>)
    ensures
        strictly_ascending(ascending_strings(s)),
        ascending_strings(s).contains(x) == s.contains(x),
    decreases s.len(),
{
    if s.len() > 0 {
        law_collected_once(s.drop_last(), x);
        insert_ascending(ascending_strings(s.drop_last()), s.last());
        insert_contains(ascending_strings(s.drop_last()), s.last(), x);
        contains_push(s.drop_last(), s.last(), x);
        assert(s.drop_last().push(s.last()) =~= s);
    }
}

impl PairSeq {
    /// Whether a row in the first `n` that is not outside of the range has the text `t`.
    pub open spec fn some_row_has(self, low: F64, high: F64, n: int, k: int, t: Seq<u8>) -> bool {
        let texts = value_texts(self.dict);
        exists|j: int|
            0 <= j < k && #[trigger] self.seen(low, high, texts.len() as int, n, j) && texts[j] == t
    }

    /// The texts that a row group adds are those of its rows that are not outside of the range.
    pub proof fn law_seen_texts(self, low: F64, high: F64, n: int, k: int, t: Seq<u8>)
        requires
            0 <= k,
        ensures
            self.seen_texts(low, high, n, k).contains(t) == self.some_row_has(low, high, n, k, t),
        decreases k,
    {
        let texts = value_texts(self.dict);
        let count = texts.len() as int;
        if k > 0 {
            self.law_seen_texts(low, high, n, k - 1, t);
            let before = self.seen_texts(low, high, n, k - 1);
            contains_push(before, texts[k - 1], t);
            if self.some_row_has(low, high, n, k, t) {
                let j = choose|j: int|
                    0 <= j < k && #[trigger] self.seen(low, high, count, n, j) && texts[j] == t;
                assert(self.seen(low, high, count, n, j));
                if j < k - 1 {
                    assert(self.some_row_has(low, high, n, k - 1, t));
                }
            }
            if self.some_row_has(low, high, n, k - 1, t) {
                let j = choose|j: int|
                    0 <= j < k - 1 && #[trigger] self.seen(low, high, count, n, j) && texts[j] == t;
                assert(self.seen(low, high, count, n, j));
            }
        } else {
            assert(!self.some_row_has(low, high, n, k, t));
        }
    }

    /// How many of the first `k` rows are open, have entry `j` and pass a test.
    pub open spec fn rows_with(self, test: TestSeq, count: int, k: int, j: int) -> int
        decreases k,
    {
        if k <= 0 {
            0
        } else {
            self.rows_with(test, count, k - 1, j) + one_if(
                self.open(k - 1) && entry_of(self.dict, count, k - 1) == Some(j)
                    && self.numbers.hit(test, k - 1),
            )
        }
    }

    /// A tally counts for each entry the rows that have it and pass the test, on either side.
    pub proof fn law_tally_counts_rows(
        self,
        left: TestSeq,
        right: TestSeq,
        count: int,
        k: int,
        j: int,
    )
        requires
            0 <= k,
            0 <= j < count,
        ensures
            self.tally(left, right, count, k).left.len() == count,
            self.tally(left, right, count, k).right.len() == count,
            self.tally(left, right, count, k).left[j] == self.rows_with(left, count, k, j),
            self.tally(left, right, count, k).right[j] == self.rows_with(right, count, k, j),
        decreases k,
    {
        if k > 0 {
            self.law_tally_counts_rows(left, right, count, k - 1, j);
        }
    }
}

/// The values of entries.
pub open spec fn values_of(s: Seq<(Seq<u8>, int, int)>) -> Seq<Seq<u8>> {
    Seq::new(s.len(), |i: int| s[i].0)
}

/// The left count of a value: the sum over the entries that have it.
pub open spec fn left_of(s: Seq<(Seq<u8>, int, int)>, v: Seq<u8>) -> int
    decreases s.len(),
{
    if s.len() == 0 {
        0
    } else {
        left_of(s.drop_last(), v) + if s.last().0 == v {
            s.last().1
        } else {
            0
        }
    }
}

/// The right count of a value: the sum over the entries that have it.
pub open spec fn right_of(s: Seq<(Seq<u8>, int, int)>, v: Seq<u8>) -> int
    decreases s.len(),
{
    if s.len() == 0 {
        0
    } else {
        right_of(s.drop_last(), v) + if s.last().0 == v {
            s.last().2
        } else {
            0
        }
    }
}

proof fn merge_entry_facts(s: Seq<(Seq<u8>, int, int)>, x: (Seq<u8>, int, int), v: Seq<u8>)
    requires
        strictly_ascending(values_of(s)),
    ensures
        values_of(merge_entry(s, x)) == insert_string(values_of(s), x.0),
        left_of(merge_entry(s, x), v) == left_of(s, v) + if x.0 == v {
            x.1
        } else {
            0
        },
        right_of(merge_entry(s, x), v) == right_of(s, v) + if x.0 == v {
            x.2
        } else {
            0
        },
    decreases s.len(),
{
    let r = merge_entry(s, x);
    if s.len() == 0 {
        assert(r.drop_last() =~= s);
        assert(r.last() == x);
        assert(values_of(r) =~= seq![x.0]);
    } else if s.last().0 == x.0 {
        assert(r.drop_last() =~= s.drop_last());
        assert(values_of(r) =~= values_of(s));
    } else if lex_less(s.last().0, x.0) {
        assert(r.drop_last() =~= s);
        assert(values_of(r) =~= values_of(s).push(x.0));
    } else {
        let d = s.drop_last();
        assert(values_of(d) =~= values_of(s).drop_last());
        assert(strictly_ascending(values_of(d)));
        merge_entry_facts(d, x, v);
        assert(r.drop_last() =~= merge_entry(d, x));
        assert(values_of(r) =~= values_of(merge_entry(d, x)).push(s.last().0));
    }
}

/// Merging entries into ascending ones keeps them ascending, each value once, and adds up the counts
/// of every value.
pub proof fn law_merge_adds(
    s: Seq<(Seq<u8>, int, int)>,
    xs: Seq<(Seq<u8>, int, int)>,
    v: Seq<u8>,
)
    requires
        strictly_ascending(values_of(s)),
    ensures
        strictly_ascending(values_of(merge_all(s, xs))),
        left_of(merge_all(s, xs), v) == left_of(s, v) + left_of(xs, v),
        right_of(merge_all(s, xs), v) == right_of(s, v) + right_of(xs, v),
    decreases xs.len(),
{
    if xs.len() > 0 {
        law_merge_adds(s, xs.drop_last(), v);
        let m = merge_all(s, xs.drop_last());
        merge_entry_facts(m, xs.last(), v);
        insert_ascending(values_of(m), xs.last().0);
    }
}

/// The values that two ranges count come in ascending order, each once.
pub proof fn law_counted_once<C: ColumnCodec>(
    c: C,
    f: V4Footer,
    file: Seq<u8>,
    num: int,
    dict: int,
    left: TestSeq,
    right: TestSeq,
    k: int,
)
    requires
        0 <= k,
        counted_in(c, f, file, num, dict, left, right, k) matches Ok(Some(_)),
    ensures
        strictly_ascending(
            values_of(counted_in(c, f, file, num, dict, left, right, k)->Ok_0->0),
        ),
    decreases k,
{
    if k > 0 {
        law_counted_once(c, f, file, num, dict, left, right, k - 1);
        let acc = counted_in(c, f, file, num, dict, left, right, k - 1)->Ok_0->0;
        let p = pair_of(c, f, file, num, dict, k - 1)->Ok_0->0;
        law_merge_adds(
            acc,
            p.counted(
                left,
                right,
                f.row_groups@[k - 1].row_count as int,
                value_texts(p.dict).len() as int,
            ),
            Seq::empty(),
        );
    } else {
        assert(values_of(Seq::empty()) =~= Seq::empty());
    }
}

/// A text that was put into a dictionary is read back from it, and the dictionary holds each text once.
pub proof fn law_dictionary_reads_back(texts: Seq<Seq<u8>>, i: int)
    requires
        0 <= i < texts.len(),
        texts.len() <= u32::MAX,
    ensures
        distinct_texts(texts).no_duplicates(),
        text_keys(texts)[i] < distinct_texts(texts).len(),
        distinct_texts(texts)[text_keys(texts)[i] as int] == texts[i],
{
    distinct_facts(texts);
    let d = distinct_texts(texts);
    assert(d.contains(texts[i]));
    let k = choose|k: int| 0 <= k < d.len() && d[k] == texts[i];
    place_found(d, texts[i], 0, k);
}

/// Whether no value goes before an earlier one.
pub open spec fn values_in_order(s: Seq<(Seq<char>, F64)>, descending: bool) -> bool {
    forall|i: int, j: int|
        0 <= i < j < s.len() ==> !goes_first((#[trigger] s[j]).1, (#[trigger] s[i]).1, descending)
}

pub(crate) proof fn result_place_facts(s: Seq<(Seq<char>, F64)>, x: F64, descending: bool, i: int)
    requires
        0 <= i <= s.len(),
    ensures
        i <= result_place(s, x, descending, i) <= s.len(),
        result_place(s, x, descending, i) < s.len() ==> goes_first(
            x,
            s[result_place(s, x, descending, i)].1,
            descending,
        ),
        forall|j: int|
            i <= j < result_place(s, x, descending, i) ==> !goes_first(
                x,
                (#[trigger] s[j]).1,
                descending,
            ),
    decreases s.len() - i,
{
    if i < s.len() && !goes_first(x, s[i].1, descending) {
        result_place_facts(s, x, descending, i + 1);
    }
}

/// Groups come in the order of their values, none of them lost or doubled. A value that is no number
/// compares with nothing: all values are numbers.
pub proof fn law_groups_in_order(s: Seq<(Seq<char>, F64)>, descending: bool)
    requires
        forall|i: int| 0 <= i < s.len() ==> !crate::double::is_nan((#[trigger] s[i]).1.bits),
    ensures
        values_in_order(arranged(s, descending), descending),
        arranged(s, descending).to_multiset() == s.to_multiset(),
        forall|i: int|
            0 <= i < arranged(s, descending).len() ==> !crate::double::is_nan(
                (#[trigger] arranged(s, descending)[i]).1.bits,
            ),
    decreases s.len(),
{
    broadcast use vstd::seq_lib::group_to_multiset_ensures;

    if s.len() > 0 {
        let d = s.drop_last();
        law_groups_in_order(d, descending);
        let before = arranged(d, descending);
        let x = s.last();
        let p = result_place(before, x.1, descending, 0);
        result_place_facts(before, x.1, descending, 0);
        let r = before.insert(p, x);
        assert(s =~= d.push(x));
        vstd::seq_lib::to_multiset_insert(before, p, x);
        assert forall|i: int, j: int| 0 <= i < j < r.len() implies !goes_first(
            (#[trigger] r[j]).1,
            (#[trigger] r[i]).1,
            descending,
        ) by {
            if i == p {
                assert(r[j] == before[j - 1]);
                if j - 1 > p {
                    assert(!goes_first(before[j - 1].1, before[p].1, descending));
                }
            } else if j == p {
                assert(r[i] == before[i]);
            } else {
                let a = if i < p {
                    i
                } else {
                    i - 1
                };
                let b = if j < p {
                    j
                } else {
                    j - 1
                };
                assert(r[i] == before[a] && r[j] == before[b]);
            }
        }
        assert forall|i: int| 0 <= i < r.len() implies !crate::double::is_nan(
            (#[trigger] r[i]).1.bits,
        ) by {
            if i != p {
                assert(r[i] == before[if i < p {
                    i
                } else {
                    i - 1
                }]);
            }
        }
    }
}

} // verus!
