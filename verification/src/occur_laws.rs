//! Scans of dictionary values by numbers show the values of the rows, and count these rows.

use vstd::prelude::*;
use vstd::utf8::{
    decode_utf8_encode_utf8, encode_utf8, encode_utf8_decode_utf8, encode_utf8_valid_utf8,
    valid_utf8,
};
use crate::apart_laws::decoded_number;
use crate::bytes::bitmap_len;
use crate::codec::ColumnCodec;
use crate::column::ColumnSeq;
use crate::dict_values::{
    counted_in, decoded_texts, entry_of, merge_all, merge_entry, one_if, pair_of, present, seen_in,
    text_triples, value_texts, Numbers, PairSeq,
};
use crate::double::F64;
use crate::estimate_laws::comparable_range;
use crate::group::{group_of, id_section, stored_group, tail, window};
use crate::meaning::{
    between, data_at, decoded_at, deleted_at, held, holder, lists, marks_len, missing_at, place_in,
    place_of, whole_column, Number,
};
use crate::model::{
    is_float, is_int, rows_before, ScanError, V4Footer, COL_ENCODING_COMPACT_DICTIONARY,
    COL_ENCODING_PLAIN,
};
use crate::numeric::{range_test, TestSeq};
use crate::order::{ascending_strings, lex_less, lex_total};
use crate::outside::lossy_text;
use crate::pick_laws::{in_each_group, lists_step, marks_of_group, same_list};
use crate::scan_laws::{group_bounds, law_range_of_ints};
use crate::storage::OnDemandStorage;
use crate::string_laws::{text_at, texts_there};
use crate::text_scan::all_quick;
use crate::value_laws::{
    law_collected_once, law_counted_once, law_merge_adds, left_of, right_of, strictly_ascending,
    values_of,
};

verus! {

/// Whether row `r` of row group `i` is live, has a value in both columns, a number in the range and a
/// value with a text.
#[verifier::opaque]
pub open spec fn shows_at<C: ColumnCodec>(
    c: C,
    f: V4Footer,
    file: Seq<u8>,
    num: int,
    low: F64,
    high: F64,
    dict: int,
    s: Seq<char>,
    i: int,
    r: int,
) -> bool {
    &&& !deleted_at(c, f, file, i, r)
    &&& !missing_at(c, f, file, num, i, r)
    &&& !missing_at(c, f, file, dict, i, r)
    &&& between(low, high, decoded_number(c, f, file, num, i, r))
    &&& text_at(c, f, file, dict, i, r) matches Some(v) && lossy_text(v) == s
}

/// Whether row group `i` has a number and an index for each row, a dictionary in which every value is
/// there, and the places of both columns on record.
#[verifier::opaque]
pub open spec fn pair_there<C: ColumnCodec>(
    c: C,
    f: V4Footer,
    file: Seq<u8>,
    num: int,
    dict: int,
    i: int,
) -> bool {
    let rows = f.row_groups@[i].row_count as int;
    let g = group_of(c, f.row_groups@[i], file)->Ok_0;
    let at = data_at(c, f, file, dict, i);
    let tag = g.body[at - 1];
    &&& f.schema.kind(dict) is StringDict
    &&& texts_there(c, f, file, dict, i)
    &&& tag == COL_ENCODING_PLAIN || tag == COL_ENCODING_COMPACT_DICTIONARY
    &&& none_gone(
        c.dictionary(
            tag == COL_ENCODING_COMPACT_DICTIONARY,
            g.body.subrange(at, g.body.len() as int),
        )->0.values,
    )
    &&& whole_column(c, f, file, num, i)
    &&& f.rcix(i, num) is Some
    &&& match decoded_at(c, f, file, num, i) {
        Some((ColumnSeq::Int64(v), _)) => v.len() == rows,
        Some((ColumnSeq::Float64(v), _)) => v.len() == rows,
        _ => false,
    }
}

/// Whether every value of a dictionary is there.
pub open spec fn none_gone(values: Seq<Option<Seq<u8>>>) -> bool {
    forall|k: int| 0 <= k < values.len() ==> (#[trigger] values[k]) is Some
}

proof fn all_present(values: Seq<Option<Seq<u8>>>)
    requires
        none_gone(values),
    ensures
        present(values).len() == values.len(),
        forall|k: int| 0 <= k < values.len() ==> #[trigger] present(values)[k] == values[k]->0,
    decreases values.len(),
{
    if values.len() > 0 {
        let d = values.drop_last();
        assert forall|k: int| 0 <= k < d.len() implies (#[trigger] d[k]) is Some by {
            assert(d[k] == values[k]);
        }
        all_present(d);
        assert(values[values.len() - 1] is Some);
        assert forall|k: int| 0 <= k < values.len() implies #[trigger] present(values)[k]
            == values[k]->0 by {
            if k < d.len() {
                assert(d[k] == values[k]);
                assert(present(d)[k] == d[k]->0);
            }
        }
    }
}

/// Whether row `r` of a row group that was taken apart shows a text.
spec fn shows(p: PairSeq, low: F64, high: F64, s: Seq<char>, r: int) -> bool {
    let count = value_texts(p.dict).len() as int;
    &&& p.open(r)
    &&& p.numbers.hit(range_test(low, high), r)
    &&& entry_of(p.dict, count, r) matches Some(j) && value_texts(p.dict)[j] == encode_utf8(s)
}

/// The parts of a row group tell what its rows show.
#[verifier::spinoff_prover]
proof fn pair_read<C: ColumnCodec>(
    c: C,
    f: V4Footer,
    file: Seq<u8>,
    num: int,
    dict: int,
    i: int,
) -> (p: PairSeq)
    requires
        pair_there(c, f, file, num, dict, i),
    ensures
        pair_of(c, f, file, num, dict, i) == Ok::<Option<PairSeq>, ScanError>(Some(p)),
        ({
            let rows = f.row_groups@[i].row_count as int;
            let g = group_of(c, f.row_groups@[i], file)->Ok_0;
            let at = data_at(c, f, file, dict, i);
            let a = place_of(c, f, file, num, i);
            let b = place_of(c, f, file, dict, i);
            &&& c.dictionary(
                g.body[at - 1] == COL_ENCODING_COMPACT_DICTIONARY,
                g.body.subrange(at, g.body.len() as int),
            ) == Some(p.dict)
            &&& p.num_nulls == g.body.subrange(a, a + bitmap_len(rows))
            &&& p.dict_nulls == g.body.subrange(b, b + bitmap_len(rows))
            &&& p.del == (if f.row_groups@[i].deletion_count > 0 {
                window(g.body, id_section(rows, g.ids), bitmap_len(rows))
            } else {
                None
            })
            &&& p.numbers == (match decoded_at(c, f, file, num, i) {
                Some((ColumnSeq::Int64(v), _)) => Numbers::Ints(v),
                Some((ColumnSeq::Float64(v), _)) => Numbers::Reals(v),
                _ => Numbers::Ints(Seq::empty()),
            })
        }),
{
    reveal(pair_there);
    let rows = f.row_groups@[i].row_count as int;
    let bm = bitmap_len(rows);
    let g = group_of(c, f.row_groups@[i], file)->Ok_0;
    let s = stored_group(f.row_groups@[i], file)->Ok_0;
    assert(tail(s, 32) == g.body);
    assert(bm == marks_len(rows));
    let at = data_at(c, f, file, dict, i);
    let a = place_of(c, f, file, num, i);
    let b = place_of(c, f, file, dict, i);
    let bytes = tail(g.body, b + bm);
    assert(tail(bytes, 1) =~= g.body.subrange(at, g.body.len() as int));
    assert(bytes[0] == g.body[at - 1]);
    assert(tail(g.body, a + bm) == g.body.subrange(a + marks_len(rows), g.body.len() as int));
    pair_of(c, f, file, num, dict, i)->Ok_0->0
}

proof fn row_shows<C: ColumnCodec>(
    c: C,
    f: V4Footer,
    file: Seq<u8>,
    num: int,
    low: F64,
    high: F64,
    dict: int,
    s: Seq<char>,
    i: int,
    r: int,
    p: PairSeq,
)
    requires
        pair_there(c, f, file, num, dict, i),
        pair_of(c, f, file, num, dict, i) == Ok::<Option<PairSeq>, ScanError>(Some(p)),
        comparable_range(low, high),
        0 <= r < f.row_groups@[i].row_count,
    ensures
        shows(p, low, high, s, r) == shows_at(c, f, file, num, low, high, dict, s, i, r),
        p.numbers.within(low, high, r) == p.numbers.hit(range_test(low, high), r),
{
    reveal(shows_at);
    let q = pair_read(c, f, file, num, dict, i);
    assert(p == q);
    reveal(pair_there);
    marks_of_group(c, f, file, num, i, r);
    marks_of_group(c, f, file, dict, i, r);
    all_present(p.dict.values);
    let k = p.dict.indices[r] as int;
    if let Number::Int(v) = decoded_number(c, f, file, num, i, r) {
        law_range_of_ints(low, high, v);
    }
    if 1 <= k <= p.dict.values.len() {
        let v = p.dict.values[k - 1]->0;
        assert(present(p.dict.values)[k - 1] == v);
        assert(value_texts(p.dict)[k - 1] == encode_utf8(lossy_text(v)));
        encode_utf8_decode_utf8(lossy_text(v));
        encode_utf8_decode_utf8(s);
    }
}

/// Whether some row of row group `i` shows a text.
pub open spec fn group_shows<C: ColumnCodec>(
    c: C,
    f: V4Footer,
    file: Seq<u8>,
    num: int,
    low: F64,
    high: F64,
    dict: int,
    s: Seq<char>,
    i: int,
) -> bool {
    exists|r: int|
        0 <= r < f.row_groups@[i].row_count && #[trigger] shows_at(
            c,
            f,
            file,
            num,
            low,
            high,
            dict,
            s,
            i,
            r,
        )
}

/// What a row group adds are the texts that its rows show.
#[verifier::spinoff_prover]
proof fn group_adds<C: ColumnCodec>(
    c: C,
    f: V4Footer,
    file: Seq<u8>,
    num: int,
    low: F64,
    high: F64,
    dict: int,
    s: Seq<char>,
    i: int,
)
    requires
        pair_there(c, f, file, num, dict, i),
        comparable_range(low, high),
    ensures
        pair_of(c, f, file, num, dict, i) matches Ok(Some(p)) && p.seen_texts(
            low,
            high,
            f.row_groups@[i].row_count as int,
            value_texts(p.dict).len() as int,
        ).contains(encode_utf8(s)) == group_shows(c, f, file, num, low, high, dict, s, i),
{
    let p = pair_read(c, f, file, num, dict, i);
    let n = f.row_groups@[i].row_count as int;
    let texts = value_texts(p.dict);
    let count = texts.len() as int;
    let t = encode_utf8(s);
    p.law_seen_texts(low, high, n, count, t);
    if p.some_row_has(low, high, n, count, t) {
        let j = choose|j: int|
            0 <= j < count && #[trigger] p.seen(low, high, count, n, j) && texts[j] == t;
        let r = choose|r: int|
            0 <= r < n && #[trigger] p.open(r) && p.numbers.within(low, high, r) && entry_of(
                p.dict,
                count,
                r,
            ) == Some(j);
        row_shows(c, f, file, num, low, high, dict, s, i, r, p);
        assert(shows(p, low, high, s, r));
    }
    if group_shows(c, f, file, num, low, high, dict, s, i) {
        let r = choose|r: int|
            0 <= r < n && #[trigger] shows_at(c, f, file, num, low, high, dict, s, i, r);
        row_shows(c, f, file, num, low, high, dict, s, i, r, p);
        let j = entry_of(p.dict, count, r)->0;
        assert(p.open(r));
        assert(p.seen(low, high, count, n, j));
        assert(p.some_row_has(low, high, n, count, t));
    }
}

proof fn joined_contains<T>(a: Seq<T>, b: Seq<T>, x: T)
    ensures
        (a + b).contains(x) == (a.contains(x) || b.contains(x)),
{
    let v = a + b;
    if v.contains(x) {
        let k = choose|k: int| 0 <= k < v.len() && v[k] == x;
        if k < a.len() {
            assert(a[k] == x);
        } else {
            assert(b[k - a.len()] == x);
        }
    }
    if a.contains(x) {
        let k = choose|k: int| 0 <= k < a.len() && a[k] == x;
        assert(v[k] == x);
    }
    if b.contains(x) {
        let k = choose|k: int| 0 <= k < b.len() && b[k] == x;
        assert(v[a.len() + k] == x);
    }
}

/// The texts that a row group adds are texts.
proof fn seen_are_texts(p: PairSeq, low: F64, high: F64, n: int, k: int, x: Seq<u8>)
    requires
        0 <= k <= value_texts(p.dict).len(),
        p.seen_texts(low, high, n, k).contains(x),
    ensures
        valid_utf8(x),
    decreases k,
{
    if k > 0 {
        let before = p.seen_texts(low, high, n, k - 1);
        let all = p.seen_texts(low, high, n, k);
        let m = choose|m: int| 0 <= m < all.len() && all[m] == x;
        if m < before.len() {
            assert(before[m] == x);
            seen_are_texts(p, low, high, n, k - 1, x);
        } else {
            encode_utf8_valid_utf8(lossy_text(present(p.dict.values)[k - 1]));
        }
    }
}

proof fn seen_listed<C: ColumnCodec>(
    c: C,
    f: V4Footer,
    file: Seq<u8>,
    num: int,
    low: F64,
    high: F64,
    dict: int,
    s: Seq<char>,
    k: int,
)
    requires
        0 <= k <= f.row_groups@.len(),
        comparable_range(low, high),
        forall|i: int| 0 <= i < k ==> #[trigger] pair_there(c, f, file, num, dict, i),
    ensures
        seen_in(c, f, file, num, dict, low, high, k) matches Ok(Some(v)) && v.contains(
            encode_utf8(s),
        ) == (exists|i: int|
            0 <= i < k && #[trigger] group_shows(c, f, file, num, low, high, dict, s, i)) && forall|
            x: Seq<u8>,
        | #[trigger]
            v.contains(x) ==> valid_utf8(x),
    decreases k,
{
    if k > 0 {
        seen_listed(c, f, file, num, low, high, dict, s, k - 1);
        assert(pair_there(c, f, file, num, dict, k - 1));
        group_adds(c, f, file, num, low, high, dict, s, k - 1);
        let acc = seen_in(c, f, file, num, dict, low, high, k - 1)->Ok_0->0;
        let p = pair_of(c, f, file, num, dict, k - 1)->Ok_0->0;
        let n = f.row_groups@[k - 1].row_count as int;
        let more = p.seen_texts(low, high, n, value_texts(p.dict).len() as int);
        joined_contains(acc, more, encode_utf8(s));
        assert forall|x: Seq<u8>| #[trigger] (acc + more).contains(x) implies valid_utf8(x) by {
            joined_contains(acc, more, x);
            if more.contains(x) {
                seen_are_texts(p, low, high, n, value_texts(p.dict).len() as int, x);
            }
        }
        let here = group_shows(c, f, file, num, low, high, dict, s, k - 1);
        if exists|i: int|
            0 <= i < k && #[trigger] group_shows(c, f, file, num, low, high, dict, s, i) {
            let i = choose|i: int|
                0 <= i < k && #[trigger] group_shows(c, f, file, num, low, high, dict, s, i);
            if i < k - 1 {
                assert(group_shows(c, f, file, num, low, high, dict, s, i));
            }
        }
    }
}

impl<C: ColumnCodec> OnDemandStorage<C> {
    /// Whether a scan of dictionary values by numbers can be made: the columns are there, and every row
    /// group has both.
    pub open spec fn pairs_there(self, num_col: Seq<char>, dict_col: Seq<char>) -> bool {
        self.footer matches Some(f) && self.file matches Some(file) && f.schema.index_of(
            num_col,
        ) matches Some(num) && f.schema.index_of(dict_col) matches Some(dict) && {
            &&& is_int(f.schema.kind(num as int)) || is_float(f.schema.kind(num as int))
            &&& f.schema.kind(dict as int) is StringDict
            &&& all_quick(f, file@, num as int)
            &&& all_quick(f, file@, dict as int)
            &&& forall|i: int|
                0 <= i < f.row_groups@.len() ==> #[trigger] pair_there(
                    self.codec,
                    f,
                    file@,
                    num as int,
                    dict as int,
                    i,
                )
        }
    }

    /// Whether a row of the table shows a text.
    pub open spec fn row_shows(
        self,
        num: int,
        low: F64,
        high: F64,
        dict: int,
        s: Seq<char>,
        row: int,
    ) -> bool {
        let f = self.footer->0;
        shows_at(
            self.codec,
            f,
            self.file->0@,
            num,
            low,
            high,
            dict,
            s,
            holder(f, row),
            place_in(f, row),
        )
    }

    /// A scan for the distinct values of a dictionary by numbers gives a text just where some live row
    /// with a number in the range has a value with that text; each text once, in the order of their
    /// bytes.
    pub proof fn law_distinct_values_of_rows(
        self,
        num_col: Seq<char>,
        low: F64,
        high: F64,
        dict_col: Seq<char>,
        s: Seq<char>,
    )
        requires
            self.wf(),
            comparable_range(low, high),
            self.pairs_there(num_col, dict_col),
        ensures
            ({
                let f = self.footer->0;
                let num = f.schema.index_of(num_col)->0 as int;
                let dict = f.schema.index_of(dict_col)->0 as int;
                &&& self.distinct_values(num_col, low, high, dict_col) matches Ok(Some(v)) && {
                    &&& v.contains(s) == (exists|row: int|
                        0 <= row < f.total_rows() && #[trigger] self.row_shows(
                            num,
                            low,
                            high,
                            dict,
                            s,
                            row,
                        ))
                    &&& forall|a: int, b: int|
                        0 <= a < b < v.len() ==> lex_less(
                            encode_utf8(#[trigger] v[a]),
                            encode_utf8(#[trigger] v[b]),
                        )
                }
            }),
    {
        let c = self.codec;
        let f = self.footer->0;
        let file = self.file->0@;
        let num = f.schema.index_of(num_col)->0 as int;
        let dict = f.schema.index_of(dict_col)->0 as int;
        let n = f.row_groups@.len() as int;
        seen_listed(c, f, file, num, low, high, dict, s, n);
        let all = seen_in(c, f, file, num, dict, low, high, n)->Ok_0->0;
        let sorted = ascending_strings(all);
        let v = decoded_texts(sorted);
        law_collected_once(all, encode_utf8(s));
        assert forall|k: int| 0 <= k < sorted.len() implies #[trigger] encode_utf8(v[k])
            == sorted[k] by {
            law_collected_once(all, sorted[k]);
            assert(sorted.contains(sorted[k]));
            assert(all.contains(sorted[k]));
            decode_utf8_encode_utf8(sorted[k]);
        }
        assert(v.contains(s) == sorted.contains(encode_utf8(s))) by {
            if v.contains(s) {
                let k = choose|k: int| 0 <= k < v.len() && v[k] == s;
                assert(encode_utf8(v[k]) == sorted[k]);
            }
            if sorted.contains(encode_utf8(s)) {
                let k = choose|k: int| 0 <= k < sorted.len() && sorted[k] == encode_utf8(s);
                assert(encode_utf8(v[k]) == sorted[k]);
                encode_utf8_decode_utf8(s);
                encode_utf8_decode_utf8(v[k]);
                assert(v[k] == s);
            }
        }
        if exists|i: int|
            0 <= i < n && #[trigger] group_shows(c, f, file, num, low, high, dict, s, i) {
            let i = choose|i: int|
                0 <= i < n && #[trigger] group_shows(c, f, file, num, low, high, dict, s, i);
            let r = choose|r: int|
                0 <= r < f.row_groups@[i].row_count && #[trigger] shows_at(
                    c,
                    f,
                    file,
                    num,
                    low,
                    high,
                    dict,
                    s,
                    i,
                    r,
                );
            in_each_group(f, i, r);
            group_bounds(f, i);
            assert(self.row_shows(num, low, high, dict, s, rows_before(f.row_groups@, i) + r));
        }
        if exists|row: int|
            0 <= row < f.total_rows() && #[trigger] self.row_shows(num, low, high, dict, s, row) {
            let row = choose|row: int|
                0 <= row < f.total_rows() && #[trigger] self.row_shows(
                    num,
                    low,
                    high,
                    dict,
                    s,
                    row,
                );
            held(f, row);
            assert(group_shows(c, f, file, num, low, high, dict, s, holder(f, row)));
        }
        assert forall|a: int, b: int| 0 <= a < b < v.len() implies lex_less(
            encode_utf8(#[trigger] v[a]),
            encode_utf8(#[trigger] v[b]),
        ) by {
            assert(encode_utf8(v[a]) == sorted[a]);
            assert(encode_utf8(v[b]) == sorted[b]);
            assert(lex_less(sorted[a], sorted[b]));
        }
    }
}

/// The rows with one of the first `k` entries that has a text, among the first `n`.
spec fn rows_with_text(p: PairSeq, test: TestSeq, count: int, n: int, k: int, t: Seq<u8>) -> int
    decreases k,
{
    if k <= 0 {
        0
    } else {
        rows_with_text(p, test, count, n, k - 1, t) + if value_texts(p.dict)[k - 1] == t {
            p.rows_with(test, count, n, k - 1)
        } else {
            0
        }
    }
}

/// Whether row `r` has one of the first `k` entries with a text and passes.
spec fn has_entry(p: PairSeq, test: TestSeq, count: int, k: int, t: Seq<u8>, r: int) -> bool {
    p.open(r) && p.numbers.hit(test, r) && (entry_of(p.dict, count, r) matches Some(j) && j < k
        && value_texts(p.dict)[j] == t)
}

proof fn one_more_row(p: PairSeq, test: TestSeq, count: int, n: int, k: int, t: Seq<u8>)
    requires
        0 < n,
        0 <= k <= count,
    ensures
        rows_with_text(p, test, count, n, k, t) == rows_with_text(p, test, count, n - 1, k, t)
            + one_if(has_entry(p, test, count, k, t, n - 1)),
    decreases k,
{
    if k > 0 {
        one_more_row(p, test, count, n, k - 1, t);
    }
}

proof fn no_rows(p: PairSeq, test: TestSeq, count: int, k: int, t: Seq<u8>)
    ensures
        rows_with_text(p, test, count, 0, k, t) == 0,
    decreases k,
{
    if k > 0 {
        no_rows(p, test, count, k - 1, t);
    }
}

/// The rows with a text are the rows of a kind.
proof fn rows_with_text_listed(
    p: PairSeq,
    test: TestSeq,
    count: int,
    n: int,
    t: Seq<u8>,
    base: int,
    kind: spec_fn(int) -> bool,
    before: Seq<usize>,
) -> (after: Seq<usize>)
    requires
        0 <= n,
        0 <= base,
        0 <= count,
        base + n <= usize::MAX,
        lists(before, base, kind),
        forall|r: int|
            0 <= r < n ==> #[trigger] has_entry(p, test, count, count, t, r) == kind(base + r),
    ensures
        lists(after, base + n, kind),
        rows_with_text(p, test, count, n, count, t) == after.len() - before.len(),
    decreases n,
{
    if n == 0 {
        no_rows(p, test, count, count, t);
        before
    } else {
        let most = rows_with_text_listed(p, test, count, n - 1, t, base, kind, before);
        one_more_row(p, test, count, n, count, t);
        let last = base + n - 1;
        assert(has_entry(p, test, count, count, t, n - 1) == kind(base + (n - 1)));
        let after = if kind(last) {
            most.push(last as usize)
        } else {
            most
        };
        lists_step(most, after, last, kind);
        after
    }
}

/// What a row group counts for a text are the rows that have it.
proof fn counted_is_rows(
    p: PairSeq,
    left: TestSeq,
    right: TestSeq,
    n: int,
    k: int,
    t: Seq<u8>,
)
    requires
        0 <= n,
        0 <= k <= value_texts(p.dict).len(),
    ensures
        ({
            let count = value_texts(p.dict).len() as int;
            let v = p.counted(left, right, n, k);
            &&& left_of(v, t) == rows_with_text(p, left, count, n, k, t)
            &&& right_of(v, t) == rows_with_text(p, right, count, n, k, t)
            &&& positive(v)
        }),
    decreases k,
{
    if k > 0 {
        let count = value_texts(p.dict).len() as int;
        counted_is_rows(p, left, right, n, k - 1, t);
        p.law_tally_counts_rows(left, right, count, n, k - 1);
        rows_with_natural(p, left, count, n, k - 1);
        rows_with_natural(p, right, count, n, k - 1);
        let before = p.counted(left, right, n, k - 1);
        let v = p.counted(left, right, n, k);
        if v.len() > before.len() {
            assert(v.drop_last() =~= before);
        }
    }
}

proof fn rows_with_natural(p: PairSeq, test: TestSeq, count: int, n: int, j: int)
    ensures
        0 <= p.rows_with(test, count, n, j),
    decreases n,
{
    if n > 0 {
        rows_with_natural(p, test, count, n - 1, j);
    }
}

/// Whether each entry counts a row on one side.
spec fn positive(s: Seq<(Seq<u8>, int, int)>) -> bool {
    forall|i: int|
        0 <= i < s.len() ==> (#[trigger] s[i]).1 >= 0 && s[i].2 >= 0 && s[i].1 + s[i].2 > 0
}

proof fn merged_positive(s: Seq<(Seq<u8>, int, int)>, x: (Seq<u8>, int, int))
    requires
        positive(s),
        x.1 >= 0,
        x.2 >= 0,
        x.1 + x.2 > 0,
    ensures
        positive(merge_entry(s, x)),
    decreases s.len(),
{
    if s.len() > 0 {
        let d = s.drop_last();
        assert(s[s.len() - 1] == s.last());
        assert forall|i: int| 0 <= i < d.len() implies (#[trigger] d[i]).1 >= 0 && d[i].2 >= 0
            && d[i].1 + d[i].2 > 0 by {
            assert(d[i] == s[i]);
        }
        merged_positive(d, x);
    }
}

proof fn all_merged_positive(s: Seq<(Seq<u8>, int, int)>, xs: Seq<(Seq<u8>, int, int)>)
    requires
        positive(s),
        positive(xs),
    ensures
        positive(merge_all(s, xs)),
    decreases xs.len(),
{
    if xs.len() > 0 {
        let d = xs.drop_last();
        assert forall|i: int| 0 <= i < d.len() implies (#[trigger] d[i]).1 >= 0 && d[i].2 >= 0
            && d[i].1 + d[i].2 > 0 by {
            assert(d[i] == xs[i]);
        }
        all_merged_positive(s, d);
        assert(xs[xs.len() - 1] == xs.last());
        merged_positive(merge_all(s, d), xs.last());
    }
}

/// What the first row groups count for a text are the rows that show it.
#[verifier::spinoff_prover]
proof fn counted_listed<C: ColumnCodec>(
    c: C,
    f: V4Footer,
    file: Seq<u8>,
    num: int,
    left: (F64, F64),
    right: (F64, F64),
    dict: int,
    s: Seq<char>,
    k: int,
    kl: spec_fn(int) -> bool,
    kr: spec_fn(int) -> bool,
) -> (rows: (Seq<usize>, Seq<usize>))
    requires
        f.wf(),
        0 <= k <= f.row_groups@.len(),
        comparable_range(left.0, left.1),
        comparable_range(right.0, right.1),
        forall|i: int| 0 <= i < k ==> #[trigger] pair_there(c, f, file, num, dict, i),
        forall|i: int, r: int|
            0 <= i < k && 0 <= r < f.row_groups@[i].row_count ==> #[trigger] shows_at(
                c,
                f,
                file,
                num,
                left.0,
                left.1,
                dict,
                s,
                i,
                r,
            ) == kl(rows_before(f.row_groups@, i) + r),
        forall|i: int, r: int|
            0 <= i < k && 0 <= r < f.row_groups@[i].row_count ==> #[trigger] shows_at(
                c,
                f,
                file,
                num,
                right.0,
                right.1,
                dict,
                s,
                i,
                r,
            ) == kr(rows_before(f.row_groups@, i) + r),
    ensures
        lists(rows.0, rows_before(f.row_groups@, k), kl),
        lists(rows.1, rows_before(f.row_groups@, k), kr),
        counted_in(
            c,
            f,
            file,
            num,
            dict,
            range_test(left.0, left.1),
            range_test(right.0, right.1),
            k,
        ) matches Ok(Some(v)) && left_of(v, encode_utf8(s)) == rows.0.len() && right_of(
            v,
            encode_utf8(s),
        ) == rows.1.len() && positive(v) && strictly_ascending(values_of(v)),
    decreases k,
{
    let lt = range_test(left.0, left.1);
    let rt = range_test(right.0, right.1);
    let t = encode_utf8(s);
    if k == 0 {
        (Seq::empty(), Seq::empty())
    } else {
        let i = k - 1;
        let (a, b) = counted_listed(c, f, file, num, left, right, dict, s, i, kl, kr);
        group_bounds(f, i);
        let n = f.row_groups@[i].row_count as int;
        let base = rows_before(f.row_groups@, i);
        assert(pair_there(c, f, file, num, dict, i));
        let p = pair_read(c, f, file, num, dict, i);
        let count = value_texts(p.dict).len() as int;
        assert forall|r: int| 0 <= r < n implies #[trigger] has_entry(p, lt, count, count, t, r)
            == kl(base + r) by {
            row_shows(c, f, file, num, left.0, left.1, dict, s, i, r, p);
            assert(shows_at(c, f, file, num, left.0, left.1, dict, s, i, r) == kl(base + r));
        }
        assert forall|r: int| 0 <= r < n implies #[trigger] has_entry(p, rt, count, count, t, r)
            == kr(base + r) by {
            row_shows(c, f, file, num, right.0, right.1, dict, s, i, r, p);
            assert(shows_at(c, f, file, num, right.0, right.1, dict, s, i, r) == kr(base + r));
        }
        counted_is_rows(p, lt, rt, n, count, t);
        let acc = counted_in(c, f, file, num, dict, lt, rt, i)->Ok_0->0;
        let xs = p.counted(lt, rt, n, count);
        law_merge_adds(acc, xs, t);
        all_merged_positive(acc, xs);
        law_counted_once(c, f, file, num, dict, lt, rt, k);
        (
            rows_with_text_listed(p, lt, count, n, t, base, kl, a),
            rows_with_text_listed(p, rt, count, n, t, base, kr, b),
        )
    }
}

/// Among entries with different values, the count of a value is that of its entry.
proof fn count_of_entry(s: Seq<(Seq<u8>, int, int)>, t: Seq<u8>)
    requires
        strictly_ascending(values_of(s)),
    ensures
        forall|i: int|
            0 <= i < s.len() && (#[trigger] s[i]).0 == t ==> left_of(s, t) == s[i].1 && right_of(s, t)
                == s[i].2,
        (forall|i: int| 0 <= i < s.len() ==> (#[trigger] s[i]).0 != t) ==> left_of(s, t) == 0
            && right_of(s, t) == 0,
    decreases s.len(),
{
    if s.len() > 0 {
        let d = s.drop_last();
        let last = s.len() - 1;
        assert(values_of(d) =~= values_of(s).drop_last());
        assert(strictly_ascending(values_of(d))) by {
            assert forall|i: int, j: int| 0 <= i < j < values_of(d).len() implies lex_less(
                #[trigger] values_of(d)[i],
                #[trigger] values_of(d)[j],
            ) by {
                assert(lex_less(values_of(s)[i], values_of(s)[j]));
            }
        }
        count_of_entry(d, t);
        if s[last].0 == t {
            assert forall|i: int| 0 <= i < d.len() implies (#[trigger] d[i]).0 != t by {
                assert(lex_less(values_of(s)[i], values_of(s)[last]));
                not_less(t);
            }
        }
        assert forall|i: int| 0 <= i < s.len() && (#[trigger] s[i]).0 == t implies left_of(s, t)
            == s[i].1 && right_of(s, t) == s[i].2 by {
            if i < last {
                assert(d[i] == s[i]);
                assert(lex_less(values_of(s)[i], values_of(s)[last]));
                not_less(t);
            }
        }
        if forall|i: int| 0 <= i < s.len() ==> (#[trigger] s[i]).0 != t {
            assert forall|i: int| 0 <= i < d.len() implies (#[trigger] d[i]).0 != t by {
                assert(d[i] == s[i]);
            }
            assert(s[last].0 != t);
        }
    }
}

proof fn not_less(t: Seq<u8>)
    ensures
        !lex_less(t, t),
{
    lex_total(t, t, 0);
}

/// Whether counts have a text just where one of its two counts is not zero, once and with these counts.
pub open spec fn counts_text(v: Seq<(Seq<char>, int, int)>, s: Seq<char>, left: int, right: int) -> bool {
    &&& (exists|i: int| 0 <= i < v.len() && (#[trigger] v[i]).0 == s) == (left > 0 || right > 0)
    &&& forall|i: int|
        0 <= i < v.len() && (#[trigger] v[i]).0 == s ==> v[i].1 == left && v[i].2 == right
    &&& forall|i: int, j: int|
        0 <= i < j < v.len() && (#[trigger] v[i]).0 == s ==> (#[trigger] v[j]).0 != s
}

impl<C: ColumnCodec> OnDemandStorage<C> {
    /// Counting the values of a dictionary by two ranges gives each text that a live row with a number in
    /// one of the ranges has, once, with the number of these rows for either range.
    pub proof fn law_counted_values_of_rows(
        self,
        num_col: Seq<char>,
        left: (F64, F64),
        right: (F64, F64),
        dict_col: Seq<char>,
        s: Seq<char>,
        lefts: Seq<usize>,
        rights: Seq<usize>,
    )
        requires
            self.wf(),
            comparable_range(left.0, left.1),
            comparable_range(right.0, right.1),
            self.pairs_there(num_col, dict_col),
            ({
                let f = self.footer->0;
                let num = f.schema.index_of(num_col)->0 as int;
                let dict = f.schema.index_of(dict_col)->0 as int;
                &&& lists(
                    lefts,
                    f.total_rows(),
                    |row: int| self.row_shows(num, left.0, left.1, dict, s, row),
                )
                &&& lists(
                    rights,
                    f.total_rows(),
                    |row: int| self.row_shows(num, right.0, right.1, dict, s, row),
                )
            }),
        ensures
            self.dict_value_counts(
                num_col,
                range_test(left.0, left.1),
                range_test(right.0, right.1),
                dict_col,
            ) matches Ok(Some(v)) && counts_text(v, s, lefts.len() as int, rights.len() as int),
    {
        let c = self.codec;
        let f = self.footer->0;
        let file = self.file->0@;
        let num = f.schema.index_of(num_col)->0 as int;
        let dict = f.schema.index_of(dict_col)->0 as int;
        let n = f.row_groups@.len() as int;
        let kl = |row: int| self.row_shows(num, left.0, left.1, dict, s, row);
        let kr = |row: int| self.row_shows(num, right.0, right.1, dict, s, row);
        assert forall|i: int, r: int|
            0 <= i < n && 0 <= r < f.row_groups@[i].row_count implies #[trigger] shows_at(
            c,
            f,
            file,
            num,
            left.0,
            left.1,
            dict,
            s,
            i,
            r,
        ) == kl(rows_before(f.row_groups@, i) + r) by {
            in_each_group(f, i, r);
        }
        assert forall|i: int, r: int|
            0 <= i < n && 0 <= r < f.row_groups@[i].row_count implies #[trigger] shows_at(
            c,
            f,
            file,
            num,
            right.0,
            right.1,
            dict,
            s,
            i,
            r,
        ) == kr(rows_before(f.row_groups@, i) + r) by {
            in_each_group(f, i, r);
        }
        let (a, b) = counted_listed(c, f, file, num, left, right, dict, s, n, kl, kr);
        same_list(a, lefts, f.total_rows(), kl);
        same_list(b, rights, f.total_rows(), kr);
        let lt = range_test(left.0, left.1);
        let rt = range_test(right.0, right.1);
        let all = counted_in(c, f, file, num, dict, lt, rt, n)->Ok_0->0;
        let v = text_triples(all);
        let t = encode_utf8(s);
        count_of_entry(all, t);
        assert forall|i: int| 0 <= i < all.len() implies ((#[trigger] all[i]).0 == t) == (v[i].0
            == s) by {
            counted_are_texts(c, f, file, num, dict, lt, rt, n, i);
            decode_utf8_encode_utf8(all[i].0);
            encode_utf8_decode_utf8(s);
        }
        if exists|i: int| 0 <= i < v.len() && (#[trigger] v[i]).0 == s {
            let i = choose|i: int| 0 <= i < v.len() && (#[trigger] v[i]).0 == s;
            assert(all[i].0 == t);
        }
        if lefts.len() > 0 || rights.len() > 0 {
            let i = choose|i: int| 0 <= i < all.len() && (#[trigger] all[i]).0 == t;
            assert(v[i].0 == s);
        }
        assert forall|i: int| 0 <= i < v.len() && (#[trigger] v[i]).0 == s implies v[i].1
            == lefts.len() && v[i].2 == rights.len() by {
            assert(all[i].0 == t);
        }
        assert forall|i: int, j: int| 0 <= i < j < v.len() && (#[trigger] v[i]).0 == s implies (
        #[trigger] v[j]).0 != s by {
            assert(all[i].0 == t);
            assert(lex_less(values_of(all)[i], values_of(all)[j]));
            not_less(t);
            assert(all[j].0 != t);
        }
        assert(self.dict_value_counts(num_col, lt, rt, dict_col) == Ok::<
            Option<Seq<(Seq<char>, int, int)>>,
            ScanError,
        >(Some(v)));
        assert(counts_text(v, s, lefts.len() as int, rights.len() as int));
    }
}

/// The values that are counted are texts.
proof fn counted_are_texts<C: ColumnCodec>(
    c: C,
    f: V4Footer,
    file: Seq<u8>,
    num: int,
    dict: int,
    left: TestSeq,
    right: TestSeq,
    k: int,
    i: int,
)
    requires
        0 <= k,
        counted_in(c, f, file, num, dict, left, right, k) matches Ok(Some(_)),
        0 <= i < counted_in(c, f, file, num, dict, left, right, k)->Ok_0->0.len(),
    ensures
        valid_utf8(counted_in(c, f, file, num, dict, left, right, k)->Ok_0->0[i].0),
{
    counted_texts(c, f, file, num, dict, left, right, k);
}

spec fn texts_only(s: Seq<(Seq<u8>, int, int)>) -> bool {
    forall|i: int| 0 <= i < s.len() ==> valid_utf8((#[trigger] s[i]).0)
}

proof fn counted_texts<C: ColumnCodec>(
    c: C,
    f: V4Footer,
    file: Seq<u8>,
    num: int,
    dict: int,
    left: TestSeq,
    right: TestSeq,
    k: int,
)
    requires
        0 <= k,
        counted_in(c, f, file, num, dict, left, right, k) matches Ok(Some(_)),
    ensures
        texts_only(counted_in(c, f, file, num, dict, left, right, k)->Ok_0->0),
    decreases k,
{
    if k > 0 {
        counted_texts(c, f, file, num, dict, left, right, k - 1);
        let acc = counted_in(c, f, file, num, dict, left, right, k - 1)->Ok_0->0;
        let p = pair_of(c, f, file, num, dict, k - 1)->Ok_0->0;
        let n = f.row_groups@[k - 1].row_count as int;
        let count = value_texts(p.dict).len() as int;
        group_texts(p, left, right, n, count);
        merged_texts(acc, p.counted(left, right, n, count));
    }
}

proof fn group_texts(p: PairSeq, left: TestSeq, right: TestSeq, n: int, k: int)
    requires
        0 <= k <= value_texts(p.dict).len(),
    ensures
        texts_only(p.counted(left, right, n, k)),
    decreases k,
{
    if k > 0 {
        group_texts(p, left, right, n, k - 1);
        encode_utf8_valid_utf8(lossy_text(present(p.dict.values)[k - 1]));
    }
}

proof fn merged_texts(s: Seq<(Seq<u8>, int, int)>, xs: Seq<(Seq<u8>, int, int)>)
    requires
        texts_only(s),
        texts_only(xs),
    ensures
        texts_only(merge_all(s, xs)),
    decreases xs.len(),
{
    if xs.len() > 0 {
        let d = xs.drop_last();
        assert forall|i: int| 0 <= i < d.len() implies valid_utf8((#[trigger] d[i]).0) by {
            assert(d[i] == xs[i]);
        }
        merged_texts(s, d);
        assert(xs[xs.len() - 1] == xs.last());
        merged_text(merge_all(s, d), xs.last());
    }
}

proof fn merged_text(s: Seq<(Seq<u8>, int, int)>, x: (Seq<u8>, int, int))
    requires
        texts_only(s),
        valid_utf8(x.0),
    ensures
        texts_only(merge_entry(s, x)),
    decreases s.len(),
{
    if s.len() > 0 {
        let d = s.drop_last();
        assert(s[s.len() - 1] == s.last());
        assert forall|i: int| 0 <= i < d.len() implies valid_utf8((#[trigger] d[i]).0) by {
            assert(d[i] == s[i]);
        }
        merged_text(d, x);
    }
}

} // verus!
