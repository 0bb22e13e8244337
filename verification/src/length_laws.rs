//! A ranking by length takes in every live row, with the length of its string.

use vstd::prelude::*;

use crate::bytes::bitmap_len;
use crate::codec::ColumnCodec;
use crate::column::ColumnSeq;
use crate::double::{is_nan, lt, F64};
use crate::group::{group_of, id_section, stored_group, tail, window};
use crate::lengths::{
    chars_in, column_view, group_candidates, parts_of, rows_of, tie_column, tie_index, LengthQuery,
    PartsSeq,
};
use crate::meaning::{
    as_double, data_at, decoded_at, deleted_at, holder, lists, marks_len, place_in, place_of,
    plain_string, whole_column, Number,
};
use crate::model::{rows_before, ScanError, V4Footer};
use crate::numeric::row_open;
use crate::pick_laws::{in_each_group, lists_step, marks_of_group, same_list};
use crate::ranking::{Candidate, Preference};
use crate::row_laws::{best_rows_differ, rows_once};
use crate::scan_laws::group_bounds;
use crate::storage::OnDemandStorage;
use crate::string_laws::texts_there;
use crate::tally_laws::{plain_strings_read, reads_string};
use crate::text::plain_text;
use crate::text_scan::has_bits;

verus! {

/// The number of characters of a string: its bytes that do not continue a character.
pub open spec fn chars_of(s: Seq<u8>) -> int {
    s.filter(|b: u8| !(0x80 <= b <= 0xBF)).len() as int
}

proof fn chars_counted(raw: Seq<u8>, a: int, b: int)
    requires
        0 <= a <= b <= raw.len(),
    ensures
        chars_in(raw, a, b) == chars_of(raw.subrange(a, b)),
        0 <= chars_in(raw, a, b) <= b - a,
    decreases b - a,
{
    reveal(Seq::filter);
    let s = raw.subrange(a, b);
    if a < b {
        chars_counted(raw, a, b - 1);
        assert(s.drop_last() =~= raw.subrange(a, b - 1));
        assert(s.last() == raw[b - 1]);
    } else {
        assert(s =~= Seq::empty());
    }
}

/// The number that decides between strings of one length: zero where no column was asked for.
pub open spec fn tie_at<C: ColumnCodec>(
    c: C,
    f: V4Footer,
    file: Seq<u8>,
    tie: Option<int>,
    i: int,
    r: int,
) -> F64 {
    match tie {
        None => F64 { bits: 0 },
        Some(col) => match decoded_at(c, f, file, col, i) {
            Some((ColumnSeq::Int64(v), _)) => as_double(Number::Int(v[r] as int)),
            Some((ColumnSeq::Float64(v), _)) => v[r],
            _ => F64 { bits: 0 },
        },
    }
}

/// Whether nothing is missing in a column of row group `i`.
pub open spec fn none_missing<C: ColumnCodec>(c: C, f: V4Footer, file: Seq<u8>, col: int, i: int) -> bool {
    let p = place_of(c, f, file, col, i);
    forall|k: int|
        p <= k < p + marks_len(f.row_groups@[i].row_count as int) ==> #[trigger] group_of(
            c,
            f.row_groups@[i],
            file,
        )->Ok_0.body[k] == 0
}

/// Whether row group `i` can be ranked: it is not compressed, its columns are tagged and on record,
/// nothing is missing, and there is a string, and a number that decides, for each row.
pub open spec fn ranks<C: ColumnCodec>(
    c: C,
    f: V4Footer,
    file: Seq<u8>,
    text: int,
    tie: Option<int>,
    i: int,
) -> bool {
    let rows = f.row_groups@[i].row_count as int;
    &&& f.schema.kind(text) is String
    &&& texts_there(c, f, file, text, i)
    &&& none_missing(c, f, file, text, i)
    &&& tie matches Some(col) ==> {
        &&& f.rcix(i, col) is Some
        &&& whole_column(c, f, file, col, i)
        &&& none_missing(c, f, file, col, i)
        &&& match decoded_at(c, f, file, col, i) {
            Some((ColumnSeq::Int64(v), _)) => v.len() == rows,
            Some((ColumnSeq::Float64(v), _)) => v.len() == rows,
            _ => false,
        }
    }
}

/// The parts of a row group that can be ranked.
#[verifier::spinoff_prover]
proof fn parts_read<C: ColumnCodec>(
    c: C,
    f: V4Footer,
    file: Seq<u8>,
    text: int,
    tie: Option<int>,
    i: int,
    spare: int,
) -> (p: PartsSeq)
    requires
        ranks(c, f, file, text, tie, i),
        0 <= spare <= 1,
    ensures
        parts_of(c, f, file, text, tie, i, spare) == Ok::<Option<PartsSeq>, ScanError>(Some(p)),
        ({
            let g = group_of(c, f.row_groups@[i], file)->Ok_0;
            let rows = f.row_groups@[i].row_count as int;
            &&& plain_text(tail(g.body, data_at(c, f, file, text, i))) == Some(p.text)
            &&& p.text.count == rows
            &&& p.deleted == (if f.row_groups@[i].deletion_count > 0 {
                window(g.body, id_section(rows, g.ids), bitmap_len(rows))
            } else {
                None
            })
            &&& forall|r: int|
                0 <= r < rows ==> #[trigger] p.tie(r) == tie_at(c, f, file, tie, i, r)
        }),
{
    let meta = f.row_groups@[i];
    let rows = meta.row_count as int;
    let bm = bitmap_len(rows);
    let g = group_of(c, meta, file)->Ok_0;
    let s = stored_group(meta, file)->Ok_0;
    assert(tail(s, 32) == g.body);
    assert(bm == marks_len(rows));
    let o = place_of(c, f, file, text, i);
    no_bits(c, f, file, text, i);
    plain_strings_read(g.body, data_at(c, f, file, text, i), rows);
    let t = plain_text(tail(g.body, o + bm + 1))->0;
    if let Some(col) = tie {
        no_bits(c, f, file, col, i);
        let at = place_of(c, f, file, col, i);
        assert(tie_column(c, f, g.body, col, i, rows, spare) matches Ok(Some(_)));
    }
    let p = parts_of(c, f, file, text, tie, i, spare)->Ok_0->0;
    p
}

pub(crate) proof fn no_bits<C: ColumnCodec>(c: C, f: V4Footer, file: Seq<u8>, col: int, i: int)
    requires
        whole_column(c, f, file, col, i),
        none_missing(c, f, file, col, i),
    ensures
        ({
            let p = place_of(c, f, file, col, i);
            !has_bits(
                group_of(c, f.row_groups@[i], file)->Ok_0.body.subrange(
                    p,
                    p + marks_len(f.row_groups@[i].row_count as int),
                ),
            )
        }),
{
    let p = place_of(c, f, file, col, i);
    let n = marks_len(f.row_groups@[i].row_count as int);
    let body = group_of(c, f.row_groups@[i], file)->Ok_0.body;
    let s = body.subrange(p, p + n);
    assert forall|k: int| 0 <= k < s.len() implies #[trigger] s[k] == 0 by {
        assert(body[p + k] == 0);
    }
}

/// Whether candidates are some rows with their lengths and the numbers that decide.
pub open spec fn ranked_rows(
    xs: Seq<Candidate>,
    rows: Seq<usize>,
    length: spec_fn(int) -> int,
    value: spec_fn(int) -> F64,
) -> bool {
    &&& xs.len() == rows.len()
    &&& forall|j: int|
        0 <= j < xs.len() ==> (#[trigger] xs[j]).row == rows[j] && xs[j].length == length(
            rows[j] as int,
        ) && xs[j].value == value(rows[j] as int)
}

/// The candidates of a row group are its live rows.
#[verifier::spinoff_prover]
proof fn candidates_there(
    p: PartsSeq,
    n: int,
    base: int,
    kind: spec_fn(int) -> bool,
    length: spec_fn(int) -> int,
    value: spec_fn(int) -> F64,
    before: Seq<Candidate>,
    rows: Seq<usize>,
) -> (after: Seq<usize>)
    requires
        0 <= n,
        0 <= base,
        base + n <= usize::MAX,
        lists(rows, base, kind),
        ranked_rows(before, rows, length, value),
        forall|r: int| 0 <= r < n ==> #[trigger] tells_length(p, base, kind, length, value, r),
    ensures
        p.candidates(base, n) matches Some(xs) && ranked_rows(before + xs, after, length, value),
        lists(after, base + n, kind),
    decreases n,
{
    if n == 0 {
        assert(before + Seq::<Candidate>::empty() =~= before);
        rows
    } else {
        let most = candidates_there(p, n - 1, base, kind, length, value, before, rows);
        let i = n - 1;
        assert(tells_length(p, base, kind, length, value, i));
        let last = base + i;
        let after = if kind(last) {
            most.push(last as usize)
        } else {
            most
        };
        lists_step(most, after, last, kind);
        let xs = p.candidates(base, n - 1)->0;
        let t = p.text;
        if kind(last) {
            chars_counted(t.raw(), t.start(i), t.end(i));
            let x = Candidate {
                length: chars_in(t.raw(), t.start(i), t.end(i)) as u64,
                value: p.tie(i),
                row: last as usize,
            };
            assert(p.candidates(base, n) == Some(xs.push(x)));
            assert(before + xs.push(x) =~= (before + xs).push(x));
        }
        after
    }
}

/// Whether what is read of row `r` tells its length and the number that decides.
spec fn tells_length(
    p: PartsSeq,
    base: int,
    kind: spec_fn(int) -> bool,
    length: spec_fn(int) -> int,
    value: spec_fn(int) -> F64,
    r: int,
) -> bool {
    let t = p.text;
    &&& kind(base + r) == row_open(p.deleted, None, r)
    &&& 0 <= t.start(r) <= t.end(r) <= t.raw().len() <= u64::MAX
    &&& length(base + r) == chars_of(t.raw().subrange(t.start(r), t.end(r)))
    &&& value(base + r) == p.tie(r)
}

/// What is read of a row tells its length.
proof fn row_tells_length<C: ColumnCodec>(
    c: C,
    f: V4Footer,
    file: Seq<u8>,
    text: int,
    tie: Option<int>,
    i: int,
    r: int,
    p: PartsSeq,
    base: int,
    kind: spec_fn(int) -> bool,
    length: spec_fn(int) -> int,
    value: spec_fn(int) -> F64,
)
    requires
        ranks(c, f, file, text, tie, i),
        0 <= r < f.row_groups@[i].row_count,
        ({
            let g = group_of(c, f.row_groups@[i], file)->Ok_0;
            let rows = f.row_groups@[i].row_count as int;
            &&& plain_text(tail(g.body, data_at(c, f, file, text, i))) == Some(p.text)
            &&& p.deleted == (if f.row_groups@[i].deletion_count > 0 {
                window(g.body, id_section(rows, g.ids), bitmap_len(rows))
            } else {
                None
            })
            &&& p.tie(r) == tie_at(c, f, file, tie, i, r)
            &&& g.body.len() <= u64::MAX
        }),
        kind(base + r) == !deleted_at(c, f, file, i, r),
        length(base + r) == chars_of(
            plain_string(
                group_of(c, f.row_groups@[i], file)->Ok_0.body,
                data_at(c, f, file, text, i),
                r,
            ),
        ),
        value(base + r) == tie_at(c, f, file, tie, i, r),
    ensures
        tells_length(p, base, kind, length, value, r),
{
    let g = group_of(c, f.row_groups@[i], file)->Ok_0;
    let at = data_at(c, f, file, text, i);
    let t = p.text;
    plain_strings_read(g.body, at, f.row_groups@[i].row_count as int);
    assert(reads_string(t, g.body, at, r));
    assert(t.raw() =~= t.rest.subrange(0, t.declared));
    assert(t.raw().subrange(t.start(r), t.end(r)) =~= t.rest.subrange(t.start(r), t.end(r)));
    marks_of_group(c, f, file, text, i, r);
}

/// Whether tests and keys are those of row `r` of row group `i`.
spec fn keyed<C: ColumnCodec>(
    c: C,
    f: V4Footer,
    file: Seq<u8>,
    text: int,
    tie: Option<int>,
    kind: spec_fn(int) -> bool,
    length: spec_fn(int) -> int,
    value: spec_fn(int) -> F64,
    i: int,
    r: int,
) -> bool {
    let row = rows_before(f.row_groups@, i) + r;
    &&& kind(row) == !deleted_at(c, f, file, i, r)
    &&& length(row) == chars_of(
        plain_string(
            group_of(c, f.row_groups@[i], file)->Ok_0.body,
            data_at(c, f, file, text, i),
            r,
        ),
    )
    &&& value(row) == tie_at(c, f, file, tie, i, r)
}

/// The candidates of a row group that can be ranked are its live rows.
#[verifier::spinoff_prover]
proof fn group_ranked<C: ColumnCodec>(
    c: C,
    f: V4Footer,
    file: Seq<u8>,
    text: int,
    tie: Option<int>,
    i: int,
    spare: int,
    kind: spec_fn(int) -> bool,
    length: spec_fn(int) -> int,
    value: spec_fn(int) -> F64,
    asked: Seq<Candidate>,
    before: Seq<usize>,
) -> (after: Seq<usize>)
    requires
        f.wf(),
        file.len() <= u64::MAX,
        0 <= spare <= 1,
        0 <= i < f.row_groups@.len(),
        ranks(c, f, file, text, tie, i),
        lists(before, rows_before(f.row_groups@, i), kind),
        ranked_rows(asked, before, length, value),
        forall|r: int|
            0 <= r < f.row_groups@[i].row_count ==> #[trigger] keyed(
                c,
                f,
                file,
                text,
                tie,
                kind,
                length,
                value,
                i,
                r,
            ),
    ensures
        lists(after, rows_before(f.row_groups@, i + 1), kind),
        group_candidates(c, f, file, text, tie, i, spare) matches Ok(Some(xs)) && ranked_rows(
            asked + xs,
            after,
            length,
            value,
        ),
{
    group_bounds(f, i);
    let n = f.row_groups@[i].row_count as int;
    let base = rows_before(f.row_groups@, i);
    let p = parts_read(c, f, file, text, tie, i, spare);
    assert forall|r: int| 0 <= r < n implies #[trigger] tells_length(
        p,
        base,
        kind,
        length,
        value,
        r,
    ) by {
        assert(keyed(c, f, file, text, tie, kind, length, value, i, r));
        assert(p.tie(r) == tie_at(c, f, file, tie, i, r));
        row_tells_length(c, f, file, text, tie, i, r, p, base, kind, length, value);
    }
    candidates_there(p, n, base, kind, length, value, asked, before)
}

/// The rankings of the first row groups take in their live rows.
#[verifier::spinoff_prover]
proof fn groups_ranked<C: ColumnCodec>(
    q: LengthQuery,
    c: C,
    f: V4Footer,
    file: Seq<u8>,
    k: int,
    kind: spec_fn(int) -> bool,
    length: spec_fn(int) -> int,
    value: spec_fn(int) -> F64,
) -> (rows: Seq<usize>)
    requires
        f.wf(),
        file.len() <= u64::MAX,
        0 <= k <= f.row_groups@.len(),
        forall|i: int|
            0 <= i < k ==> #[trigger] ranks(c, f, file, q.text as int, column_view(q.tie), i),
        forall|i: int, r: int|
            0 <= i < k && 0 <= r < f.row_groups@[i].row_count ==> #[trigger] keyed(
                c,
                f,
                file,
                q.text as int,
                column_view(q.tie),
                kind,
                length,
                value,
                i,
                r,
            ),
    ensures
        lists(rows, rows_before(f.row_groups@, k), kind),
        ranked_rows(q.asked(c, f, file, k), rows, length, value),
        q.each(c, f, file, k) matches Ok(Some(_)),
        q.walked(c, f, file, k) matches Ok(Some(_)),
    decreases k,
{
    if k == 0 {
        Seq::empty()
    } else {
        let i = k - 1;
        let before = groups_ranked(q, c, f, file, i, kind, length, value);
        group_bounds(f, i);
        let tie = column_view(q.tie);
        let text = q.text as int;
        let asked = q.asked(c, f, file, i);
        assert(ranks(c, f, file, text, tie, i));
        assert forall|r: int| 0 <= r < f.row_groups@[i].row_count implies #[trigger] keyed(
            c,
            f,
            file,
            text,
            tie,
            kind,
            length,
            value,
            i,
            r,
        ) by {}
        let other = group_ranked(c, f, file, text, tie, i, 1, kind, length, value, asked, before);
        group_ranked(c, f, file, text, tie, i, 0, kind, length, value, asked, before)
    }
}

/// Whether a row comes strictly before another one in a ranking by length: its string is longer, or
/// shorter; among strings of one length its number is larger, or smaller; then it comes first.
pub open spec fn comes_before(
    length_desc: bool,
    tie_desc: bool,
    a: (int, F64, int),
    b: (int, F64, int),
) -> bool {
    let (m, x, p) = a;
    let (n, y, q) = b;
    if m != n {
        (m > n) == length_desc
    } else if lt(x, y) || lt(y, x) {
        lt(y, x) == tie_desc
    } else {
        p < q
    }
}

impl<C: ColumnCodec> OnDemandStorage<C> {
    /// What a ranking by length looks at of a row of the table: the number of characters of its string,
    /// the number that decides, and the row.
    pub open spec fn length_key(self, text: int, tie: Option<int>, row: int) -> (int, F64, int) {
        let f = self.footer->0;
        let file = self.file->0@;
        let i = holder(f, row);
        (
            chars_of(
                plain_string(
                    group_of(self.codec, f.row_groups@[i], file)->Ok_0.body,
                    data_at(self.codec, f, file, text, i),
                    place_in(f, row),
                ),
            ),
            tie_at(self.codec, f, file, tie, i, place_in(f, row)),
            row,
        )
    }

    /// A ranking by length has as many rows as asked for, or each live row where there are fewer:
    /// different live rows. Where each number that decides is one, the rows are in order, and no live
    /// row that is left out comes before one of them.
    #[verifier::spinoff_prover]
    pub proof fn law_top_k_lengths(
        self,
        str_col: Seq<char>,
        tie_col: Option<Seq<char>>,
        k: usize,
        length_desc: bool,
        tie_desc: bool,
        live: Seq<usize>,
    )
        requires
            self.wf(),
            self.footer matches Some(f) && self.file matches Some(file) && f.schema.index_of(
                str_col,
            ) matches Some(text) && tie_index(f, tie_col) matches Some(tie) && {
                &&& file@.len() <= u64::MAX
                &&& f.schema.kind(text as int) is String
                &&& forall|i: int|
                    0 <= i < f.row_groups@.len() ==> #[trigger] ranks(
                        self.codec,
                        f,
                        file@,
                        text as int,
                        column_view(tie),
                        i,
                    )
                &&& lists(live, f.total_rows(), |row: int| !self.is_deleted(row))
                &&& forall|j: int|
                    0 <= j < live.len() ==> !is_nan(
                        self.length_key(
                            text as int,
                            column_view(tie),
                            #[trigger] live[j] as int,
                        ).1.bits,
                    )
            },
        ensures
            ({
                let f = self.footer->0;
                let text = f.schema.index_of(str_col)->0 as int;
                let tie = column_view(tie_index(f, tie_col)->0);
                &&& self.top_k_lengths(str_col, tie_col, k, length_desc, tie_desc) matches Ok(Some(top))
                    && {
                    &&& top.len() == (if live.len() < k {
                        live.len() as int
                    } else {
                        k as int
                    })
                    &&& forall|j: int| 0 <= j < top.len() ==> live.contains(#[trigger] top[j])
                    &&& forall|j: int, m: int|
                        0 <= j < m < top.len() ==> #[trigger] top[j] != #[trigger] top[m]
                            && !comes_before(
                            length_desc,
                            tie_desc,
                            self.length_key(text, tie, top[m] as int),
                            self.length_key(text, tie, top[j] as int),
                        )
                    &&& forall|row: usize, j: int|
                        0 <= j < top.len() && live.contains(row) && !top.contains(row)
                            ==> !comes_before(
                            length_desc,
                            tie_desc,
                            #[trigger] self.length_key(text, tie, row as int),
                            self.length_key(text, tie, #[trigger] top[j] as int),
                        )
                }
            }),
    {
        broadcast use vstd::seq_lib::group_to_multiset_ensures;

        let c = self.codec;
        let f = self.footer->0;
        let file = self.file->0@;
        let text = f.schema.index_of(str_col)->0;
        let tie = tie_index(f, tie_col)->0;
        let t = column_view(tie);
        let n = f.row_groups@.len() as int;
        let kind = |row: int| !self.is_deleted(row);
        let length = |row: int| self.length_key(text as int, t, row).0;
        let value = |row: int| self.length_key(text as int, t, row).1;
        if k > 0 {
            let order = Preference::Length { descending: length_desc, tie_descending: tie_desc };
            let q = LengthQuery { text, tie, order, k };
            assert forall|i: int, r: int|
                0 <= i < n && 0 <= r < f.row_groups@[i].row_count implies #[trigger] keyed(
                c,
                f,
                file,
                text as int,
                t,
                kind,
                length,
                value,
                i,
                r,
            ) by {
                in_each_group(f, i, r);
            }
            let found = groups_ranked(q, c, f, file, n, kind, length, value);
            same_list(found, live, f.total_rows(), kind);
            let xs = q.asked(c, f, file, n);
            assert forall|j: int| 0 <= j < xs.len() implies !is_nan((#[trigger] xs[j]).value.bits) by {
                assert(xs[j].value == value(live[j] as int));
            }
            q.law_ranked_apart(c, f, file);
            let best = q.best(c, f, file)->Ok_0->0;
            let top = rows_of(best);
            rows_once(xs, live);
            best_rows_differ(best, xs);
            assert forall|x: Candidate| #[trigger] xs.contains(x) implies live.contains(x.row)
                && x.length == length(x.row as int) && x.value == value(x.row as int) by {
                let m = choose|m: int| 0 <= m < xs.len() && xs[m] == x;
                assert(live[m] == x.row);
            }
            assert forall|j: int| 0 <= j < best.len() implies xs.contains(#[trigger] best[j]) by {
                assert(best.to_multiset().count(best[j]) > 0);
                assert(xs.to_multiset().count(best[j]) > 0);
            }
            assert forall|x: Candidate, y: Candidate|
                xs.contains(x) && xs.contains(y) implies #[trigger] order.ahead(x, y)
                == comes_before(
                length_desc,
                tie_desc,
                self.length_key(text as int, t, x.row as int),
                self.length_key(text as int, t, y.row as int),
            ) by {
                let a = choose|m: int| 0 <= m < xs.len() && xs[m] == x;
                let b = choose|m: int| 0 <= m < xs.len() && xs[m] == y;
                assert(!is_nan(xs[a].value.bits));
                assert(!is_nan(xs[b].value.bits));
            }
            assert forall|j: int| 0 <= j < top.len() implies live.contains(#[trigger] top[j]) by {
                assert(xs.contains(best[j]));
            }
            assert forall|j: int, m: int| 0 <= j < m < top.len() implies #[trigger] top[j]
                != #[trigger] top[m] && !comes_before(
                length_desc,
                tie_desc,
                self.length_key(text as int, t, top[m] as int),
                self.length_key(text as int, t, top[j] as int),
            ) by {
                assert(best[j].row != best[m].row);
                assert(xs.contains(best[j]) && xs.contains(best[m]));
                assert(!order.ahead(best[m], best[j]));
            }
            assert forall|row: usize, j: int|
                0 <= j < top.len() && live.contains(row) && !top.contains(row) implies !comes_before(
                length_desc,
                tie_desc,
                #[trigger] self.length_key(text as int, t, row as int),
                self.length_key(text as int, t, #[trigger] top[j] as int),
            ) by {
                let m = choose|m: int| 0 <= m < live.len() && live[m] == row;
                let y = xs[m];
                assert(y.row == row);
                if best.contains(y) {
                    let u = choose|u: int| 0 <= u < best.len() && best[u] == y;
                    assert(top[u] == row);
                }
                assert(best.to_multiset().count(y) == 0);
                assert(xs.contains(y));
                assert(xs.to_multiset().count(y) > 0);
                assert(xs.contains(best[j]));
                assert(!order.ahead(y, best[j]));
            }
        }
    }
}

} // verus!
