//! A count of rows outside of a range that do not match counts just these rows.

use vstd::prelude::*;

use crate::bytes::{bitmap_len, i64_le, packed_value};
use crate::codec::ColumnCodec;
use crate::column::ColumnSeq;
use crate::double::F64;
use crate::estimate_laws::comparable_range;
use crate::group::{group_of, id_section, stored_group, tail, window};
use crate::like::{shape_of, LikeShape};
use crate::meaning::{
    between, data_at, decoded_at, deleted_at, holder, lists, marks_len, missing_at, place_in,
    place_of, whole_column, Number,
};
use crate::model::{
    is_float, is_int, is_text, rows_before, ScanError, V4Footer, COL_ENCODING_BITPACK,
    COL_ENCODING_COMPACT_DICTIONARY, COL_ENCODING_PLAIN,
};
use crate::not_count::{
    apart_dict, apart_text, inside, no_gaps, numbers_of_column, undeleted, NotSeq,
};
use crate::numeric::{range_test, row_open, NumSeq};
use crate::pattern_laws::{fits, shape_fits};
use crate::pick_laws::{in_each_group, lists_step, marks_of_group, same_list};
use crate::scan_laws::{group_bounds, law_range_of_ints};
use crate::select::count_checked;
use crate::storage::OnDemandStorage;
use crate::string_laws::{quick_parts, text_at, texts_there};
use crate::tally_laws::{plain_strings_read, reads_string};
use crate::text::{plain_text, StrTestSeq};
use crate::text_scan::{all_quick, quick_column};

verus! {

/// The number in row `r` of row group `i` that decoding gives.
pub open spec fn decoded_number<C: ColumnCodec>(
    c: C,
    f: V4Footer,
    file: Seq<u8>,
    col: int,
    i: int,
    r: int,
) -> Number {
    match decoded_at(c, f, file, col, i) {
        Some((ColumnSeq::Int64(v), _)) => Number::Int(v[r] as int),
        Some((ColumnSeq::Float64(v), _)) => Number::Real(v[r]),
        _ => Number::Int(0),
    }
}

/// Whether decoding gives a number for each row of row group `i`, which packed fields hold as well.
#[verifier::opaque]
pub open spec fn decodes_numbers<C: ColumnCodec>(c: C, f: V4Footer, file: Seq<u8>, col: int, i: int) -> bool {
    let rows = f.row_groups@[i].row_count as int;
    let g = group_of(c, f.row_groups@[i], file)->Ok_0;
    let at = data_at(c, f, file, col, i);
    &&& whole_column(c, f, file, col, i)
    &&& g.version >= 1
    &&& f.rcix(i, col) is Some
    &&& match decoded_at(c, f, file, col, i) {
        Some((ColumnSeq::Int64(v), _)) => {
            &&& is_int(f.schema.kind(col))
            &&& v.len() == rows
            &&& g.body[at - 1] == COL_ENCODING_BITPACK && at + 17 <= g.body.len() ==> forall|r: int|
                0 <= r < rows ==> #[trigger] packed_value(
                    g.body.subrange(at + 17, g.body.len() as int),
                    g.body[at + 8] as int,
                    i64_le(g.body, at + 9),
                    r,
                ) == Some(v[r])
        },
        Some((ColumnSeq::Float64(v), _)) => !is_int(f.schema.kind(col)) && v.len() == rows,
        _ => false,
    }
}

/// Whether row `r` of row group `i` is live, has a value in both columns, its number lies outside of the
/// range and its string does not match.
#[verifier::opaque]
pub open spec fn apart_at<C: ColumnCodec>(
    c: C,
    f: V4Footer,
    file: Seq<u8>,
    num: int,
    low: F64,
    high: F64,
    text: int,
    pattern: Seq<char>,
    i: int,
    r: int,
) -> bool {
    &&& !deleted_at(c, f, file, i, r)
    &&& !missing_at(c, f, file, num, i, r)
    &&& !missing_at(c, f, file, text, i, r)
    &&& !between(low, high, decoded_number(c, f, file, num, i, r))
    &&& !(text_at(c, f, file, text, i, r) matches Some(s) && fits(pattern, s))
}

/// A count adds up the rows of a kind.
pub(crate) proof fn count_listed(
    hit: spec_fn(int) -> Option<bool>,
    n: int,
    base: int,
    kind: spec_fn(int) -> bool,
    before: Seq<usize>,
) -> (after: Seq<usize>)
    requires
        0 <= n,
        0 <= base,
        base + n <= usize::MAX,
        lists(before, base, kind),
        forall|r: int| 0 <= r < n ==> #[trigger] hit(r) == Some(kind(base + r)),
    ensures
        lists(after, base + n, kind),
        count_checked(hit, n) == Some(after.len() - before.len()),
    decreases n,
{
    if n == 0 {
        before
    } else {
        let most = count_listed(hit, n - 1, base, kind, before);
        let last = base + n - 1;
        assert(hit(n - 1) == Some(kind(base + (n - 1))));
        let after = if kind(last) {
            most.push(last as usize)
        } else {
            most
        };
        lists_step(most, after, last, kind);
        after
    }
}

/// What is read of the column of numbers tells whether a number lies in a range.
#[verifier::spinoff_prover]
proof fn numbers_told<C: ColumnCodec>(
    c: C,
    f: V4Footer,
    file: Seq<u8>,
    col: int,
    low: F64,
    high: F64,
    i: int,
) -> (src: NumSeq)
    requires
        f.row_groups@[i].row_count > 0,
        decodes_numbers(c, f, file, col, i),
        comparable_range(low, high),
    ensures
        ({
            let g = group_of(c, f.row_groups@[i], file)->Ok_0;
            let rows = f.row_groups@[i].row_count as int;
            let p = place_of(c, f, file, col, i);
            &&& numbers_of_column(c, f.schema.kind(col), tail(g.body, p + bitmap_len(rows))) == Ok::<
                Option<NumSeq>,
                ScanError,
            >(Some(src))
            &&& src.covers(rows)
            &&& forall|r: int|
                0 <= r < rows ==> #[trigger] inside(src, range_test(low, high), r) == between(
                    low,
                    high,
                    decoded_number(c, f, file, col, i, r),
                )
        }),
{
    reveal(decodes_numbers);
    let rows = f.row_groups@[i].row_count as int;
    let g = group_of(c, f.row_groups@[i], file)->Ok_0;
    let p = place_of(c, f, file, col, i);
    let at = data_at(c, f, file, col, i);
    let column = tail(g.body, p + bitmap_len(rows));
    assert(bitmap_len(rows) == marks_len(rows));
    assert(column == g.body.subrange(p + marks_len(rows), g.body.len() as int));
    let src = numbers_of_column(c, f.schema.kind(col), column)->Ok_0->0;
    if is_int(f.schema.kind(col)) && column.len() >= 18 && column[0] == COL_ENCODING_BITPACK {
        assert(tail(column, 18) =~= g.body.subrange(at + 17, g.body.len() as int));
        assert(column[9] == g.body[at + 8]);
        crate::pick_laws::words_behind(g.body, p + marks_len(rows), 10);
    }
    assert forall|r: int| 0 <= r < rows implies #[trigger] inside(src, range_test(low, high), r)
        == between(low, high, decoded_number(c, f, file, col, i, r)) by {
        if let Number::Int(v) = decoded_number(c, f, file, col, i, r) {
            law_range_of_ints(low, high, v);
        }
    }
    src
}

/// Whether row group `i` can be counted in: it has rows, a number and a string for each of them.
#[verifier::opaque]
pub open spec fn countable_pair<C: ColumnCodec>(
    c: C,
    f: V4Footer,
    file: Seq<u8>,
    num: int,
    text: int,
    i: int,
) -> bool {
    let g = group_of(c, f.row_groups@[i], file)->Ok_0;
    let tag = g.body[data_at(c, f, file, text, i) - 1];
    &&& f.row_groups@[i].row_count > 0
    &&& decodes_numbers(c, f, file, num, i)
    &&& texts_there(c, f, file, text, i)
    &&& f.schema.kind(text) is StringDict ==> tag == COL_ENCODING_PLAIN || tag
        == COL_ENCODING_COMPACT_DICTIONARY
}

/// What is told of a row by its number, its marks and whether its string matches is whether it is apart.
proof fn apart_told<C: ColumnCodec>(
    c: C,
    f: V4Footer,
    file: Seq<u8>,
    num: int,
    low: F64,
    high: F64,
    text: int,
    pattern: Seq<char>,
    shape: LikeShape,
    i: int,
    r: int,
    src: NumSeq,
    del: Option<Seq<u8>>,
    nulls: Seq<u8>,
    others: Seq<u8>,
    matched: bool,
)
    requires
        0 <= r < f.row_groups@[i].row_count,
        whole_column(c, f, file, num, i),
        whole_column(c, f, file, text, i),
        ({
            let g = group_of(c, f.row_groups@[i], file)->Ok_0;
            let rows = f.row_groups@[i].row_count as int;
            let p = place_of(c, f, file, num, i);
            let t = place_of(c, f, file, text, i);
            &&& del == (if f.row_groups@[i].deletion_count > 0 {
                window(g.body, id_section(rows, g.ids), bitmap_len(rows))
            } else {
                None
            })
            &&& nulls == g.body.subrange(p, p + bitmap_len(rows))
            &&& others == g.body.subrange(t, t + bitmap_len(rows))
        }),
        inside(src, range_test(low, high), r) == between(
            low,
            high,
            decoded_number(c, f, file, num, i, r),
        ),
        !missing_at(c, f, file, text, i, r) ==> matched == (text_at(c, f, file, text, i, r) matches Some(
            s,
        ) && fits(pattern, s)),
    ensures
        apart_at(c, f, file, num, low, high, text, pattern, i, r) == (row_open(del, Some(nulls), r)
            && row_open(None, Some(others), r) && !inside(src, range_test(low, high), r)
            && !matched),
{
    reveal(apart_at);
    marks_of_group(c, f, file, num, i, r);
    marks_of_group(c, f, file, text, i, r);
}

/// The count in a row group is that of the rows that are apart.
#[verifier::spinoff_prover]
proof fn group_counts<C: ColumnCodec>(
    q: NotSeq,
    pattern: Seq<char>,
    low: F64,
    high: F64,
    c: C,
    f: V4Footer,
    file: Seq<u8>,
    i: int,
    base: int,
    kind: spec_fn(int) -> bool,
    before: Seq<usize>,
) -> (after: Seq<usize>)
    requires
        0 <= base,
        base + f.row_groups@[i].row_count <= usize::MAX,
        lists(before, base, kind),
        comparable_range(low, high),
        countable_pair(c, f, file, q.num, q.text, i),
        q.num_kind == f.schema.kind(q.num),
        q.text_kind == f.schema.kind(q.text),
        q.test == range_test(low, high),
        q.like matches StrTestSeq::Like(shape) && shape_of(pattern) == Some(shape),
        forall|r: int|
            0 <= r < f.row_groups@[i].row_count ==> #[trigger] apart_at(
                c,
                f,
                file,
                q.num,
                low,
                high,
                q.text,
                pattern,
                i,
                r,
            ) == kind(base + r),
    ensures
        lists(after, base + f.row_groups@[i].row_count, kind),
        q.group(c, f, file, i) == Ok::<int, ScanError>(after.len() - before.len()),
{
    reveal(countable_pair);
    let meta = f.row_groups@[i];
    let rows = meta.row_count as int;
    let bm = bitmap_len(rows);
    let g = group_of(c, meta, file)->Ok_0;
    let s = stored_group(meta, file)->Ok_0;
    assert(tail(s, 32) == g.body);
    assert(bm == marks_len(rows));
    quick_parts(c, f, file, q.text, i);
    let quick = quick_column(f, file, q.text, i)->0;
    let src = numbers_told(c, f, file, q.num, low, high, i);
    let p = place_of(c, f, file, q.num, i);
    let at = data_at(c, f, file, q.text, i);
    let nulls = g.body.subrange(p, p + bm);
    assert(whole_column(c, f, file, q.num, i) && f.rcix(i, q.num) == Some(p)) by {
        reveal(decodes_numbers);
    }
    assert(window(g.body, p, bm) == Some(nulls));
    marks_of_group(c, f, file, q.num, i, 0);
    let del = if meta.deletion_count > 0 {
        quick.deleted
    } else {
        None
    };
    let shape = q.like->Like_0;
    if q.text_kind is StringDict {
        let d = c.dictionary(quick.encoding == COL_ENCODING_COMPACT_DICTIONARY, quick.data)->0;
        let hit = apart_dict(src, q.test, d, q.like, del, nulls, quick.nulls);
        assert forall|r: int| 0 <= r < rows implies #[trigger] hit(r) == Some(kind(base + r)) by {
            assert(apart_at(c, f, file, q.num, low, high, q.text, pattern, i, r) == kind(base + r));
            let matched = crate::text::dict_hit(d, q.like, d.indices[r] as int);
            if let Some(v) = d.value(d.indices[r] as int) {
                shape_fits(pattern, shape, v);
            }
            assert(inside(src, q.test, r) == between(
                low,
                high,
                decoded_number(c, f, file, q.num, i, r),
            ));
            apart_told(
                c,
                f,
                file,
                q.num,
                low,
                high,
                q.text,
                pattern,
                shape,
                i,
                r,
                src,
                del,
                nulls,
                quick.nulls,
                matched,
            );
        }
        count_listed(hit, rows, base, kind, before)
    } else {
        plain_strings_read(g.body, at, rows);
        let t = plain_text(tail(g.body, at))->0;
        let hit = apart_text(src, q.test, t, q.like, del, nulls, quick.nulls);
        assert forall|r: int| 0 <= r < rows implies #[trigger] hit(r) == Some(kind(base + r)) by {
            assert(apart_at(c, f, file, q.num, low, high, q.text, pattern, i, r) == kind(base + r));
            assert(reads_string(t, g.body, at, r));
            assert(t.raw() =~= t.rest.subrange(0, t.declared));
            let v = t.rest.subrange(t.start(r), t.end(r));
            assert(t.raw().subrange(t.start(r), t.end(r)) =~= v);
            shape_fits(pattern, shape, v);
            assert(inside(src, q.test, r) == between(
                low,
                high,
                decoded_number(c, f, file, q.num, i, r),
            ));
            apart_told(
                c,
                f,
                file,
                q.num,
                low,
                high,
                q.text,
                pattern,
                shape,
                i,
                r,
                src,
                del,
                nulls,
                quick.nulls,
                shape.matches(v),
            );
        }
        count_listed(hit, rows, base, kind, before)
    }
}

proof fn sum_listed<C: ColumnCodec>(
    q: NotSeq,
    pattern: Seq<char>,
    low: F64,
    high: F64,
    c: C,
    f: V4Footer,
    file: Seq<u8>,
    k: int,
    kind: spec_fn(int) -> bool,
) -> (rows: Seq<usize>)
    requires
        f.wf(),
        0 <= k <= f.row_groups@.len(),
        comparable_range(low, high),
        forall|i: int| 0 <= i < k ==> #[trigger] countable_pair(c, f, file, q.num, q.text, i),
        q.num_kind == f.schema.kind(q.num),
        q.text_kind == f.schema.kind(q.text),
        q.test == range_test(low, high),
        q.like matches StrTestSeq::Like(shape) && shape_of(pattern) == Some(shape),
        forall|i: int, r: int|
            0 <= i < k && 0 <= r < f.row_groups@[i].row_count ==> #[trigger] apart_at(
                c,
                f,
                file,
                q.num,
                low,
                high,
                q.text,
                pattern,
                i,
                r,
            ) == kind(rows_before(f.row_groups@, i) + r),
    ensures
        lists(rows, rows_before(f.row_groups@, k), kind),
        q.sum(c, f, file, k) == Ok::<int, ScanError>(rows.len() as int),
    decreases k,
{
    if k == 0 {
        Seq::empty()
    } else {
        let i = k - 1;
        let before = sum_listed(q, pattern, low, high, c, f, file, i, kind);
        group_bounds(f, i);
        assert(countable_pair(c, f, file, q.num, q.text, i));
        group_counts(
            q,
            pattern,
            low,
            high,
            c,
            f,
            file,
            i,
            rows_before(f.row_groups@, i),
            kind,
            before,
        )
    }
}

impl<C: ColumnCodec> OnDemandStorage<C> {
    /// A count of the rows outside of a range whose string does not match a pattern is the number of the
    /// live rows that have a value in both columns, a number outside of the range and a string that does
    /// not match. Where the strings are in order, and nothing is missing or deleted, the row groups serve
    /// a count by way of that order.
    pub proof fn law_not_count_of_rows(
        self,
        num_col: Seq<char>,
        low: F64,
        high: F64,
        str_col: Seq<char>,
        pattern: Seq<char>,
        all: Seq<usize>,
    )
        requires
            self.wf(),
            comparable_range(low, high),
            shape_of(pattern) is Some,
            self.footer matches Some(f) && self.file matches Some(file) && f.schema.index_of(
                num_col,
            ) matches Some(num) && f.schema.index_of(str_col) matches Some(text) && {
                &&& is_int(f.schema.kind(num as int)) || is_float(f.schema.kind(num as int))
                &&& is_text(f.schema.kind(text as int))
                &&& all_quick(f, file@, num as int)
                &&& all_quick(f, file@, text as int)
                &&& shape_of(pattern)->0 is Prefix && undeleted(f) && no_gaps(f, file@, num as int)
                    && self.column_sorted(text as int) == Ok::<bool, ScanError>(true)
                    ==> self.sound_pairs(
                    num as int,
                    low,
                    high,
                    text as int,
                    shape_of(pattern)->0->Prefix_0,
                )
                &&& forall|i: int|
                    0 <= i < f.row_groups@.len() ==> #[trigger] countable_pair(
                        self.codec,
                        f,
                        file@,
                        num as int,
                        text as int,
                        i,
                    )
                &&& lists(
                    all,
                    f.total_rows(),
                    |row: int|
                        apart_at(
                            self.codec,
                            f,
                            file@,
                            num as int,
                            low,
                            high,
                            text as int,
                            pattern,
                            holder(f, row),
                            place_in(f, row),
                        ),
                )
            },
        ensures
            self.not_count(num_col, low, high, str_col, pattern) == Ok::<Option<int>, ScanError>(
                Some(all.len() as int),
            ),
    {
        let c = self.codec;
        let f = self.footer->0;
        let file = self.file->0@;
        let num = f.schema.index_of(num_col)->0;
        let text = f.schema.index_of(str_col)->0;
        let shape = shape_of(pattern)->0;
        let n = f.row_groups@.len() as int;
        let kind = |row: int|
            apart_at(
                c,
                f,
                file,
                num as int,
                low,
                high,
                text as int,
                pattern,
                holder(f, row),
                place_in(f, row),
            );
        let q = NotSeq {
            num: num as int,
            num_kind: f.schema.kind(num as int),
            text: text as int,
            text_kind: f.schema.kind(text as int),
            test: range_test(low, high),
            like: StrTestSeq::Like(shape),
        };
        assert forall|i: int, r: int|
            0 <= i < n && 0 <= r < f.row_groups@[i].row_count implies #[trigger] apart_at(
            c,
            f,
            file,
            q.num,
            low,
            high,
            q.text,
            pattern,
            i,
            r,
        ) == kind(rows_before(f.row_groups@, i) + r) by {
            in_each_group(f, i, r);
        }
        assert forall|i: int| 0 <= i < n implies #[trigger] countable_pair(
            c,
            f,
            file,
            q.num,
            q.text,
            i,
        ) by {}
        let found = sum_listed(q, pattern, low, high, c, f, file, n, kind);
        same_list(found, all, f.total_rows(), kind);
        self.law_not_count_is_by_row(num_col, low, high, str_col, pattern, num, text, shape);
    }
}

} // verus!
