//! A scan for several predicates gives the live rows that one of them holds for.

use vstd::prelude::*;

use crate::bytes::{bitmap_len, law_search_sorted_words, search_words, u32_le, u64_le, words_sorted};
use crate::codec::ColumnCodec;
use crate::dict_text::{dict_text, DictTextSeq};
use crate::double::{at_least, at_most, is_nan, F64};
use crate::group::{group_of, id_section, stored_group, tail, window};
use crate::meaning::{
    between, bounds_hold, data_at, deleted_at, dict_bound, dict_index, dict_value, holder,
    is_one_of, is_plain, lists, marks_len, missing_at, names_once, number_at, place_in, place_of,
    string_at, whole_column, whole_numbers, whole_texts, Number,
};
use crate::model::{
    is_float, is_int, is_text, rows_before, ColumnType, ScanError, V4Footer, RG_COMPRESS_NONE,
};
use crate::multi::{
    equal_rows, index_rows, index_set_rows, matched_by, member_rows, value_from, values_found,
    view_of, PredSeq, ViewSeq,
};
use crate::numeric::{in_test, num_rows, plain_numbers, range_test, row_open, tag_len, TestSeq};
use crate::order::{ascending_rows, ascending_rows_facts};
use crate::outside::occurs_at;
use crate::pick_laws::{
    accepts, checked_is_select, counts, extremes_bound, in_each_group, int_is_integer,
    marks_of_group, none_counts, passes_among, picked, picked_lists, plain_is_numbers, same_list,
};
use crate::pred_laws::found_facts;
use crate::scan_laws::law_range_of_ints;
use crate::select::select;
use crate::set_laws::select_agrees;
use crate::storage::OnDemandStorage;
use crate::tally_laws::{dict_strings_read, plain_strings_read, reads_string};
use crate::text::{plain_text, TextSeq};
use crate::text_filter::positions;

verus! {

/// Whether a string is one of some values.
pub open spec fn among(values: Seq<Seq<u8>>, string: Option<Seq<u8>>) -> bool {
    exists|k: int| 0 <= k < values.len() && string == Some(#[trigger] values[k])
}

/// Whether row `r` of row group `i` is live and has one of some strings. A row that is missing has no
/// string.
pub open spec fn has_text<C: ColumnCodec>(
    c: C,
    f: V4Footer,
    file: Seq<u8>,
    col: int,
    values: Seq<Seq<u8>>,
    i: int,
    r: int,
) -> bool {
    !deleted_at(c, f, file, i, r) && (f.schema.kind(col) is StringDict || !missing_at(
        c,
        f,
        file,
        col,
        i,
        r,
    )) && among(values, string_at(c, f, file, col, i, r))
}

/// Whether row `r` of row group `i` is live and a predicate on a column holds for it. A row that is
/// missing has no number.
pub open spec fn holds_at<C: ColumnCodec>(
    c: C,
    f: V4Footer,
    file: Seq<u8>,
    col: int,
    p: PredSeq,
    i: int,
    r: int,
) -> bool {
    match p {
        PredSeq::NumericRange { low, high, .. } => !deleted_at(c, f, file, i, r) && !missing_at(
            c,
            f,
            file,
            col,
            i,
            r,
        ) && between(low, high, number_at(c, f, file, col, i, r)),
        PredSeq::NumericIn { values, .. } => !deleted_at(c, f, file, i, r) && !missing_at(
            c,
            f,
            file,
            col,
            i,
            r,
        ) && is_one_of(values, number_at(c, f, file, col, i, r)),
        PredSeq::StringEq { value, .. } => has_text(c, f, file, col, seq![value], i, r),
        PredSeq::StringIn { values, .. } => has_text(c, f, file, col, values, i, r),
    }
}

/// Whether the values of a dictionary follow each other, none of them empty, in data that words can
/// count.
pub open spec fn values_follow(s: Seq<u8>, at: int) -> bool {
    let size = u64_le(s, at + 8) as int;
    &&& forall|k: int|
        0 <= k < size ==> dict_bound(s, at, k) + (#[trigger] dict_value(s, at, k)).len()
            == dict_bound(s, at, k + 1) && dict_value(s, at, k).len() > 0
    &&& size <= u32::MAX
    &&& dict_bound(s, at, size) <= u32::MAX
}

/// Whether a dictionary names each value once, and its values follow each other.
#[verifier::opaque]
pub open spec fn sound_names(s: Seq<u8>, at: int) -> bool {
    names_once(s, at) && values_follow(s, at)
}

/// Whether the zone map of row group `i`, if it has one for lengths, gives bounds for those of its
/// strings.
#[verifier::opaque]
pub open spec fn lengths_hold<C: ColumnCodec>(c: C, f: V4Footer, file: Seq<u8>, col: int, i: int) -> bool {
    f.zone(i, col, false) matches Some(m) ==> !m.is_float ==> forall|r: int|
        0 <= r < f.row_groups@[i].row_count && (#[trigger] string_at(
            c,
            f,
            file,
            col,
            i,
            r,
        )) is Some ==> m.min_bits <= string_at(c, f, file, col, i, r)->0.len() <= m.max_bits
}

/// Whether the column of row group `i` can be looked at: the row group is not compressed, and the
/// column is on record and plain.
pub open spec fn in_sight<C: ColumnCodec>(c: C, f: V4Footer, file: Seq<u8>, col: int, i: int) -> bool {
    let g = group_of(c, f.row_groups@[i], file)->Ok_0;
    &&& g.flag == RG_COMPRESS_NONE
    &&& f.rcix(i, col) is Some
    &&& whole_column(c, f, file, col, i)
    &&& is_plain(c, f, file, col, i)
}

/// Whether row group `i` can be looked at for strings.
pub open spec fn texts_testable<C: ColumnCodec>(c: C, f: V4Footer, file: Seq<u8>, col: int, i: int) -> bool {
    let g = group_of(c, f.row_groups@[i], file)->Ok_0;
    &&& in_sight(c, f, file, col, i)
    &&& is_text(f.schema.kind(col))
    &&& whole_texts(c, f, file, col, i)
    &&& lengths_hold(c, f, file, col, i)
    &&& f.schema.kind(col) is StringDict ==> sound_names(g.body, data_at(c, f, file, col, i))
}

/// Whether row group `i` can be looked at for a predicate, and its zone map, if it has one, tells the
/// truth.
pub open spec fn testable<C: ColumnCodec>(
    c: C,
    f: V4Footer,
    file: Seq<u8>,
    col: int,
    p: PredSeq,
    i: int,
) -> bool {
    let kind = f.schema.kind(col);
    &&& in_sight(c, f, file, col, i)
    &&& match p {
        PredSeq::NumericRange { low, high, .. } => {
            &&& is_int(kind) || is_float(kind)
            &&& is_int(kind) ==> !is_nan(low.bits) && !is_nan(high.bits) && at_most(
                low,
                i64::MAX as int,
            ) && at_least(high, i64::MIN as int)
            &&& whole_numbers(c, f, file, col, i)
            &&& bounds_hold(c, f, file, col, i)
        },
        PredSeq::NumericIn { .. } => {
            &&& is_int(kind)
            &&& whole_numbers(c, f, file, col, i)
            &&& bounds_hold(c, f, file, col, i)
        },
        _ => texts_testable(c, f, file, col, i),
    }
}

/// Whether no two values of a dictionary are the same.
#[verifier::opaque]
spec fn values_distinct(d: DictTextSeq) -> bool {
    forall|a: int, b: int|
        0 <= a < b < d.size ==> #[trigger] d.value(a) != #[trigger] d.value(b)
}

/// Whether the values of a dictionary that was taken apart follow each other.
#[verifier::opaque]
spec fn follows(d: DictTextSeq) -> bool {
    &&& 0 <= d.size <= u32::MAX
    &&& d.offsets.len() == d.size * 4
    &&& d.declared == d.raw.len()
    &&& d.raw.len() <= u32::MAX
    &&& forall|k: int| 0 <= k < d.size ==> d.start(k) < d.end(k) && d.end(k) <= d.raw.len() && (
    #[trigger] d.value(k)) is Some
    &&& forall|a: int, b: int|
        0 <= a < b < d.size ==> #[trigger] d.start(a) < #[trigger] d.start(b)
}

/// A search by the bytes of a value finds the value.
proof fn search_finds_value(d: DictTextSeq, target: Seq<u8>, p: int)
    requires
        0 <= p,
        follows(d),
    ensures
        value_from(d, target, p) matches Some(found) && match found {
            Some(k) => 0 <= k < d.size && d.value(k) == Some(target),
            None => forall|k: int|
                0 <= k < d.size && d.start(k) >= p ==> #[trigger] d.value(k) != Some(target),
        },
    decreases positions(d.raw) - p,
{
    reveal(follows);
    if p < positions(d.raw) {
        search_finds_value(d, target, p + 1);
        assert(words_sorted(d.offsets, d.size)) by {
            assert forall|i: int, j: int| 0 <= i <= j < d.size implies #[trigger] u32_le(
                d.offsets,
                i * 4,
            ) <= #[trigger] u32_le(d.offsets, j * 4) by {
                if i < j {
                    assert(d.start(i) < d.start(j));
                }
            }
        }
        law_search_sorted_words(d.offsets, d.size, p as u32);
        assert(p % 0x1_0000_0000 == p);
        assert forall|k: int| 0 <= k < d.size && d.start(k) == p && #[trigger] d.value(k) == Some(
            target,
        ) implies value_from(d, target, p) == Some(Some(k)) by {
            assert(d.raw.subrange(d.start(k), d.end(k)) == target);
            assert(occurs_at(d.raw, target, p));
            assert(u32_le(d.offsets, k * 4) == p as u32);
            let x = search_words(d.offsets, d.size, p as u32)->0 as int;
            if x < k {
                assert(d.start(x) < d.start(k));
            } else if k < x {
                assert(d.start(k) < d.start(x));
            }
        }
        if occurs_at(d.raw, target, p) {
            if let Some(x) = search_words(d.offsets, d.size, p as u32) {
                assert(d.value(x as int) is Some);
                assert(d.start(x as int) == p);
            }
        }
    } else {
        assert forall|k: int| 0 <= k < d.size && d.start(k) >= p implies #[trigger] d.value(k)
            != Some(target) by {
            assert(d.start(k) < d.end(k));
        }
    }
}

/// The dictionary of a row group whose values follow each other.
proof fn dictionary_follows<C: ColumnCodec>(c: C, f: V4Footer, file: Seq<u8>, col: int, i: int)
    requires
        f.row_groups@[i].row_count > 0,
        f.schema.kind(col) is StringDict,
        whole_texts(c, f, file, col, i),
        sound_names(
            group_of(c, f.row_groups@[i], file)->Ok_0.body,
            data_at(c, f, file, col, i),
        ),
    ensures
        dict_text(
            tail(group_of(c, f.row_groups@[i], file)->Ok_0.body, data_at(c, f, file, col, i)),
        ) matches Ok(Some(d)) && follows(d),
{
    reveal(follows);
    reveal(sound_names);
    let rows = f.row_groups@[i].row_count as int;
    let body = group_of(c, f.row_groups@[i], file)->Ok_0.body;
    let at = data_at(c, f, file, col, i);
    dict_strings_read(body, at, rows);
    crate::tally_laws::dict_head_read(body, at, rows);
    let d = dict_text(tail(body, at))->Ok_0->0;
    assert(dict_bound(body, at, d.size) == d.raw.len());
    assert forall|k: int| 0 <= k < d.size implies d.start(k) < d.end(k) && d.end(k) <= d.raw.len()
        && (#[trigger] d.value(k)) is Some by {
        assert(d.value(k) == Some(dict_value(body, at, k)));
        assert(dict_value(body, at, k).len() > 0);
    }
    assert forall|a: int, b: int| 0 <= a < b < d.size implies #[trigger] d.start(a)
        < #[trigger] d.start(b) by {
        starts_ascend(d, a, b);
    }
    crate::tally_laws::dict_declared(body, at, rows);
}

proof fn starts_ascend(d: DictTextSeq, a: int, b: int)
    requires
        0 <= a < b < d.size,
        forall|k: int| 0 <= k < d.size ==> d.start(k) < d.end(k) && (#[trigger] d.value(k)) is Some,
    ensures
        d.start(a) < d.start(b),
    decreases b - a,
{
    assert(d.value(b - 1) is Some);
    assert(d.end(b - 1) == d.start(b));
    if a < b - 1 {
        starts_ascend(d, a, b - 1);
    }
}

/// What a predicate sees of a row group.
proof fn view_parts<C: ColumnCodec>(c: C, f: V4Footer, file: Seq<u8>, col: int, i: int)
    requires
        f.row_groups@[i].row_count > 0,
        in_sight(c, f, file, col, i),
    ensures
        ({
            let meta = f.row_groups@[i];
            let rows = meta.row_count as int;
            let g = group_of(c, meta, file)->Ok_0;
            let at = place_of(c, f, file, col, i);
            view_of(f, file, col, i) == Some(
                ViewSeq {
                    rows,
                    deletes: meta.deletion_count > 0,
                    deleted: window(g.body, id_section(rows, g.ids), bitmap_len(rows)),
                    nulls: g.body.subrange(at, at + bitmap_len(rows)),
                    payload: tail(g.body, data_at(c, f, file, col, i)),
                },
            )
        }),
{
    let rows = f.row_groups@[i].row_count as int;
    let g = group_of(c, f.row_groups@[i], file)->Ok_0;
    let s = stored_group(f.row_groups@[i], file)->Ok_0;
    assert(tail(s, 32) == g.body);
    assert(bitmap_len(rows) == marks_len(rows));
    let bytes = tail(g.body, place_of(c, f, file, col, i) + bitmap_len(rows));
    assert(tail(bytes, tag_len(s[29])) =~= tail(g.body, data_at(c, f, file, col, i)));
}

/// What a test of numbers takes of a row group.
#[verifier::spinoff_prover]
proof fn numbers_picked<C: ColumnCodec>(
    c: C,
    f: V4Footer,
    file: Seq<u8>,
    col: int,
    test: TestSeq,
    i: int,
    base: int,
    acc: Seq<usize>,
    here: spec_fn(int) -> bool,
)
    requires
        f.row_groups@[i].row_count > 0,
        whole_numbers(c, f, file, col, i),
        is_plain(c, f, file, col, i),
        forall|r: int|
            0 <= r < f.row_groups@[i].row_count ==> #[trigger] here(r) == counts(
                c,
                f,
                file,
                col,
                test,
                i,
                r,
            ),
    ensures
        ({
            let meta = f.row_groups@[i];
            let rows = meta.row_count as int;
            let g = group_of(c, meta, file)->Ok_0;
            let at = place_of(c, f, file, col, i);
            let payload = tail(g.body, data_at(c, f, file, col, i));
            let (src, n) = plain_numbers(is_int(f.schema.kind(col)), rows, payload);
            let del = if meta.deletion_count > 0 {
                window(g.body, id_section(rows, g.ids), bitmap_len(rows))
            } else {
                None
            };
            &&& payload.len() >= 8
            &&& select(
                num_rows(src, test, del, Some(g.body.subrange(at, at + bitmap_len(rows)))),
                n,
                base,
                acc,
                usize::MAX as int,
            ) == select(here, rows, base, acc, usize::MAX as int)
        }),
{
    let meta = f.row_groups@[i];
    let rows = meta.row_count as int;
    let g = group_of(c, meta, file)->Ok_0;
    let at = place_of(c, f, file, col, i);
    let column = tail(g.body, at + bitmap_len(rows));
    let payload = tail(g.body, data_at(c, f, file, col, i));
    plain_is_numbers(c, f, file, col, i);
    assert(tail(column, tag_len(g.version)) =~= payload);
    let (src, n) = plain_numbers(is_int(f.schema.kind(col)), rows, payload);
    let del = if meta.deletion_count > 0 {
        window(g.body, id_section(rows, g.ids), bitmap_len(rows))
    } else {
        None
    };
    let hit = num_rows(src, test, del, Some(g.body.subrange(at, at + bitmap_len(rows))));
    assert forall|r: int| 0 <= r < rows implies #[trigger] hit(r) == here(r) by {
        marks_of_group(c, f, file, col, i, r);
        let x = number_at(c, f, file, col, i, r);
        assert(src.hit(test, r) == accepts(test, x));
    }
    select_agrees(hit, rows, here, rows, base, acc, usize::MAX as int);
}

/// Whether the row with an index of a dictionary has one of some values is what a search tells.
proof fn search_tells(d: DictTextSeq, values: Seq<Seq<u8>>, x: int)
    requires
        follows(d),
        0 <= x < d.size,
        values_found(d, values, values.len() as int) is Some,
        values_distinct(d),
    ensures
        values_found(d, values, values.len() as int)->0.contains(x) == among(values, d.value(x)),
        values.len() == 1 ==> (value_from(d, values[0], 0) == Some(Some(x))) == among(
            values,
            d.value(x),
        ),
{
    reveal(values_distinct);
    let found = values_found(d, values, values.len() as int)->0;
    found_facts(d, values, values.len() as int, x);
    if found.contains(x) {
        let j = choose|j: int|
            0 <= j < values.len() && value_from(d, #[trigger] values[j], 0) == Some(Some(x));
        search_finds_value(d, values[j], 0);
        assert(d.value(x) == Some(values[j]));
    }
    if among(values, d.value(x)) {
        let k = choose|k: int| 0 <= k < values.len() && d.value(x) == Some(#[trigger] values[k]);
        search_finds_value(d, values[k], 0);
        let y = value_from(d, values[k], 0)->0->0;
        if x < y {
            assert(d.value(x) != d.value(y));
        } else if y < x {
            assert(d.value(y) != d.value(x));
        }
        assert(value_from(d, values[k], 0) == Some(Some(x)));
    }
    if values.len() == 1 && value_from(d, values[0], 0) == Some(Some(x)) {
        assert(found.contains(x));
    }
}

/// What a predicate on strings takes of a dictionary.
#[verifier::spinoff_prover]
proof fn dict_picked(
    v: ViewSeq,
    d: DictTextSeq,
    values: Seq<Seq<u8>>,
    base: int,
    acc: Seq<usize>,
    here: spec_fn(int) -> bool,
)
    requires
        dict_text(v.payload) == Ok::<Option<DictTextSeq>, ScanError>(Some(d)),
        follows(d),
        0 <= v.rows == d.rows,
        !(v.deletes && v.deleted is None),
        values_distinct(d),
        forall|r: int|
            0 <= r < v.rows ==> d.index(r) <= d.size && #[trigger] here(r) == (row_open(
                v.gone(),
                None,
                r,
            ) && d.index(r) > 0 && among(values, d.value(d.index(r) - 1))),
    ensures
        v.set_rows(ColumnType::StringDict, values, base, acc) == Some(
            select(here, v.rows, base, acc, usize::MAX as int),
        ),
        values.len() == 1 ==> v.string_rows(ColumnType::StringDict, values[0], base, acc) == Some(
            select(here, v.rows, base, acc, usize::MAX as int),
        ),
{
    let rows = v.rows;
    let max = usize::MAX as int;
    searches_do_not_fail(d, values, values.len() as int);
    let found = values_found(d, values, values.len() as int)->0;
    let hit = index_set_rows(d, found, v.gone());
    assert forall|r: int| 0 <= r < rows implies #[trigger] hit(r) == here(r) by {
        let x = d.index(r) - 1;
        let h = here(r);
        if x >= 0 {
            search_tells(d, values, x);
        } else {
            found_facts(d, values, values.len() as int, x);
            if found.contains(x) {
                let j = choose|j: int|
                    0 <= j < values.len() && value_from(d, #[trigger] values[j], 0) == Some(Some(x));
                search_finds_value(d, values[j], 0);
            }
        }
    }
    select_agrees(hit, rows, here, rows, base, acc, max);
    if d.size == 0 {
        none_taken(here, rows, base, acc, max);
    }
    if values.len() == 1 {
        search_finds_value(d, values[0], 0);
        if let Some(Some(y)) = value_from(d, values[0], 0) {
            let one = index_rows(d, y + 1, v.gone());
            assert forall|r: int| 0 <= r < rows implies #[trigger] one(r) == here(r) by {
                let h = here(r);
                if d.index(r) > 0 {
                    search_tells(d, values, d.index(r) - 1);
                }
            }
            select_agrees(one, rows, here, rows, base, acc, max);
        } else {
            assert forall|r: int| 0 <= r < rows implies !#[trigger] here(r) by {
                let h = here(r);
                if d.index(r) > 0 {
                    search_tells(d, values, d.index(r) - 1);
                }
            }
            none_taken(here, rows, base, acc, max);
        }
    }
}

proof fn searches_do_not_fail(d: DictTextSeq, values: Seq<Seq<u8>>, k: int)
    requires
        0 <= k <= values.len(),
        follows(d),
    ensures
        values_found(d, values, k) is Some,
    decreases k,
{
    if k > 0 {
        searches_do_not_fail(d, values, k - 1);
        search_finds_value(d, values[k - 1], 0);
    }
}

/// Where no row passes, nothing is taken.
pub(crate) proof fn none_taken(hit: spec_fn(int) -> bool, n: int, base: int, acc: Seq<usize>, max: int)
    requires
        forall|r: int| 0 <= r < n ==> !#[trigger] hit(r),
    ensures
        select(hit, n, base, acc, max) == acc,
    decreases n,
{
    if n > 0 {
        none_taken(hit, n - 1, base, acc, max);
        assert(!hit(n - 1));
    }
}

/// Whether a test of row `r` tells that the row is live and has one of some strings.
spec fn tells_text(
    v: ViewSeq,
    t: TextSeq,
    values: Seq<Seq<u8>>,
    here: spec_fn(int) -> bool,
    r: int,
) -> bool {
    &&& t.start(r) <= t.end(r) <= t.rest.len()
    &&& here(r) == (row_open(v.gone(), Some(v.nulls), r) && among(
        values,
        Some(t.rest.subrange(t.start(r), t.end(r))),
    ))
}

/// What a predicate on strings takes of a column of strings.
#[verifier::spinoff_prover]
proof fn texts_picked(
    v: ViewSeq,
    t: TextSeq,
    values: Seq<Seq<u8>>,
    base: int,
    acc: Seq<usize>,
    here: spec_fn(int) -> bool,
)
    requires
        plain_text(v.payload) == Some(t),
        0 <= v.rows == t.count,
        forall|r: int| 0 <= r < v.rows ==> #[trigger] tells_text(v, t, values, here, r),
    ensures
        v.set_rows(ColumnType::String, values, base, acc) == Some(
            select(here, v.rows, base, acc, usize::MAX as int),
        ),
        values.len() == 1 ==> v.string_rows(ColumnType::String, values[0], base, acc) == Some(
            select(here, v.rows, base, acc, usize::MAX as int),
        ),
{
    let rows = v.rows;
    let max = usize::MAX as int;
    let hit = member_rows(t, values, v.gone(), v.nulls);
    let one = equal_rows(t, values[0], v.gone(), v.nulls);
    assert forall|r: int| 0 <= r < rows implies #[trigger] hit(r) == Some(here(r)) && (values.len()
        == 1 ==> one(r) == Some(here(r))) by {
        assert(tells_text(v, t, values, here, r));
        let s = t.rest.subrange(t.start(r), t.end(r));
        assert(values.contains(s) == among(values, Some(s))) by {
            if values.contains(s) {
                let k = choose|k: int| 0 <= k < values.len() && values[k] == s;
                assert(Some(s) == Some(values[k]));
            }
        }
        if s == values[0] && values.len() == 1 {
            assert(values.contains(s));
        }
    }
    checked_is_select(hit, here, rows, base, acc, max);
    if values.len() == 1 {
        assert forall|r: int| 0 <= r < rows implies #[trigger] one(r) == Some(here(r)) by {
            assert(hit(r) == Some(here(r)));
        }
        checked_is_select(one, here, rows, base, acc, max);
    }
}

/// Whether a predicate on strings holds for a row with a dictionary.
proof fn dict_row_holds<C: ColumnCodec>(
    c: C,
    f: V4Footer,
    file: Seq<u8>,
    col: int,
    values: Seq<Seq<u8>>,
    v: ViewSeq,
    d: DictTextSeq,
    i: int,
    r: int,
)
    requires
        0 <= r < f.row_groups@[i].row_count,
        f.schema.kind(col) is StringDict,
        texts_testable(c, f, file, col, i),
        view_of(f, file, col, i) == Some(v),
        dict_text(v.payload) == Ok::<Option<DictTextSeq>, ScanError>(Some(d)),
    ensures
        d.index(r) <= d.size,
        has_text(c, f, file, col, values, i, r) == (
        row_open(v.gone(), None, r) && d.index(r) > 0 && among(values, d.value(d.index(r) - 1))),
{
    view_parts(c, f, file, col, i);
    let body = group_of(c, f.row_groups@[i], file)->Ok_0.body;
    let at = data_at(c, f, file, col, i);
    dict_strings_read(body, at, f.row_groups@[i].row_count as int);
    marks_of_group(c, f, file, col, i, r);
    assert(d.index(r) == dict_index(body, at, r));
    let string = string_at(c, f, file, col, i, r);
    if d.index(r) > 0 {
        assert(d.value(d.index(r) - 1) == string);
    }
}

/// Whether a predicate on strings holds for a row with a string.
proof fn text_row_holds<C: ColumnCodec>(
    c: C,
    f: V4Footer,
    file: Seq<u8>,
    col: int,
    values: Seq<Seq<u8>>,
    v: ViewSeq,
    t: TextSeq,
    i: int,
    r: int,
)
    requires
        0 <= r < f.row_groups@[i].row_count,
        !(f.schema.kind(col) is StringDict),
        texts_testable(c, f, file, col, i),
        view_of(f, file, col, i) == Some(v),
        plain_text(v.payload) == Some(t),
    ensures
        t.start(r) <= t.end(r) <= t.rest.len(),
        has_text(c, f, file, col, values, i, r) == (
        row_open(v.gone(), Some(v.nulls), r) && among(
            values,
            Some(t.rest.subrange(t.start(r), t.end(r))),
        )),
{
    view_parts(c, f, file, col, i);
    let body = group_of(c, f.row_groups@[i], file)->Ok_0.body;
    let at = data_at(c, f, file, col, i);
    plain_strings_read(body, at, f.row_groups@[i].row_count as int);
    marks_of_group(c, f, file, col, i, r);
    assert(reads_string(t, body, at, r));
}

proof fn names_distinct(d: DictTextSeq, body: Seq<u8>, at: int, rows: int)
    requires
        0 <= rows,
        crate::meaning::whole_dict(body, at, rows),
        sound_names(body, at),
        dict_text(tail(body, at)) == Ok::<Option<DictTextSeq>, ScanError>(Some(d)),
    ensures
        values_distinct(d),
{
    reveal(values_distinct);
    reveal(sound_names);
    dict_strings_read(body, at, rows);
    assert forall|a: int, b: int| 0 <= a < b < d.size implies #[trigger] d.value(a)
        != #[trigger] d.value(b) by {
        assert(dict_value(body, at, a) != dict_value(body, at, b));
    }
}

/// What a predicate on strings takes of a row group are the rows that it holds for.
#[verifier::spinoff_prover]
#[verifier::rlimit(60)]
proof fn strings_picked<C: ColumnCodec>(
    c: C,
    f: V4Footer,
    file: Seq<u8>,
    col: int,
    values: Seq<Seq<u8>>,
    i: int,
    base: int,
    acc: Seq<usize>,
    here: spec_fn(int) -> bool,
)
    requires
        f.row_groups@[i].row_count > 0,
        texts_testable(c, f, file, col, i),
        forall|r: int|
            0 <= r < f.row_groups@[i].row_count ==> #[trigger] here(r) == has_text(
                c,
                f,
                file,
                col,
                values,
                i,
                r,
            ),
    ensures
        view_of(f, file, col, i) matches Some(v) && {
            &&& v.rows == f.row_groups@[i].row_count
            &&& v.set_rows(f.schema.kind(col), values, base, acc) == Some(
                select(here, v.rows, base, acc, usize::MAX as int),
            )
            &&& values.len() == 1 ==> v.string_rows(f.schema.kind(col), values[0], base, acc)
                == Some(select(here, v.rows, base, acc, usize::MAX as int))
        },
{
    if f.schema.kind(col) is StringDict {
        assert(f.schema.kind(col) == ColumnType::StringDict);
        let (v, d) = dict_seen(c, f, file, col, i);
        assert forall|r: int| 0 <= r < v.rows implies d.index(r) <= d.size && #[trigger] here(r)
            == (row_open(v.gone(), None, r) && d.index(r) > 0 && among(
            values,
            d.value(d.index(r) - 1),
        )) by {
            dict_row_holds(c, f, file, col, values, v, d, i, r);
        }
        dict_picked(v, d, values, base, acc, here);
    } else {
        assert(f.schema.kind(col) == ColumnType::String);
        let (v, t) = text_seen(c, f, file, col, i);
        assert forall|r: int| 0 <= r < v.rows implies #[trigger] tells_text(
            v,
            t,
            values,
            here,
            r,
        ) by {
            assert(here(r) == has_text(c, f, file, col, values, i, r));
            text_row_holds(c, f, file, col, values, v, t, i, r);
        }
        texts_picked(v, t, values, base, acc, here);
    }
}

/// The dictionary that a predicate sees.
proof fn dict_seen<C: ColumnCodec>(c: C, f: V4Footer, file: Seq<u8>, col: int, i: int) -> (r: (
    ViewSeq,
    DictTextSeq,
))
    requires
        f.row_groups@[i].row_count > 0,
        texts_testable(c, f, file, col, i),
        f.schema.kind(col) is StringDict,
    ensures
        view_of(f, file, col, i) == Some(r.0),
        r.0.rows == f.row_groups@[i].row_count,
        !(r.0.deletes && r.0.deleted is None),
        dict_text(r.0.payload) == Ok::<Option<DictTextSeq>, ScanError>(Some(r.1)),
        r.1.rows == r.0.rows,
        follows(r.1),
        values_distinct(r.1),
{
    view_parts(c, f, file, col, i);
    let v = view_of(f, file, col, i)->0;
    let rows = f.row_groups@[i].row_count as int;
    let body = group_of(c, f.row_groups@[i], file)->Ok_0.body;
    let at = data_at(c, f, file, col, i);
    marks_of_group(c, f, file, col, i, 0);
    dictionary_follows(c, f, file, col, i);
    dict_strings_read(body, at, rows);
    let d = dict_text(v.payload)->Ok_0->0;
    names_distinct(d, body, at, rows);
    (v, d)
}

/// The strings that a predicate sees.
proof fn text_seen<C: ColumnCodec>(c: C, f: V4Footer, file: Seq<u8>, col: int, i: int) -> (r: (
    ViewSeq,
    TextSeq,
))
    requires
        f.row_groups@[i].row_count > 0,
        texts_testable(c, f, file, col, i),
        !(f.schema.kind(col) is StringDict),
    ensures
        view_of(f, file, col, i) == Some(r.0),
        r.0.rows == f.row_groups@[i].row_count,
        plain_text(r.0.payload) == Some(r.1),
        r.1.count == r.0.rows,
{
    view_parts(c, f, file, col, i);
    let v = view_of(f, file, col, i)->0;
    let rows = f.row_groups@[i].row_count as int;
    let body = group_of(c, f.row_groups@[i], file)->Ok_0.body;
    plain_strings_read(body, data_at(c, f, file, col, i), rows);
    (v, plain_text(v.payload)->0)
}

/// A predicate takes of a row group the rows that it holds for.
#[verifier::spinoff_prover]
proof fn pred_picks<C: ColumnCodec>(
    p: PredSeq,
    c: C,
    f: V4Footer,
    file: Seq<u8>,
    col: int,
    i: int,
    acc: Seq<usize>,
    here: spec_fn(int) -> bool,
)
    requires
        f.row_groups@[i].row_count > 0,
        testable(c, f, file, col, p, i),
        forall|r: int|
            0 <= r < f.row_groups@[i].row_count ==> #[trigger] here(r) == holds_at(
                c,
                f,
                file,
                col,
                p,
                i,
                r,
            ),
    ensures
        view_of(f, file, col, i) matches Some(v) && p.rows_in(
            f.schema.kind(col),
            v,
            rows_before(f.row_groups@, i),
            acc,
        ) == Some(
            select(
                here,
                f.row_groups@[i].row_count as int,
                rows_before(f.row_groups@, i),
                acc,
                usize::MAX as int,
            ),
        ),
{
    let base = rows_before(f.row_groups@, i);
    let rows = f.row_groups@[i].row_count as int;
    view_parts(c, f, file, col, i);
    marks_of_group(c, f, file, col, i, 0);
    match p {
        PredSeq::NumericRange { low, high, .. } => {
            assert forall|r: int| 0 <= r < rows implies #[trigger] here(r) == counts(
                c,
                f,
                file,
                col,
                range_test(low, high),
                i,
                r,
            ) by {
                range_counts(c, f, file, col, low, high, i, r);
                let h = holds_at(c, f, file, col, p, i, r);
            }
            numbers_picked(c, f, file, col, range_test(low, high), i, base, acc, here);
        },
        PredSeq::NumericIn { values, .. } => {
            assert forall|r: int| 0 <= r < rows implies #[trigger] here(r) == counts(
                c,
                f,
                file,
                col,
                in_test(values),
                i,
                r,
            ) by {
                int_is_integer(c, f, file, col, i, r);
                passes_among(values, number_at(c, f, file, col, i, r));
                let h = holds_at(c, f, file, col, p, i, r);
            }
            numbers_picked(c, f, file, col, in_test(values), i, base, acc, here);
            if values.len() == 0 {
                none_taken(here, rows, base, acc, usize::MAX as int);
            }
        },
        PredSeq::StringEq { value, .. } => {
            strings_picked(c, f, file, col, seq![value], i, base, acc, here);
        },
        PredSeq::StringIn { values, .. } => {
            strings_picked(c, f, file, col, values, i, base, acc, here);
        },
    }
}

/// A row that counts for a range has a number between its bounds.
proof fn range_counts<C: ColumnCodec>(
    c: C,
    f: V4Footer,
    file: Seq<u8>,
    col: int,
    low: F64,
    high: F64,
    i: int,
    r: int,
)
    requires
        0 <= r < f.row_groups@[i].row_count,
        whole_numbers(c, f, file, col, i),
        is_int(f.schema.kind(col)) ==> !is_nan(low.bits) && !is_nan(high.bits) && at_most(
            low,
            i64::MAX as int,
        ) && at_least(high, i64::MIN as int),
    ensures
        counts(c, f, file, col, range_test(low, high), i, r) == (!deleted_at(c, f, file, i, r)
            && !missing_at(c, f, file, col, i, r) && between(
            low,
            high,
            number_at(c, f, file, col, i, r),
        )),
{
    int_is_integer(c, f, file, col, i, r);
    if let Number::Int(v) = number_at(c, f, file, col, i, r) {
        law_range_of_ints(low, high, v);
    }
}

/// Where a zone map rules a row group out for a predicate, it holds for none of its rows.
#[verifier::spinoff_prover]
proof fn none_hold<C: ColumnCodec>(
    p: PredSeq,
    c: C,
    f: V4Footer,
    file: Seq<u8>,
    col: int,
    i: int,
    r: int,
)
    requires
        0 <= r < f.row_groups@[i].row_count,
        testable(c, f, file, col, p, i),
        p.misses(f.zone(i, col, false)),
    ensures
        !holds_at(c, f, file, col, p, i, r),
{
    reveal(lengths_hold);
    match p {
        PredSeq::NumericRange { low, high, .. } => {
            range_counts(c, f, file, col, low, high, i, r);
            none_counts(c, f, file, col, low, high, i, r);
        },
        PredSeq::NumericIn { values, .. } => {
            int_is_integer(c, f, file, col, i, r);
            let x = number_at(c, f, file, col, i, r);
            if holds_at(c, f, file, col, p, i, r) {
                let k = choose|k: int|
                    0 <= k < values.len() && (#[trigger] values[k]) as int == (match x {
                        Number::Int(v) => v,
                        Number::Real(v) => crate::double::trunc_i64(v),
                    });
                extremes_bound(values, k);
            }
        },
        PredSeq::StringEq { value, .. } => {
            if holds_at(c, f, file, col, p, i, r) {
                let values = seq![value];
                let k = choose|k: int|
                    0 <= k < values.len() && string_at(c, f, file, col, i, r) == Some(
                        #[trigger] values[k],
                    );
                assert(values[k] == value);
            }
        },
        PredSeq::StringIn { values, .. } => {
            if holds_at(c, f, file, col, p, i, r) {
                let k = choose|k: int|
                    0 <= k < values.len() && string_at(c, f, file, col, i, r) == Some(
                        #[trigger] values[k],
                    );
                assert(values[k].len() == string_at(c, f, file, col, i, r)->0.len());
            }
        },
    }
}

/// A scan for a predicate picks the rows that it holds for.
#[verifier::spinoff_prover]
proof fn pred_scan_picks<C: ColumnCodec>(
    p: PredSeq,
    c: C,
    f: V4Footer,
    file: Seq<u8>,
    col: int,
    k: int,
)
    requires
        0 <= k <= f.row_groups@.len(),
        forall|i: int|
            0 <= i < k && f.row_groups@[i].row_count > 0 ==> #[trigger] testable(
                c,
                f,
                file,
                col,
                p,
                i,
            ),
    ensures
        p.scan(f, file, col, k) == Some(
            picked(
                f,
                |i: int, r: int| holds_at(c, f, file, col, p, i, r),
                usize::MAX as int,
                k,
            ),
        ),
    decreases k,
{
    let hit = |i: int, r: int| holds_at(c, f, file, col, p, i, r);
    if k > 0 {
        let i = k - 1;
        pred_scan_picks(p, c, f, file, col, i);
        let rows = f.row_groups@[i].row_count as int;
        let acc = picked(f, hit, usize::MAX as int, i);
        let here = |r: int| hit(i, r);
        if rows > 0 {
            assert(testable(c, f, file, col, p, i));
            assert forall|r: int| 0 <= r < rows implies #[trigger] here(r) == holds_at(
                c,
                f,
                file,
                col,
                p,
                i,
                r,
            ) by {}
            if p.misses(f.zone(i, col, false)) {
                assert forall|r: int| 0 <= r < rows implies !#[trigger] here(r) by {
                    none_hold(p, c, f, file, col, i, r);
                }
                none_taken(here, rows, rows_before(f.row_groups@, i), acc, usize::MAX as int);
            } else {
                pred_picks(p, c, f, file, col, i, acc, here);
            }
        }
    }
}

impl<C: ColumnCodec> OnDemandStorage<C> {
    /// Whether a predicate can be looked for in the table: its column is there, and can be looked at in
    /// every row group.
    pub open spec fn pred_testable(self, p: PredSeq) -> bool {
        let f = self.footer->0;
        f.schema.index_of(p.column()) matches Some(col) && forall|i: int|
            0 <= i < f.row_groups@.len() && f.row_groups@[i].row_count > 0 ==> #[trigger] testable(
                self.codec,
                f,
                self.file->0@,
                col as int,
                p,
                i,
            )
    }

    /// Whether a row of the table is live and a predicate holds for it.
    pub open spec fn pred_holds(self, p: PredSeq, row: int) -> bool {
        let f = self.footer->0;
        holds_at(
            self.codec,
            f,
            self.file->0@,
            f.schema.index_of(p.column())->0 as int,
            p,
            holder(f, row),
            place_in(f, row),
        )
    }

    proof fn pred_lists(self, p: PredSeq)
        requires
            self.wf(),
            self.footer is Some,
            self.pred_testable(p),
        ensures
            p.matched(self.footer->0, self.file->0@) matches Some(v) && lists(
                v,
                self.footer->0.total_rows(),
                |row: int| self.pred_holds(p, row),
            ),
    {
        let c = self.codec;
        let f = self.footer->0;
        let file = self.file->0@;
        let n = f.row_groups@.len() as int;
        let col = f.schema.index_of(p.column())->0 as int;
        let kind = |row: int| self.pred_holds(p, row);
        let hit = |i: int, r: int| holds_at(c, f, file, col, p, i, r);
        pred_scan_picks(p, c, f, file, col, n);
        assert forall|i: int, r: int|
            0 <= i < n && 0 <= r < f.row_groups@[i].row_count implies #[trigger] hit(i, r) == kind(
            rows_before(f.row_groups@, i) + r,
        ) by {
            in_each_group(f, i, r);
        }
        picked_lists(f, hit, n, kind);
    }

    /// What the first `k` predicates match.
    proof fn preds_match(self, ps: Seq<PredSeq>, k: int)
        requires
            self.wf(),
            self.footer is Some,
            0 <= k <= ps.len(),
            forall|j: int| 0 <= j < ps.len() ==> self.pred_testable(#[trigger] ps[j]),
        ensures
            matched_by(ps, self.footer->0, self.file->0@, k) matches Some(v) && forall|row: usize|
                #[trigger] v.contains(row) == (row < self.footer->0.total_rows() && exists|j: int|
                    0 <= j < k && self.pred_holds(#[trigger] ps[j], row as int)),
        decreases k,
    {
        if k > 0 {
            let f = self.footer->0;
            let file = self.file->0@;
            self.preds_match(ps, k - 1);
            self.pred_lists(ps[k - 1]);
            let a = matched_by(ps, f, file, k - 1)->0;
            let b = ps[k - 1].matched(f, file)->0;
            let v = a + b;
            let kind = |row: int| self.pred_holds(ps[k - 1], row);
            assert forall|row: usize| #[trigger] v.contains(row) == (row < f.total_rows() && exists|
                j: int,
            |
                0 <= j < k && self.pred_holds(#[trigger] ps[j], row as int)) by {
                if v.contains(row) {
                    let m = choose|m: int| 0 <= m < v.len() && v[m] == row;
                    if m < a.len() {
                        assert(a[m] == row);
                        assert(a.contains(row));
                    } else {
                        assert(b[m - a.len()] == row);
                        assert(kind(b[m - a.len()] as int));
                        assert(self.pred_holds(ps[k - 1], row as int));
                    }
                }
                if row < f.total_rows() && exists|j: int|
                    0 <= j < k && self.pred_holds(#[trigger] ps[j], row as int) {
                    let j = choose|j: int|
                        0 <= j < k && self.pred_holds(#[trigger] ps[j], row as int);
                    if j < k - 1 {
                        assert(a.contains(row));
                        let m = choose|m: int| 0 <= m < a.len() && a[m] == row;
                        assert(v[m] == row);
                    } else {
                        assert(kind(row as int));
                        assert(b.contains(row));
                        let m = choose|m: int| 0 <= m < b.len() && b[m] == row;
                        assert(v[a.len() + m] == row);
                    }
                }
            }
        } else {
            assert(!(exists|j: int|
                0 <= j < 0 && self.pred_holds(#[trigger] ps[j], 0)));
        }
    }

    /// A scan for several predicates gives the rows that are live and that one of them holds for: all of
    /// them, no others, each once, in order.
    pub proof fn law_any_lists(self, ps: Seq<PredSeq>, all: Seq<usize>)
        requires
            self.wf(),
            self.footer is Some,
            self.file is Some,
            forall|j: int| 0 <= j < ps.len() ==> self.pred_testable(#[trigger] ps[j]),
            lists(
                all,
                self.footer->0.total_rows(),
                |row: int|
                    exists|j: int| 0 <= j < ps.len() && self.pred_holds(#[trigger] ps[j], row),
            ),
        ensures
            self.any_of(ps) == Ok::<Option<Seq<usize>>, ScanError>(Some(all)),
    {
        let f = self.footer->0;
        let kind = |row: int|
            exists|j: int| 0 <= j < ps.len() && self.pred_holds(#[trigger] ps[j], row);
        if ps.len() == 0 {
            if all.len() > 0 {
                assert(kind(all[0] as int));
            }
            assert(all =~= Seq::empty());
        } else {
            self.preds_match(ps, ps.len() as int);
            let v = matched_by(ps, f, self.file->0@, ps.len() as int)->0;
            ascending_rows_facts(v);
            let rows = ascending_rows(v);
            assert forall|k: int| 0 <= k < rows.len() implies (#[trigger] rows[k]) < f.total_rows()
                && kind(rows[k] as int) by {
                assert(rows.contains(rows[k]));
                assert(v.contains(rows[k]));
            }
            assert forall|x: int| 0 <= x < f.total_rows() && #[trigger] kind(x) implies rows.contains(
                x as usize,
            ) by {
                assert(v.contains(x as usize));
            }
            same_list(rows, all, f.total_rows(), kind);
        }
    }
}

} // verus!
