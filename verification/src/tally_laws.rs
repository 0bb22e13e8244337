//! The groups of a table are those of its live rows that match: each with all of its rows.

use vstd::prelude::*;

use crate::bytes::{bitmap_len, u32_le, u64_le};
use crate::codec::ColumnCodec;
use crate::dict_text::{dict_text, strict_text, DictTextSeq};
use crate::dict_values::text_of;
use crate::double::F64;
use crate::group::{group_of, id_section, stored_group, tail, window};
use crate::group_laws::{
    addends_at, addends_of, count_of, flat, group_columns, key_rows, row_addend, row_key,
    sound_group_columns, string_in,
};
use crate::groupby::{
    agg_numbers, aggregated, credit_rows, credit_slots, filter_of, find_key, find_key_facts,
    grouped, part_of, sound, AggSeq, FilterSeq, GroupQuery, GroupTally, KeySeq, TallySeq,
};
use crate::meaning::{
    as_double, data_at, deleted_at, dict_bound, dict_index, dict_value, held, holder, is_plain,
    lists, marks_len, names_once, number_at, place_in, place_of, plain_string, row_string,
    string_at, whole_dict, whole_numbers, whole_strings, whole_texts,
};
use crate::model::{is_float, is_int, is_text, rows_before, ScanError, V4Footer, RG_COMPRESS_NONE};
use crate::page_laws::law_every_group_is_there;
use crate::pick_laws::{in_each_group, marks_of_group, same_list, words_behind};
use crate::row_laws::{source_of, sources};
use crate::scan_laws::group_bounds;
use crate::storage::OnDemandStorage;
use crate::text::{plain_text, TextSeq};

verus! {

/// A half word behind a start is that of the bytes from there on.
pub(crate) proof fn half_words_behind(s: Seq<u8>, from: int, o: int)
    requires
        0 <= from,
        0 <= o,
        from + o + 4 <= s.len(),
    ensures
        u32_le(tail(s, from), o) == u32_le(s, from + o),
{
}

/// Whether string `r` of a column that was taken apart lies in its data and is that of the bytes.
pub(crate) open spec fn reads_string(t: TextSeq, s: Seq<u8>, at: int, r: int) -> bool {
    t.start(r) <= t.end(r) <= t.declared && t.rest.subrange(t.start(r), t.end(r)) == plain_string(
        s,
        at,
        r,
    )
}

/// A plain string column that is whole is taken apart into its strings.
#[verifier::spinoff_prover]
pub(crate) proof fn plain_strings_read(s: Seq<u8>, at: int, rows: int)
    requires
        0 <= rows,
        whole_strings(s, at, rows),
    ensures
        strict_text(tail(s, at)) == Ok::<Option<TextSeq>, ScanError>(plain_text(tail(s, at))),
        plain_text(tail(s, at)) matches Some(t) && t.count == rows && t.declared <= t.rest.len()
            && forall|r: int| 0 <= r < rows ==> #[trigger] reads_string(t, s, at, r),
{
    let data = tail(s, at);
    words_behind(s, at, 0);
    let t = plain_text(data)->0;
    let end = 8 + (rows + 1) * 4;
    words_behind(s, at, end);
    assert(t.rest =~= tail(s, at + end + 8));
    assert(plain_text(data) is Some);
    assert(t.count == rows);
    assert(t.declared == u64_le(s, at + end));
    assert(at + 8 + 4 * (rows + 1) + 8 - 8 == at + end);
    assert(t.declared <= t.rest.len());
    assert forall|r: int| 0 <= r < rows implies #[trigger] reads_string(t, s, at, r) by {
        let string = plain_string(s, at, r);
        half_words_behind(s, at, 8 + 4 * r);
        half_words_behind(s, at, 8 + 4 * (r + 1));
        assert(u32_le(t.offsets, r * 4) == u32_le(data, 8 + 4 * r));
        assert(u32_le(t.offsets, (r + 1) * 4) == u32_le(data, 8 + 4 * (r + 1)));
        assert(u32_le(s, at + 8 + 4 * r) <= u32_le(s, at + 8 + 4 * (r + 1)) <= u64_le(
            s,
            at + 8 + 4 * (rows + 1) + 8 - 8,
        ));
        assert(t.rest.subrange(t.start(r), t.end(r)) =~= plain_string(s, at, r));
    }
}

/// The head of a dictionary column that is whole.
#[verifier::spinoff_prover]
pub(crate) proof fn dict_head_read(s: Seq<u8>, at: int, rows: int)
    requires
        0 <= rows,
        whole_dict(s, at, rows),
    ensures
        ({
            let data = tail(s, at);
            let size = u64_le(s, at + 8) as int;
            let mid = 16 + rows * 4;
            let end = mid + size * 4;
            dict_text(data) matches Ok(Some(d)) && {
                &&& d.rows == rows
                &&& d.size == size
                &&& d.indices == data.subrange(16, mid)
                &&& d.offsets == data.subrange(mid, end)
                &&& d.raw == s.subrange(at + end + 8, at + end + 8 + u64_le(s, at + end))
                &&& at + end + 8 + u64_le(s, at + end) <= s.len()
            }
        }),
{
    let data = tail(s, at);
    words_behind(s, at, 0);
    words_behind(s, at, 8);
    let size = u64_le(s, at + 8) as int;
    let mid = 16 + rows * 4;
    let end = mid + size * 4;
    words_behind(s, at, end);
    assert(at + 16 + 4 * rows + 4 * size + 8 - 8 == at + end);
    let d = dict_text(data)->Ok_0->0;
    let rest = tail(data, end + 8);
    assert(d.raw =~= s.subrange(at + end + 8, at + end + 8 + u64_le(s, at + end)));
}

/// The length that a dictionary column declares for its data is theirs.
pub(crate) proof fn dict_declared(s: Seq<u8>, at: int, rows: int)
    requires
        0 <= rows,
        whole_dict(s, at, rows),
    ensures
        dict_text(tail(s, at)) matches Ok(Some(d)) && d.declared == d.raw.len() && d.offsets.len()
            == d.size * 4 && 0 <= d.size,
{
    dict_head_read(s, at, rows);
    words_behind(s, at, 0);
    words_behind(s, at, 8);
    words_behind(s, at, 16 + rows * 4 + u64_le(s, at + 8) * 4);
}

/// A half word in a part of some bytes is one of the bytes.
proof fn half_words_within(s: Seq<u8>, from: int, to: int, o: int)
    requires
        0 <= from,
        0 <= o,
        from + o + 4 <= to <= s.len(),
    ensures
        u32_le(s.subrange(from, to), o) == u32_le(s, from + o),
{
}

/// Where a value of a dictionary column starts.
proof fn dict_start_read(s: Seq<u8>, at: int, rows: int, k: int)
    requires
        0 <= rows,
        whole_dict(s, at, rows),
        0 <= k < u64_le(s, at + 8),
    ensures
        dict_text(tail(s, at))->Ok_0->0.start(k) == dict_bound(s, at, k),
{
    dict_head_read(s, at, rows);
    let data = tail(s, at);
    let size = u64_le(s, at + 8) as int;
    let mid = 16 + rows * 4;
    let end = mid + size * 4;
    half_words_behind(s, at, mid + 4 * k);
    half_words_within(data, mid, end, k * 4);
}

/// A value of a dictionary column that is whole.
#[verifier::spinoff_prover]
proof fn dict_value_read(s: Seq<u8>, at: int, rows: int, k: int)
    requires
        0 <= rows,
        whole_dict(s, at, rows),
        0 <= k < u64_le(s, at + 8),
    ensures
        ({
            let d = dict_text(tail(s, at))->Ok_0->0;
            &&& d.start(k) <= d.end(k) <= d.raw.len()
            &&& d.value(k) == Some(dict_value(s, at, k))
        }),
{
    let size = u64_le(s, at + 8) as int;
    let end = 16 + rows * 4 + size * 4;
    let d = dict_text(tail(s, at))->Ok_0->0;
    let value = dict_value(s, at, k);
    let a = dict_bound(s, at, k);
    let b = dict_bound(s, at, k + 1);
    let n = u64_le(s, at + end) as int;
    assert(a <= b <= n);
    dict_start_read(s, at, rows, k);
    if k + 1 < size {
        dict_start_read(s, at, rows, k + 1);
    }
    dict_head_read(s, at, rows);
    let raw = s.subrange(at + end + 8, at + end + 8 + n);
    assert(d.raw == raw);
    assert(d.end(k) == b);
    assert(value == s.subrange(at + end + 8 + a, at + end + 8 + b));
    parts_of_parts(s, at + end + 8, n, a, b);
}

proof fn parts_of_parts(s: Seq<u8>, from: int, n: int, a: int, b: int)
    requires
        0 <= from,
        0 <= a <= b <= n,
        from + n <= s.len(),
    ensures
        s.subrange(from, from + n).subrange(a, b) == s.subrange(from + a, from + b),
{
    assert(s.subrange(from, from + n).subrange(a, b) =~= s.subrange(from + a, from + b));
}

/// A dictionary column that is whole is taken apart into its indices and its values.
#[verifier::spinoff_prover]
pub(crate) proof fn dict_strings_read(s: Seq<u8>, at: int, rows: int)
    requires
        0 <= rows,
        whole_dict(s, at, rows),
    ensures
        dict_text(tail(s, at)) matches Ok(Some(d)) && {
            &&& d.rows == rows
            &&& d.size == u64_le(s, at + 8)
            &&& forall|r: int|
                0 <= r < rows ==> #[trigger] d.index(r) == dict_index(s, at, r) && d.index(r)
                    <= d.size
            &&& forall|k: int|
                0 <= k < d.size ==> #[trigger] d.value(k) == Some(dict_value(s, at, k)) && d.start(k)
                    <= d.end(k) <= d.raw.len()
        },
{
    dict_head_read(s, at, rows);
    let data = tail(s, at);
    let size = u64_le(s, at + 8) as int;
    let d = dict_text(data)->Ok_0->0;
    assert forall|r: int| 0 <= r < rows implies #[trigger] d.index(r) == dict_index(s, at, r)
        && d.index(r) <= d.size by {
        half_words_behind(s, at, 16 + 4 * r);
        assert(u32_le(d.indices, r * 4) == u32_le(data, 16 + 4 * r));
        assert(dict_index(s, at, r) <= size);
    }
    assert forall|k: int| 0 <= k < d.size implies #[trigger] d.value(k) == Some(
        dict_value(s, at, k),
    ) && d.start(k) <= d.end(k) <= d.raw.len() by {
        dict_value_read(s, at, rows, k);
    }
}

/// What a group query reads of a string column are the strings of its rows.
pub(crate) proof fn strings_read<C: ColumnCodec>(
    c: C,
    f: V4Footer,
    file: Seq<u8>,
    col: int,
    i: int,
    r: int,
)
    requires
        whole_texts(c, f, file, col, i),
        0 <= r < f.row_groups@[i].row_count,
    ensures
        ({
            let g = group_of(c, f.row_groups@[i], file)->Ok_0;
            let data = tail(g.body, data_at(c, f, file, col, i));
            string_in(f.schema.kind(col) is StringDict, data, r) == string_at(c, f, file, col, i, r)
        }),
{
    let rows = f.row_groups@[i].row_count as int;
    let g = group_of(c, f.row_groups@[i], file)->Ok_0;
    let at = data_at(c, f, file, col, i);
    let data = tail(g.body, at);
    if f.schema.kind(col) is StringDict {
        dict_strings_read(g.body, at, rows);
        let d = dict_text(data)->Ok_0->0;
        assert(d.index(r) == dict_index(g.body, at, r));
        if d.index(r) > 0 {
            assert(d.value(d.index(r) - 1) == Some(dict_value(g.body, at, d.index(r) - 1)));
        }
    } else {
        plain_strings_read(g.body, at, rows);
        let t = plain_text(data)->0;
        assert(reads_string(t, g.body, at, r));
    }
}

/// Whether row group `i` serves a group query: it is not compressed, its columns are tagged and on
/// record, filter and keys are whole strings and valid text, and a dictionary names each value once.
pub open spec fn groupable<C: ColumnCodec>(
    c: C,
    f: V4Footer,
    file: Seq<u8>,
    filter: int,
    key: int,
    i: int,
) -> bool {
    let rows = f.row_groups@[i].row_count as int;
    let g = group_of(c, f.row_groups@[i], file)->Ok_0;
    &&& g.flag == RG_COMPRESS_NONE
    &&& g.version >= 1
    &&& f.rcix(i, filter) is Some
    &&& f.rcix(i, key) is Some
    &&& whole_texts(c, f, file, filter, i)
    &&& whole_texts(c, f, file, key, i)
    &&& f.schema.kind(filter) is StringDict ==> names_once(
        g.body,
        data_at(c, f, file, filter, i),
    )
    &&& f.schema.kind(key) is StringDict ==> {
        let at = data_at(c, f, file, key, i);
        &&& names_once(g.body, at)
        &&& forall|k: int|
            0 <= k < u64_le(g.body, at + 8) ==> vstd::utf8::valid_utf8(
                #[trigger] dict_value(g.body, at, k),
            )
    }
    &&& !(f.schema.kind(key) is StringDict) ==> forall|r: int|
        0 <= r < rows ==> vstd::utf8::valid_utf8(
            #[trigger] plain_string(g.body, data_at(c, f, file, key, i), r),
        )
}

/// Whether the numbers of row group `i` can be aggregated: stored as they are, one for each row.
pub open spec fn addable<C: ColumnCodec>(c: C, f: V4Footer, file: Seq<u8>, agg: int, i: int) -> bool {
    &&& f.rcix(i, agg) is Some
    &&& whole_numbers(c, f, file, agg, i)
    &&& is_plain(c, f, file, agg, i)
}

/// The key that the strings of two columns give a row: the text of the one in the key column; where a
/// dictionary has none for the row, no text, unless the filter stands in a dictionary too.
pub open spec fn key_text(f: V4Footer, filter: int, key: int, string: Option<Seq<u8>>) -> Option<
    Seq<char>,
> {
    match string {
        Some(s) => Some(vstd::utf8::decode_utf8(s)),
        None => if f.schema.kind(filter) is StringDict {
            None
        } else {
            Some(Seq::empty())
        },
    }
}

/// The columns that a group query reads of a row group.
proof fn columns_read<C: ColumnCodec>(q: GroupQuery, c: C, f: V4Footer, file: Seq<u8>, i: int)
    requires
        f.row_groups@[i].row_count > 0,
        groupable(c, f, file, q.filter as int, q.key as int, i),
        q.filter_dict == (f.schema.kind(q.filter as int) is StringDict),
        q.key_dict == (f.schema.kind(q.key as int) is StringDict),
        q.agg matches Some(a) ==> addable(c, f, file, a as int, i) && (is_int(
            f.schema.kind(a as int),
        ) || is_float(f.schema.kind(a as int))) && q.agg_float == is_float(
            f.schema.kind(a as int),
        ),
    ensures
        ({
            let meta = f.row_groups@[i];
            let rows = meta.row_count as int;
            let g = group_of(c, meta, file)->Ok_0;
            group_columns(q, f, file, i) matches Some(cs) && {
                &&& cs.filter == tail(g.body, data_at(c, f, file, q.filter as int, i))
                &&& cs.keys == tail(g.body, data_at(c, f, file, q.key as int, i))
                &&& q.agg is None ==> cs.agg is None
                &&& q.agg matches Some(a) ==> (cs.agg matches Some(n) && n.n == rows && source_of(
                    n.src,
                    c,
                    f,
                    file,
                    a as int,
                    i,
                ) && agg_numbers(
                    g.body,
                    f.rcix(i, a as int)->0 + bitmap_len(rows),
                    rows,
                    q.agg_float,
                ) == Ok::<Option<AggSeq>, ScanError>(cs.agg))
                &&& cs.del == (if meta.deletion_count > 0 {
                    window(g.body, id_section(rows, g.ids), bitmap_len(rows))
                } else {
                    None
                })
            }
        }),
{
    let meta = f.row_groups@[i];
    let rows = meta.row_count as int;
    let bm = bitmap_len(rows);
    let g = group_of(c, meta, file)->Ok_0;
    let s = stored_group(meta, file)->Ok_0;
    assert(tail(s, 32) == g.body);
    assert(bm == marks_len(rows));
    let cs = group_columns(q, f, file, i)->0;
    if let Some(a) = q.agg {
        sources(c, f, file, a as int, i);
        let p = place_of(c, f, file, a as int, i);
        let column = tail(g.body, p + bm);
        let payload = tail(g.body, p + bm + 1);
        assert(payload =~= tail(column, 1));
        assert(column[0] == g.body[p + bm]);
    }
}

/// Whether a row is live and holds the value of the filter, and which key it has.
#[verifier::spinoff_prover]
proof fn key_of_row<C: ColumnCodec>(
    q: GroupQuery,
    c: C,
    f: V4Footer,
    file: Seq<u8>,
    target: Seq<u8>,
    i: int,
    r: int,
)
    requires
        groupable(c, f, file, q.filter as int, q.key as int, i),
        q.filter_dict == (f.schema.kind(q.filter as int) is StringDict),
        q.key_dict == (f.schema.kind(q.key as int) is StringDict),
        q.agg matches Some(a) ==> addable(c, f, file, a as int, i) && (is_int(
            f.schema.kind(a as int),
        ) || is_float(f.schema.kind(a as int))) && q.agg_float == is_float(
            f.schema.kind(a as int),
        ),
        0 <= r < f.row_groups@[i].row_count,
    ensures
        row_key(q, f, file, target, i, r) == (if !deleted_at(c, f, file, i, r) && string_at(
            c,
            f,
            file,
            q.filter as int,
            i,
            r,
        ) == Some(target) {
            key_text(
                f,
                q.filter as int,
                q.key as int,
                string_at(c, f, file, q.key as int, i, r),
            )
        } else {
            None
        }),
        q.agg matches Some(a) ==> row_addend(q, f, file, i, r) == seq![
            as_double(number_at(c, f, file, a as int, i, r)),
        ],
        q.agg is None ==> row_addend(q, f, file, i, r).len() == 0,
{
    let meta = f.row_groups@[i];
    let rows = meta.row_count as int;
    let g = group_of(c, meta, file)->Ok_0;
    columns_read(q, c, f, file, i);
    let cs = group_columns(q, f, file, i)->0;
    strings_read(c, f, file, q.filter as int, i, r);
    strings_read(c, f, file, q.key as int, i, r);
    marks_of_group(c, f, file, q.filter as int, i, r);
    let at = data_at(c, f, file, q.key as int, i);
    let string = string_at(c, f, file, q.key as int, i, r);
    if q.key_dict {
        dict_strings_read(g.body, at, rows);
        let d = dict_text(cs.keys)->Ok_0->0;
        assert(d.index(r) == dict_index(g.body, at, r));
        if d.index(r) > 0 {
            assert(d.value(d.index(r) - 1) == Some(dict_value(g.body, at, d.index(r) - 1)));
        }
    } else {
        assert(string == Some(plain_string(g.body, at, r)));
    }
    if let Some(s) = string {
        assert(vstd::utf8::valid_utf8(s));
    }
    if let Some(a) = q.agg {
        assert(cs.agg->0.src.real_at(r) == as_double(number_at(c, f, file, a as int, i, r)));
        assert(part_of(cs.agg, r) =~= seq![as_double(number_at(c, f, file, a as int, i, r))]);
    }
}

/// Dictionaries that name each value once are sound.
#[verifier::spinoff_prover]
proof fn dictionaries_sound<C: ColumnCodec>(q: GroupQuery, c: C, f: V4Footer, file: Seq<u8>, i: int)
    requires
        f.row_groups@[i].row_count > 0,
        groupable(c, f, file, q.filter as int, q.key as int, i),
        q.filter_dict == (f.schema.kind(q.filter as int) is StringDict),
        q.key_dict == (f.schema.kind(q.key as int) is StringDict),
        q.agg matches Some(a) ==> addable(c, f, file, a as int, i) && (is_int(
            f.schema.kind(a as int),
        ) || is_float(f.schema.kind(a as int))) && q.agg_float == is_float(
            f.schema.kind(a as int),
        ),
    ensures
        sound_group_columns(q, f, file, i),
{
    let rows = f.row_groups@[i].row_count as int;
    let g = group_of(c, f.row_groups@[i], file)->Ok_0;
    columns_read(q, c, f, file, i);
    let cs = group_columns(q, f, file, i)->0;
    if q.filter_dict {
        let at = data_at(c, f, file, q.filter as int, i);
        dict_strings_read(g.body, at, rows);
        let d = dict_text(cs.filter)->Ok_0->0;
        assert forall|a: int, b: int|
            0 <= a < b < d.size && (#[trigger] d.value(a)) is Some implies d.value(a)
            != #[trigger] d.value(b) by {
            assert(dict_value(g.body, at, a) != dict_value(g.body, at, b));
        }
    }
    if q.key_dict {
        let at = data_at(c, f, file, q.key as int, i);
        dict_strings_read(g.body, at, rows);
        let d = dict_text(cs.keys)->Ok_0->0;
        assert forall|a: int, b: int|
            0 <= a < b < d.size && (#[trigger] d.value(a)) is Some && (#[trigger] d.value(
                b,
            )) is Some implies text_of(d.value(a)->0) != text_of(d.value(b)->0) by {
            assert(dict_value(g.body, at, a) != dict_value(g.body, at, b));
            vstd::utf8::decode_utf8_encode_utf8(dict_value(g.body, at, a));
            vstd::utf8::decode_utf8_encode_utf8(dict_value(g.body, at, b));
        }
    }
}

/// A search in a dictionary whose values lie in its data does not fail.
proof fn find_does_not_fail(d: DictTextSeq, target: Seq<u8>, k: int)
    requires
        0 <= k,
        forall|j: int| 0 <= j < d.size ==> (#[trigger] d.value(j)) is Some,
    ensures
        d.find(target, k) is Ok,
    decreases d.size - k,
{
    if k < d.size {
        assert(d.value(k) is Some);
        find_does_not_fail(d, target, k + 1);
    }
}

proof fn rows_are_credited(
    ts: Seq<TallySeq>,
    fl: FilterSeq,
    keys: KeySeq,
    agg: Option<AggSeq>,
    del: Option<Seq<u8>>,
    n: int,
)
    requires
        forall|r: int| 0 <= r < n ==> (#[trigger] fl.hit(r)) is Some,
        forall|r: int| 0 <= r < n ==> (#[trigger] keys.key(r)) is Some,
    ensures
        credit_rows(ts, fl, keys, agg, del, n) is Some,
    decreases n,
{
    if n > 0 {
        rows_are_credited(ts, fl, keys, agg, del, n - 1);
        assert(fl.hit(n - 1) is Some);
        assert(keys.key(n - 1) is Some);
    }
}

proof fn slots_are_credited(
    ts: Seq<TallySeq>,
    fl: FilterSeq,
    d: DictTextSeq,
    agg: Option<AggSeq>,
    del: Option<Seq<u8>>,
    n: int,
    k: int,
)
    requires
        k <= d.size,
        forall|j: int| 0 <= j < d.size ==> (#[trigger] d.value(j)) is Some,
    ensures
        credit_slots(ts, fl, d, agg, del, n, k) is Some,
    decreases k,
{
    if k > 0 {
        slots_are_credited(ts, fl, d, agg, del, n, k - 1);
        assert(d.value(k - 1) is Some);
    }
}

/// Whether a string column that was taken apart has a string, or an index, for each of some rows.
spec fn readable(dict: bool, data: Seq<u8>, rows: int) -> bool {
    if dict {
        dict_text(data) matches Ok(Some(d)) && d.rows == rows && (forall|r: int|
            0 <= r < rows ==> #[trigger] d.index(r) <= d.size) && forall|k: int|
            0 <= k < d.size ==> (#[trigger] d.value(k)) is Some
    } else {
        strict_text(data) matches Ok(Some(t)) && t.count == rows && forall|r: int|
            0 <= r < rows ==> #[trigger] t.start(r) <= t.end(r) && t.end(r) <= t.rest.len()
    }
}

proof fn texts_are_readable<C: ColumnCodec>(c: C, f: V4Footer, file: Seq<u8>, col: int, i: int)
    requires
        whole_texts(c, f, file, col, i),
        f.row_groups@[i].row_count > 0,
    ensures
        ({
            let g = group_of(c, f.row_groups@[i], file)->Ok_0;
            readable(
                f.schema.kind(col) is StringDict,
                tail(g.body, data_at(c, f, file, col, i)),
                f.row_groups@[i].row_count as int,
            )
        }),
{
    let rows = f.row_groups@[i].row_count as int;
    let g = group_of(c, f.row_groups@[i], file)->Ok_0;
    let at = data_at(c, f, file, col, i);
    if f.schema.kind(col) is StringDict {
        dict_strings_read(g.body, at, rows);
    } else {
        plain_strings_read(g.body, at, rows);
        let t = plain_text(tail(g.body, at))->0;
        assert forall|r: int| 0 <= r < rows implies #[trigger] t.start(r) <= t.end(r) && t.end(r)
            <= t.rest.len() by {
            assert(reads_string(t, g.body, at, r));
        }
    }
}

/// Readable columns are credited.
#[verifier::spinoff_prover]
proof fn columns_are_credited(
    q: GroupQuery,
    filter: Seq<u8>,
    keys: Seq<u8>,
    agg: Option<AggSeq>,
    del: Option<Seq<u8>>,
    target: Seq<u8>,
    rows: int,
    ts: Seq<TallySeq>,
)
    requires
        0 <= rows,
        readable(q.filter_dict, filter, rows),
        readable(q.key_dict, keys, rows),
    ensures
        q.credited(
            ts,
            filter,
            keys,
            Ok::<Option<AggSeq>, ScanError>(agg),
            del,
            target,
            rows,
        ) matches Ok(Some(_)),
{
    if q.filter_dict {
        find_does_not_fail(dict_text(filter)->Ok_0->0, target, 0);
    }
    if let Ok(Some(fl)) = filter_of(q.filter_dict, filter, target) {
        assert forall|r: int| 0 <= r < rows implies (#[trigger] fl.hit(r)) is Some by {
            if !q.filter_dict {
                let t = strict_text(filter)->Ok_0->0;
                assert(t.start(r) <= t.end(r));
            }
        }
        if q.key_dict {
            let d = dict_text(keys)->Ok_0->0;
            slots_are_credited(ts, fl, d, agg, del, rows, d.size);
            let source = KeySeq::Dict(d);
            assert forall|r: int| 0 <= r < rows implies (#[trigger] source.key(r)) is Some by {
                assert(d.index(r) <= d.size);
                if d.index(r) > 0 {
                    assert(d.value(d.index(r) - 1) is Some);
                }
            }
            rows_are_credited(ts, fl, source, agg, del, rows);
        } else {
            let t = strict_text(keys)->Ok_0->0;
            let source = KeySeq::Text(t);
            assert forall|r: int| 0 <= r < rows implies (#[trigger] source.key(r)) is Some by {
                assert(t.start(r) <= t.end(r));
            }
            rows_are_credited(ts, fl, source, agg, del, rows);
        }
    }
}

/// What a group query reads of a row group is credited.
#[verifier::spinoff_prover]
#[verifier::rlimit(30)]
proof fn group_is_columns<C: ColumnCodec>(
    q: GroupQuery,
    c: C,
    f: V4Footer,
    file: Seq<u8>,
    target: Seq<u8>,
    i: int,
    ts: Seq<TallySeq>,
)
    requires
        f.row_groups@[i].row_count > 0,
        groupable(c, f, file, q.filter as int, q.key as int, i),
        q.filter_dict == (f.schema.kind(q.filter as int) is StringDict),
        q.key_dict == (f.schema.kind(q.key as int) is StringDict),
        q.agg matches Some(a) ==> addable(c, f, file, a as int, i) && (is_int(
            f.schema.kind(a as int),
        ) || is_float(f.schema.kind(a as int))) && q.agg_float == is_float(
            f.schema.kind(a as int),
        ),
    ensures
        group_columns(q, f, file, i) matches Some(cs) && q.group(f, file, target, i, ts)
            == q.credited(
            ts,
            cs.filter,
            cs.keys,
            Ok::<Option<AggSeq>, ScanError>(cs.agg),
            cs.del,
            target,
            f.row_groups@[i].row_count as int,
        ),
{
    let meta = f.row_groups@[i];
    let g = group_of(c, meta, file)->Ok_0;
    let s = stored_group(meta, file)->Ok_0;
    assert(tail(s, 32) == g.body);
    columns_read(q, c, f, file, i);
}

/// A row group that serves a group query is credited.
proof fn group_is_credited<C: ColumnCodec>(
    q: GroupQuery,
    c: C,
    f: V4Footer,
    file: Seq<u8>,
    target: Seq<u8>,
    i: int,
    ts: Seq<TallySeq>,
)
    requires
        f.row_groups@[i].row_count > 0,
        groupable(c, f, file, q.filter as int, q.key as int, i),
        q.filter_dict == (f.schema.kind(q.filter as int) is StringDict),
        q.key_dict == (f.schema.kind(q.key as int) is StringDict),
        q.agg matches Some(a) ==> addable(c, f, file, a as int, i) && (is_int(
            f.schema.kind(a as int),
        ) || is_float(f.schema.kind(a as int))) && q.agg_float == is_float(
            f.schema.kind(a as int),
        ),
    ensures
        q.group(f, file, target, i, ts) matches Ok(Some(_)),
{
    let rows = f.row_groups@[i].row_count as int;
    columns_read(q, c, f, file, i);
    let cs = group_columns(q, f, file, i)->0;
    texts_are_readable(c, f, file, q.filter as int, i);
    texts_are_readable(c, f, file, q.key as int, i);
    columns_are_credited(q, cs.filter, cs.keys, cs.agg, cs.del, target, rows, ts);
    group_is_columns(q, c, f, file, target, i, ts);
}

/// Whether all row groups serve a query for groups.
spec fn serves<C: ColumnCodec>(q: GroupQuery, c: C, f: V4Footer, file: Seq<u8>) -> bool {
    &&& q.filter_dict == (f.schema.kind(q.filter as int) is StringDict)
    &&& q.key_dict == (f.schema.kind(q.key as int) is StringDict)
    &&& q.agg matches Some(a) ==> (is_int(f.schema.kind(a as int)) || is_float(
        f.schema.kind(a as int),
    )) && q.agg_float == is_float(f.schema.kind(a as int))
    &&& forall|i: int|
        0 <= i < f.row_groups@.len() && f.row_groups@[i].row_count > 0 ==> #[trigger] groupable(
            c,
            f,
            file,
            q.filter as int,
            q.key as int,
            i,
        ) && (q.agg matches Some(a) ==> addable(c, f, file, a as int, i))
}

proof fn tallies_there<C: ColumnCodec>(
    q: GroupQuery,
    c: C,
    f: V4Footer,
    file: Seq<u8>,
    target: Seq<u8>,
    k: int,
)
    requires
        0 <= k <= f.row_groups@.len(),
        q.filter_dict == (f.schema.kind(q.filter as int) is StringDict),
        q.key_dict == (f.schema.kind(q.key as int) is StringDict),
        q.agg matches Some(a) ==> (is_int(f.schema.kind(a as int)) || is_float(
            f.schema.kind(a as int),
        )) && q.agg_float == is_float(f.schema.kind(a as int)),
        forall|i: int|
            0 <= i < k && f.row_groups@[i].row_count > 0 ==> #[trigger] groupable(
                c,
                f,
                file,
                q.filter as int,
                q.key as int,
                i,
            ) && (q.agg matches Some(a) ==> addable(c, f, file, a as int, i)),
    ensures
        q.tallies(f, file, target, k) matches Ok(Some(_)),
    decreases k,
{
    if k > 0 {
        tallies_there(q, c, f, file, target, k - 1);
        if f.row_groups@[k - 1].row_count > 0 {
            assert(groupable(c, f, file, q.filter as int, q.key as int, k - 1));
            group_is_credited(
                q,
                c,
                f,
                file,
                target,
                k - 1,
                q.tallies(f, file, target, k - 1)->Ok_0->0,
            );
        }
    }
}

/// The numbers of rows that have one each, or none.
#[verifier::spinoff_prover]
proof fn addends_one_each(
    q: GroupQuery,
    f: V4Footer,
    file: Seq<u8>,
    rows: Seq<(int, int)>,
    some: bool,
    number: spec_fn((int, int)) -> F64,
)
    requires
        forall|j: int|
            0 <= j < rows.len() ==> row_addend(q, f, file, (#[trigger] rows[j]).0, rows[j].1) == (
            if some {
                seq![number(rows[j])]
            } else {
                Seq::empty()
            }),
    ensures
        addends_at(q, f, file, rows) == (if some {
            Seq::new(rows.len(), |j: int| number(rows[j]))
        } else {
            Seq::empty()
        }),
    decreases rows.len(),
{
    if rows.len() > 0 {
        let most = rows.drop_last();
        assert forall|j: int| 0 <= j < most.len() implies row_addend(
            q,
            f,
            file,
            (#[trigger] most[j]).0,
            most[j].1,
        ) == (if some {
            seq![number(most[j])]
        } else {
            Seq::empty()
        }) by {
            assert(most[j] == rows[j]);
        }
        addends_one_each(q, f, file, most, some, number);
        let last = rows[rows.len() - 1];
        let part = row_addend(q, f, file, last.0, last.1);
        assert(addends_at(q, f, file, rows) == addends_at(q, f, file, most) + part);
        if some {
            assert(addends_at(q, f, file, most) + part =~= Seq::new(
                rows.len(),
                |j: int| number(rows[j]),
            ));
        } else {
            assert(addends_at(q, f, file, most) + part =~= Seq::empty());
        }
    } else if some {
        assert(addends_at(q, f, file, rows) =~= Seq::new(rows.len(), |j: int| number(rows[j])));
    }
}

/// The numbers of the rows of a key.
#[verifier::spinoff_prover]
proof fn addends_of_key<C: ColumnCodec>(
    q: GroupQuery,
    c: C,
    f: V4Footer,
    file: Seq<u8>,
    target: Seq<u8>,
    key: Seq<char>,
)
    requires
        serves(q, c, f, file),
    ensures
        ({
            let pairs = key_rows(q, f, file, target, key, f.row_groups@.len() as int);
            &&& forall|j: int|
                0 <= j < pairs.len() ==> 0 <= (#[trigger] pairs[j]).0 < f.row_groups@.len() && 0
                    <= pairs[j].1 < f.row_groups@[pairs[j].0].row_count
            &&& addends_at(q, f, file, pairs) == (match q.agg {
                Some(a) => Seq::new(
                    pairs.len(),
                    |j: int| as_double(number_at(c, f, file, a as int, pairs[j].0, pairs[j].1)),
                ),
                None => Seq::empty(),
            })
        }),
{
    let n = f.row_groups@.len() as int;
    let pairs = key_rows(q, f, file, target, key, n);
    q.law_key_rows(f, file, target, key, n);
    let some = q.agg is Some;
    let a = q.agg->0 as int;
    let number = |p: (int, int)| as_double(number_at(c, f, file, a, p.0, p.1));
    assert forall|j: int| 0 <= j < pairs.len() implies 0 <= (#[trigger] pairs[j]).0
        < f.row_groups@.len() && 0 <= pairs[j].1 < f.row_groups@[pairs[j].0].row_count by {
        let (i, r) = pairs[j];
        assert(pairs.contains((i, r)));
        assert(row_key(q, f, file, target, i, r) == Some(key));
    }
    assert forall|j: int| 0 <= j < pairs.len() implies row_addend(
        q,
        f,
        file,
        (#[trigger] pairs[j]).0,
        pairs[j].1,
    ) == (if some {
        seq![number(pairs[j])]
    } else {
        Seq::empty()
    }) by {
        let (i, r) = pairs[j];
        assert(groupable(c, f, file, q.filter as int, q.key as int, i));
        key_of_row(q, c, f, file, target, i, r);
        if !some {
            assert(row_addend(q, f, file, i, r) =~= Seq::empty());
        }
    }
    addends_one_each(q, f, file, pairs, some, number);
    if some {
        assert(addends_at(q, f, file, pairs) =~= Seq::new(
            pairs.len(),
            |j: int| as_double(number_at(c, f, file, a, pairs[j].0, pairs[j].1)),
        ));
    }
}

impl<C: ColumnCodec> OnDemandStorage<C> {
    /// Whether all row groups serve a group query.
    pub open spec fn groupable_table(
        self,
        filter_col: Seq<char>,
        group_col: Seq<char>,
        agg_col: Option<Seq<char>>,
    ) -> bool {
        &&& self.footer matches Some(f) && self.file matches Some(file)
            && f.schema.index_of(filter_col) matches Some(filter) && f.schema.index_of(
            group_col,
        ) matches Some(key) && {
            &&& is_text(f.schema.kind(filter as int))
            &&& is_text(f.schema.kind(key as int))
            &&& forall|i: int|
                0 <= i < f.row_groups@.len() && f.row_groups@[i].row_count > 0
                    ==> #[trigger] groupable(self.codec, f, file@, filter as int, key as int, i)
            &&& agg_col matches Some(name) ==> (f.schema.index_of(name) matches Some(agg)
                && aggregated(f.schema.kind(agg as int)) && forall|i: int|
                0 <= i < f.row_groups@.len() && f.row_groups@[i].row_count > 0
                    ==> #[trigger] addable(self.codec, f, file@, agg as int, i))
        }
    }

    /// Whether a row of the table is live, holds `target` in the filter column and has a key.
    pub open spec fn in_group(
        self,
        filter: int,
        target: Seq<u8>,
        group: int,
        key: Seq<char>,
        row: int,
    ) -> bool {
        let f = self.footer->0;
        let file = self.file->0@;
        &&& !self.is_deleted(row)
        &&& row_string(self.codec, f, file, filter, row) == Some(target)
        &&& key_text(f, filter, group, row_string(self.codec, f, file, group, row)) == Some(key)
    }

    /// A table that serves a group query has groups.
    #[verifier::spinoff_prover]
    proof fn groups_are_there(
        self,
        filter_col: Seq<char>,
        target: Seq<u8>,
        group_col: Seq<char>,
        agg_col: Option<Seq<char>>,
    )
        requires
            self.groupable_table(filter_col, group_col, agg_col),
        ensures
            self.group_tallies(filter_col, target, group_col, agg_col) matches Ok(Some(_)),
            serves(
                self.group_query(filter_col, group_col, agg_col),
                self.codec,
                self.footer->0,
                self.file->0@,
            ),
            forall|i: int|
                0 <= i < self.footer->0.row_groups@.len() ==> #[trigger] sound_group_columns(
                    self.group_query(filter_col, group_col, agg_col),
                    self.footer->0,
                    self.file->0@,
                    i,
                ),
    {
        let c = self.codec;
        let f = self.footer->0;
        let file = self.file->0@;
        let n = f.row_groups@.len() as int;
        let q = self.group_query(filter_col, group_col, agg_col);
        let filter = q.filter as int;
        let group = q.key as int;
        assert forall|i: int| 0 <= i < n && f.row_groups@[i].row_count > 0 implies #[trigger] groupable(
            c,
            f,
            file,
            filter,
            group,
            i,
        ) && (q.agg matches Some(a) ==> addable(c, f, file, a as int, i)) by {}
        assert(q.placed(f)) by {
            assert forall|i: int| 0 <= i < n && f.row_groups@[i].row_count > 0 implies (
            #[trigger] f.rcix(i, filter)) is Some && f.rcix(i, group) is Some && (q.agg matches Some(
                a,
            ) ==> f.rcix(i, a as int) is Some) by {
                assert(groupable(c, f, file, filter, group, i));
            }
        }
        tallies_there(q, c, f, file, target, n);
        assert forall|i: int| 0 <= i < n implies #[trigger] sound_group_columns(q, f, file, i) by {
            if f.row_groups@[i].row_count > 0 {
                assert(groupable(c, f, file, filter, group, i));
                dictionaries_sound(q, c, f, file, i);
            }
        }
    }

    /// The rows of a key.
    #[verifier::spinoff_prover]
    proof fn rows_of_key(self, q: GroupQuery, target: Seq<u8>, key: Seq<char>)
        requires
            self.footer is Some,
            self.footer->0.wf(),
            serves(q, self.codec, self.footer->0, self.file->0@),
        ensures
            ({
                let f = self.footer->0;
                let pairs = key_rows(
                    q,
                    f,
                    self.file->0@,
                    target,
                    key,
                    f.row_groups@.len() as int,
                );
                lists(
                    Seq::new(
                        pairs.len(),
                        |a: int| (rows_before(f.row_groups@, pairs[a].0) + pairs[a].1) as usize,
                    ),
                    f.total_rows(),
                    |row: int| self.in_group(q.filter as int, target, q.key as int, key, row),
                )
            }),
    {
        let c = self.codec;
        let f = self.footer->0;
        let file = self.file->0@;
        let n = f.row_groups@.len() as int;
        let filter = q.filter as int;
        let group = q.key as int;
        let kind = |row: int| self.in_group(filter, target, group, key, row);
        q.law_key_rows(f, file, target, key, n);
        let pairs = key_rows(q, f, file, target, key, n);
        let found = Seq::new(
            pairs.len(),
            |a: int| (rows_before(f.row_groups@, pairs[a].0) + pairs[a].1) as usize,
        );
        assert forall|i: int, r: int| 0 <= i < n && 0 <= r < f.row_groups@[i].row_count implies (
        #[trigger] row_key(q, f, file, target, i, r) == Some(key)) == kind(
            rows_before(f.row_groups@, i) + r,
        ) by {
            assert(groupable(c, f, file, filter, group, i));
            key_of_row(q, c, f, file, target, i, r);
            in_each_group(f, i, r);
        }
        pairs_are_rows(q, f, file, target, key, pairs, found, kind);
    }

    /// A group query has one group for each key of a live row whose filter column holds the value: no
    /// other groups, and none twice. The group counts the rows with its key, all of them, and has their
    /// numbers, one for each and in their order, whatever they are.
    #[verifier::spinoff_prover]
    #[verifier::rlimit(40)]
    pub proof fn law_groups_of_rows(
        self,
        filter_col: Seq<char>,
        target: Seq<u8>,
        group_col: Seq<char>,
        agg_col: Option<Seq<char>>,
        key: Seq<char>,
        rows: Seq<usize>,
    )
        requires
            self.wf(),
            self.groupable_table(filter_col, group_col, agg_col),
            ({
                let f = self.footer->0;
                let filter = f.schema.index_of(filter_col)->0 as int;
                let group = f.schema.index_of(group_col)->0 as int;
                lists(
                    rows,
                    f.total_rows(),
                    |row: int| self.in_group(filter, target, group, key, row),
                )
            }),
        ensures
            self.group_tallies(filter_col, target, group_col, agg_col) matches Ok(Some(ts)) && {
                &&& forall|a: int, b: int|
                    0 <= a < b < ts.len() ==> (#[trigger] ts[a]).key != (#[trigger] ts[b]).key
                &&& (exists|g: int| 0 <= g < ts.len() && (#[trigger] ts[g]).key == key) == (
                rows.len() > 0)
                &&& forall|g: int|
                    0 <= g < ts.len() && (#[trigger] ts[g]).key == key ==> {
                        &&& ts[g].count == rows.len()
                        &&& match agg_col {
                            None => flat(ts[g].parts).len() == 0,
                            Some(name) => {
                                let agg = self.footer->0.schema.index_of(name)->0 as int;
                                &&& flat(ts[g].parts).len() == rows.len()
                                &&& forall|j: int|
                                    0 <= j < rows.len() ==> #[trigger] flat(ts[g].parts)[j]
                                        == as_double(self.number(agg, rows[j] as int))
                            },
                        }
                    }
            },
    {
        let c = self.codec;
        let f = self.footer->0;
        let file = self.file->0@;
        let n = f.row_groups@.len() as int;
        let q = self.group_query(filter_col, group_col, agg_col);
        let filter = q.filter as int;
        let group = q.key as int;
        let kind = |row: int| self.in_group(filter, target, group, key, row);
        self.groups_are_there(filter_col, target, group_col, agg_col);
        assert(serves(q, c, f, file));
        let ts = self.group_tallies(filter_col, target, group_col, agg_col)->Ok_0->0;
        self.law_groups_of_table(filter_col, target, group_col, agg_col, key);
        let pairs = key_rows(q, f, file, target, key, n);
        let found = Seq::new(
            pairs.len(),
            |a: int| (rows_before(f.row_groups@, pairs[a].0) + pairs[a].1) as usize,
        );
        self.rows_of_key(q, target, key);
        same_list(found, rows, f.total_rows(), kind);
        addends_of_key(q, c, f, file, target, key);
        credited_to(ts, key);
        if let Some(name) = agg_col {
            let agg = f.schema.index_of(name)->0 as int;
            assert forall|j: int| 0 <= j < rows.len() implies #[trigger] addends_at(
                q,
                f,
                file,
                pairs,
            )[j] == as_double(self.number(agg, rows[j] as int)) by {
                let (i, r) = pairs[j];
                in_each_group(f, i, r);
                group_bounds(f, i);
                assert(rows[j] == found[j]);
                assert(self.number(agg, rows[j] as int) == number_at(c, f, file, agg, i, r));
            }
        }
    }

    /// Where nothing is left out of the answer and there is room for all groups, the key of each live
    /// row whose filter column holds the value is in the answer.
    pub proof fn law_key_is_answered<F: Fn(&GroupTally) -> F64>(
        self,
        filter_col: Seq<char>,
        target: Seq<u8>,
        group_col: Seq<char>,
        agg_col: Option<Seq<char>>,
        finish: F,
        descending: bool,
        limit: int,
        got: Result<Option<Seq<(Seq<char>, F64)>>, ScanError>,
        key: Seq<char>,
        row: int,
        rows: Seq<usize>,
    )
        requires
            self.wf(),
            self.groupable_table(filter_col, group_col, agg_col),
            grouped(
                finish,
                self.group_tallies(filter_col, target, group_col, agg_col),
                descending,
                0,
                limit,
                got,
            ),
            self.group_tallies(filter_col, target, group_col, agg_col)->Ok_0->0.len() <= limit,
            ({
                let f = self.footer->0;
                let filter = f.schema.index_of(filter_col)->0 as int;
                let group = f.schema.index_of(group_col)->0 as int;
                &&& 0 <= row < f.total_rows()
                &&& self.in_group(filter, target, group, key, row)
                &&& lists(
                    rows,
                    f.total_rows(),
                    |row: int| self.in_group(filter, target, group, key, row),
                )
            }),
        ensures
            got matches Ok(Some(v)) && exists|j: int| 0 <= j < v.len() && (#[trigger] v[j]).0 == key,
    {
        let f = self.footer->0;
        let filter = f.schema.index_of(filter_col)->0 as int;
        let group = f.schema.index_of(group_col)->0 as int;
        let kind = |row: int| self.in_group(filter, target, group, key, row);
        assert(kind(row));
        assert(rows.contains(row as usize));
        self.law_groups_of_rows(filter_col, target, group_col, agg_col, key, rows);
        let ts = self.group_tallies(filter_col, target, group_col, agg_col)->Ok_0->0;
        let g = choose|g: int| 0 <= g < ts.len() && (#[trigger] ts[g]).key == key;
        law_every_group_is_there(finish, ts, descending, limit, got, g);
    }
}

/// The group of a key has what is credited to the key.
proof fn credited_to(ts: Seq<TallySeq>, key: Seq<char>)
    requires
        sound(ts),
    ensures
        forall|g: int|
            0 <= g < ts.len() && (#[trigger] ts[g]).key == key ==> ts[g].count == count_of(ts, key)
                && flat(ts[g].parts) == addends_of(ts, key),
        (exists|g: int| 0 <= g < ts.len() && (#[trigger] ts[g]).key == key) == (count_of(ts, key)
            > 0),
{
    find_key_facts(ts, key, 0);
    let at = find_key(ts, key, 0);
    assert forall|g: int| 0 <= g < ts.len() && (#[trigger] ts[g]).key == key implies ts[g].count
        == count_of(ts, key) && flat(ts[g].parts) == addends_of(ts, key) by {
        assert(at == g) by {
            if at < g {
                assert(ts[at].key != ts[g].key);
            } else if g < at {
                assert(ts[g].key != key);
            }
        }
    }
    if at < ts.len() {
        assert(ts[at].key == key);
        assert(ts[at].count >= 1);
    }
}

/// Pairs of a row group and a row in it that have a key are the rows of the table that have it.
proof fn pairs_are_rows(
    q: GroupQuery,
    f: V4Footer,
    file: Seq<u8>,
    target: Seq<u8>,
    key: Seq<char>,
    pairs: Seq<(int, int)>,
    found: Seq<usize>,
    kind: spec_fn(int) -> bool,
)
    requires
        f.wf(),
        forall|i: int, r: int|
            #![trigger row_key(q, f, file, target, i, r)]
            pairs.contains((i, r)) == (0 <= i < f.row_groups@.len() && 0 <= r
                < f.row_groups@[i].row_count && row_key(q, f, file, target, i, r) == Some(key)),
        forall|a: int, b: int|
            0 <= a < b < pairs.len() ==> (#[trigger] pairs[a]).0 < (#[trigger] pairs[b]).0 || (
            pairs[a].0 == pairs[b].0 && pairs[a].1 < pairs[b].1),
        forall|i: int, r: int|
            0 <= i < f.row_groups@.len() && 0 <= r < f.row_groups@[i].row_count ==> (
            #[trigger] row_key(q, f, file, target, i, r) == Some(key)) == kind(
                rows_before(f.row_groups@, i) + r,
            ),
        found == Seq::new(
            pairs.len(),
            |a: int| (rows_before(f.row_groups@, pairs[a].0) + pairs[a].1) as usize,
        ),
    ensures
        lists(found, f.total_rows(), kind),
{
    assert forall|k: int| 0 <= k < found.len() implies (#[trigger] found[k]) < f.total_rows() && kind(
        found[k] as int,
    ) by {
        let (i, r) = pairs[k];
        assert(pairs.contains((i, r)));
        assert(row_key(q, f, file, target, i, r) == Some(key));
        in_each_group(f, i, r);
        group_bounds(f, i);
    }
    assert forall|j: int, k: int| 0 <= j < k < found.len() implies #[trigger] found[j]
        < #[trigger] found[k] by {
        let (a, r) = pairs[j];
        let (b, t) = pairs[k];
        assert(pairs.contains((a, r)));
        assert(pairs.contains((b, t)));
        assert(row_key(q, f, file, target, a, r) == Some(key));
        assert(row_key(q, f, file, target, b, t) == Some(key));
        group_bounds(f, a);
        group_bounds(f, b);
        if a < b {
            crate::model::rows_before_monotonic(f.row_groups@, a + 1, b);
        }
    }
    assert forall|x: int| 0 <= x < f.total_rows() && #[trigger] kind(x) implies found.contains(
        x as usize,
    ) by {
        held(f, x);
        let i = holder(f, x);
        let r = place_in(f, x);
        assert(row_key(q, f, file, target, i, r) == Some(key));
        assert(pairs.contains((i, r)));
        let k = choose|k: int| 0 <= k < pairs.len() && pairs[k] == (i, r);
        assert(found[k] == x as usize);
    }
}

} // verus!
