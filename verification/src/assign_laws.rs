//! A conditional update gives its value to the rows that match, and to nothing else.

use vstd::prelude::*;

use crate::bytes::{bitmap_len, u64_le};
use crate::codec::ColumnCodec;
use crate::column::ColumnSeq;
use crate::double::{at_least, at_most, is_nan, F64};
use crate::group::{group_of, id_section, stored_group, tail, window};
use crate::meaning::{
    between, bounds_hold, data_at, decoded_at, held, holder, is_plain, lists, marks_len, number_at,
    place_in, place_of, whole_numbers, Number,
};
use crate::model::{
    is_int, rows_before, V4Footer, COL_ENCODING_BITPACK, COL_ENCODING_PLAIN, RG_COMPRESS_NONE,
};
use crate::numeric::{num_rows, packed_numbers, plain_numbers, range_test, NumSeq, QuerySeq};
use crate::pick_laws::{
    accepts, counts, fields_are_decoded, in_each_group, int_is_integer, lists_grow, lists_skip,
    marks_of_group, none_counts, plain_is_numbers, same_list,
};
use crate::repeat_laws::{found_bound, group_bytes, groups_apart, writes_keep_length, writes_stay};
use crate::scan_laws::{group_bounds, law_range_of_ints};
use crate::select::select;
use crate::storage::OnDemandStorage;
use crate::update::{differs, patched, write_all, GroupUpdate, RangeUpdateSeq};

verus! {

/// Where the set column keeps the value of row `r` of row group `i` in the file: behind the header of
/// the row group, the null bitmap, the encoding, the count and the values of the rows before it.
pub open spec fn word_place(f: V4Footer, col: int, i: int, r: int) -> int {
    f.row_groups@[i].offset + 32 + f.rcix(i, col)->0 + marks_len(f.row_groups@[i].row_count as int) + 9
        + 8 * r
}

/// Whether row group `i` can be updated in place: it is not compressed, its columns are tagged, the
/// tested column is on record, its packed fields, if it has some, can be read; and the set column is on
/// record and plain, with a value for each row.
pub open spec fn settable<C: ColumnCodec>(
    c: C,
    f: V4Footer,
    file: Seq<u8>,
    where_col: int,
    set_col: int,
    i: int,
) -> bool {
    let meta = f.row_groups@[i];
    let rows = meta.row_count as int;
    let g = group_of(c, meta, file)->Ok_0;
    let at = data_at(c, f, file, where_col, i);
    &&& g.flag == RG_COMPRESS_NONE
    &&& g.version >= 1
    &&& f.rcix(i, where_col) is Some
    &&& g.body[at - 1] == COL_ENCODING_BITPACK ==> g.body[at + 8] < 64 && at + 17 + (rows
        * g.body[at + 8] + 7) / 8 <= g.body.len()
    &&& f.rcix(i, set_col) matches Some(o) && {
        let data = o + marks_len(rows);
        &&& data + 9 + 8 * rows <= g.body.len()
        &&& g.body[data] == COL_ENCODING_PLAIN
        &&& u64_le(g.body, data + 1) >= rows
    }
}

/// A list of rows with the rows of one more row group.
pub open spec fn joined(before: Seq<usize>, base: int, part: Seq<usize>) -> Seq<usize> {
    before + part.map_values(|r: usize| (base + r) as usize)
}

proof fn lists_join(before: Seq<usize>, base: int, part: Seq<usize>, n: int, kind: spec_fn(int) -> bool)
    requires
        0 <= base,
        0 <= n,
        base + n <= usize::MAX,
        lists(before, base, kind),
        lists(part, n, |r: int| kind(base + r)),
    ensures
        lists(joined(before, base, part), base + n, kind),
        joined(before, base, part).len() == before.len() + part.len(),
{
    let all = joined(before, base, part);
    let local = |r: int| kind(base + r);
    assert forall|k: int| 0 <= k < all.len() implies (#[trigger] all[k]) < base + n && kind(
        all[k] as int,
    ) by {
        if k < before.len() {
            assert(all[k] == before[k]);
        } else {
            let r = part[k - before.len()];
            assert(r < n && local(r as int));
            assert(all[k] == (base + r) as usize);
        }
    }
    assert forall|j: int, k: int| 0 <= j < k < all.len() implies #[trigger] all[j]
        < #[trigger] all[k] by {
        if k < before.len() {
            assert(before[j] < before[k]);
        } else {
            let r = part[k - before.len()];
            assert(r < n && local(r as int));
            if j < before.len() {
                assert(before[j] < base);
            } else {
                assert(part[j - before.len()] < part[k - before.len()]);
            }
        }
    }
    assert forall|x: int| 0 <= x < base + n && #[trigger] kind(x) implies all.contains(x as usize) by {
        if x < base {
            assert(before.contains(x as usize));
            let k = choose|k: int| 0 <= k < before.len() && before[k] == x as usize;
            assert(all[k] == x as usize);
        } else {
            assert(local(x - base));
            assert(part.contains((x - base) as usize));
            let k = choose|k: int| 0 <= k < part.len() && part[k] == (x - base) as usize;
            assert(all[before.len() + k] == x as usize);
        }
    }
}

/// What an update reads of the tested column are the numbers of its rows.
#[verifier::spinoff_prover]
proof fn tested_numbers<C: ColumnCodec>(
    q: RangeUpdateSeq,
    c: C,
    f: V4Footer,
    file: Seq<u8>,
    i: int,
    del: Option<Seq<u8>>,
    nulls: Seq<u8>,
) -> (src: NumSeq)
    requires
        f.row_groups@[i].row_count > 0,
        q.ints == is_int(f.schema.kind(q.where_col)),
        whole_numbers(c, f, file, q.where_col, i),
        settable(c, f, file, q.where_col, q.set_col, i),
    ensures
        ({
            let rows = f.row_groups@[i].row_count as int;
            let g = group_of(c, f.row_groups@[i], file)->Ok_0;
            let column = tail(g.body, place_of(c, f, file, q.where_col, i) + bitmap_len(rows));
            q.matching(c, f.schema.kind(q.where_col), g.version, rows, del, nulls, column) == q.rows(
                src,
                rows,
                del,
                nulls,
            )
        }),
        forall|r: int|
            0 <= r < f.row_groups@[i].row_count ==> #[trigger] src.hit(q.test, r) == accepts(
                q.test,
                number_at(c, f, file, q.where_col, i, r),
            ),
{
    let rows = f.row_groups@[i].row_count as int;
    let bm = bitmap_len(rows);
    let g = group_of(c, f.row_groups@[i], file)->Ok_0;
    let w = place_of(c, f, file, q.where_col, i);
    let column = tail(g.body, w + bm);
    let at = data_at(c, f, file, q.where_col, i);
    let payload = tail(column, 1);
    assert(column == g.body.subrange(w + bm, g.body.len() as int));
    assert(payload =~= tail(g.body, at));
    assert(column[0] == g.body[at - 1]);
    if is_plain(c, f, file, q.where_col, i) {
        plain_is_numbers(c, f, file, q.where_col, i);
        let (src, n) = plain_numbers(q.ints, rows, payload);
        assert forall|r: int| 0 <= r < rows implies #[trigger] src.hit(q.test, r) == accepts(
            q.test,
            number_at(c, f, file, q.where_col, i, r),
        ) by {
            let x = number_at(c, f, file, q.where_col, i, r);
        }
        src
    } else if q.ints && g.body[at - 1] == COL_ENCODING_BITPACK {
        let query = QuerySeq {
            col: q.where_col,
            bits: false,
            ints: q.ints,
            packed: true,
            test: q.test,
            max: usize::MAX as int,
        };
        packed_here(c, f, file, q.where_col, i);
        let (src, n) = packed_numbers(rows, payload)->0;
        assert(query.direct(g.version, rows, column) == Some((src, n)));
        fields_are_decoded(query, c, f, file, i, 0);
        assert forall|r: int| 0 <= r < rows implies #[trigger] src.hit(q.test, r) == accepts(
            q.test,
            number_at(c, f, file, q.where_col, i, r),
        ) by {
            fields_are_decoded(query, c, f, file, i, r);
        }
        src
    } else {
        match decoded_at(c, f, file, q.where_col, i) {
            Some((ColumnSeq::Int64(v), _)) => NumSeq::Ints(v),
            Some((ColumnSeq::Float64(v), _)) => NumSeq::Reals(v),
            _ => NumSeq::Ints(Seq::empty()),
        }
    }
}

/// In a row group that can be updated in place, an update finds the rows that count.
#[verifier::spinoff_prover]
proof fn group_assigns<C: ColumnCodec>(q: RangeUpdateSeq, c: C, f: V4Footer, file: Seq<u8>, i: int)
    requires
        0 <= i < f.row_groups@.len(),
        f.row_groups@[i].row_count > 0,
        f.row_groups@[i].row_count <= usize::MAX,
        q.ints == is_int(f.schema.kind(q.where_col)),
        whole_numbers(c, f, file, q.where_col, i),
        settable(c, f, file, q.where_col, q.set_col, i),
        !q.test.misses(f.zone(i, q.where_col, false)),
    ensures
        q.group(c, f, file, i) matches GroupUpdate::Assign(rows, at, values) && {
            let n = f.row_groups@[i].row_count as int;
            let o = word_place(f, q.set_col, i, 0);
            &&& lists(rows, n, |r: int| counts(c, f, file, q.where_col, q.test, i, r))
            &&& at == o
            &&& values == file.subrange(o, o + 8 * n)
        },
{
    let meta = f.row_groups@[i];
    let rows = meta.row_count as int;
    let bm = bitmap_len(rows);
    assert(bm == marks_len(rows));
    let g = group_of(c, meta, file)->Ok_0;
    let s = stored_group(meta, file)->Ok_0;
    let body = tail(s, 32);
    assert(body == g.body);
    let w = place_of(c, f, file, q.where_col, i);
    let o = f.rcix(i, q.set_col)->0;
    let nulls = body.subrange(w, w + bm);
    marks_of_group(c, f, file, q.where_col, i, 0);
    let d = window(body, id_section(rows, s[30]), bm)->0;
    let del = if meta.deletion_count > 0 {
        Some(d)
    } else {
        None
    };
    let src = tested_numbers(q, c, f, file, i, del, nulls);
    let local = |r: int| counts(c, f, file, q.where_col, q.test, i, r);
    let hit = num_rows(src, q.test, del, Some(nulls));
    assert forall|r: int| 0 <= r < rows implies #[trigger] hit(r) == local(0 + r) by {
        marks_of_group(c, f, file, q.where_col, i, r);
        assert(src.hit(q.test, r) == accepts(q.test, number_at(c, f, file, q.where_col, i, r)));
    }
    assert(lists(Seq::empty(), 0, local));
    lists_grow(hit, rows, 0, Seq::empty(), usize::MAX as int, local);
    let found = select(hit, rows, 0, Seq::empty(), usize::MAX as int);
    let data = tail(body, o + bm);
    assert(data[0] == g.body[o + bm]);
    assert(u64_le(data, 1) == u64_le(g.body, o + bm + 1));
    let from = word_place(f, q.set_col, i, 0);
    assert(data.subrange(9, 9 + rows * 8) =~= file.subrange(from, from + 8 * rows));
    assert(q.group(c, f, file, i) == q.target(found, rows, s[29], bm, o, body, from));
}

/// Packed fields that can be read are read.
proof fn packed_here<C: ColumnCodec>(c: C, f: V4Footer, file: Seq<u8>, col: int, i: int)
    requires
        whole_numbers(c, f, file, col, i),
        !is_plain(c, f, file, col, i),
        is_int(f.schema.kind(col)),
        ({
            let rows = f.row_groups@[i].row_count as int;
            let g = group_of(c, f.row_groups@[i], file)->Ok_0;
            let at = data_at(c, f, file, col, i);
            g.version >= 1 && g.body[at - 1] == COL_ENCODING_BITPACK && g.body[at + 8] < 64 && at
                + 17 + (rows * g.body[at + 8] + 7) / 8 <= g.body.len()
        }),
    ensures
        ({
            let rows = f.row_groups@[i].row_count as int;
            let g = group_of(c, f.row_groups@[i], file)->Ok_0;
            let payload = tail(g.body, data_at(c, f, file, col, i));
            &&& payload.len() >= 17
            &&& packed_numbers(rows, payload) is Some
        }),
{
    let rows = f.row_groups@[i].row_count as int;
    let g = group_of(c, f.row_groups@[i], file)->Ok_0;
    let at = data_at(c, f, file, col, i);
    let payload = tail(g.body, at);
    crate::pick_laws::words_behind(g.body, at, 0);
    assert(payload[8] == g.body[at + 8]);
}

/// The plan for the first row groups matches the rows that count.
#[verifier::spinoff_prover]
proof fn plan_lists<C: ColumnCodec>(
    q: RangeUpdateSeq,
    low: F64,
    high: F64,
    c: C,
    f: V4Footer,
    file: Seq<u8>,
    value: Seq<u8>,
    k: int,
    kind: spec_fn(int) -> bool,
) -> (rows: Seq<usize>)
    requires
        f.wf(),
        0 <= k <= f.row_groups@.len(),
        q.ints == is_int(f.schema.kind(q.where_col)),
        q.test == range_test(low, high),
        forall|i: int|
            0 <= i < k && f.row_groups@[i].row_count > 0 ==> #[trigger] whole_numbers(
                c,
                f,
                file,
                q.where_col,
                i,
            ) && settable(c, f, file, q.where_col, q.set_col, i),
        forall|i: int| 0 <= i < k ==> #[trigger] bounds_hold(c, f, file, q.where_col, i),
        forall|i: int, r: int|
            0 <= i < k && 0 <= r < f.row_groups@[i].row_count ==> kind(
                rows_before(f.row_groups@, i) + r,
            ) == #[trigger] counts(c, f, file, q.where_col, q.test, i, r),
    ensures
        lists(rows, rows_before(f.row_groups@, k), kind),
        q.plan(c, f, file, value, k) matches Ok(Some(p)) && p.matched == rows.len(),
    decreases k,
{
    if k == 0 {
        Seq::empty()
    } else {
        let i = k - 1;
        let before = plan_lists(q, low, high, c, f, file, value, i, kind);
        group_bounds(f, i);
        let rows = f.row_groups@[i].row_count as int;
        let base = rows_before(f.row_groups@, i);
        assert(bounds_hold(c, f, file, q.where_col, i));
        if rows == 0 {
            before
        } else if q.test.misses(f.zone(i, q.where_col, false)) {
            assert forall|x: int| base <= x < base + rows implies !#[trigger] kind(x) by {
                none_counts(c, f, file, q.where_col, low, high, i, x - base);
                assert(kind(base + (x - base)) == counts(
                    c,
                    f,
                    file,
                    q.where_col,
                    q.test,
                    i,
                    x - base,
                ));
            }
            lists_skip(before, base, base + rows, kind);
            before
        } else {
            assert(whole_numbers(c, f, file, q.where_col, i));
            group_assigns(q, c, f, file, i);
            let part = q.group(c, f, file, i)->Assign_0;
            let local = |r: int| counts(c, f, file, q.where_col, q.test, i, r);
            let here = |r: int| kind(base + r);
            assert forall|r: int| 0 <= r < rows implies #[trigger] local(r) == here(r) by {
                assert(counts(c, f, file, q.where_col, q.test, i, r) == kind(base + r));
            }
            crate::pick_laws::lists_same(part, rows, local, here);
            lists_join(before, base, part, rows, kind);
            joined(before, base, part)
        }
    }
}

/// Bytes outside of all row groups stay as they are.
proof fn writes_elsewhere<C: ColumnCodec>(
    q: RangeUpdateSeq,
    c: C,
    f: V4Footer,
    file: Seq<u8>,
    value: Seq<u8>,
    k: int,
    b: int,
)
    requires
        0 <= k <= f.row_groups@.len(),
        0 <= b < file.len(),
        q.plan(c, f, file, value, k) matches Ok(Some(_)),
        forall|i: int|
            0 <= i < k ==> !((#[trigger] f.row_groups@[i]).offset <= b < f.row_groups@[i].offset
                + f.row_groups@[i].data_size),
    ensures
        write_all(file, q.plan(c, f, file, value, k)->Ok_0->0.writes).len() == file.len(),
        write_all(file, q.plan(c, f, file, value, k)->Ok_0->0.writes)[b] == file[b],
    decreases k,
{
    if k > 0 {
        writes_elsewhere(q, c, f, file, value, k - 1, b);
        let before = q.plan(c, f, file, value, k - 1)->Ok_0->0;
        let p = q.plan(c, f, file, value, k)->Ok_0->0;
        found_bound(q, c, f, file, k - 1);
        if let GroupUpdate::Assign(rows, at, values) = q.group(c, f, file, k - 1) {
            if differs(values, rows, value) {
                assert(p.writes.drop_last() =~= before.writes);
                let there = f.row_groups@[k - 1];
                assert(!(there.offset <= b < there.offset + there.data_size));
            }
        }
    }
}

/// What a byte of a row group holds after an update: that of the value, in the word of a row that
/// counts; what it held, elsewhere.
proof fn byte_after<C: ColumnCodec>(
    q: RangeUpdateSeq,
    low: F64,
    high: F64,
    c: C,
    f: V4Footer,
    file: Seq<u8>,
    value: Seq<u8>,
    i: int,
    b: int,
)
    requires
        f.wf(),
        value.len() == 8,
        0 <= i < f.row_groups@.len(),
        groups_apart(f.row_groups@),
        q.ints == is_int(f.schema.kind(q.where_col)),
        q.test == range_test(low, high),
        f.row_groups@[i].row_count > 0 ==> whole_numbers(c, f, file, q.where_col, i) && settable(
            c,
            f,
            file,
            q.where_col,
            q.set_col,
            i,
        ),
        bounds_hold(c, f, file, q.where_col, i),
        q.plan(c, f, file, value, f.row_groups@.len() as int) matches Ok(Some(_)),
        0 <= b < file.len(),
        f.row_groups@[i].offset <= b < f.row_groups@[i].offset + f.row_groups@[i].data_size,
        f.row_groups@[i].offset + f.row_groups@[i].data_size <= file.len(),
    ensures
        ({
            let n = f.row_groups@.len() as int;
            let now = write_all(file, q.plan(c, f, file, value, n)->Ok_0->0.writes);
            let from = word_place(f, q.set_col, i, 0);
            let r = (b - from) / 8;
            now[b] == (if 0 <= b - from && r < f.row_groups@[i].row_count && counts(
                c,
                f,
                file,
                q.where_col,
                q.test,
                i,
                r,
            ) {
                value[(b - from) % 8]
            } else {
                file[b]
            })
        }),
{
    let n = f.row_groups@.len() as int;
    let meta = f.row_groups@[i];
    let rows = meta.row_count as int;
    let now = write_all(file, q.plan(c, f, file, value, n)->Ok_0->0.writes);
    let from = word_place(f, q.set_col, i, 0);
    let r = (b - from) / 8;
    group_bounds(f, i);
    writes_stay(q, c, f, file, value, n, i);
    let s = file.subrange(meta.offset as int, meta.offset + meta.data_size);
    let t = now.subrange(meta.offset as int, meta.offset + meta.data_size);
    let j = b - meta.offset;
    assert(t[j] == now[b]);
    assert(s[j] == file[b]);
    assert(t == group_bytes(q, c, f, file, value, i));
    if rows > 0 {
        if q.test.misses(f.zone(i, q.where_col, false)) {
            if 0 <= b - from && r < rows {
                none_counts(c, f, file, q.where_col, low, high, i, r);
            }
        } else {
            group_assigns(q, c, f, file, i);
            found_bound(q, c, f, file, i);
            let found = q.group(c, f, file, i)->Assign_0;
            let values = q.group(c, f, file, i)->Assign_2;
            let local = |r: int| counts(c, f, file, q.where_col, q.test, i, r);
            let bytes = patched(values, found, value);
            if from <= b < from + 8 * rows {
                assert(values[b - from] == file[b]);
                assert(0 <= r < rows);
                assert(found.contains(r as usize) == local(r)) by {
                    if found.contains(r as usize) {
                        let m = choose|m: int| 0 <= m < found.len() && found[m] == r as usize;
                        assert(local(found[m] as int));
                    }
                }
                if !differs(values, found, value) && local(r) {
                    let m = choose|m: int| 0 <= m < found.len() && found[m] == r as usize;
                    assert(values.subrange(found[m] * 8, found[m] * 8 + 8) == value);
                    assert(values.subrange(found[m] * 8, found[m] * 8 + 8)[(b - from) % 8] == values[b
                        - from]);
                }
            }
        }
    }
}

impl<C: ColumnCodec> OnDemandStorage<C> {
    /// A conditional update matches the rows that are neither deleted nor missing and whose number in
    /// the tested column lies between the bounds, all of them and no others: the rows that a range scan
    /// without a limit gives. It counts them, and after it the set column holds the value in each of
    /// them. Every other byte of the file, and so every other row, keeps what it held. Row groups share
    /// no bytes and can be updated in place.
    #[verifier::spinoff_prover]
    #[verifier::rlimit(60)]
    pub proof fn law_update_sets_rows(
        self,
        where_col: Seq<char>,
        low: F64,
        high: F64,
        set_col: Seq<char>,
        value: Seq<u8>,
        all: Seq<usize>,
    )
        requires
            self.wf(),
            value.len() == 8,
            self.whole_table(where_col),
            ({
                let f = self.footer->0;
                let file = self.file->0@;
                let w = f.schema.index_of(where_col)->0 as int;
                &&& f.schema.index_of(set_col) is Some
                &&& f.col_offsets@.len() >= f.row_groups@.len()
                &&& groups_apart(f.row_groups@)
                &&& forall|i: int|
                    0 <= i < f.row_groups@.len() ==> (#[trigger] f.row_groups@[i]).offset
                        + f.row_groups@[i].data_size <= file.len()
                &&& forall|i: int|
                    0 <= i < f.row_groups@.len() && f.row_groups@[i].row_count > 0
                        ==> #[trigger] settable(
                        self.codec,
                        f,
                        file,
                        w,
                        f.schema.index_of(set_col)->0 as int,
                        i,
                    )
                &&& forall|i: int|
                    0 <= i < f.row_groups@.len() ==> #[trigger] bounds_hold(
                        self.codec,
                        f,
                        file,
                        w,
                        i,
                    )
                &&& is_int(f.schema.kind(w)) ==> !is_nan(low.bits) && !is_nan(high.bits) && at_most(
                    low,
                    i64::MAX as int,
                ) && at_least(high, i64::MIN as int)
                &&& lists(
                    all,
                    f.total_rows(),
                    |row: int| self.has_number(w, row) && between(low, high, self.number(w, row)),
                )
            }),
        ensures
            ({
                let f = self.footer->0;
                let file = self.file->0@;
                let o = f.schema.index_of(set_col)->0 as int;
                &&& self.update_range(where_col, low, high, set_col, value) matches Ok(Some((n, e)))
                    && {
                    let now = match e {
                        None => file,
                        Some(e) => e.file,
                    };
                    &&& n == all.len()
                    &&& now.len() == file.len()
                    &&& forall|row: int|
                        0 <= row < f.total_rows() ==> {
                            let at = word_place(
                                f,
                                o,
                                #[trigger] holder(f, row),
                                place_in(f, row),
                            );
                            now.subrange(at, at + 8) == (if all.contains(row as usize) {
                                value
                            } else {
                                file.subrange(at, at + 8)
                            })
                        }
                    &&& forall|b: int|
                        0 <= b < file.len() && #[trigger] now[b] != file[b] ==> exists|row: usize|
                            all.contains(row) && #[trigger] word_place(
                                f,
                                o,
                                holder(f, row as int),
                                place_in(f, row as int),
                            ) <= b < word_place(
                                f,
                                o,
                                holder(f, row as int),
                                place_in(f, row as int),
                            ) + 8
                }
            }),
    {
        let c = self.codec;
        let f = self.footer->0;
        let file = self.file->0@;
        let w = f.schema.index_of(where_col)->0 as int;
        let o = f.schema.index_of(set_col)->0 as int;
        let (g, q) = self.range_update(where_col, low, high, set_col)->0;
        let n = f.row_groups@.len() as int;
        let kind = |row: int| self.has_number(w, row) && between(low, high, self.number(w, row));
        assert forall|i: int, r: int| 0 <= i < n && 0 <= r < f.row_groups@[i].row_count implies kind(
            rows_before(f.row_groups@, i) + r,
        ) == #[trigger] counts(c, f, file, w, q.test, i, r) by {
            in_each_group(f, i, r);
            assert(whole_numbers(c, f, file, w, i));
            int_is_integer(c, f, file, w, i, r);
            if let Number::Int(v) = number_at(c, f, file, w, i, r) {
                law_range_of_ints(low, high, v);
            }
        }
        assert forall|i: int| 0 <= i < n && f.row_groups@[i].row_count > 0 implies #[trigger] whole_numbers(
            c,
            f,
            file,
            q.where_col,
            i,
        ) && settable(c, f, file, q.where_col, q.set_col, i) by {
            assert(settable(c, f, file, w, o, i));
        }
        let found = plan_lists(q, low, high, c, f, file, value, n, kind);
        same_list(found, all, f.total_rows(), kind);
        let plan = q.plan(c, f, file, value, n)->Ok_0->0;
        let now = write_all(file, plan.writes);
        writes_keep_length(q, c, f, file, value, n);
        assert forall|row: int| 0 <= row < f.total_rows() implies {
            let at = word_place(f, o, #[trigger] holder(f, row), place_in(f, row));
            now.subrange(at, at + 8) == (if all.contains(row as usize) {
                value
            } else {
                file.subrange(at, at + 8)
            })
        } by {
            held(f, row);
            let i = holder(f, row);
            let r = place_in(f, row);
            let at = word_place(f, o, i, r);
            assert(whole_numbers(c, f, file, w, i));
            assert(f.row_groups@[i].offset + f.row_groups@[i].data_size <= file.len());
            assert(all.contains(row as usize) == kind(row)) by {
                if all.contains(row as usize) {
                    let m = choose|m: int| 0 <= m < all.len() && all[m] == row as usize;
                    assert(kind(all[m] as int));
                }
            }
            assert(kind(row) == counts(c, f, file, w, q.test, i, r));
            let got = now.subrange(at, at + 8);
            let want = if kind(row) {
                value
            } else {
                file.subrange(at, at + 8)
            };
            assert forall|j: int| 0 <= j < 8 implies #[trigger] got[j] == want[j] by {
                byte_after(q, low, high, c, f, file, value, i, at + j);
                let from = word_place(f, o, i, 0);
                assert((at + j - from) / 8 == r);
                assert((at + j - from) % 8 == j);
            }
            assert(got =~= want);
        }
        assert forall|b: int| 0 <= b < file.len() && #[trigger] now[b] != file[b] implies exists|
            row: usize,
        |
            all.contains(row) && #[trigger] word_place(
                f,
                o,
                holder(f, row as int),
                place_in(f, row as int),
            ) <= b < word_place(f, o, holder(f, row as int), place_in(f, row as int)) + 8 by {
            if forall|i: int|
                0 <= i < n ==> !((#[trigger] f.row_groups@[i]).offset <= b < f.row_groups@[i].offset
                    + f.row_groups@[i].data_size) {
                writes_elsewhere(q, c, f, file, value, n, b);
            }
            let i = choose|i: int|
                0 <= i < n && (#[trigger] f.row_groups@[i]).offset <= b < f.row_groups@[i].offset
                    + f.row_groups@[i].data_size;
            byte_after(q, low, high, c, f, file, value, i, b);
            let from = word_place(f, o, i, 0);
            let r = (b - from) / 8;
            let row = rows_before(f.row_groups@, i) + r;
            group_bounds(f, i);
            in_each_group(f, i, r);
            assert(kind(row));
            assert(all.contains(row as usize));
            assert(word_place(f, o, holder(f, row), place_in(f, row)) <= b);
        }
    }
}

} // verus!
