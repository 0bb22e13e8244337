//! A range scan finds the live rows whose number lies in the range, and no others.

use vstd::prelude::*;

use crate::bytes::{bit, bitmap_len, packed_value};
use crate::codec::ColumnCodec;
use crate::column::ColumnSeq;
use crate::double::F64;
use crate::group::{group_of, id_section, tail, window};
use crate::model::{
    is_int, rows_before, rows_before_monotonic, V4Footer, COL_ENCODING_PLAIN, RG_COMPRESS_NONE,
};
use crate::numeric::{
    all_fast, encoding_of, min2, num_rows, packed_numbers, plain_numbers, range_query, range_test,
    tag_len, NumSeq, QuerySeq, TestSeq,
};
use crate::range_laws::{
    decoded_ints, in_place_is_in_turn, lies_in, ruled_out, sound_numbers, walk_fits, walked_to, within,
};
use crate::scan_laws::{group_bounds, rows_in_order};
use crate::set_laws::select_holds;
use crate::storage::OnDemandStorage;

verus! {

/// The numbers of a column of row group `i`, as they are stored or as decoding gives them, and how
/// many of them stand for rows.
pub open spec fn numbers_in<C: ColumnCodec>(c: C, f: V4Footer, file: Seq<u8>, col: int, i: int) -> (
    NumSeq,
    int,
) {
    let meta = f.row_groups@[i];
    let rows = meta.row_count as int;
    let g = group_of(c, meta, file)->Ok_0;
    let p = walked_to(c, f.schema, g, rows, col)->Ok_0->0;
    let kind = f.schema.kind(col);
    let column = tail(g.body, p + bitmap_len(rows));
    if encoding_of(g.version, column) == COL_ENCODING_PLAIN {
        plain_numbers(is_int(kind), rows, tail(column, tag_len(g.version)))
    } else {
        match c.decoded(g.version >= 1, column, kind) {
            Some((ColumnSeq::Int64(v), _)) => (NumSeq::Ints(v), min2(v.len() as int, rows)),
            Some((ColumnSeq::Float64(v), _)) => (NumSeq::Reals(v), min2(v.len() as int, rows)),
            _ => (NumSeq::Ints(Seq::empty()), 0),
        }
    }
}

/// Whether row `r` of row group `i` is deleted.
pub open spec fn deleted_in<C: ColumnCodec>(c: C, f: V4Footer, file: Seq<u8>, i: int, r: int) -> bool {
    let meta = f.row_groups@[i];
    let rows = meta.row_count as int;
    let g = group_of(c, meta, file)->Ok_0;
    meta.deletion_count > 0 && bit(window(g.body, id_section(rows, g.ids), bitmap_len(rows))->0, r)
}

/// Whether row `r` of row group `i` has no value in a column.
pub open spec fn missing_in<C: ColumnCodec>(
    c: C,
    f: V4Footer,
    file: Seq<u8>,
    col: int,
    i: int,
    r: int,
) -> bool {
    let rows = f.row_groups@[i].row_count as int;
    let g = group_of(c, f.row_groups@[i], file)->Ok_0;
    let p = walked_to(c, f.schema, g, rows, col)->Ok_0->0;
    bit(g.body.subrange(p, p + bitmap_len(rows)), r)
}

/// Whether row `r` of row group `i` is live and has a number that passes a test.
pub open spec fn passes_in<C: ColumnCodec>(
    c: C,
    f: V4Footer,
    file: Seq<u8>,
    col: int,
    test: TestSeq,
    i: int,
    r: int,
) -> bool {
    let (src, n) = numbers_in(c, f, file, col, i);
    0 <= r < n && !deleted_in(c, f, file, i, r) && !missing_in(c, f, file, col, i, r) && src.hit(
        test,
        r,
    )
}

/// Whether a row of the store is live and has a number that passes a test.
pub open spec fn row_passes<C: ColumnCodec>(
    c: C,
    f: V4Footer,
    file: Seq<u8>,
    col: int,
    test: TestSeq,
    row: usize,
) -> bool {
    exists|i: int| #[trigger]
        lies_in(f, i, row as int) && passes_in(
            c,
            f,
            file,
            col,
            test,
            i,
            row - rows_before(f.row_groups@, i),
        )
}

/// Whether the bounds of the zone map of row group `i`, if it has one, hold for its numbers.
pub open spec fn sound_bounds<C: ColumnCodec>(
    c: C,
    f: V4Footer,
    file: Seq<u8>,
    col: int,
    i: int,
) -> bool {
    f.zone(i, col, false) matches Some(z) ==> forall|r: int|
        0 <= r < numbers_in(c, f, file, col, i).1 ==> #[trigger] within(
            z,
            numbers_in(c, f, file, col, i).0,
            r,
        )
}

/// What a scan looks at in a row group are its numbers.
#[verifier::spinoff_prover]
proof fn hits_are_numbers<C: ColumnCodec>(q: QuerySeq, c: C, f: V4Footer, file: Seq<u8>, i: int)
    requires
        0 <= i < f.row_groups@.len(),
        f.row_groups@[i].row_count > 0,
        !q.bits,
        q.packed,
        q.ints == is_int(f.schema.kind(q.col)),
        sound_numbers(c, f, file, q.col, q.test, i),
        !q.test.misses(f.zone(i, q.col, false)),
    ensures
        q.hits(c, f, file, i) matches Ok(Some((hit, n))) && n == numbers_in(c, f, file, q.col, i).1
            && n <= f.row_groups@[i].row_count && forall|r: int|
            0 <= r < n ==> #[trigger] hit(r) == passes_in(c, f, file, q.col, q.test, i, r),
{
    let meta = f.row_groups@[i];
    let rows = meta.row_count as int;
    let bm = bitmap_len(rows);
    let g = group_of(c, meta, file)->Ok_0;
    let d = window(g.body, id_section(rows, g.ids), bm)->0;
    let del = if meta.deletion_count > 0 {
        Some(d)
    } else {
        None
    };
    let p = walked_to(c, f.schema, g, rows, q.col)->Ok_0->0;
    let on_record = g.flag == RG_COMPRESS_NONE && f.rcix(i, q.col) is Some;
    let nulls = g.body.subrange(p, p + bm);
    let column = tail(g.body, p + bm);
    let kind = f.schema.kind(q.col);
    let data = tail(column, tag_len(g.version));
    walk_fits(
        c,
        f.schema,
        g.version >= 1,
        g.body,
        bm,
        0,
        id_section(rows, g.ids) + bm,
        q.col,
    );
    let (hit, n) = q.hits(c, f, file, i)->Ok_0->0;
    let (src, m) = numbers_in(c, f, file, q.col, i);
    if on_record && encoding_of(g.version, column) != COL_ENCODING_PLAIN {
        if let Some((other, k)) = q.direct(g.version, rows, column) {
            assert(packed_numbers(rows, data) == Some((other, k)));
            let v = decoded_ints(c, g.version, column, kind);
            let (packed, width, min) = match other {
                NumSeq::Packed { packed, width, min } => (packed, width, min),
                _ => (Seq::empty(), 0, 0),
            };
            assert(hit == num_rows(other, q.test, del, Some(nulls)));
            assert forall|r: int| 0 <= r < n implies #[trigger] hit(r) == passes_in(
                c,
                f,
                file,
                q.col,
                q.test,
                i,
                r,
            ) by {
                assert(packed_value(packed, width, min, r) == Some(v[r]));
            }
        } else {
            assert(hit == num_rows(src, q.test, del, Some(nulls)));
        }
    } else {
        assert(hit == num_rows(src, q.test, del, Some(nulls)));
    }
}

/// A scan in turn finds the rows that pass, up to a row group.
#[verifier::spinoff_prover]
proof fn scan_finds<C: ColumnCodec>(
    q: QuerySeq,
    low: F64,
    high: F64,
    c: C,
    f: V4Footer,
    file: Seq<u8>,
    k: int,
    row: usize,
)
    requires
        f.wf(),
        0 <= k <= f.row_groups@.len(),
        q.test == range_test(low, high),
        !q.bits,
        q.packed,
        q.max == usize::MAX,
        q.ints == is_int(f.schema.kind(q.col)),
        forall|i: int|
            0 <= i < k && f.row_groups@[i].row_count > 0 ==> #[trigger] sound_numbers(
                c,
                f,
                file,
                q.col,
                q.test,
                i,
            ),
        forall|i: int|
            0 <= i < k && f.row_groups@[i].row_count > 0 ==> #[trigger] sound_bounds(
                c,
                f,
                file,
                q.col,
                i,
            ),
    ensures
        q.scan(c, f, file, k) matches Ok(v) && v.len() <= rows_before(f.row_groups@, k) && v.contains(
            row,
        ) == (row < rows_before(f.row_groups@, k) && row_passes(c, f, file, q.col, q.test, row)),
    decreases k,
{
    if k > 0 {
        let i = k - 1;
        scan_finds(q, low, high, c, f, file, i, row);
        group_bounds(f, i);
        let acc = q.scan(c, f, file, i)->Ok_0;
        let meta = f.row_groups@[i];
        let rows = meta.row_count as int;
        let base = rows_before(f.row_groups@, i);
        q.law_group_selects(c, f, file, i, acc);
        if acc.len() >= q.max {
            assert(rows == 0);
        }
        let here = lies_in(f, i, row as int);
        if here {
            one_holder(c, f, file, q.col, q.test, i, row);
        }
        if rows > 0 {
            assert(sound_numbers(c, f, file, q.col, q.test, i));
            assert(sound_bounds(c, f, file, q.col, i));
            if q.test.misses(f.zone(i, q.col, false)) {
                if here && passes_in(c, f, file, q.col, q.test, i, row - base) {
                    let z = f.zone(i, q.col, false)->0;
                    let (src, n) = numbers_in(c, f, file, q.col, i);
                    assert(within(z, src, row - base));
                    ruled_out(low, high, z, src, row - base);
                }
            } else {
                hits_are_numbers(q, c, f, file, i);
                let (hit, n) = q.hits(c, f, file, i)->Ok_0->0;
                if n > 0 {
                    select_holds(hit, n, base, acc, q.max, row);
                }
                if here && row - base < n {
                    assert(hit(row - base) == passes_in(
                        c,
                        f,
                        file,
                        q.col,
                        q.test,
                        i,
                        row - base,
                    ));
                }
            }
        }
    }
}

/// Whether a row passes is settled in its row group.
proof fn one_holder<C: ColumnCodec>(
    c: C,
    f: V4Footer,
    file: Seq<u8>,
    col: int,
    test: TestSeq,
    i: int,
    row: usize,
)
    requires
        lies_in(f, i, row as int),
    ensures
        row_passes(c, f, file, col, test, row) == passes_in(
            c,
            f,
            file,
            col,
            test,
            i,
            row - rows_before(f.row_groups@, i),
        ),
{
    if row_passes(c, f, file, col, test, row) {
        let j = choose|j: int| #[trigger]
            lies_in(f, j, row as int) && passes_in(
                c,
                f,
                file,
                col,
                test,
                j,
                row - rows_before(f.row_groups@, j),
            );
        if i < j {
            rows_before_monotonic(f.row_groups@, i + 1, j);
        } else if j < i {
            rows_before_monotonic(f.row_groups@, j + 1, i);
        }
    }
}

impl<C: ColumnCodec> OnDemandStorage<C> {
    /// A range scan without a limit gives the rows that are neither deleted nor missing and whose
    /// number lies in the range, all of them and no others, in strictly ascending order. The column is
    /// stored as it should be, and the bounds of its zone maps hold.
    pub proof fn law_range_finds_rows(self, col_name: Seq<char>, low: F64, high: F64)
        requires
            self.wf(),
            self.sound_range(col_name, low, high),
            forall|i: int|
                0 <= i < self.footer->0.row_groups@.len() && self.footer->0.row_groups@[i].row_count
                    > 0 ==> #[trigger] sound_bounds(
                    self.codec,
                    self.footer->0,
                    self.file->0@,
                    self.footer->0.schema.index_of(col_name)->0 as int,
                    i,
                ),
        ensures
            self.numeric_range(col_name, low, high, None) matches Ok(Some(v)) && ({
                let f = self.footer->0;
                &&& rows_in_order(v, f.total_rows())
                &&& forall|row: usize| #[trigger]
                    v.contains(row) == (row < f.total_rows() && row_passes(
                        self.codec,
                        f,
                        self.file->0@,
                        f.schema.index_of(col_name)->0 as int,
                        range_test(low, high),
                        row,
                    ))
            }),
    {
        let f = self.footer->0;
        let file = self.file->0@;
        let col = f.schema.index_of(col_name)->0;
        let q = range_query(f, col, low, high, None);
        let n = f.row_groups@.len() as int;
        scan_finds(q, low, high, self.codec, f, file, n, 0);
        q.law_rows_in_order(self.codec, f, file, n);
        if all_fast(f, file, q.col, q.ints) {
            in_place_is_in_turn(q, low, high, self.codec, f, file, n);
        }
        let v = q.scan(self.codec, f, file, n)->Ok_0;
        assert forall|row: usize| #[trigger] v.contains(row) == (row < f.total_rows() && row_passes(
            self.codec,
            f,
            file,
            col as int,
            range_test(low, high),
            row,
        )) by {
            scan_finds(q, low, high, self.codec, f, file, n, row);
        }
    }
}

} // verus!
