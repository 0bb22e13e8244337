//! What holds of updates in place.

use vstd::prelude::*;

use crate::bytes::{bit, bitmap_len, i64_le};
use crate::codec::ColumnCodec;
use crate::double::{is_finite, is_nan, le, F64};
use crate::group::{id_at, id_section, stored_group, tail};
use crate::ids::group_from;
use crate::model::{RowGroupMeta, ScanError, V4Footer, ZoneMap};
use crate::numeric::{f64_le, plain_numbers, TestSeq};
use crate::storage::{ChangeSeq, OnDemandStorage};
use crate::update::{
    null_mask, overwritten, place_in, widened, zones, Cell, Effect, Place,
};

verus! {

/// Whether the null bit of a row is clear in its byte.
pub open spec fn null_clear(b: u8, row: u32) -> bool {
    (b >> ((row % 8) as u8)) & 1u8 == 0u8
}

/// Clearing a bit clears it and leaves a clear one as it is.
proof fn mask_facts(b: u8, row: u32)
    ensures
        null_clear(b & !null_mask(row), row),
        b & null_mask(row) == 0 ==> b & !null_mask(row) == b,
        null_clear(b, row) ==> b & !null_mask(row) == b,
{
    let k: u8 = (row % 8) as u8;
    assert(k < 8);
    assert(((b & !(1u8 << k)) >> k) & 1u8 == 0u8) by (bit_vector)
        requires
            k < 8,
    ;
    assert(b & (1u8 << k) == 0 ==> b & !(1u8 << k) == b) by (bit_vector)
        requires
            k < 8,
    ;
    assert((b >> k) & 1u8 == 0u8 ==> b & !(1u8 << k) == b) by (bit_vector)
        requires
            k < 8,
    ;
}

/// Clearing a bit leaves the others alone.
proof fn mask_others(b: u8, row: u32, other: u32)
    requires
        row % 8 != other % 8,
    ensures
        null_clear(b & !null_mask(row), other) == null_clear(b, other),
{
    let k: u8 = (row % 8) as u8;
    let m: u8 = (other % 8) as u8;
    assert(k < 8 && m < 8 && k != m);
    assert((((b & !(1u8 << k)) >> m) & 1u8 == 0u8) == ((b >> m) & 1u8 == 0u8)) by (bit_vector)
        requires
            k < 8,
            m < 8,
            k != m,
    ;
}

/// Where a cell lies, its null byte stands before its value.
proof fn null_before_value(meta: RowGroupMeta, g: int, o: int, file: Seq<u8>, id: u64)
    requires
        meta.min_id <= id,
        0 <= o,
    ensures
        place_in(meta, g, o, file, id) matches Ok(Place::At(c)) ==> {
            &&& c.null_at == meta.offset + 32 + o + c.row / 8
            &&& c.value_at == meta.offset + 32 + o + bitmap_len(meta.row_count as int) + 9 + c.row
                * 8
            &&& c.row == id - meta.min_id
            &&& c.row < meta.row_count
            &&& c.null_at < c.value_at
        },
{
}

impl<C: ColumnCodec> OnDemandStorage<C> {
    /// An update by identifier changes the value of the cell and its null bit, and nothing else.
    pub proof fn law_update_writes_one_cell(self, f: V4Footer, col: int, c: Cell, value: Seq<u8>, j: int)
        requires
            self.file is Some,
            value.len() == 8,
            c.null_at < c.value_at,
            c.value_at + 8 <= self.file->0@.len(),
            0 <= j < self.file->0@.len(),
        ensures
            ({
                let before = self.file->0@;
                let e = self.cell_effect(f, col, c, value);
                &&& e.file.len() == before.len()
                &&& j != c.null_at && !(c.value_at <= j < c.value_at + 8) ==> e.file[j]
                    == before[j]
                &&& forall|other: u32|
                    other % 8 != c.row % 8 ==> #[trigger] null_clear(
                        e.file[c.null_at as int],
                        other,
                    ) == null_clear(before[c.null_at as int], other)
            }),
    {
        let before = self.file->0@;
        let b = before[c.null_at as int];
        let e = self.cell_effect(f, col, c, value);
        assert(e.file[c.null_at as int] == b & !null_mask(c.row));
        assert forall|other: u32| other % 8 != c.row % 8 implies #[trigger] null_clear(
            e.file[c.null_at as int],
            other,
        ) == null_clear(b, other) by {
            mask_others(b, c.row, other);
        }
    }

    /// After an update by identifier the cell is there and holds the value.
    pub proof fn law_read_after_update(self, f: V4Footer, col: int, c: Cell, value: Seq<u8>)
        requires
            self.file is Some,
            value.len() == 8,
            c.null_at < c.value_at,
            c.null_at < self.file->0@.len(),
        ensures
            ({
                let e = self.cell_effect(f, col, c, value);
                &&& e.file.subrange(c.value_at as int, c.value_at + 8) == value
                &&& null_clear(e.file[c.null_at as int], c.row)
            }),
    {
        let before = self.file->0@;
        let e = self.cell_effect(f, col, c, value);
        mask_facts(before[c.null_at as int], c.row);
        assert(e.file[c.null_at as int] == before[c.null_at as int] & !null_mask(c.row));
        assert(e.file.subrange(c.value_at as int, c.value_at + 8) =~= value);
    }

    /// What is to be made durable says first that the catalogue and the statistics have changed, then
    /// what is written to the cell, its value last.
    pub proof fn law_catalogue_before_cell(self, f: V4Footer, col: int, c: Cell, value: Seq<u8>)
        requires
            self.file is Some,
        ensures
            ({
                let e = self.cell_effect(f, col, c, value);
                let n = e.steps.len() as int;
                &&& e.zones != zones(f) ==> e.steps[0] == ChangeSeq::Footer
                &&& e.zones == zones(f) ==> e.steps[0] == ChangeSeq::DropStats
                &&& e.steps[n - 1] == ChangeSeq::Bytes { at: c.value_at as int, bytes: value }
                &&& e.steps[n - 2] is Bytes
                &&& e.steps[n - 3] == ChangeSeq::DropStats
            }),
    {
    }

    /// The same update once more finds the cell as it should be and writes nothing. The column lies
    /// behind the identifiers and the deletion bitmap of its row group, and the cell in it.
    pub proof fn law_update_again_writes_nothing(
        self,
        after: Self,
        id: u64,
        set_col: Seq<char>,
        value: Seq<u8>,
        f: V4Footer,
        col: usize,
        c: Cell,
        o: int,
    )
        requires
            value.len() == 8,
            self.file is Some,
            self.target_column(set_col) == Some((f, col)),
            self.place(f, col as int, id) == Ok::<Place, ScanError>(Place::At(c)),
            group_from(f.row_groups@, id, 0) == Some(c.group as int),
            0 <= c.group < f.row_groups@.len(),
            f.row_groups@[c.group as int].min_id <= id,
            f.rcix(c.group as int, col as int) == Some(o),
            0 <= o,
            ({
                let meta = f.row_groups@[c.group as int];
                let s = stored_group(meta, self.file->0@)->Ok_0;
                let rows = meta.row_count as int;
                &&& id_section(rows, s[30]) + bitmap_len(rows) <= o
                &&& c.value_at + 8 <= meta.offset + meta.data_size
            }),
            after.after(self, self.cell_effect(f, col as int, c, value)),
        ensures
            after.update_cell(id, set_col, value) == Ok::<
                Option<(i64, Option<Effect>)>,
                ScanError,
            >(Some((1, None))),
    {
        let meta = f.row_groups@[c.group as int];
        let rows = meta.row_count as int;
        let bm = bitmap_len(rows);
        let file = self.file->0@;
        let e = self.cell_effect(f, col as int, c, value);
        let now = after.file->0@;
        let g = after.footer->0;
        null_before_value(meta, c.group as int, o, file, id);
        self.law_read_after_update(f, col as int, c, value);
        let s = stored_group(meta, file)->Ok_0;
        assert(now.len() == file.len());
        let s2 = stored_group(meta, now)->Ok_0;
        let body = tail(s, 32);
        let body2 = tail(s2, 32);
        let section = id_section(rows, s[30]);
        assert forall|j: int| 0 <= j < s.len() && j != c.null_at - meta.offset && !(c.value_at
            - meta.offset <= j < c.value_at - meta.offset + 8) implies s2[j] == s[j] by {
            assert(s[j] == file[meta.offset + j]);
            assert(s2[j] == now[meta.offset + j]);
        }
        let row = id - meta.min_id;
        assert(row / 8 < bm);
        assert(s2[28] == s[28] && s2[29] == s[29] && s2[30] == s[30]);
        if s[30] != crate::model::RG_IDS_IMPLICIT_CONTIGUOUS {
            assert(section == rows * 8);
            assert forall|j: int| row * 8 <= j < row * 8 + 8 implies body2[j] == body[j] by {
                assert(body[j] == s[j + 32]);
                assert(body2[j] == s2[j + 32]);
            }
        }
        assert(id_at(body2, meta.min_id, s[30], row) == id_at(body, meta.min_id, s[30], row));
        assert(body2[section + row / 8] == body[section + row / 8]) by {
            assert(body[section + row / 8] == s[section + row / 8 + 32]);
            assert(body2[section + row / 8] == s2[section + row / 8 + 32]);
        }
        assert(bit(tail(body2, section), row) == bit(tail(body, section), row));
        assert(body2[o + bm] == body[o + bm]) by {
            assert(body[o + bm] == s[o + bm + 32]);
            assert(body2[o + bm] == s2[o + bm + 32]);
        }
        assert(place_in(meta, c.group as int, o, now, id) == place_in(
            meta,
            c.group as int,
            o,
            file,
            id,
        ));
        assert(after.target_column(set_col) == Some((g, col)));
        assert(g.rcix(c.group as int, col as int) == Some(o));
        assert(after.place(g, col as int, id) == Ok::<Place, ScanError>(Place::At(c)));
        assert(after.cell_holds(g, c, value));
    }

    /// A scan in place sees what an update wrote: the row is there, and passes a test just where the
    /// value does. The cell lies in its row group.
    pub proof fn law_scan_sees_update(
        self,
        f: V4Footer,
        col: int,
        c: Cell,
        o: int,
        id: u64,
        value: Seq<u8>,
        test: TestSeq,
    )
        requires
            value.len() == 8,
            self.file is Some,
            0 <= c.group < f.row_groups@.len(),
            f.row_groups@[c.group as int].min_id <= id,
            0 <= o,
            place_in(f.row_groups@[c.group as int], c.group as int, o, self.file->0@, id) == Ok::<
                Place,
                ScanError,
            >(Place::At(c)),
            c.value_at + 8 <= f.row_groups@[c.group as int].offset
                + f.row_groups@[c.group as int].data_size,
        ensures
            ({
                let meta = f.row_groups@[c.group as int];
                let rows = meta.row_count as int;
                let bm = bitmap_len(rows);
                let now = self.cell_effect(f, col, c, value).file;
                let body = tail(stored_group(meta, now)->Ok_0, 32);
                let payload = tail(body, o + bm + 1);
                &&& stored_group(meta, now) is Ok
                &&& !bit(body.subrange(o, o + bm), c.row as int)
                &&& plain_numbers(true, rows, payload).0.hit(test, c.row as int) == test.accepts_int(
                    i64_le(value, 0),
                )
                &&& plain_numbers(false, rows, payload).0.hit(test, c.row as int)
                    == test.accepts_real(f64_le(value, 0))
            }),
    {
        let meta = f.row_groups@[c.group as int];
        let rows = meta.row_count as int;
        let bm = bitmap_len(rows);
        let file = self.file->0@;
        let now = self.cell_effect(f, col, c, value).file;
        null_before_value(meta, c.group as int, o, file, id);
        self.law_read_after_update(f, col, c, value);
        assert(now.len() == file.len());
        let s = stored_group(meta, now)->Ok_0;
        let body = tail(s, 32);
        let row = c.row as int;
        assert(row / 8 < bm);
        let nulls = body.subrange(o, o + bm);
        assert(nulls[row / 8] == now[c.null_at as int]);
        assert(((row % 8) as u8) == ((c.row % 8) as u8));
        let words = tail(tail(body, o + bm + 1), 8);
        assert forall|j: int| 0 <= j < 8 implies #[trigger] words[row * 8 + j] == value[j] by {
            assert(words[row * 8 + j] == now[c.value_at + j]);
            assert(now.subrange(c.value_at as int, c.value_at + 8)[j] == now[c.value_at + j]);
        }
        assert(words[row * 8 + 0] == value[0] && words[row * 8 + 1] == value[1] && words[row * 8
            + 2] == value[2] && words[row * 8 + 3] == value[3] && words[row * 8 + 4] == value[4]
            && words[row * 8 + 5] == value[5] && words[row * 8 + 6] == value[6] && words[row * 8
            + 7] == value[7]);
    }

    /// Overwriting a cell at the place that was found for it does to the file what an update by
    /// identifier does.
    pub proof fn law_cached_update_is_the_update(
        self,
        f: V4Footer,
        col: int,
        c: Cell,
        value: Seq<u8>,
    )
        requires
            value.len() == 8,
            self.cached_cell(
                self.footer_offset,
                c.null_at,
                null_mask(c.row),
                c.value_at,
                value,
            ) matches Ok(Some((1, _))),
        ensures
            self.cell_effect(f, col, c, value).file == overwritten(
                self.file->0@,
                c.value_at as int,
                value,
            ),
    {
        let file = self.file->0@;
        let b = file[c.null_at as int];
        mask_facts(b, c.row);
        let null = seq![b & !null_mask(c.row)];
        assert(overwritten(file, c.null_at as int, null) =~= file);
    }
}

/// A zone map of integers that was widened covers what it covered, and the value.
pub proof fn law_widened_ints_cover(z: ZoneMap, value: Seq<u8>, finite: bool, v: i64)
    requires
        !z.is_float,
        z.min_bits <= v <= z.max_bits || v == i64_le(value, 0) as i64,
    ensures
        ({
            let w = widened(z, value, finite);
            w.min_bits <= v <= w.max_bits
        }),
{
}

/// A zone map of reals that was widened covers the numbers that it covered, and the value where that is
/// a finite number. Its own bounds are numbers.
pub proof fn law_widened_reals_cover(z: ZoneMap, value: Seq<u8>, finite: bool, v: F64)
    requires
        z.is_float,
        !is_nan(z.low().bits),
        !is_nan(z.high().bits),
        is_finite(v.bits),
        le(z.low(), v) && le(v, z.high()) || v == f64_le(value, 0),
    ensures
        ({
            let w = widened(z, value, finite);
            le(w.low(), v) && le(v, w.high())
        }),
{
}

} // verus!
