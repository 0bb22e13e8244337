//! Overwriting numeric cells in place.

use vstd::array::array_as_slice;
use vstd::prelude::*;
use vstd::slice::slice_subrange;

use crate::bytes::{bit, bitmap_len, i64_le, read_i64, read_u64, test_bit, u64_le};
use crate::codec::ColumnCodec;
use crate::column::{ColumnData, ColumnSeq};
use crate::double::{is_finite, lt, F64};
use crate::group::{
    get_stored, get_tail, get_window, id_at, id_section, rg_bitmap_len, rg_id_at,
    rg_id_section_len, stored_group, tail, window,
};
use crate::ids::{find_group, group_from};
use crate::model::{
    bytes_eq, is_float, is_int, rows_before, rows_before_monotonic, str_eq, ColumnType,
    RowGroupMeta, ScanError, V4Footer, ZoneMap, COL_ENCODING_BITPACK, COL_ENCODING_PLAIN,
    RG_COMPRESS_NONE,
};
use crate::numeric::{
    encoding_of, f64_le, get_encoding, get_packed_numbers, get_plain_numbers, min2, min_u64,
    num_rows, packed_numbers, plain_numbers, range_test, read_f64, slice_view, NumSeq, NumSource,
    NumTest, TestSeq,
};
use crate::select::{select, select_adds};
use crate::storage::{Change, ChangeSeq, OnDemandStorage};

verus! {

/// Where a numeric cell lies.
#[derive(Clone, Copy)]
pub struct Cell {
    /// The row group.
    pub group: usize,
    /// The row in the row group.
    pub row: u32,
    /// Where the byte with the null bit stands in the file.
    pub null_at: u64,
    /// Where the value stands in the file.
    pub value_at: u64,
}

/// What is known of the place of a cell.
#[derive(Clone, Copy)]
pub enum Place {
    /// The cell cannot be overwritten in place.
    Unserved,
    /// There is no live row with the identifier.
    Absent,
    /// The cell is here.
    At(Cell),
}

/// The place of column `col` of the row with identifier `id` in row group `g`, whose columns start
/// at recorded offsets.
pub open spec fn place_in(meta: RowGroupMeta, g: int, o: int, file: Seq<u8>, id: u64) -> Result<
    Place,
    ScanError,
> {
    match stored_group(meta, file) {
        Err(_) => Ok(Place::Unserved),
        Ok(s) => {
            let body = tail(s, 32);
            let rows = meta.row_count as int;
            let bm = bitmap_len(rows);
            let row = id - meta.min_id;
            let section = id_section(rows, s[30]);
            if s[28] != RG_COMPRESS_NONE || s[29] < 1 {
                Ok(Place::Unserved)
            } else if row >= rows {
                Ok(Place::Absent)
            } else if id_at(body, meta.min_id, s[30], row) != Some(id as int) {
                Ok(Place::Unserved)
            } else if section + row / 8 >= body.len() {
                Ok(Place::Unserved)
            } else if bit(tail(body, section), row) {
                Ok(Place::Absent)
            } else if o + bm + 9 > body.len() || body[o + bm] != COL_ENCODING_PLAIN {
                Ok(Place::Unserved)
            } else if meta.offset + 32 + o + bm + 9 + row * 8 + 8 > usize::MAX {
                Err(ScanError::LengthOverflow)
            } else {
                Ok(
                    Place::At(
                        Cell {
                            group: g as usize,
                            row: row as u32,
                            null_at: (meta.offset + 32 + o + row / 8) as u64,
                            value_at: (meta.offset + 32 + o + bm + 9 + row * 8) as u64,
                        },
                    ),
                )
            }
        },
    }
}

/// Finds the place of a cell in a row group.
fn get_place_in(meta: &RowGroupMeta, g: usize, o: u32, file: &[u8], id: u64) -> (r: Result<
    Place,
    ScanError,
>)
    requires
        meta.min_id <= id,
    ensures
        r == place_in(*meta, g as int, o as int, file@, id),
        r matches Ok(Place::At(c)) ==> c.group == g && c.null_at < file.len() && c.value_at + 8
            <= usize::MAX && meta.offset + meta.data_size <= file.len(),
{
    let s: &[u8] = match get_stored(meta, file) {
        Err(_) => {
            return Ok(Place::Unserved);
        },
        Ok(s) => s,
    };
    let body: &[u8] = get_tail(s, 32);
    let rows: u32 = meta.row_count;
    let bm: u64 = rg_bitmap_len(rows);
    if s[28] != RG_COMPRESS_NONE || s[29] < 1 {
        return Ok(Place::Unserved);
    }
    if id - meta.min_id >= rows as u64 {
        return Ok(Place::Absent);
    }
    let row: u32 = (id - meta.min_id) as u32;
    match rg_id_at(body, meta.min_id, s[30], row) {
        None => {
            return Ok(Place::Unserved);
        },
        Some(actual) => if actual != id {
            return Ok(Place::Unserved);
        },
    }
    let section: u64 = rg_id_section_len(rows, s[30]);
    if section + (row / 8) as u64 >= body.len() as u64 {
        return Ok(Place::Unserved);
    }
    if test_bit(get_tail(body, section as usize), row as usize) {
        return Ok(Place::Absent);
    }
    let data: u64 = o as u64 + bm;
    if data + 9 > body.len() as u64 || body[data as usize] != COL_ENCODING_PLAIN {
        return Ok(Place::Unserved);
    }
    let end: u128 = meta.offset as u128 + 32 + data as u128 + 9 + row as u128 * 8 + 8;
    if end > usize::MAX as u128 {
        return Err(ScanError::LengthOverflow);
    }
    Ok(
        Place::At(
            Cell {
                group: g,
                row,
                null_at: meta.offset + 32 + o as u64 + (row / 8) as u64,
                value_at: (end - 8) as u64,
            },
        ),
    )
}

/// The mask of the null bit of a row.
pub open spec fn null_mask(row: u32) -> u8 {
    1u8 << ((row % 8) as u8)
}

impl<C: ColumnCodec> OnDemandStorage<C> {
    /// The place of a cell of column `col` in the row with identifier `id`.
    pub open spec fn place(self, f: V4Footer, col: int, id: u64) -> Result<Place, ScanError> {
        match group_from(f.row_groups@, id, 0) {
            None => Ok(Place::Absent),
            Some(g) => match f.rcix(g, col) {
                None => Ok(Place::Unserved),
                Some(o) => match self.file {
                    None => Err(ScanError::NotOpen),
                    Some(file) => place_in(f.row_groups@[g], g, o, file@, id),
                },
            },
        }
    }

    fn get_place(&self, f: &V4Footer, col: usize, id: u64) -> (r: Result<Place, ScanError>)
        ensures
            r == self.place(*f, col as int, id),
            r matches Ok(Place::At(c)) ==> c.group < f.row_groups@.len() && (self.file matches Some(
                v,
            ) && c.null_at < v@.len() && v@.len() <= usize::MAX && f.row_groups@[c.group as int].offset
                + f.row_groups@[c.group as int].data_size <= v@.len()) && c.value_at + 8
                <= usize::MAX,
    {
        match find_group(&f.row_groups, id) {
            None => Ok(Place::Absent),
            Some(g) => match f.column_offset(g, col) {
                None => Ok(Place::Unserved),
                Some(o) => match &self.file {
                    None => Err(ScanError::NotOpen),
                    Some(file) => get_place_in(&f.row_groups[g], g, o, file.as_slice(), id),
                },
            },
        }
    }

    /// The column that an update by name sets, where that is a numeric one.
    pub open spec fn target_column(self, set_col: Seq<char>) -> Option<(V4Footer, usize)> {
        if set_col == "_id"@ {
            None
        } else {
            match self.footer {
                None => None,
                Some(f) => match f.schema.index_of(set_col) {
                    None => None,
                    Some(col) => if is_int(f.schema.kind(col as int)) || is_float(
                        f.schema.kind(col as int),
                    ) {
                        Some((f, col))
                    } else {
                        None
                    },
                },
            }
        }
    }

    fn get_target_column(&self, set_col: &str) -> (r: Option<usize>)
        ensures
            match r {
                None => self.target_column(set_col@) is None,
                Some(col) => self.footer matches Some(f) && self.target_column(set_col@) == Some(
                    (f, col),
                ) && col < f.schema.columns@.len(),
            },
    {
        if str_eq(set_col, "_id") {
            return None;
        }
        match &self.footer {
            None => None,
            Some(f) => match f.schema.get_index(set_col) {
                None => None,
                Some(col) => {
                    let kind: ColumnType = f.schema.columns[col].1;
                    if kind.is_int() || kind.is_float() {
                        Some(col)
                    } else {
                        None
                    }
                },
            },
        }
    }

    /// Where a cell is to be overwritten: the place of the catalogue that this holds for, the null
    /// byte, the mask of its bit and the value. All zero but the first where there is no such row.
    pub open spec fn cell_for_update(self, id: u64, set_col: Seq<char>) -> Result<
        Option<(u64, u64, u8, u64)>,
        ScanError,
    > {
        match self.target_column(set_col) {
            None => Ok(None),
            Some((f, col)) => if self.footer_offset == 0 {
                Ok(None)
            } else {
                match self.place(f, col as int, id) {
                    Err(e) => Err(e),
                    Ok(Place::Unserved) => Ok(None),
                    Ok(Place::Absent) => Ok(Some((self.footer_offset, 0, 0, 0))),
                    Ok(Place::At(c)) => Ok(
                        Some((self.footer_offset, c.null_at, null_mask(c.row), c.value_at)),
                    ),
                }
            },
        }
    }

    /// Finds where a cell is to be overwritten.
    pub fn locate_numeric_cell_for_update(&self, id: u64, set_col: &str) -> (r: Result<
        Option<(u64, u64, u8, u64)>,
        ScanError,
    >)
        ensures
            r == self.cell_for_update(id, set_col@),
    {
        let col: usize = match self.get_target_column(set_col) {
            None => {
                return Ok(None);
            },
            Some(col) => col,
        };
        if self.footer_offset == 0 {
            return Ok(None);
        }
        match &self.footer {
            None => Ok(None),
            Some(f) => match self.get_place(f, col, id) {
                Err(e) => Err(e),
                Ok(Place::Unserved) => Ok(None),
                Ok(Place::Absent) => Ok(Some((self.footer_offset, 0, 0, 0))),
                Ok(Place::At(c)) => Ok(
                    Some((self.footer_offset, c.null_at, 1u8 << ((c.row % 8) as u8), c.value_at)),
                ),
            },
        }
    }
}

/// A file with bytes written at a place; a gap before them is filled with zeros.
pub open spec fn overwritten(file: Seq<u8>, at: int, bytes: Seq<u8>) -> Seq<u8> {
    let end = at + bytes.len();
    Seq::new(
        (if end > file.len() {
            end
        } else {
            file.len() as int
        }) as nat,
        |j: int|
            if at <= j < end {
                bytes[j - at]
            } else if j < file.len() {
                file[j]
            } else {
                0u8
            },
    )
}

/// Writes bytes at a place of a file.
fn overwrite(file: &mut Vec<u8>, at: usize, bytes: &[u8])
    requires
        at + bytes.len() <= usize::MAX,
    ensures
        final(file)@ == overwritten(old(file)@, at as int, bytes@),
{
    let ghost len = file@.len();
    let end: usize = at + bytes.len();
    while file.len() < end
        invariant
            len <= file@.len(),
            len == old(file)@.len(),
            file@.len() <= end || file@.len() == len,
            forall|j: int| 0 <= j < len ==> #[trigger] file@[j] == old(file)@[j],
            forall|j: int| len <= j < file@.len() ==> #[trigger] file@[j] == 0,
        decreases end - file@.len(),
    {
        file.push(0);
    }
    let mut k: usize = 0;
    while k < bytes.len()
        invariant
            k <= bytes.len(),
            end == at + bytes.len(),
            end <= file@.len(),
            len == old(file)@.len(),
            file@.len() == (if end > len {
                end as int
            } else {
                len as int
            }),
            forall|j: int|
                0 <= j < file@.len() ==> #[trigger] file@[j] == (if at <= j < at + k {
                    bytes@[j - at]
                } else if j < len {
                    old(file)@[j]
                } else {
                    0
                }),
        decreases bytes.len() - k,
    {
        file.set(at + k, bytes[k]);
        k = k + 1;
    }
    assert(file@ =~= overwritten(old(file)@, at as int, bytes@));
}

/// The zone maps of all row groups.
pub open spec fn zones(f: V4Footer) -> Seq<Seq<ZoneMap>> {
    Seq::new(f.zone_maps@.len(), |i: int| f.zone_maps@[i]@)
}

/// The position of the first zone map of a column, from entry `i` on.
pub open spec fn zone_pos(maps: Seq<ZoneMap>, col: int, i: int) -> Option<int>
    decreases maps.len() - i,
{
    if i >= maps.len() {
        None
    } else if maps[i].col_idx == col {
        Some(i)
    } else {
        zone_pos(maps, col, i + 1)
    }
}

/// A zone map widened to cover a value. Of doubles an update by identifier covers finite ones only.
pub open spec fn widened(z: ZoneMap, value: Seq<u8>, finite: bool) -> ZoneMap {
    let word = i64_le(value, 0) as i64;
    if z.is_float {
        let v = f64_le(value, 0);
        if finite && !is_finite(v.bits) {
            z
        } else {
            ZoneMap {
                min_bits: if lt(v, z.low()) {
                    word
                } else {
                    z.min_bits
                },
                max_bits: if lt(z.high(), v) {
                    word
                } else {
                    z.max_bits
                },
                ..z
            }
        }
    } else {
        ZoneMap {
            min_bits: if word < z.min_bits {
                word
            } else {
                z.min_bits
            },
            max_bits: if word > z.max_bits {
                word
            } else {
                z.max_bits
            },
            ..z
        }
    }
}

/// The zone maps of a row group with that of a column widened.
pub open spec fn widened_maps(
    maps: Seq<ZoneMap>,
    col: int,
    value: Seq<u8>,
    finite: bool,
) -> Seq<ZoneMap> {
    match zone_pos(maps, col, 0) {
        None => maps,
        Some(k) => maps.update(k, widened(maps[k], value, finite)),
    }
}

/// Widens a zone map.
fn widen(z: ZoneMap, value: &[u8], finite: bool) -> (r: ZoneMap)
    requires
        value.len() == 8,
    ensures
        r == widened(z, value@, finite),
{
    let word: i64 = read_i64(value, 0);
    let mut out: ZoneMap = z;
    if z.is_float {
        let v: F64 = read_f64(value, 0);
        if !(finite && !v.is_finite()) {
            if v.lt(z.low_f64()) {
                out.min_bits = word;
            }
            if z.high_f64().lt(v) {
                out.max_bits = word;
            }
        }
    } else {
        if word < z.min_bits {
            out.min_bits = word;
        }
        if word > z.max_bits {
            out.max_bits = word;
        }
    }
    out
}

fn find_zone_pos(maps: &Vec<ZoneMap>, col: usize) -> (r: Option<usize>)
    ensures
        match r {
            None => zone_pos(maps@, col as int, 0) is None,
            Some(k) => zone_pos(maps@, col as int, 0) == Some(k as int) && k < maps@.len(),
        },
{
    let mut i: usize = 0;
    while i < maps.len()
        invariant
            i <= maps@.len(),
            zone_pos(maps@, col as int, 0) == zone_pos(maps@, col as int, i as int),
        decreases maps@.len() - i,
    {
        if maps[i].col_idx as u64 == col as u64 {
            return Some(i);
        }
        i = i + 1;
    }
    None
}

/// Widens the zone map of a column in a row group; tells whether anything changed.
fn widen_group(f: &mut V4Footer, g: usize, col: usize, value: &[u8], finite: bool) -> (changed:
    bool)
    requires
        value.len() == 8,
    ensures
        final(f).schema == old(f).schema,
        final(f).row_groups == old(f).row_groups,
        final(f).col_offsets == old(f).col_offsets,
        zones(*final(f)) == (if g < zones(*old(f)).len() {
            zones(*old(f)).update(
                g as int,
                widened_maps(zones(*old(f))[g as int], col as int, value@, finite),
            )
        } else {
            zones(*old(f))
        }),
        changed == (g < zones(*old(f)).len() && widened_maps(
            zones(*old(f))[g as int],
            col as int,
            value@,
            finite,
        ) != zones(*old(f))[g as int]),
{
    if g >= f.zone_maps.len() {
        return false;
    }
    match find_zone_pos(&f.zone_maps[g], col) {
        None => {
            assert(zones(*f) =~= zones(*f).update(g as int, zones(*f)[g as int]));
            false
        },
        Some(k) => {
            let before: ZoneMap = f.zone_maps[g][k];
            let after: ZoneMap = widen(before, value, finite);
            let changed: bool = after.min_bits != before.min_bits || after.max_bits
                != before.max_bits;
            let ghost all = zones(*f);
            f.zone_maps[g][k] = after;
            proof {
                assert(zones(*f) =~= all.update(
                    g as int,
                    widened_maps(all[g as int], col as int, value@, finite),
                ));
                if !changed {
                    assert(all[g as int].update(k as int, after) =~= all[g as int]);
                } else {
                    assert(all[g as int].update(k as int, after)[k as int] != all[g as int][k as int]);
                }
            }
            changed
        },
    }
}

/// The catalogue after an update: only zone maps differ.
pub open spec fn footer_with(f: V4Footer, z: Seq<Seq<ZoneMap>>, out: Option<V4Footer>) -> bool {
    out matches Some(g) && g.schema == f.schema && g.row_groups == f.row_groups && g.col_offsets
        == f.col_offsets && zones(g) == z
}

/// What an update does.
#[verifier::ext_equal]
pub struct Effect {
    /// The file afterwards.
    pub file: Seq<u8>,
    /// The zone maps afterwards.
    pub zones: Seq<Seq<ZoneMap>>,
    /// What has to be made durable.
    pub steps: Seq<ChangeSeq>,
}

/// The zone maps with those of a column widened in one row group.
pub open spec fn zones_widened(
    z: Seq<Seq<ZoneMap>>,
    g: int,
    col: int,
    value: Seq<u8>,
    finite: bool,
) -> Seq<Seq<ZoneMap>> {
    if g < z.len() {
        z.update(g, widened_maps(z[g], col, value, finite))
    } else {
        z
    }
}

impl<C: ColumnCodec> OnDemandStorage<C> {
    /// Everything that an update leaves alone.
    pub open spec fn same_but_cells(self, other: Self) -> bool {
        &&& self.footer_offset == other.footer_offset
        &&& self.codec == other.codec
        &&& self.row_count == other.row_count
        &&& self.ids == other.ids
        &&& self.deleted == other.deleted
        &&& self.next_id == other.next_id
        &&& self.id_to_idx == other.id_to_idx
        &&& self.delta_rows == other.delta_rows
        &&& self.delta_ids == other.delta_ids
        &&& self.columns == other.columns
    }

    /// The store after an update.
    pub open spec fn after(self, before: Self, e: Effect) -> bool {
        &&& self.same_but_cells(before)
        &&& self.file matches Some(v) && v@ == e.file
        &&& before.footer matches Some(f) && footer_with(f, e.zones, self.footer)
        &&& self.steps() == before.steps() + e.steps
    }

    /// Whether a cell already holds a value.
    pub open spec fn cell_holds(self, f: V4Footer, c: Cell, value: Seq<u8>) -> bool {
        let meta = f.row_groups@[c.group as int];
        let file = self.file->0@;
        &&& (file[c.null_at as int] >> ((c.row % 8) as u8)) & 1u8 == 0u8
        &&& c.value_at + 8 <= meta.offset + meta.data_size
        &&& file.subrange(c.value_at as int, c.value_at + 8) == value
    }

    /// What overwriting a cell does: the zone map is widened first, the null bit is cleared and
    /// the value written last.
    pub open spec fn cell_effect(self, f: V4Footer, col: int, c: Cell, value: Seq<u8>) -> Effect {
        let file = self.file->0@;
        let z = zones_widened(zones(f), c.group as int, col, value, true);
        let null = seq![file[c.null_at as int] & !null_mask(c.row)];
        Effect {
            file: overwritten(
                overwritten(file, c.null_at as int, null),
                c.value_at as int,
                value,
            ),
            zones: z,
            steps: (if z != zones(f) {
                seq![ChangeSeq::Footer]
            } else {
                Seq::empty()
            }) + seq![
                ChangeSeq::DropStats,
                ChangeSeq::Bytes { at: c.null_at as int, bytes: null },
                ChangeSeq::Bytes { at: c.value_at as int, bytes: value },
            ],
        }
    }

    /// What an update by identifier answers, with its effect where it has one.
    pub open spec fn update_cell(self, id: u64, set_col: Seq<char>, value: Seq<u8>) -> Result<
        Option<(i64, Option<Effect>)>,
        ScanError,
    > {
        match self.target_column(set_col) {
            None => Ok(None),
            Some((f, col)) => match self.place(f, col as int, id) {
                Err(e) => Err(e),
                Ok(Place::Unserved) => Ok(None),
                Ok(Place::Absent) => Ok(Some((0, None))),
                Ok(Place::At(c)) => if self.cell_holds(f, c, value) {
                    Ok(Some((1, None)))
                } else {
                    Ok(Some((1, Some(self.cell_effect(f, col as int, c, value)))))
                },
            },
        }
    }

    /// Appends a step to the journal.
    fn record(&mut self, step: Change)
        ensures
            final(self).steps() == old(self).steps().push(step@),
            final(self).same_but_cells(*old(self)),
            final(self).file == old(self).file,
            final(self).footer == old(self).footer,
    {
        let ghost before = self.steps();
        self.journal.push(step);
        assert(self.steps() =~= before.push(step@));
    }

    /// Overwrites a numeric cell of the row with an identifier: how many rows have it, and whether
    /// anything was written. No answer where the cell cannot be overwritten in place.
    pub fn update_by_id_inplace(&mut self, id: u64, set_col: &str, new_value_bytes: &[u8; 8]) -> (r:
        Result<Option<(i64, bool)>, ScanError>)
        ensures
            match old(self).update_cell(id, set_col@, new_value_bytes@) {
                Err(e) => r == Err::<Option<(i64, bool)>, ScanError>(e) && *final(self) == *old(
                    self,
                ),
                Ok(None) => r == Ok::<Option<(i64, bool)>, ScanError>(None) && *final(self)
                    == *old(self),
                Ok(Some((n, None))) => r == Ok::<Option<(i64, bool)>, ScanError>(Some((n, false)))
                    && *final(self) == *old(self),
                Ok(Some((n, Some(e)))) => r == Ok::<Option<(i64, bool)>, ScanError>(
                    Some((n, true)),
                ) && final(self).after(*old(self), e),
            },
    {
        let value: &[u8] = array_as_slice(new_value_bytes);
        let col: usize = match self.get_target_column(set_col) {
            None => {
                return Ok(None);
            },
            Some(col) => col,
        };
        let c: Cell;
        let null: u8;
        match (&self.footer, &self.file) {
            (Some(f), Some(file)) => {
                c = match self.get_place(f, col, id) {
                    Err(e) => {
                        return Err(e);
                    },
                    Ok(Place::Unserved) => {
                        return Ok(None);
                    },
                    Ok(Place::Absent) => {
                        return Ok(Some((0, false)));
                    },
                    Ok(Place::At(c)) => c,
                };
                let meta: RowGroupMeta = f.row_groups[c.group];
                null = file[c.null_at as usize];
                if (null >> ((c.row % 8) as u8)) & 1u8 == 0u8 && c.value_at + 8 <= meta.offset
                    + meta.data_size && bytes_eq(
                    slice_subrange(
                        file.as_slice(),
                        c.value_at as usize,
                        (c.value_at + 8) as usize,
                    ),
                    value,
                ) {
                    return Ok(Some((1, false)));
                }
            },
            (Some(f), None) => {
                return match self.get_place(f, col, id) {
                    Err(e) => Err(e),
                    Ok(Place::Absent) => Ok(Some((0, false))),
                    Ok(_) => Ok(None),
                };
            },
            (None, _) => {
                return Ok(None);
            },
        }
        let cleared: u8 = null & !(1u8 << ((c.row % 8) as u8));
        let mut null_bytes: Vec<u8> = Vec::new();
        null_bytes.push(cleared);
        let ghost effect = old(self).cell_effect(
            old(self).footer->0,
            col as int,
            c,
            new_value_bytes@,
        );
        assert(null_bytes@ =~= seq![cleared]);
        let mut changed: bool = false;
        if let Some(mut f) = self.footer.take() {
            changed = widen_group(&mut f, c.group, col, value, true);
            self.footer = Some(f);
        }
        proof {
            let z = zones(old(self).footer->0);
            if c.group < z.len() {
                if !changed {
                    assert(z.update(c.group as int, z[c.group as int]) =~= z);
                } else {
                    assert(zones(self.footer->0)[c.group as int] != z[c.group as int]);
                }
            }
            assert(changed == (effect.zones != z));
        }
        if changed {
            self.record(Change::Footer);
        }
        self.record(Change::DropStats);
        if let Some(mut v) = self.file.take() {
            overwrite(&mut v, c.null_at as usize, null_bytes.as_slice());
            overwrite(&mut v, c.value_at as usize, value);
            self.file = Some(v);
        }
        self.record(Change::Bytes { at: c.null_at, bytes: null_bytes });
        self.record(Change::Bytes { at: c.value_at, bytes: vstd::slice::slice_to_vec(value) });
        assert(self.steps() =~= old(self).steps() + effect.steps);
        Ok(Some((1, true)))
    }
}

impl<C: ColumnCodec> OnDemandStorage<C> {
    /// What overwriting a cell at a known place answers: whether it is there, and whether it has to
    /// be written. No answer where the catalogue has moved since the place was found.
    pub open spec fn cached_cell(
        self,
        footer_offset: u64,
        null_at: u64,
        mask: u8,
        value_at: u64,
        value: Seq<u8>,
    ) -> Result<Option<(i64, bool)>, ScanError> {
        if footer_offset == 0 || self.footer_offset != footer_offset {
            Ok(None)
        } else {
            match self.file {
                None => Err(ScanError::NotOpen),
                Some(file) => if null_at >= file@.len() {
                    Err(ScanError::ReadPastEnd)
                } else if file@[null_at as int] & mask != 0 {
                    Ok(Some((0, false)))
                } else if value_at + 8 > file@.len() {
                    Err(ScanError::ReadPastEnd)
                } else {
                    Ok(Some((1, file@.subrange(value_at as int, value_at + 8) != value)))
                },
            }
        }
    }

    /// Overwrites a cell at a place that was found before.
    pub fn update_numeric_cell_cached(
        &mut self,
        footer_offset: u64,
        null_byte_file_offset: u64,
        null_mask: u8,
        value_file_offset: u64,
        new_value_bytes: &[u8; 8],
    ) -> (r: Result<Option<(i64, bool)>, ScanError>)
        ensures
            r == old(self).cached_cell(
                footer_offset,
                null_byte_file_offset,
                null_mask,
                value_file_offset,
                new_value_bytes@,
            ),
            if r matches Ok(Some((_, true))) {
                &&& final(self).same_but_cells(*old(self))
                &&& final(self).footer == old(self).footer
                &&& final(self).file matches Some(v) && v@ == overwritten(
                    old(self).file->0@,
                    value_file_offset as int,
                    new_value_bytes@,
                )
                &&& final(self).steps() == old(self).steps().push(
                    ChangeSeq::Bytes { at: value_file_offset as int, bytes: new_value_bytes@ },
                )
            } else {
                *final(self) == *old(self)
            },
    {
        let value: &[u8] = array_as_slice(new_value_bytes);
        if footer_offset == 0 || self.footer_offset != footer_offset {
            return Ok(None);
        }
        match &self.file {
            None => {
                return Err(ScanError::NotOpen);
            },
            Some(file) => {
                if null_byte_file_offset >= file.len() as u64 {
                    return Err(ScanError::ReadPastEnd);
                }
                if file[null_byte_file_offset as usize] & null_mask != 0 {
                    return Ok(Some((0, false)));
                }
                match get_window(file.as_slice(), value_file_offset, 8) {
                    None => {
                        return Err(ScanError::ReadPastEnd);
                    },
                    Some(current) => if bytes_eq(current, value) {
                        return Ok(Some((1, false)));
                    },
                }
            },
        }
        if let Some(mut v) = self.file.take() {
            overwrite(&mut v, value_file_offset as usize, value);
            self.file = Some(v);
        }
        self.record(
            Change::Bytes { at: value_file_offset, bytes: vstd::slice::slice_to_vec(value) },
        );
        Ok(Some((1, true)))
    }
}

/// What looking for the rows of a row group gives.
#[verifier::ext_equal]
pub enum Found {
    /// The row group has nothing to update.
    Skip,
    /// The row group cannot be updated in place.
    Refuse,
    /// The row group could not be read.
    Fail(ScanError),
    /// These rows match, among the first `n`.
    Rows(Seq<usize>, int),
}

/// What looking for the rows of a row group gives.
pub enum FoundRows {
    Skip,
    Refuse,
    Fail(ScanError),
    Rows(Vec<usize>, usize),
}

impl View for FoundRows {
    type V = Found;

    open spec fn view(&self) -> Found {
        match *self {
            FoundRows::Skip => Found::Skip,
            FoundRows::Refuse => Found::Refuse,
            FoundRows::Fail(e) => Found::Fail(e),
            FoundRows::Rows(v, n) => Found::Rows(v@, n as int),
        }
    }
}

/// A conditional update: rows whose value in one column lies in a range get a value in another.
pub struct RangeUpdate {
    pub where_col: usize,
    pub set_col: usize,
    pub ints: bool,
    pub test: NumTest,
}

/// A conditional update.
pub struct RangeUpdateSeq {
    pub where_col: int,
    pub set_col: int,
    pub ints: bool,
    pub test: TestSeq,
}

impl View for RangeUpdate {
    type V = RangeUpdateSeq;

    open spec fn view(&self) -> RangeUpdateSeq {
        RangeUpdateSeq {
            where_col: self.where_col as int,
            set_col: self.set_col as int,
            ints: self.ints,
            test: self.test@,
        }
    }
}

/// What is to be written into one row group.
#[verifier::ext_equal]
pub enum GroupUpdate {
    Skip,
    Refuse,
    Fail(ScanError),
    /// The matching rows, where the values of the set column stand and what they are.
    Assign(Seq<usize>, int, Seq<u8>),
}

impl RangeUpdateSeq {
    /// The rows whose number passes.
    pub open spec fn rows(
        self,
        src: NumSeq,
        n: int,
        del: Option<Seq<u8>>,
        nulls: Seq<u8>,
    ) -> Found {
        Found::Rows(
            select(num_rows(src, self.test, del, Some(nulls)), n, 0, Seq::empty(), usize::MAX as int),
            n,
        )
    }

    /// The rows of the column that is tested. The byte before its payload is skipped in any version.
    pub open spec fn matching<C: ColumnCodec>(
        self,
        c: C,
        kind: ColumnType,
        version: u8,
        rows: int,
        del: Option<Seq<u8>>,
        nulls: Seq<u8>,
        col: Seq<u8>,
    ) -> Found {
        let encoding = encoding_of(version, col);
        let payload = tail(col, 1);
        if encoding == COL_ENCODING_PLAIN {
            if col.len() == 0 {
                Found::Fail(ScanError::Corrupt)
            } else if payload.len() < 8 {
                Found::Skip
            } else {
                let (src, n) = plain_numbers(self.ints, rows, payload);
                self.rows(src, n, del, nulls)
            }
        } else if self.ints && encoding == COL_ENCODING_BITPACK {
            if payload.len() < 17 {
                Found::Skip
            } else {
                match packed_numbers(rows, payload) {
                    None => Found::Refuse,
                    Some((src, n)) => self.rows(src, n, del, nulls),
                }
            }
        } else {
            match c.decoded(true, col, kind) {
                None => Found::Fail(ScanError::Codec),
                Some((ColumnSeq::Int64(v), _)) if self.ints => self.rows(
                    NumSeq::Ints(v),
                    min2(v.len() as int, rows),
                    del,
                    nulls,
                ),
                Some((ColumnSeq::Float64(v), _)) if !self.ints => self.rows(
                    NumSeq::Reals(v),
                    min2(v.len() as int, rows),
                    del,
                    nulls,
                ),
                Some(_) => Found::Skip,
            }
        }
    }

    /// What is to be written into row group `i`.
    pub open spec fn group<C: ColumnCodec>(self, c: C, f: V4Footer, file: Seq<u8>, i: int) -> GroupUpdate {
        let meta = f.row_groups@[i];
        let rows = meta.row_count as int;
        let bm = bitmap_len(rows);
        if rows == 0 || self.test.misses(f.zone(i, self.where_col, false)) {
            GroupUpdate::Skip
        } else {
            match (stored_group(meta, file), f.rcix(i, self.where_col), f.rcix(i, self.set_col)) {
                (Ok(s), Some(w), Some(o)) if s[28] == RG_COMPRESS_NONE => {
                    let body = tail(s, 32);
                    match (window(body, id_section(rows, s[30]), bm), window(body, w, bm)) {
                        (Some(d), Some(nulls)) => {
                            let del = if meta.deletion_count > 0 {
                                Some(d)
                            } else {
                                None
                            };
                            match self.matching(
                                c,
                                f.schema.kind(self.where_col),
                                s[29],
                                rows,
                                del,
                                nulls,
                                tail(body, w + bm),
                            ) {
                                Found::Skip => GroupUpdate::Skip,
                                Found::Refuse => GroupUpdate::Refuse,
                                Found::Fail(e) => GroupUpdate::Fail(e),
                                Found::Rows(found, n) => self.target(
                                    found,
                                    n,
                                    s[29],
                                    bm,
                                    o,
                                    body,
                                    meta.offset + 32 + o + bm + 9,
                                ),
                            }
                        },
                        _ => GroupUpdate::Skip,
                    }
                },
                _ => GroupUpdate::Refuse,
            }
        }
    }

    /// The values of the set column, which has to be a plain one that reaches as far as the rows.
    pub open spec fn target(
        self,
        found: Seq<usize>,
        n: int,
        version: u8,
        bm: int,
        o: int,
        body: Seq<u8>,
        at: int,
    ) -> GroupUpdate {
        if o + bm > body.len() {
            GroupUpdate::Skip
        } else {
            let data = tail(body, o + bm);
            if encoding_of(version, data) != COL_ENCODING_PLAIN || data.len() < 9 || u64_le(data, 1)
                < n || data.len() < 9 + n * 8 {
                GroupUpdate::Refuse
            } else {
                GroupUpdate::Assign(found, at, data.subrange(9, 9 + n * 8))
            }
        }
    }
}

/// A column of values with those of some rows replaced.
pub open spec fn patched(values: Seq<u8>, rows: Seq<usize>, value: Seq<u8>) -> Seq<u8> {
    Seq::new(
        values.len(),
        |j: int|
            if rows.contains((j / 8) as usize) {
                value[j % 8]
            } else {
                values[j]
            },
    )
}

/// Whether some row holds another value.
pub open spec fn differs(values: Seq<u8>, rows: Seq<usize>, value: Seq<u8>) -> bool {
    exists|k: int|
        0 <= k < rows.len() && values.subrange(#[trigger] rows[k] * 8, rows[k] * 8 + 8) != value
}

/// Replaces the values of some rows; tells whether one of them held another value.
fn patch(values: &[u8], rows: &Vec<usize>, value: &[u8]) -> (r: (Vec<u8>, bool))
    requires
        value.len() == 8,
        forall|k: int| 0 <= k < rows@.len() ==> #[trigger] rows@[k] * 8 + 8 <= values.len(),
    ensures
        r.0@ == patched(values@, rows@, value@),
        r.1 == differs(values@, rows@, value@),
{
    let mut out: Vec<u8> = vstd::slice::slice_to_vec(values);
    let mut changed: bool = false;
    let mut k: usize = 0;
    assert(out@ =~= patched(values@, rows@.take(0), value@));
    while k < rows.len()
        invariant
            k <= rows@.len(),
            value.len() == 8,
            out@.len() == values@.len(),
            forall|k: int| 0 <= k < rows@.len() ==> #[trigger] rows@[k] * 8 + 8 <= values.len(),
            out@ =~= patched(values@, rows@.take(k as int), value@),
            changed == exists|j: int|
                0 <= j < k && values@.subrange(#[trigger] rows@[j] * 8, rows@[j] * 8 + 8) != value@,
        decreases rows@.len() - k,
    {
        let ghost before = out@;
        let row: usize = rows[k];
        assert(rows@[k as int] * 8 + 8 <= values.len());
        let start: usize = row * 8;
        if !bytes_eq(slice_subrange(values, start, start + 8), value) {
            changed = true;
        }
        let mut j: usize = 0;
        while j < 8
            invariant
                j <= 8,
                value.len() == 8,
                start + 8 <= values.len(),
                values.len() == out@.len(),
                out@.len() == before.len(),
                forall|x: int|
                    0 <= x < out@.len() ==> #[trigger] out@[x] == (if start <= x < start + j {
                        value@[x - start]
                    } else {
                        before[x]
                    }),
            decreases 8 - j,
        {
            out.set(start + j, value[j]);
            j = j + 1;
        }
        proof {
            let was = rows@.take(k as int);
            let now = rows@.take(k + 1);
            assert(now =~= was.push(row));
            assert forall|x: int| 0 <= x < out@.len() implies #[trigger] out@[x] == patched(
                values@,
                now,
                value@,
            )[x] by {
                let at = (x / 8) as usize;
                if at == row {
                    assert(now[k as int] == row);
                    assert(now.contains(at));
                } else {
                    assert(now.contains(at) == was.contains(at)) by {
                        if was.contains(at) {
                            let m = choose|m: int| 0 <= m < was.len() && was[m] == at;
                            assert(now[m] == at);
                        }
                        if now.contains(at) {
                            let m = choose|m: int| 0 <= m < now.len() && now[m] == at;
                            assert(was[m] == at);
                        }
                    }
                }
            }
        }
        k = k + 1;
    }
    assert(rows@.take(rows@.len() as int) =~= rows@);
    (out, changed)
}

impl RangeUpdate {
    fn rows(&self, src: &NumSource, n: usize, del: Option<&[u8]>, nulls: &[u8]) -> (r: FoundRows)
        requires
            src@.covers(n as int),
        ensures
            r@ == self@.rows(src@, n as int, slice_view(del), nulls@),
            r matches FoundRows::Rows(v, m) && m == n && v@.len() <= n && forall|k: int|
                0 <= k < v@.len() ==> #[trigger] v@[k] < n,
    {
        let mut found: Vec<usize> = Vec::new();
        src.select(&self.test, del, Some(nulls), n, 0, &mut found, usize::MAX);
        proof {
            select_adds(
                num_rows(src@, self.test@, slice_view(del), Some(nulls@)),
                n as int,
                0,
                Seq::empty(),
                usize::MAX as int,
            );
        }
        FoundRows::Rows(found, n)
    }

    fn matching<C: ColumnCodec>(
        &self,
        c: &C,
        kind: ColumnType,
        version: u8,
        rows: u32,
        del: Option<&[u8]>,
        nulls: &[u8],
        col: &[u8],
    ) -> (r: FoundRows)
        ensures
            r@ == self@.matching(
                *c,
                kind,
                version,
                rows as int,
                slice_view(del),
                nulls@,
                col@,
            ),
            r matches FoundRows::Rows(v, m) ==> m <= rows && v@.len() <= m && forall|k: int|
                0 <= k < v@.len() ==> #[trigger] v@[k] < m,
    {
        let encoding: u8 = get_encoding(version, col);
        if encoding == COL_ENCODING_PLAIN {
            if col.len() == 0 {
                return FoundRows::Fail(ScanError::Corrupt);
            }
            let payload: &[u8] = get_tail(col, 1);
            if payload.len() < 8 {
                return FoundRows::Skip;
            }
            let (src, n): (NumSource, usize) = get_plain_numbers(self.ints, rows, payload);
            return self.rows(&src, n, del, nulls);
        }
        if self.ints && encoding == COL_ENCODING_BITPACK {
            let payload: &[u8] = get_tail(col, 1);
            if payload.len() < 17 {
                return FoundRows::Skip;
            }
            return match get_packed_numbers(rows, payload) {
                None => FoundRows::Refuse,
                Some((src, n)) => self.rows(&src, n, del, nulls),
            };
        }
        match c.read_column(true, col, kind) {
            None => FoundRows::Fail(ScanError::Codec),
            Some((ColumnData::Int64(v), _)) => if self.ints {
                let n: usize = min_u64(v.len() as u64, rows as u64) as usize;
                self.rows(&NumSource::Ints(&v), n, del, nulls)
            } else {
                FoundRows::Skip
            },
            Some((ColumnData::Float64(v), _)) => if !self.ints {
                let n: usize = min_u64(v.len() as u64, rows as u64) as usize;
                self.rows(&NumSource::Reals(&v), n, del, nulls)
            } else {
                FoundRows::Skip
            },
            Some(_) => FoundRows::Skip,
        }
    }
}

/// What is to be written into one row group.
pub enum GroupWrite<'a> {
    Skip,
    Refuse,
    Fail(ScanError),
    Assign(Vec<usize>, u64, &'a [u8]),
}

impl<'a> View for GroupWrite<'a> {
    type V = GroupUpdate;

    open spec fn view(&self) -> GroupUpdate {
        match *self {
            GroupWrite::Skip => GroupUpdate::Skip,
            GroupWrite::Refuse => GroupUpdate::Refuse,
            GroupWrite::Fail(e) => GroupUpdate::Fail(e),
            GroupWrite::Assign(rows, at, values) => GroupUpdate::Assign(
                rows@,
                at as int,
                values@,
            ),
        }
    }
}

/// What a conditional update comes to.
#[verifier::ext_equal]
pub struct UpdatePlan {
    /// Rows that match.
    pub matched: int,
    /// What is to be written, and where.
    pub writes: Seq<(int, Seq<u8>)>,
    /// The row groups that are written to.
    pub groups: Seq<usize>,
    /// Whether a zone map becomes wider.
    pub changed: bool,
}

impl RangeUpdateSeq {
    /// What an update of the first `k` row groups comes to; `None` where one of them cannot be
    /// updated in place.
    pub open spec fn plan<C: ColumnCodec>(
        self,
        c: C,
        f: V4Footer,
        file: Seq<u8>,
        value: Seq<u8>,
        k: int,
    ) -> Result<Option<UpdatePlan>, ScanError>
        decreases k,
    {
        if k <= 0 {
            Ok(
                Some(
                    UpdatePlan {
                        matched: 0,
                        writes: Seq::empty(),
                        groups: Seq::empty(),
                        changed: false,
                    },
                ),
            )
        } else {
            match self.plan(c, f, file, value, k - 1) {
                Err(e) => Err(e),
                Ok(None) => Ok(None),
                Ok(Some(p)) => match self.group(c, f, file, k - 1) {
                    GroupUpdate::Skip => Ok(Some(p)),
                    GroupUpdate::Refuse => Ok(None),
                    GroupUpdate::Fail(e) => Err(e),
                    GroupUpdate::Assign(rows, at, values) => Ok(
                        Some(self.planned(f, value, p, k - 1, rows, at, values)),
                    ),
                },
            }
        }
    }

    /// The plan with one more row group.
    pub open spec fn planned(
        self,
        f: V4Footer,
        value: Seq<u8>,
        p: UpdatePlan,
        i: int,
        rows: Seq<usize>,
        at: int,
        values: Seq<u8>,
    ) -> UpdatePlan {
        if differs(values, rows, value) {
            UpdatePlan {
                matched: p.matched + rows.len(),
                writes: p.writes.push((at, patched(values, rows, value))),
                groups: p.groups.push(i as usize),
                changed: p.changed || self.widens(f, value, i),
            }
        } else {
            UpdatePlan { matched: p.matched + rows.len(), ..p }
        }
    }

    /// Whether the zone map of the set column becomes wider in row group `i`.
    pub open spec fn widens(self, f: V4Footer, value: Seq<u8>, i: int) -> bool {
        i < zones(f).len() && widened_maps(zones(f)[i], self.set_col, value, false) != zones(f)[i]
    }

    /// What a plan does.
    pub open spec fn effect(self, f: V4Footer, file: Seq<u8>, value: Seq<u8>, p: UpdatePlan) -> Effect {
        Effect {
            file: write_all(file, p.writes),
            zones: Seq::new(
                zones(f).len(),
                |i: int|
                    if p.groups.contains(i as usize) {
                        widened_maps(zones(f)[i], self.set_col, value, false)
                    } else {
                        zones(f)[i]
                    },
            ),
            steps: seq![ChangeSeq::DropStats] + (if p.changed {
                seq![ChangeSeq::Footer]
            } else {
                Seq::empty()
            }) + Seq::new(
                p.writes.len(),
                |i: int| ChangeSeq::Bytes { at: p.writes[i].0, bytes: p.writes[i].1 },
            ),
        }
    }

    /// A plan that failed or was refused stays so.
    proof fn plan_over<C: ColumnCodec>(
        self,
        c: C,
        f: V4Footer,
        file: Seq<u8>,
        value: Seq<u8>,
        j: int,
        k: int,
    )
        requires
            0 <= j <= k,
            !(self.plan(c, f, file, value, j) matches Ok(Some(_))),
        ensures
            self.plan(c, f, file, value, k) == self.plan(c, f, file, value, j),
        decreases k,
    {
        if j < k {
            self.plan_over(c, f, file, value, j, k - 1);
        }
    }
}

/// A file after some writes.
pub open spec fn write_all(file: Seq<u8>, writes: Seq<(int, Seq<u8>)>) -> Seq<u8>
    decreases writes.len(),
{
    if writes.len() == 0 {
        file
    } else {
        overwritten(write_all(file, writes.drop_last()), writes.last().0, writes.last().1)
    }
}

/// Writes that are planned.
pub open spec fn writes_view(w: Seq<(u64, Vec<u8>)>) -> Seq<(int, Seq<u8>)> {
    Seq::new(w.len(), |i: int| (w[i].0 as int, w[i].1@))
}

impl RangeUpdate {
    fn group<'a, C: ColumnCodec>(&self, c: &C, f: &V4Footer, file: &'a [u8], i: usize) -> (r:
        GroupWrite<'a>)
        requires
            i < f.row_groups@.len(),
            self.where_col < f.schema.columns@.len(),
        ensures
            r@ == self@.group(*c, *f, file@, i as int),
            r matches GroupWrite::Assign(rows, at, values) ==> {
                &&& at + values.len() <= file.len()
                &&& rows@.len() <= f.row_groups@[i as int].row_count
                &&& forall|k: int|
                    0 <= k < rows@.len() ==> #[trigger] rows@[k] * 8 + 8 <= values.len()
            },
    {
        let meta: RowGroupMeta = f.row_groups[i];
        let rows: u32 = meta.row_count;
        let bm: u64 = rg_bitmap_len(rows);
        if rows == 0 || self.test.misses(f.zone_map(i, self.where_col, false)) {
            return GroupWrite::Skip;
        }
        match (
            get_stored(&meta, file),
            f.column_offset(i, self.where_col),
            f.column_offset(i, self.set_col),
        ) {
            (Ok(s), Some(w), Some(o)) => {
                if s[28] != RG_COMPRESS_NONE {
                    return GroupWrite::Refuse;
                }
                let body: &[u8] = get_tail(s, 32);
                match (
                    get_window(body, rg_id_section_len(rows, s[30]), bm),
                    get_window(body, w as u64, bm),
                ) {
                    (Some(d), Some(nulls)) => {
                        let del: Option<&[u8]> = if meta.deletion_count > 0 {
                            Some(d)
                        } else {
                            None
                        };
                        match self.matching(
                            c,
                            f.schema.columns[self.where_col].1,
                            s[29],
                            rows,
                            del,
                            nulls,
                            get_tail(body, (w as u64 + bm) as usize),
                        ) {
                            FoundRows::Skip => GroupWrite::Skip,
                            FoundRows::Refuse => GroupWrite::Refuse,
                            FoundRows::Fail(e) => GroupWrite::Fail(e),
                            FoundRows::Rows(found, n) => {
                                let start: u64 = o as u64 + bm;
                                if start > body.len() as u64 {
                                    return GroupWrite::Skip;
                                }
                                let data: &[u8] = get_tail(body, start as usize);
                                if get_encoding(s[29], data) != COL_ENCODING_PLAIN || data.len() < 9
                                    || read_u64(data, 1) < n as u64 {
                                    return GroupWrite::Refuse;
                                }
                                match get_window(data, 9, n as u64 * 8) {
                                    None => GroupWrite::Refuse,
                                    Some(values) => GroupWrite::Assign(
                                        found,
                                        meta.offset + 32 + start + 9,
                                        values,
                                    ),
                                }
                            },
                        }
                    },
                    _ => GroupWrite::Skip,
                }
            },
            _ => GroupWrite::Refuse,
        }
    }
}

impl<C: ColumnCodec> OnDemandStorage<C> {
    /// The conditional update that two column names and a range stand for.
    pub open spec fn range_update(
        self,
        where_col: Seq<char>,
        low: F64,
        high: F64,
        set_col: Seq<char>,
    ) -> Option<(V4Footer, RangeUpdateSeq)> {
        match self.footer {
            None => None,
            Some(f) => match (f.schema.index_of(where_col), f.schema.index_of(set_col)) {
                (Some(w), Some(o)) => {
                    let kind = f.schema.kind(w as int);
                    if (is_int(kind) || is_float(kind)) && f.col_offsets@.len()
                        >= f.row_groups@.len() {
                        Some(
                            (
                                f,
                                RangeUpdateSeq {
                                    where_col: w as int,
                                    set_col: o as int,
                                    ints: is_int(kind),
                                    test: range_test(low, high),
                                },
                            ),
                        )
                    } else {
                        None
                    }
                },
                _ => None,
            },
        }
    }

    /// What a conditional update answers, with its effect where it has one.
    pub open spec fn update_range(
        self,
        where_col: Seq<char>,
        low: F64,
        high: F64,
        set_col: Seq<char>,
        value: Seq<u8>,
    ) -> Result<Option<(int, Option<Effect>)>, ScanError> {
        match self.range_update(where_col, low, high, set_col) {
            None => Ok(None),
            Some((f, q)) => match self.file {
                None => Err(ScanError::NotOpen),
                Some(file) => match q.plan(
                    self.codec,
                    f,
                    file@,
                    value,
                    f.row_groups@.len() as int,
                ) {
                    Err(e) => Err(e),
                    Ok(None) => Ok(None),
                    Ok(Some(p)) => Ok(
                        Some(
                            (
                                p.matched,
                                if p.writes.len() == 0 {
                                    None
                                } else {
                                    Some(q.effect(f, file@, value, p))
                                },
                            ),
                        ),
                    ),
                },
            },
        }
    }
}

/// Makes the writes of a plan.
fn write_planned(file: &mut Vec<u8>, writes: &Vec<(u64, Vec<u8>)>)
    requires
        forall|k: int|
            0 <= k < writes@.len() ==> (#[trigger] writes@[k]).0 + writes@[k].1@.len() <= usize::MAX,
    ensures
        final(file)@ == write_all(old(file)@, writes_view(writes@)),
{
    let mut k: usize = 0;
    assert(writes_view(writes@.take(0)) =~= Seq::empty());
    while k < writes.len()
        invariant
            k <= writes@.len(),
            forall|k: int|
                0 <= k < writes@.len() ==> (#[trigger] writes@[k]).0 + writes@[k].1@.len()
                    <= usize::MAX,
            file@ == write_all(old(file)@, writes_view(writes@.take(k as int))),
        decreases writes@.len() - k,
    {
        assert(writes@[k as int].0 + writes@[k as int].1@.len() <= usize::MAX);
        overwrite(file, writes[k].0 as usize, writes[k].1.as_slice());
        assert(writes_view(writes@.take(k + 1)).drop_last() =~= writes_view(
            writes@.take(k as int),
        ));
        k = k + 1;
    }
    assert(writes@.take(writes@.len() as int) =~= writes@);
}

impl RangeUpdate {
    /// Widens the zone maps of the row groups that are written to; tells whether anything changed.
    fn widen_groups(&self, f: &mut V4Footer, groups: &Vec<usize>, value: &[u8]) -> (changed: bool)
        requires
            value.len() == 8,
            forall|j: int, k: int|
                0 <= j < k < groups@.len() ==> #[trigger] groups@[j] < #[trigger] groups@[k],
        ensures
            final(f).schema == old(f).schema,
            final(f).row_groups == old(f).row_groups,
            final(f).col_offsets == old(f).col_offsets,
            zones(*final(f)) == Seq::new(
                zones(*old(f)).len(),
                |i: int|
                    if groups@.contains(i as usize) {
                        widened_maps(zones(*old(f))[i], self.set_col as int, value@, false)
                    } else {
                        zones(*old(f))[i]
                    },
            ),
            changed == exists|k: int|
                0 <= k < groups@.len() && self@.widens(
                    *old(f),
                    value@,
                    #[trigger] groups@[k] as int,
                ),
    {
        let ghost z = zones(*f);
        let ghost orig = *f;
        let count: usize = f.zone_maps.len();
        let mut changed: bool = false;
        let mut k: usize = 0;
        while k < groups.len()
            invariant
                k <= groups@.len(),
                value.len() == 8,
                orig == *old(f),
                z == zones(*old(f)),
                z.len() == count,
                forall|j: int, k: int|
                    0 <= j < k < groups@.len() ==> #[trigger] groups@[j] < #[trigger] groups@[k],
                f.schema == old(f).schema,
                f.row_groups == old(f).row_groups,
                f.col_offsets == old(f).col_offsets,
                zones(*f).len() == z.len(),
                forall|i: int|
                    0 <= i < z.len() ==> #[trigger] zones(*f)[i] == (if groups@.take(
                        k as int,
                    ).contains(i as usize) {
                        widened_maps(z[i], self.set_col as int, value@, false)
                    } else {
                        z[i]
                    }),
                changed == exists|j: int|
                    0 <= j < k && self@.widens(orig, value@, #[trigger] groups@[j] as int),
            decreases groups@.len() - k,
        {
            let g: usize = groups[k];
            let ghost before = zones(*f);
            let ghost was = groups@.take(k as int);
            let ghost now = groups@.take(k + 1);
            assert(!was.contains(g)) by {
                if was.contains(g) {
                    let m = choose|m: int| 0 <= m < was.len() && was[m] == g;
                    assert(groups@[m] < groups@[k as int]);
                }
            }
            assert(now =~= was.push(g));
            assert(now.contains(g)) by {
                assert(now[k as int] == g);
            }
            if widen_group(f, g, self.set_col, value, false) {
                changed = true;
            }
            proof {
                assert forall|i: int| 0 <= i < z.len() implies #[trigger] zones(*f)[i] == (
                if now.contains(i as usize) {
                    widened_maps(z[i], self.set_col as int, value@, false)
                } else {
                    z[i]
                }) by {
                    if i == g {
                        assert(before[i] == z[i]);
                    } else {
                        assert(zones(*f)[i] == before[i]);
                        if was.contains(i as usize) {
                            let m = choose|m: int| 0 <= m < was.len() && was[m] == i as usize;
                            assert(now[m] == i as usize);
                        }
                        if now.contains(i as usize) {
                            let m = choose|m: int| 0 <= m < now.len() && now[m] == i as usize;
                            assert(was[m] == i as usize);
                        }
                    }
                }
            }
            k = k + 1;
        }
        assert(groups@.take(groups@.len() as int) =~= groups@);
        assert(zones(*f) =~= Seq::new(
            z.len(),
            |i: int|
                if groups@.contains(i as usize) {
                    widened_maps(z[i], self.set_col as int, value@, false)
                } else {
                    z[i]
                },
        ));
        changed
    }
}

/// Whether some row group of a plan becomes wider is what the plan says.
proof fn plan_facts<C: ColumnCodec>(
    q: RangeUpdateSeq,
    c: C,
    f: V4Footer,
    file: Seq<u8>,
    value: Seq<u8>,
    k: int,
)
    requires
        0 <= k <= usize::MAX,
    ensures
        q.plan(c, f, file, value, k) matches Ok(Some(p)) ==> {
            &&& p.groups.len() == p.writes.len()
            &&& forall|j: int| 0 <= j < p.groups.len() ==> #[trigger] p.groups[j] < k
            &&& forall|i: int, j: int|
                0 <= i < j < p.groups.len() ==> #[trigger] p.groups[i] < #[trigger] p.groups[j]
            &&& p.changed == exists|j: int|
                0 <= j < p.groups.len() && q.widens(f, value, #[trigger] p.groups[j] as int)
        },
    decreases k,
{
    if k > 0 {
        plan_facts(q, c, f, file, value, k - 1);
        if let Ok(Some(p)) = q.plan(c, f, file, value, k - 1) {
            if let GroupUpdate::Assign(rows, at, values) = q.group(c, f, file, k - 1) {
                let after = q.planned(f, value, p, k - 1, rows, at, values);
                if differs(values, rows, value) {
                    assert(after.groups.last() == k - 1);
                    assert forall|i: int, j: int| 0 <= i < j < after.groups.len() implies
                        #[trigger] after.groups[i] < #[trigger] after.groups[j] by {
                        assert(after.groups[i] == p.groups[i]);
                        if j < p.groups.len() {
                            assert(after.groups[j] == p.groups[j]);
                        }
                    }
                    if p.changed {
                        let j = choose|j: int|
                            0 <= j < p.groups.len() && q.widens(
                                f,
                                value,
                                #[trigger] p.groups[j] as int,
                            );
                        assert(after.groups[j] == p.groups[j]);
                    }
                    if exists|j: int|
                        0 <= j < after.groups.len() && q.widens(
                            f,
                            value,
                            #[trigger] after.groups[j] as int,
                        ) {
                        let j = choose|j: int|
                            0 <= j < after.groups.len() && q.widens(
                                f,
                                value,
                                #[trigger] after.groups[j] as int,
                            );
                        if j < p.groups.len() {
                            assert(after.groups[j] == p.groups[j]);
                        }
                    }
                }
            }
        }
    }
}

impl<C: ColumnCodec> OnDemandStorage<C> {
    /// Appends the writes of a plan to the journal.
    fn record_writes(&mut self, writes: Vec<(u64, Vec<u8>)>)
        ensures
            final(self).steps() == old(self).steps() + Seq::new(
                writes@.len(),
                |i: int|
                    ChangeSeq::Bytes {
                        at: writes_view(writes@)[i].0,
                        bytes: writes_view(writes@)[i].1,
                    },
            ),
            final(self).same_but_cells(*old(self)),
            final(self).file == old(self).file,
            final(self).footer == old(self).footer,
    {
        let ghost all = writes_view(writes@);
        let ghost steps = Seq::new(
            all.len(),
            |i: int| ChangeSeq::Bytes { at: all[i].0, bytes: all[i].1 },
        );
        let mut k: usize = 0;
        while k < writes.len()
            invariant
                k <= writes@.len(),
                all == writes_view(writes@),
                steps == Seq::new(
                    all.len(),
                    |i: int| ChangeSeq::Bytes { at: all[i].0, bytes: all[i].1 },
                ),
                self.steps() =~= old(self).steps() + steps.take(k as int),
                self.same_but_cells(*old(self)),
                self.file == old(self).file,
                self.footer == old(self).footer,
            decreases writes@.len() - k,
        {
            let bytes: Vec<u8> = vstd::slice::slice_to_vec(writes[k].1.as_slice());
            self.record(Change::Bytes { at: writes[k].0, bytes });
            assert(steps.take(k + 1) =~= steps.take(k as int).push(steps[k as int]));
            k = k + 1;
        }
        assert(steps.take(steps.len() as int) =~= steps);
    }

    /// Gives the rows whose value in one column lies in a range a value in another column: how many
    /// rows match. No answer where a row group cannot be updated in place; then nothing is written.
    pub fn scan_and_update_inplace(
        &mut self,
        where_col: &str,
        low: F64,
        high: F64,
        set_col: &str,
        new_value_bytes: &[u8; 8],
    ) -> (r: Result<Option<i64>, ScanError>)
        requires
            old(self).wf(),
        ensures
            match old(self).update_range(where_col@, low, high, set_col@, new_value_bytes@) {
                Err(e) => r == Err::<Option<i64>, ScanError>(e) && *final(self) == *old(self),
                Ok(None) => r == Ok::<Option<i64>, ScanError>(None) && *final(self) == *old(self),
                Ok(Some((n, None))) => (r matches Ok(Some(m)) && m == n) && *final(self) == *old(
                    self,
                ),
                Ok(Some((n, Some(e)))) => (r matches Ok(Some(m)) && m == n) && final(self).after(
                    *old(self),
                    e,
                ),
            },
    {
        let value: &[u8] = array_as_slice(new_value_bytes);
        let q: RangeUpdate;
        let mut matched: u64 = 0;
        let mut writes: Vec<(u64, Vec<u8>)> = Vec::new();
        let mut groups: Vec<usize> = Vec::new();
        let ghost plan: UpdatePlan;
        match &self.footer {
            None => {
                return Ok(None);
            },
            Some(f) => {
                let w: usize = match f.schema.get_index(where_col) {
                    None => {
                        return Ok(None);
                    },
                    Some(w) => w,
                };
                let o: usize = match f.schema.get_index(set_col) {
                    None => {
                        return Ok(None);
                    },
                    Some(o) => o,
                };
                let kind: ColumnType = f.schema.columns[w].1;
                if (!kind.is_int() && !kind.is_float()) || f.col_offsets.len()
                    < f.row_groups.len() {
                    return Ok(None);
                }
                q = RangeUpdate {
                    where_col: w,
                    set_col: o,
                    ints: kind.is_int(),
                    test: NumTest::range(low, high),
                };
                assert(self.range_update(where_col@, low, high, set_col@) == Some((*f, q@)));
                let file: &[u8] = match &self.file {
                    None => {
                        return Err(ScanError::NotOpen);
                    },
                    Some(file) => file.as_slice(),
                };
                let mut i: usize = 0;
                assert(writes_view(writes@) =~= Seq::empty());
                while i < f.row_groups.len()
                    invariant
                        i <= f.row_groups@.len(),
                        f.wf(),
                        *self == *old(self),
                        self.footer == Some(*f),
                        self.file matches Some(v) && v@ == file@,
                        value@ == new_value_bytes@,
                        value.len() == 8,
                        w < f.schema.columns@.len(),
                        q.where_col == w,
                        self.range_update(where_col@, low, high, set_col@) == Some((*f, q@)),
                        q@.plan(self.codec, *f, file@, value@, i as int) matches Ok(Some(p))
                            && p.matched == matched && p.writes == writes_view(writes@) && p.groups
                            == groups@,
                        matched <= rows_before(f.row_groups@, i as int),
                        forall|k: int|
                            0 <= k < writes@.len() ==> (#[trigger] writes@[k]).0
                                + writes@[k].1@.len() <= usize::MAX,
                    decreases f.row_groups@.len() - i,
                {
                    let ghost n = f.row_groups@.len() as int;
                    proof {
                        rows_before_monotonic(f.row_groups@, i + 1, n);
                    }
                    match q.group(&self.codec, f, file, i) {
                        GroupWrite::Skip => {},
                        GroupWrite::Refuse => {
                            proof {
                                q@.plan_over(self.codec, *f, file@, value@, i + 1, n);
                            }
                            return Ok(None);
                        },
                        GroupWrite::Fail(e) => {
                            proof {
                                q@.plan_over(self.codec, *f, file@, value@, i + 1, n);
                            }
                            return Err(e);
                        },
                        GroupWrite::Assign(rows, at, values) => {
                            let (bytes, changed): (Vec<u8>, bool) = patch(values, &rows, value);
                            if changed {
                                let ghost before = writes_view(writes@);
                                let ghost b = bytes@;
                                assert(bytes@.len() == values@.len());
                                writes.push((at, bytes));
                                groups.push(i);
                                assert(writes_view(writes@) =~= before.push((at as int, b)));
                            }
                            matched = matched + rows.len() as u64;
                        },
                    }
                    i = i + 1;
                }
                proof {
                    rows_before_monotonic(f.row_groups@, 0, f.row_groups@.len() as int);
                    plan_facts(
                        q@,
                        self.codec,
                        *f,
                        file@,
                        value@,
                        f.row_groups@.len() as int,
                    );
                    plan = q@.plan(
                        self.codec,
                        *f,
                        file@,
                        value@,
                        f.row_groups@.len() as int,
                    )->Ok_0->0;
                }
            },
        }
        if writes.len() == 0 {
            return Ok(Some(matched as i64));
        }
        let ghost effect = q@.effect(
            old(self).footer->0,
            old(self).file->0@,
            new_value_bytes@,
            plan,
        );
        self.record(Change::DropStats);
        let mut changed: bool = false;
        if let Some(mut f) = self.footer.take() {
            changed = q.widen_groups(&mut f, &groups, value);
            self.footer = Some(f);
        }
        assert(changed == plan.changed);
        if changed {
            self.record(Change::Footer);
        }
        if let Some(mut v) = self.file.take() {
            write_planned(&mut v, &writes);
            self.file = Some(v);
        }
        self.record_writes(writes);
        assert(self.steps() =~= old(self).steps() + effect.steps);
        assert(zones(self.footer->0) =~= effect.zones);
        Ok(Some(matched as i64))
    }
}

} // verus!
