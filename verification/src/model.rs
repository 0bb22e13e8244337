//! The catalogue of a store: column types, schema, row groups and their zone maps.

use vstd::prelude::*;

use crate::double::{le, F64};

verus! {

/// Why a scan gives no answer.
#[derive(Clone, Copy, Debug, PartialEq, Eq, Structural)]
pub enum ScanError {
    /// No file is open.
    NotOpen,
    /// A row group ends beyond the end of the file.
    PastEof,
    /// The deletion bitmap of a row group is cut off.
    DeletionsTruncated,
    /// The identifiers of a row group are cut off.
    IdsTruncated,
    /// The body of a row group is cut off.
    BodyTruncated,
    /// The null bitmap of a column is cut off.
    NullsTruncated,
    /// The column holds no strings.
    NotAString,
    /// The column has a type that the reader does not serve.
    WrongType,
    /// A length does not fit the machine.
    LengthOverflow,
    /// The codec could not read the bytes.
    Codec,
    /// A read beyond the end of the file.
    ReadPastEnd,
    /// An offset inside a row group points outside of it.
    Corrupt,
    /// Columns do not form a batch.
    Batch,
}

/// What a column holds.
#[derive(Clone, Copy, Debug, PartialEq, Eq, Structural)]
pub enum ColumnType {
    Null,
    Bool,
    Int8,
    Int16,
    Int32,
    Int64,
    UInt8,
    UInt16,
    UInt32,
    UInt64,
    Timestamp,
    Date,
    Float32,
    Float64,
    String,
    StringDict,
    Binary,
    Blob,
    FixedList,
    Float16List,
    BFloat16List,
    Int8Vector,
    UInt8Vector,
    Bit1Vector,
    TurboQuant2Vector,
    TurboQuant3Vector,
    TurboQuant4Vector,
}

/// Types whose values are stored as signed double words.
pub open spec fn is_int(t: ColumnType) -> bool {
    t is Int8 || t is Int16 || t is Int32 || t is Int64 || t is UInt8 || t is UInt16 || t is UInt32
        || t is UInt64 || t is Timestamp || t is Date
}

/// Types whose values are stored as doubles.
pub open spec fn is_float(t: ColumnType) -> bool {
    t is Float32 || t is Float64
}

/// Types whose values are strings.
pub open spec fn is_text(t: ColumnType) -> bool {
    t is String || t is StringDict
}

impl ColumnType {
    /// Whether values are stored as signed double words.
    pub fn is_int(self) -> (r: bool)
        ensures
            r == is_int(self),
    {
        matches!(
            self,
            ColumnType::Int8 | ColumnType::Int16 | ColumnType::Int32 | ColumnType::Int64
                | ColumnType::UInt8 | ColumnType::UInt16 | ColumnType::UInt32 | ColumnType::UInt64
                | ColumnType::Timestamp | ColumnType::Date
        )
    }

    /// Whether values are stored as doubles.
    pub fn is_float(self) -> (r: bool)
        ensures
            r == is_float(self),
    {
        matches!(self, ColumnType::Float32 | ColumnType::Float64)
    }

    /// Whether values are strings.
    pub fn is_text(self) -> (r: bool)
        ensures
            r == is_text(self),
    {
        matches!(self, ColumnType::String | ColumnType::StringDict)
    }
}

/// Encoding tag of a column stored as it is.
pub const COL_ENCODING_PLAIN: u8 = 0;

/// Encoding tag of run-length coded integers.
pub const COL_ENCODING_RLE: u8 = 1;

/// Encoding tag of bit-packed integers.
pub const COL_ENCODING_BITPACK: u8 = 2;

/// Encoding tag of a dictionary with narrow indices.
pub const COL_ENCODING_COMPACT_DICTIONARY: u8 = 3;

/// Encoding tag of doubles behind a dictionary.
pub const COL_ENCODING_FLOAT_DICTIONARY: u8 = 4;

/// Flag of a row group that is stored uncompressed.
pub const RG_COMPRESS_NONE: u8 = 0;

/// Flag of a row group whose identifiers are written out.
pub const RG_IDS_PLAIN: u8 = 0;

/// Flag of a row group whose identifiers count up from the first one.
pub const RG_IDS_IMPLICIT_CONTIGUOUS: u8 = 1;

/// Length of the header of a row group.
pub const RG_HEADER: usize = 32;

/// Where a row group lies and what it holds.
#[derive(Clone, Copy, Debug, PartialEq, Eq, Structural)]
pub struct RowGroupMeta {
    pub offset: u64,
    pub data_size: u64,
    pub row_count: u32,
    pub min_id: u64,
    pub max_id: u64,
    pub deletion_count: u32,
}

impl RowGroupMeta {
    /// Rows that are not deleted.
    pub open spec fn live(self) -> int {
        if self.deletion_count > self.row_count {
            0
        } else {
            self.row_count - self.deletion_count
        }
    }

    /// Rows that are not deleted.
    pub fn active_rows(&self) -> (r: u32)
        ensures
            r == self.live(),
    {
        if self.deletion_count > self.row_count {
            0
        } else {
            self.row_count - self.deletion_count
        }
    }
}

/// Smallest and largest value of one column in one row group. For strings these are byte lengths.
#[derive(Clone, Copy, Debug, PartialEq, Eq, Structural)]
pub struct ZoneMap {
    pub col_idx: u32,
    pub is_float: bool,
    pub min_bits: i64,
    pub max_bits: i64,
}

/// The unsigned double word with the same bits.
pub open spec fn unsigned(v: i64) -> int {
    if v < 0 {
        v + 0x1_0000_0000_0000_0000
    } else {
        v as int
    }
}

/// The unsigned double word with the same bits.
pub fn as_unsigned(v: i64) -> (r: u64)
    ensures
        r == unsigned(v),
{
    if v < 0 {
        (v as i128 + 0x1_0000_0000_0000_0000) as u64
    } else {
        v as u64
    }
}

impl ZoneMap {
    /// The smallest value, as a double.
    pub open spec fn low(self) -> F64 {
        F64 { bits: unsigned(self.min_bits) as u64 }
    }

    /// The largest value, as a double.
    pub open spec fn high(self) -> F64 {
        F64 { bits: unsigned(self.max_bits) as u64 }
    }

    /// Whether some value can lie in `low..=high`.
    pub open spec fn overlaps_int(self, low: int, high: int) -> bool {
        self.min_bits <= high && self.max_bits >= low
    }

    /// Whether some value can lie in `low..=high`.
    pub open spec fn overlaps_float(self, low: F64, high: F64) -> bool {
        le(self.low(), high) && le(low, self.high())
    }

    /// Whether some value can lie in `low..=high`.
    pub fn may_overlap_int_range(&self, low: i64, high: i64) -> (r: bool)
        ensures
            r == self.overlaps_int(low as int, high as int),
    {
        self.min_bits <= high && self.max_bits >= low
    }

    /// The smallest value, as a double.
    pub fn low_f64(&self) -> (r: F64)
        ensures
            r == self.low(),
    {
        F64::from_bits(as_unsigned(self.min_bits))
    }

    /// The largest value, as a double.
    pub fn high_f64(&self) -> (r: F64)
        ensures
            r == self.high(),
    {
        F64::from_bits(as_unsigned(self.max_bits))
    }

    /// Whether some value can lie in `low..=high`.
    pub fn may_overlap_float_range(&self, low: F64, high: F64) -> (r: bool)
        ensures
            r == self.overlaps_float(low, high),
    {
        self.low_f64().le(high) && low.le(self.high_f64())
    }
}

/// The columns of a table, in order.
#[derive(Debug)]
pub struct OnDemandSchema {
    pub columns: Vec<(String, ColumnType)>,
}

impl OnDemandSchema {
    /// The type of column `i`.
    pub open spec fn kind(self, i: int) -> ColumnType {
        self.columns@[i].1
    }

    /// The first column with the given name, searched from column `i` on.
    pub open spec fn index_from(self, name: Seq<char>, i: int) -> Option<usize>
        decreases self.columns@.len() - i,
    {
        if i >= self.columns@.len() {
            None
        } else if self.columns@[i].0@ == name {
            Some(i as usize)
        } else {
            self.index_from(name, i + 1)
        }
    }

    /// The first column with the given name.
    pub open spec fn index_of(self, name: Seq<char>) -> Option<usize> {
        self.index_from(name, 0)
    }

    proof fn index_from_names(self, name: Seq<char>, i: int)
        requires
            0 <= i,
            self.columns@.len() <= usize::MAX,
        ensures
            self.index_from(name, i) matches Some(k) ==> k < self.columns@.len()
                && self.columns@[k as int].0@ == name,
        decreases self.columns@.len() - i,
    {
        if i < self.columns@.len() {
            self.index_from_names(name, i + 1);
        }
    }

    /// The column that is found by a name has it.
    pub proof fn law_found_by_name(self, name: Seq<char>)
        requires
            self.columns@.len() <= usize::MAX,
        ensures
            self.index_of(name) matches Some(k) ==> k < self.columns@.len()
                && self.columns@[k as int].0@ == name,
    {
        self.index_from_names(name, 0);
    }

    /// Number of columns.
    pub fn column_count(&self) -> (r: usize)
        ensures
            r == self.columns@.len(),
    {
        self.columns.len()
    }

    /// Finds a column by its name.
    pub fn get_index(&self, name: &str) -> (r: Option<usize>)
        ensures
            r == self.index_of(name@),
            r matches Some(i) ==> i < self.columns@.len(),
    {
        let mut i: usize = 0;
        while i < self.columns.len()
            invariant
                i <= self.columns@.len(),
                self.index_of(name@) == self.index_from(name@, i as int),
            decreases self.columns@.len() - i,
        {
            if str_eq(self.columns[i].0.as_str(), name) {
                return Some(i);
            }
            i = i + 1;
        }
        None
    }
}

/// Whether two byte strings are the same.
pub fn bytes_eq(a: &[u8], b: &[u8]) -> (r: bool)
    ensures
        r == (a@ == b@),
{
    if a.len() != b.len() {
        return false;
    }
    let mut i: usize = 0;
    while i < a.len()
        invariant
            i <= a.len(),
            a.len() == b.len(),
            a@.take(i as int) == b@.take(i as int),
        decreases a.len() - i,
    {
        if a[i] != b[i] {
            return false;
        }
        proof {
            assert(a@.take(i + 1) =~= a@.take(i as int).push(a@[i as int]));
            assert(b@.take(i + 1) =~= b@.take(i as int).push(b@[i as int]));
        }
        i = i + 1;
    }
    proof {
        assert(a@.take(a@.len() as int) =~= a@);
        assert(b@.take(b@.len() as int) =~= b@);
    }
    true
}

/// Whether two strings are the same.
pub fn str_eq(a: &str, b: &str) -> (r: bool)
    ensures
        r == (a@ == b@),
{
    proof {
        vstd::utf8::encode_utf8_decode_utf8(a@);
        vstd::utf8::encode_utf8_decode_utf8(b@);
    }
    bytes_eq(a.as_bytes(), b.as_bytes())
}

/// The catalogue at the end of a file.
#[derive(Debug)]
pub struct V4Footer {
    pub schema: OnDemandSchema,
    pub row_groups: Vec<RowGroupMeta>,
    pub col_offsets: Vec<Vec<u32>>,
    pub zone_maps: Vec<Vec<ZoneMap>>,
}

/// Rows of the first `k` row groups.
pub open spec fn rows_before(groups: Seq<RowGroupMeta>, k: int) -> int
    decreases k,
{
    if k <= 0 {
        0
    } else {
        rows_before(groups, k - 1) + groups[k - 1].row_count
    }
}

/// Rows add up.
pub proof fn rows_before_monotonic(groups: Seq<RowGroupMeta>, j: int, k: int)
    requires
        0 <= j <= k,
    ensures
        0 <= rows_before(groups, j) <= rows_before(groups, k),
    decreases k,
{
    if j < k {
        rows_before_monotonic(groups, j, k - 1);
    } else if k > 0 {
        rows_before_monotonic(groups, 0, k - 1);
    }
}

/// The first zone map of column `col`, searched from entry `i` on; `ints` leaves out those of
/// doubles.
pub open spec fn zone_from(maps: Seq<ZoneMap>, col: int, ints: bool, i: int) -> Option<ZoneMap>
    decreases maps.len() - i,
{
    if i >= maps.len() {
        None
    } else if maps[i].col_idx == col && !(ints && maps[i].is_float) {
        Some(maps[i])
    } else {
        zone_from(maps, col, ints, i + 1)
    }
}

/// The first zone map of a column.
pub fn find_zone(maps: &Vec<ZoneMap>, col: usize, ints: bool) -> (r: Option<ZoneMap>)
    ensures
        r == zone_from(maps@, col as int, ints, 0),
{
    let mut i: usize = 0;
    while i < maps.len()
        invariant
            i <= maps@.len(),
            zone_from(maps@, col as int, ints, 0) == zone_from(maps@, col as int, ints, i as int),
        decreases maps@.len() - i,
    {
        let z: ZoneMap = maps[i];
        if z.col_idx as u64 == col as u64 && !(ints && z.is_float) {
            return Some(z);
        }
        i = i + 1;
    }
    None
}

impl V4Footer {
    /// Rows in all row groups.
    pub open spec fn total_rows(self) -> int {
        rows_before(self.row_groups@, self.row_groups@.len() as int)
    }

    /// Whether the rows can be counted by the machine.
    pub open spec fn wf(self) -> bool {
        self.total_rows() <= usize::MAX && self.total_rows() <= i64::MAX
    }

    /// Where column `col` of row group `i` starts in the body, if that was recorded.
    pub open spec fn rcix(self, i: int, col: int) -> Option<int> {
        if i < self.col_offsets@.len() && col < self.col_offsets@[i]@.len() {
            Some(self.col_offsets@[i]@[col] as int)
        } else {
            None
        }
    }

    /// The zone map of column `col` in row group `i`.
    pub open spec fn zone(self, i: int, col: int, ints: bool) -> Option<ZoneMap> {
        if i < self.zone_maps@.len() {
            zone_from(self.zone_maps@[i]@, col, ints, 0)
        } else {
            None
        }
    }

    /// Counts the rows in all row groups; `None` where they cannot be counted by the machine.
    pub fn count_rows(&self) -> (r: Option<usize>)
        ensures
            match r {
                None => !self.wf(),
                Some(n) => self.wf() && n == self.total_rows(),
            },
    {
        let mut i: usize = 0;
        let mut sum: usize = 0;
        while i < self.row_groups.len()
            invariant
                i <= self.row_groups@.len(),
                sum == rows_before(self.row_groups@, i as int),
            decreases self.row_groups@.len() - i,
        {
            let rows: usize = self.row_groups[i].row_count as usize;
            proof {
                rows_before_monotonic(self.row_groups@, i + 1, self.row_groups@.len() as int);
            }
            if rows > usize::MAX - sum {
                return None;
            }
            sum = sum + rows;
            i = i + 1;
        }
        if sum as u64 > i64::MAX as u64 {
            None
        } else {
            Some(sum)
        }
    }

    /// Where column `col` of row group `i` starts in the body, if that was recorded.
    pub fn column_offset(&self, i: usize, col: usize) -> (r: Option<u32>)
        ensures
            r is Some == self.rcix(i as int, col as int) is Some,
            r matches Some(o) ==> self.rcix(i as int, col as int) == Some(o as int),
    {
        if i < self.col_offsets.len() && col < self.col_offsets[i].len() {
            Some(self.col_offsets[i][col])
        } else {
            None
        }
    }

    /// The zone map of column `col` in row group `i`.
    pub fn zone_map(&self, i: usize, col: usize, ints: bool) -> (r: Option<ZoneMap>)
        ensures
            r == self.zone(i as int, col as int, ints),
    {
        if i < self.zone_maps.len() {
            find_zone(&self.zone_maps[i], col, ints)
        } else {
            None
        }
    }
}

} // verus!
