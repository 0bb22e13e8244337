//! Row groups: header, identifiers, deletion bitmap and the columns in the body.

use vstd::prelude::*;
use vstd::slice::slice_subrange;

use crate::bytes::{bitmap_len, read_u64, u64_le};
use crate::codec::ColumnCodec;
use crate::model::{
    OnDemandSchema, RowGroupMeta, ScanError, RG_COMPRESS_NONE, RG_HEADER,
    RG_IDS_IMPLICIT_CONTIGUOUS,
};

verus! {

/// `n` bytes from byte `a` on, if there are that many.
pub open spec fn window(s: Seq<u8>, a: int, n: int) -> Option<Seq<u8>> {
    if a + n <= s.len() {
        Some(s.subrange(a, a + n))
    } else {
        None
    }
}

/// The bytes from byte `a` on.
pub open spec fn tail(s: Seq<u8>, a: int) -> Seq<u8> {
    s.subrange(a, s.len() as int)
}

/// `n` bytes from byte `a` on, if there are that many.
pub fn get_window(s: &[u8], a: u64, n: u64) -> (r: Option<&[u8]>)
    ensures
        r is Some == window(s@, a as int, n as int) is Some,
        r matches Some(w) ==> window(s@, a as int, n as int) == Some(w@) && w@.len() == n
            && a + n <= s.len(),
{
    if a as u128 + n as u128 <= s.len() as u128 {
        Some(slice_subrange(s, a as usize, (a + n) as usize))
    } else {
        None
    }
}

/// The bytes from byte `a` on.
pub fn get_tail(s: &[u8], a: usize) -> (r: &[u8])
    requires
        a <= s.len(),
    ensures
        r@ == tail(s@, a as int),
        r@.len() == s@.len() - a,
{
    slice_subrange(s, a, s.len())
}

/// A row group that was read.
#[verifier::ext_equal]
pub struct GroupSeq {
    pub flag: u8,
    pub version: u8,
    pub ids: u8,
    pub body: Seq<u8>,
}

/// Length of the identifier section of `rows` rows.
pub open spec fn id_section(rows: int, ids: u8) -> int {
    if ids == RG_IDS_IMPLICIT_CONTIGUOUS {
        0
    } else {
        rows * 8
    }
}

/// The stored bytes of a row group with its header.
pub open spec fn stored_group(meta: RowGroupMeta, file: Seq<u8>) -> Result<Seq<u8>, ScanError> {
    if meta.offset + meta.data_size > file.len() {
        Err(ScanError::PastEof)
    } else if meta.data_size < RG_HEADER {
        Err(ScanError::Corrupt)
    } else {
        Ok(file.subrange(meta.offset as int, meta.offset + meta.data_size))
    }
}

/// The row group behind its stored bytes.
pub open spec fn group_of<C: ColumnCodec>(c: C, meta: RowGroupMeta, file: Seq<u8>) -> Result<
    GroupSeq,
    ScanError,
> {
    match stored_group(meta, file) {
        Err(e) => Err(e),
        Ok(s) => {
            let raw = tail(s, RG_HEADER as int);
            let body = if s[28] == RG_COMPRESS_NONE {
                Some(raw)
            } else {
                c.inflated(s[28], raw)
            };
            match body {
                None => Err(ScanError::Codec),
                Some(b) => Ok(GroupSeq { flag: s[28], version: s[29], ids: s[30], body: b }),
            }
        },
    }
}

/// A row group, borrowed from the file where it is not compressed.
pub struct Group<'a> {
    pub flag: u8,
    pub version: u8,
    pub ids: u8,
    pub stored: &'a [u8],
    pub inflated: Option<Vec<u8>>,
}

impl<'a> View for Group<'a> {
    type V = GroupSeq;

    open spec fn view(&self) -> GroupSeq {
        GroupSeq {
            flag: self.flag,
            version: self.version,
            ids: self.ids,
            body: match self.inflated {
                None => self.stored@,
                Some(v) => v@,
            },
        }
    }
}

impl<'a> Group<'a> {
    /// The body, uncompressed.
    pub fn body(&self) -> (r: &[u8])
        ensures
            r@ == self@.body,
    {
        match &self.inflated {
            None => self.stored,
            Some(v) => v.as_slice(),
        }
    }
}

/// The stored bytes of a row group with its header.
pub fn get_stored<'a>(meta: &RowGroupMeta, file: &'a [u8]) -> (r: Result<&'a [u8], ScanError>)
    ensures
        match r {
            Ok(s) => stored_group(*meta, file@) == Ok::<Seq<u8>, ScanError>(s@) && s@.len()
                == meta.data_size && s@.len() >= 32 && meta.offset + meta.data_size <= file.len(),
            Err(e) => stored_group(*meta, file@) == Err::<Seq<u8>, ScanError>(e),
        },
{
    if meta.offset as u128 + meta.data_size as u128 > file.len() as u128 {
        return Err(ScanError::PastEof);
    }
    if meta.data_size < RG_HEADER as u64 {
        return Err(ScanError::Corrupt);
    }
    Ok(slice_subrange(file, meta.offset as usize, (meta.offset + meta.data_size) as usize))
}

/// Reads a row group.
pub fn open_group<'a, C: ColumnCodec>(c: &C, meta: &RowGroupMeta, file: &'a [u8]) -> (r: Result<
    Group<'a>,
    ScanError,
>)
    ensures
        match r {
            Ok(g) => group_of(*c, *meta, file@) == Ok::<GroupSeq, ScanError>(g@),
            Err(e) => group_of(*c, *meta, file@) == Err::<GroupSeq, ScanError>(e),
        },
{
    let s: &'a [u8] = match get_stored(meta, file) {
        Ok(s) => s,
        Err(e) => {
            return Err(e);
        },
    };
    let stored: &'a [u8] = get_tail(s, RG_HEADER);
    let inflated: Option<Vec<u8>> = if s[28] == RG_COMPRESS_NONE {
        None
    } else {
        match c.decompress_rg_body(s[28], stored) {
            None => {
                return Err(ScanError::Codec);
            },
            Some(v) => Some(v),
        }
    };
    Ok(Group { flag: s[28], version: s[29], ids: s[30], stored, inflated })
}

/// Length of the identifier section of a row group.
pub fn rg_id_section_len(rows: u32, ids: u8) -> (r: u64)
    ensures
        r == id_section(rows as int, ids),
{
    if ids == RG_IDS_IMPLICIT_CONTIGUOUS {
        0
    } else {
        rows as u64 * 8
    }
}

/// Length of a bitmap with one bit for each row.
pub fn rg_bitmap_len(rows: u32) -> (r: u64)
    ensures
        r == bitmap_len(rows as int),
{
    (rows as u64 + 7) / 8
}

/// The identifier of row `i`, or `None` where the section does not reach that far.
pub open spec fn id_at(body: Seq<u8>, min_id: u64, ids: u8, i: int) -> Option<int> {
    if ids == RG_IDS_IMPLICIT_CONTIGUOUS {
        if min_id + i <= u64::MAX {
            Some(min_id + i)
        } else {
            None
        }
    } else if i * 8 + 8 <= body.len() {
        Some(u64_le(body, i * 8) as int)
    } else {
        None
    }
}

/// Reads the identifier of row `i`.
pub fn rg_id_at(body: &[u8], min_id: u64, ids: u8, i: u32) -> (r: Option<u64>)
    ensures
        r is Some == id_at(body@, min_id, ids, i as int) is Some,
        r matches Some(id) ==> id_at(body@, min_id, ids, i as int) == Some(id as int),
{
    if ids == RG_IDS_IMPLICIT_CONTIGUOUS {
        if min_id <= u64::MAX - i as u64 {
            Some(min_id + i as u64)
        } else {
            None
        }
    } else if i as u64 * 8 + 8 <= body.len() as u64 {
        Some(read_u64(body, i as usize * 8))
    } else {
        None
    }
}

/// Walks over the columns `from..to` of a body, each a null bitmap of `bm` bytes and the column.
/// Gives the position of column `to`, `None` where a null bitmap does not fit, and an error where
/// the codec cannot measure a column.
pub open spec fn walk<C: ColumnCodec>(
    c: C,
    schema: OnDemandSchema,
    tagged: bool,
    body: Seq<u8>,
    bm: int,
    from: int,
    pos: int,
    to: int,
) -> Result<Option<int>, ScanError>
    decreases to - from,
{
    if pos + bm > body.len() {
        Ok(None)
    } else if from >= to {
        Ok(Some(pos))
    } else {
        match c.extent(tagged, tail(body, pos + bm), schema.kind(from)) {
            None => Err(ScanError::Codec),
            Some(n) => walk(c, schema, tagged, body, bm, from + 1, pos + bm + n, to),
        }
    }
}

/// Walks over the columns `from..to` of a body.
pub fn walk_columns<C: ColumnCodec>(
    c: &C,
    schema: &OnDemandSchema,
    tagged: bool,
    body: &[u8],
    bm: u64,
    from: usize,
    pos: u64,
    to: usize,
) -> (r: Result<Option<usize>, ScanError>)
    requires
        from <= to <= schema.columns@.len(),
    ensures
        match r {
            Ok(Some(p)) => p + bm <= body.len() && walk(
                *c,
                *schema,
                tagged,
                body@,
                bm as int,
                from as int,
                pos as int,
                to as int,
            ) == Ok::<Option<int>, ScanError>(Some(p as int)),
            Ok(None) => walk(
                *c,
                *schema,
                tagged,
                body@,
                bm as int,
                from as int,
                pos as int,
                to as int,
            ) == Ok::<Option<int>, ScanError>(None),
            Err(e) => walk(
                *c,
                *schema,
                tagged,
                body@,
                bm as int,
                from as int,
                pos as int,
                to as int,
            ) == Err::<Option<int>, ScanError>(e),
        },
{
    let mut ci: usize = from;
    let mut at: u64 = pos;
    loop
        invariant
            from <= ci <= to <= schema.columns@.len(),
            walk(*c, *schema, tagged, body@, bm as int, from as int, pos as int, to as int) == walk(
                *c,
                *schema,
                tagged,
                body@,
                bm as int,
                ci as int,
                at as int,
                to as int,
            ),
        decreases to - ci,
    {
        if at as u128 + bm as u128 > body.len() as u128 {
            return Ok(None);
        }
        if ci >= to {
            return Ok(Some(at as usize));
        }
        let start: usize = (at + bm) as usize;
        match c.skip_column(tagged, get_tail(body, start), schema.columns[ci].1) {
            None => {
                return Err(ScanError::Codec);
            },
            Some(n) => {
                if n > body.len() - start {
                    assert(walk(
                        *c,
                        *schema,
                        tagged,
                        body@,
                        bm as int,
                        ci + 1,
                        start + n,
                        to as int,
                    ) == Ok::<Option<int>, ScanError>(None));
                    return Ok(None);
                }
                at = (start + n) as u64;
            },
        }
        ci = ci + 1;
    }
}

} // verus!
