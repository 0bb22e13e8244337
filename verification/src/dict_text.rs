//! The layout of a dictionary column that is stored as it is: the number of rows, the number of
//! values, an index for each row, an offset for each value, the length of the data, the data.

use vstd::prelude::*;
use vstd::slice::slice_subrange;

use crate::bytes::{read_u32, read_u64, u32_le, u64_le};
use crate::group::{get_tail, tail};
use crate::model::{bytes_eq, ScanError};
use crate::numeric::{min2, min_u64};
use crate::text::{plain_text, read_plain_text, PlainText, TextSeq};

verus! {

/// A dictionary column, taken apart.
#[verifier::ext_equal]
pub struct DictTextSeq {
    pub rows: int,
    pub size: int,
    pub indices: Seq<u8>,
    pub offsets: Seq<u8>,
    pub declared: int,
    pub raw: Seq<u8>,
}

/// A dictionary column, taken apart.
#[derive(Clone, Copy)]
pub struct DictText<'a> {
    pub rows: usize,
    pub size: usize,
    pub indices: &'a [u8],
    pub offsets: &'a [u8],
    pub declared: u64,
    pub raw: &'a [u8],
}

impl<'a> View for DictText<'a> {
    type V = DictTextSeq;

    open spec fn view(&self) -> DictTextSeq {
        DictTextSeq {
            rows: self.rows as int,
            size: self.size as int,
            indices: self.indices@,
            offsets: self.offsets@,
            declared: self.declared as int,
            raw: self.raw@,
        }
    }
}

impl DictTextSeq {
    /// The index of row `i`: 0 for a missing value, `k` for the `k`-th one.
    pub open spec fn index(self, i: int) -> int {
        u32_le(self.indices, i * 4) as int
    }

    /// Where value `k` starts, counted from 0.
    pub open spec fn start(self, k: int) -> int {
        u32_le(self.offsets, k * 4) as int
    }

    /// Where value `k` ends: where the next one starts, or with the data.
    pub open spec fn end(self, k: int) -> int {
        if k + 1 < self.size {
            u32_le(self.offsets, (k + 1) * 4) as int
        } else {
            self.raw.len() as int
        }
    }

    /// Value `k`, counted from 0, where it lies in the data.
    pub open spec fn value(self, k: int) -> Option<Seq<u8>> {
        if self.start(k) <= self.end(k) <= self.raw.len() {
            Some(self.raw.subrange(self.start(k), self.end(k)))
        } else {
            None
        }
    }

    /// The first value from `k` on that is `target`. A value that ends before it starts is a
    /// failure, and so is one of the right length that does not lie in the data.
    pub open spec fn find(self, target: Seq<u8>, k: int) -> Result<Option<int>, ScanError>
        decreases self.size - k,
    {
        if k >= self.size {
            Ok(None)
        } else if self.start(k) > self.end(k) {
            Err(ScanError::Corrupt)
        } else if self.end(k) - self.start(k) != target.len() {
            self.find(target, k + 1)
        } else if self.end(k) > self.raw.len() {
            Err(ScanError::Corrupt)
        } else if self.raw.subrange(self.start(k), self.end(k)) == target {
            Ok(Some(k))
        } else {
            self.find(target, k + 1)
        }
    }
}

/// The dictionary column in `data`; `None` where its head or the length of its data is not there,
/// a failure where indices or offsets are cut off.
pub open spec fn dict_text(data: Seq<u8>) -> Result<Option<DictTextSeq>, ScanError> {
    if data.len() < 16 {
        Ok(None)
    } else {
        let rows = u64_le(data, 0) as int;
        let size = u64_le(data, 8) as int;
        let mid = 16 + rows * 4;
        let at = mid + size * 4;
        if at > data.len() {
            Err(ScanError::Corrupt)
        } else if at + 8 > data.len() {
            Ok(None)
        } else {
            let rest = tail(data, at + 8);
            Ok(
                Some(
                    DictTextSeq {
                        rows,
                        size,
                        indices: data.subrange(16, mid),
                        offsets: data.subrange(mid, at),
                        declared: u64_le(data, at) as int,
                        raw: rest.subrange(0, min2(u64_le(data, at) as int, rest.len() as int)),
                    },
                ),
            )
        }
    }
}

/// Whether `r` is what the layout gives.
pub open spec fn dict_text_is(
    r: Result<Option<DictText>, ScanError>,
    want: Result<Option<DictTextSeq>, ScanError>,
) -> bool {
    match r {
        Err(e) => want == Err::<Option<DictTextSeq>, ScanError>(e),
        Ok(None) => want == Ok::<Option<DictTextSeq>, ScanError>(None),
        Ok(Some(d)) => want == Ok::<Option<DictTextSeq>, ScanError>(Some(d@)) && d.wf(),
    }
}

/// Takes a dictionary column apart.
pub fn read_dict_text<'a>(data: &'a [u8]) -> (r: Result<Option<DictText<'a>>, ScanError>)
    ensures
        dict_text_is(r, dict_text(data@)),
{
    if data.len() < 16 {
        return Ok(None);
    }
    let rows: u64 = read_u64(data, 0);
    let size: u64 = read_u64(data, 8);
    let mid: u128 = 16 + rows as u128 * 4;
    let at: u128 = mid + size as u128 * 4;
    if at > data.len() as u128 {
        return Err(ScanError::Corrupt);
    }
    if at + 8 > data.len() as u128 {
        return Ok(None);
    }
    let end: usize = at as usize;
    let rest: &'a [u8] = get_tail(data, end + 8);
    let n: usize = min_u64(read_u64(data, end), rest.len() as u64) as usize;
    Ok(
        Some(
            DictText {
                rows: rows as usize,
                size: size as usize,
                indices: slice_subrange(data, 16, mid as usize),
                offsets: slice_subrange(data, mid as usize, end),
                declared: read_u64(data, end),
                raw: slice_subrange(rest, 0, n),
            },
        ),
    )
}

impl<'a> DictText<'a> {
    /// Whether there is an index for each row and an offset for each value.
    pub open spec fn wf(self) -> bool {
        self.indices@.len() == self.rows * 4 && self.offsets@.len() == self.size * 4
    }

    /// The index of row `i`.
    pub fn index(&self, i: usize) -> (r: u32)
        requires
            self.wf(),
            i < self.rows,
        ensures
            r == self@.index(i as int),
    {
        assert((i + 1) * 4 <= self.indices.len());
        read_u32(self.indices, i * 4)
    }

    /// Where value `k` starts.
    pub fn start(&self, k: usize) -> (r: usize)
        requires
            self.wf(),
            k < self.size,
        ensures
            r == self@.start(k as int),
    {
        assert((k + 1) * 4 <= self.offsets.len());
        read_u32(self.offsets, k * 4) as usize
    }

    /// Where value `k` ends.
    pub fn end(&self, k: usize) -> (r: usize)
        requires
            self.wf(),
            k < self.size,
        ensures
            r == self@.end(k as int),
    {
        if k < self.size - 1 {
            assert((k + 2) * 4 <= self.offsets.len());
            read_u32(self.offsets, (k + 1) * 4) as usize
        } else {
            self.raw.len()
        }
    }

    /// Value `k`, where it lies in the data.
    pub fn value(&self, k: usize) -> (r: Option<&'a [u8]>)
        requires
            self.wf(),
            k < self.size,
        ensures
            match r {
                None => self@.value(k as int) is None,
                Some(v) => self@.value(k as int) == Some(v@),
            },
    {
        let s: usize = self.start(k);
        let e: usize = self.end(k);
        if s <= e && e <= self.raw.len() {
            Some(slice_subrange(self.raw, s, e))
        } else {
            None
        }
    }

    /// The first value that is `target`.
    pub fn find(&self, target: &[u8]) -> (r: Result<Option<usize>, ScanError>)
        requires
            self.wf(),
        ensures
            match r {
                Err(e) => self@.find(target@, 0) == Err::<Option<int>, ScanError>(e),
                Ok(None) => self@.find(target@, 0) == Ok::<Option<int>, ScanError>(None),
                Ok(Some(k)) => self@.find(target@, 0) == Ok::<Option<int>, ScanError>(
                    Some(k as int),
                ) && k < self.size,
            },
    {
        let mut k: usize = 0;
        while k < self.size
            invariant
                k <= self.size,
                self.wf(),
                self@.find(target@, 0) == self@.find(target@, k as int),
            decreases self.size - k,
        {
            let s: usize = self.start(k);
            let e: usize = self.end(k);
            if s > e {
                return Err(ScanError::Corrupt);
            }
            if e - s == target.len() {
                if e > self.raw.len() {
                    return Err(ScanError::Corrupt);
                }
                if bytes_eq(slice_subrange(self.raw, s, e), target) {
                    return Ok(Some(k));
                }
            }
            k = k + 1;
        }
        Ok(None)
    }
}

/// The plain string column in `data`, where cut off offsets are a failure.
pub open spec fn strict_text(data: Seq<u8>) -> Result<Option<TextSeq>, ScanError> {
    if data.len() >= 8 && 8 + (u64_le(data, 0) + 1) * 4 > data.len() {
        Err(ScanError::Corrupt)
    } else {
        Ok(plain_text(data))
    }
}

/// Reads a plain string column, where cut off offsets are a failure.
pub fn read_strict_text<'a>(data: &'a [u8]) -> (r: Result<Option<PlainText<'a>>, ScanError>)
    ensures
        match r {
            Err(e) => strict_text(data@) == Err::<Option<TextSeq>, ScanError>(e),
            Ok(None) => strict_text(data@) == Ok::<Option<TextSeq>, ScanError>(None),
            Ok(Some(t)) => strict_text(data@) == Ok::<Option<TextSeq>, ScanError>(Some(t@))
                && t.wf(),
        },
{
    if data.len() >= 8 && 8 + (read_u64(data, 0) as u128 + 1) * 4 > data.len() as u128 {
        return Err(ScanError::Corrupt);
    }
    Ok(read_plain_text(data))
}

} // verus!
