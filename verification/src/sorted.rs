//! String columns in ascending order: telling whether a column is one, and searching it.

use std::collections::HashMap;

use vstd::prelude::*;
use vstd::slice::{slice_subrange, slice_to_vec};

use crate::bytes::bitmap_len;
use crate::codec::ColumnCodec;
use crate::group::{get_tail, rg_bitmap_len, tail};
use crate::like::has_at;
use crate::model::{
    rows_before, rows_before_monotonic, RowGroupMeta, ScanError, V4Footer, COL_ENCODING_PLAIN,
    RG_COMPRESS_NONE,
};
use crate::numeric::{min2, min_u64};
use crate::order::{is_lex_less, lex_from, lex_less, lex_total, lex_transitive};
use crate::storage::OnDemandStorage;
use crate::text::{plain_text, read_plain_text, PlainText, TextSeq};
use crate::text_scan::{any_set, has_bits, header_byte};

verus! {

impl TextSeq {
    /// Value `i`, where it lies in the data.
    pub open spec fn value(self, i: int) -> Option<Seq<u8>> {
        if self.start(i) <= self.end(i) <= self.raw().len() {
            Some(self.raw().subrange(self.start(i), self.end(i)))
        } else {
            None
        }
    }
}

impl<'a> PlainText<'a> {
    /// Value `i`, where it lies in the data.
    pub fn value(&self, i: usize) -> (r: Option<&'a [u8]>)
        requires
            self.wf(),
            i < self.count,
        ensures
            match r {
                None => self@.value(i as int) is None,
                Some(v) => self@.value(i as int) == Some(v@),
            },
    {
        let raw: &'a [u8] = self.raw();
        let s: usize = self.start(i);
        let e: usize = self.end(i);
        if s <= e && e <= raw.len() {
            Some(slice_subrange(raw, s, e))
        } else {
            None
        }
    }
}

/// The bytes of row group `i` from column `col` on, its null bitmap first. `None` where the row
/// group is compressed, untagged or without the place of the column on record; `Err` where that
/// place lies outside of it.
pub open spec fn column_bytes(f: V4Footer, file: Seq<u8>, col: int, i: int) -> Result<
    Option<Seq<u8>>,
    ScanError,
> {
    let meta = f.row_groups@[i];
    if meta.offset + meta.data_size > file.len() || header_byte(meta, file, 28, RG_COMPRESS_NONE)
        != RG_COMPRESS_NONE || header_byte(meta, file, 29, 0) < 1 || f.rcix(i, col) is None {
        Ok(None)
    } else {
        let o = f.rcix(i, col)->0;
        if meta.data_size < 32 || o > meta.data_size - 32 {
            Err(ScanError::Corrupt)
        } else {
            Ok(Some(file.subrange(meta.offset + 32 + o, meta.offset + meta.data_size)))
        }
    }
}

/// Finds the bytes of row group `i` from column `col` on.
pub fn get_column_bytes<'a>(f: &V4Footer, file: &'a [u8], col: usize, i: usize) -> (r: Result<
    Option<&'a [u8]>,
    ScanError,
>)
    requires
        i < f.row_groups@.len(),
    ensures
        match r {
            Err(e) => column_bytes(*f, file@, col as int, i as int) == Err::<
                Option<Seq<u8>>,
                ScanError,
            >(e),
            Ok(None) => column_bytes(*f, file@, col as int, i as int) == Ok::<
                Option<Seq<u8>>,
                ScanError,
            >(None),
            Ok(Some(s)) => column_bytes(*f, file@, col as int, i as int) == Ok::<
                Option<Seq<u8>>,
                ScanError,
            >(Some(s@)),
        },
{
    let meta: RowGroupMeta = f.row_groups[i];
    let o: u32 = match f.column_offset(i, col) {
        None => {
            return Ok(None);
        },
        Some(o) => o,
    };
    if meta.offset as u128 + meta.data_size as u128 > file.len() as u128 {
        return Ok(None);
    }
    if meta.data_size <= 29 || file[(meta.offset + 28) as usize] != RG_COMPRESS_NONE
        || file[(meta.offset + 29) as usize] < 1 {
        return Ok(None);
    }
    if meta.data_size < 32 || o as u64 > meta.data_size - 32 {
        return Err(ScanError::Corrupt);
    }
    Ok(
        Some(
            slice_subrange(
                file,
                (meta.offset + 32 + o as u64) as usize,
                (meta.offset + meta.data_size) as usize,
            ),
        ),
    )
}

/// The plain strings of row group `i`; `nulls` leaves out row groups with missing values.
pub open spec fn sorted_text(f: V4Footer, file: Seq<u8>, col: int, nulls: bool, i: int) -> Result<
    Option<TextSeq>,
    ScanError,
> {
    let bm = bitmap_len(f.row_groups@[i].row_count as int);
    match column_bytes(f, file, col, i) {
        Err(e) => Err(e),
        Ok(None) => Ok(None),
        Ok(Some(s)) => if s.len() < bm + 1 || (nulls && has_bits(s.subrange(0, bm))) || s[bm]
            != COL_ENCODING_PLAIN {
            Ok(None)
        } else {
            Ok(plain_text(tail(s, bm + 1)))
        },
    }
}

fn get_sorted_text<'a>(f: &V4Footer, file: &'a [u8], col: usize, nulls: bool, i: usize) -> (r:
    Result<Option<PlainText<'a>>, ScanError>)
    requires
        i < f.row_groups@.len(),
    ensures
        match r {
            Err(e) => sorted_text(*f, file@, col as int, nulls, i as int) == Err::<
                Option<TextSeq>,
                ScanError,
            >(e),
            Ok(None) => sorted_text(*f, file@, col as int, nulls, i as int) == Ok::<
                Option<TextSeq>,
                ScanError,
            >(None),
            Ok(Some(t)) => sorted_text(*f, file@, col as int, nulls, i as int) == Ok::<
                Option<TextSeq>,
                ScanError,
            >(Some(t@)) && t.wf(),
        },
{
    let bm: u64 = rg_bitmap_len(f.row_groups[i].row_count);
    match get_column_bytes(f, file, col, i) {
        Err(e) => Err(e),
        Ok(None) => Ok(None),
        Ok(Some(s)) => {
            if (s.len() as u64) < bm + 1 {
                return Ok(None);
            }
            let b: usize = bm as usize;
            if (nulls && any_set(slice_subrange(s, 0, b))) || s[b] != COL_ENCODING_PLAIN {
                return Ok(None);
            }
            Ok(read_plain_text(get_tail(s, b + 1)))
        },
    }
}

/// How far a check for ascending order has come.
#[verifier::ext_equal]
pub enum Order {
    /// The order is broken.
    Broken,
    /// A value could not be read.
    Fail,
    /// In order, with the last value so far.
    Ascending(Option<Seq<u8>>),
}

/// The check over the first `k` values of a row group.
pub open spec fn order_in(t: TextSeq, before: Order, k: int) -> Order
    decreases k,
{
    if k <= 0 {
        before
    } else {
        match order_in(t, before, k - 1) {
            Order::Ascending(prev) => if t.end(k - 1) > t.raw().len() {
                Order::Broken
            } else {
                match t.value(k - 1) {
                    None => Order::Fail,
                    Some(v) => match prev {
                        Some(p) if lex_less(v, p) => Order::Broken,
                        _ => Order::Ascending(Some(v)),
                    },
                }
            },
            other => other,
        }
    }
}

/// The check over the first `k` row groups.
pub open spec fn order_upto(f: V4Footer, file: Seq<u8>, col: int, k: int) -> Order
    decreases k,
{
    if k <= 0 {
        Order::Ascending(None)
    } else {
        let before = order_upto(f, file, col, k - 1);
        let rows = f.row_groups@[k - 1].row_count as int;
        if !(before is Ascending) || rows == 0 {
            before
        } else {
            match sorted_text(f, file, col, true, k - 1) {
                Err(_) => Order::Fail,
                Ok(None) => Order::Broken,
                Ok(Some(t)) => order_in(t, before, min2(t.count, rows)),
            }
        }
    }
}

proof fn order_in_over(t: TextSeq, before: Order, j: int, k: int)
    requires
        0 <= j <= k,
        !(order_in(t, before, j) is Ascending),
    ensures
        order_in(t, before, k) == order_in(t, before, j),
    decreases k,
{
    if j < k {
        order_in_over(t, before, j, k - 1);
    }
}

proof fn order_upto_over(f: V4Footer, file: Seq<u8>, col: int, j: int, k: int)
    requires
        0 <= j <= k,
        !(order_upto(f, file, col, j) is Ascending),
    ensures
        order_upto(f, file, col, k) == order_upto(f, file, col, j),
    decreases k,
{
    if j < k {
        order_upto_over(f, file, col, j, k - 1);
    }
}

/// What a check for ascending order comes to.
pub open spec fn order_result(o: Order) -> Result<bool, ScanError> {
    match o {
        Order::Broken => Ok(false),
        Order::Fail => Err(ScanError::Corrupt),
        Order::Ascending(_) => Ok(true),
    }
}

/// The last value so far.
pub open spec fn prev_view(p: Option<&[u8]>) -> Option<Seq<u8>> {
    match p {
        None => None,
        Some(s) => Some(s@),
    }
}

/// Checks the values of a row group; the last value where they are in order.
fn check_order<'a>(t: &PlainText<'a>, n: usize, prev: Option<&'a [u8]>) -> (r: Result<
    Option<Option<&'a [u8]>>,
    ScanError,
>)
    requires
        t.wf(),
        n <= t.count,
    ensures
        match r {
            Err(e) => e == ScanError::Corrupt && order_in(
                t@,
                Order::Ascending(prev_view(prev)),
                n as int,
            ) is Fail,
            Ok(None) => order_in(t@, Order::Ascending(prev_view(prev)), n as int) is Broken,
            Ok(Some(p)) => order_in(t@, Order::Ascending(prev_view(prev)), n as int)
                == Order::Ascending(prev_view(p)),
        },
{
    let raw: &'a [u8] = t.raw();
    let ghost start = Order::Ascending(prev_view(prev));
    let mut last: Option<&'a [u8]> = prev;
    let mut i: usize = 0;
    while i < n
        invariant
            i <= n <= t.count,
            t.wf(),
            raw@ == t@.raw(),
            start == Order::Ascending(prev_view(prev)),
            order_in(t@, start, i as int) == Order::Ascending(prev_view(last)),
        decreases n - i,
    {
        if t.end(i) > raw.len() {
            proof {
                order_in_over(t@, start, i + 1, n as int);
            }
            return Ok(None);
        }
        match t.value(i) {
            None => {
                proof {
                    order_in_over(t@, start, i + 1, n as int);
                }
                return Err(ScanError::Corrupt);
            },
            Some(v) => {
                if let Some(p) = last {
                    if is_lex_less(v, p) {
                        proof {
                            order_in_over(t@, start, i + 1, n as int);
                        }
                        return Ok(None);
                    }
                }
                last = Some(v);
            },
        }
        i = i + 1;
    }
    Ok(Some(last))
}

/// What is remembered of the order of a column: when, in which state of the table, and whether.
pub struct SortedCache {
    pub entries: HashMap<u64, (u128, u64, bool)>,
}

impl View for SortedCache {
    type V = Map<u64, (u128, u64, bool)>;

    open spec fn view(&self) -> Map<u64, (u128, u64, bool)> {
        self.entries@
    }
}

impl<C: ColumnCodec> OnDemandStorage<C> {
    /// Whether a string column is in ascending order, as far as it can be told.
    pub open spec fn column_sorted(self, col: int) -> Result<bool, ScanError> {
        match (self.footer, self.file) {
            (Some(f), Some(file)) => order_result(
                order_upto(f, file@, col, f.row_groups@.len() as int),
            ),
            _ => Ok(false),
        }
    }

    /// Tells whether a plain string column without missing values is in ascending order.
    pub fn detect_column_sorted(&self, col_idx: usize) -> (r: Result<bool, ScanError>)
        ensures
            r == self.column_sorted(col_idx as int),
    {
        let (f, file): (&V4Footer, &[u8]) = match (&self.footer, &self.file) {
            (Some(f), Some(v)) => (f, v.as_slice()),
            _ => {
                return Ok(false);
            },
        };
        let ghost n = f.row_groups@.len() as int;
        let mut prev: Option<&[u8]> = None;
        let mut i: usize = 0;
        while i < f.row_groups.len()
            invariant
                i <= f.row_groups@.len(),
                n == f.row_groups@.len(),
                self.footer == Some(*f),
                self.file matches Some(v) && v@ == file@,
                order_upto(*f, file@, col_idx as int, i as int) == Order::Ascending(
                    prev_view(prev),
                ),
            decreases f.row_groups@.len() - i,
        {
            let rows: u32 = f.row_groups[i].row_count;
            if rows > 0 {
                match get_sorted_text(f, file, col_idx, true, i) {
                    Err(e) => {
                        proof {
                            order_upto_over(*f, file@, col_idx as int, i + 1, n);
                            assert(e == ScanError::Corrupt);
                        }
                        return Err(e);
                    },
                    Ok(None) => {
                        proof {
                            order_upto_over(*f, file@, col_idx as int, i + 1, n);
                        }
                        return Ok(false);
                    },
                    Ok(Some(t)) => {
                        let m: usize = min_u64(t.count as u64, rows as u64) as usize;
                        match check_order(&t, m, prev) {
                            Err(e) => {
                                proof {
                                    order_upto_over(*f, file@, col_idx as int, i + 1, n);
                                }
                                return Err(e);
                            },
                            Ok(None) => {
                                proof {
                                    order_upto_over(*f, file@, col_idx as int, i + 1, n);
                                }
                                return Ok(false);
                            },
                            Ok(Some(p)) => {
                                prev = p;
                            },
                        }
                    },
                }
            }
            i = i + 1;
        }
        Ok(true)
    }

    /// Whether what is remembered of a column still holds.
    pub open spec fn remembered(
        cache: Map<u64, (u128, u64, bool)>,
        mtime: u128,
        epoch: u64,
        col: int,
    ) -> Option<bool> {
        if cache.dom().contains(col as u64) && cache[col as u64].1 == epoch && cache[col as u64].0
            >= mtime {
            Some(cache[col as u64].2)
        } else {
            None
        }
    }

    /// Tells whether a string column is in ascending order, from memory where the file has not
    /// changed since. Without a time of the last change nothing is known.
    pub fn column_sorted_cached(
        &self,
        cache: &mut SortedCache,
        mtime: Option<u128>,
        epoch: u64,
        col_idx: usize,
    ) -> (r: bool)
        ensures
            match mtime {
                None => !r && final(cache)@ == old(cache)@,
                Some(m) => match Self::remembered(old(cache)@, m, epoch, col_idx as int) {
                    Some(b) => r == b && final(cache)@ == old(cache)@,
                    None => r == (self.column_sorted(col_idx as int) == Ok::<bool, ScanError>(true))
                        && final(cache)@ == old(cache)@.insert(col_idx as u64, (m, epoch, r)),
                },
            },
    {
        broadcast use vstd::std_specs::hash::group_hash_axioms;

        let m: u128 = match mtime {
            None => {
                return false;
            },
            Some(m) => m,
        };
        let key: u64 = col_idx as u64;
        if let Some(entry) = cache.entries.get(&key) {
            if entry.1 == epoch && entry.0 >= m {
                return entry.2;
            }
        }
        let sorted: bool = match self.detect_column_sorted(col_idx) {
            Err(_) => false,
            Ok(b) => b,
        };
        cache.entries.insert(key, (m, epoch, sorted));
        sorted
    }
}

/// The first of the values `lo..hi` that is not before `target`, found by halving; `None` where a
/// value that is looked at cannot be read.
pub open spec fn lower_in(t: TextSeq, target: Seq<u8>, lo: int, hi: int) -> Option<int>
    decreases hi - lo,
{
    if lo >= hi {
        Some(lo)
    } else {
        let mid = (lo + hi) / 2;
        match t.value(mid) {
            None => None,
            Some(v) => if lex_less(v, target) {
                lower_in(t, target, mid + 1, hi)
            } else {
                lower_in(t, target, lo, mid)
            },
        }
    }
}

fn get_lower_in(t: &PlainText, target: &[u8], n: usize) -> (r: Option<usize>)
    requires
        t.wf(),
        n <= t.count,
    ensures
        match r {
            None => lower_in(t@, target@, 0, n as int) is None,
            Some(p) => lower_in(t@, target@, 0, n as int) == Some(p as int) && p <= n,
        },
{
    let mut lo: usize = 0;
    let mut hi: usize = n;
    while lo < hi
        invariant
            lo <= hi <= n <= t.count,
            t.wf(),
            lower_in(t@, target@, 0, n as int) == lower_in(t@, target@, lo as int, hi as int),
        decreases hi - lo,
    {
        let mid: usize = lo + (hi - lo) / 2;
        assert(mid == (lo + hi) / 2);
        match t.value(mid) {
            None => {
                return None;
            },
            Some(v) => if is_lex_less(v, target) {
                lo = mid + 1;
            } else {
                hi = mid;
            },
        }
    }
    Some(lo)
}

/// The first row from row group `k` on whose value is not before `target`, with `global` rows
/// before it. The search ends at a row group whose strings are not plain.
pub open spec fn lower_from(
    f: V4Footer,
    file: Seq<u8>,
    col: int,
    target: Seq<u8>,
    k: int,
    global: int,
) -> Result<int, ScanError>
    decreases f.row_groups@.len() - k,
{
    if k >= f.row_groups@.len() {
        Ok(global)
    } else {
        let rows = f.row_groups@[k].row_count as int;
        if rows == 0 {
            lower_from(f, file, col, target, k + 1, global)
        } else {
            match sorted_text(f, file, col, false, k) {
                Err(e) => Err(e),
                Ok(None) => Ok(global),
                Ok(Some(t)) => {
                    let n = min2(t.count, rows);
                    if n == 0 {
                        lower_from(f, file, col, target, k + 1, global)
                    } else {
                        match (t.value(0), t.value(n - 1)) {
                            (Some(first), Some(last)) => if lex_less(last, target) {
                                lower_from(f, file, col, target, k + 1, global + n)
                            } else if !lex_less(first, target) {
                                Ok(global)
                            } else {
                                match lower_in(t, target, 0, n) {
                                    None => Err(ScanError::Corrupt),
                                    Some(p) => Ok(global + p),
                                }
                            },
                            _ => Err(ScanError::Corrupt),
                        }
                    }
                },
            }
        }
    }
}

/// The first bytes in order that come after all strings with a prefix: the prefix without the bytes 255
/// at its end, with its last byte counted up. `None` where nothing comes after them.
pub open spec fn after_prefix(p: Seq<u8>) -> Option<Seq<u8>>
    decreases p.len(),
{
    if p.len() == 0 {
        None
    } else if p.last() != 0xFF {
        Some(p.update(p.len() - 1, (p.last() + 1) as u8))
    } else {
        after_prefix(p.drop_last())
    }
}

fn get_after_prefix(p: &[u8]) -> (r: Option<Vec<u8>>)
    ensures
        match r {
            None => after_prefix(p@) is None,
            Some(v) => after_prefix(p@) == Some(v@),
        },
{
    let mut out: Vec<u8> = slice_to_vec(p);
    while out.len() > 0
        invariant
            after_prefix(p@) == after_prefix(out@),
        decreases out@.len(),
    {
        let last: usize = out.len() - 1;
        if out[last] != 0xFF {
            let b: u8 = out[last] + 1;
            let ghost was = out@;
            out.set(last, b);
            assert(out@ =~= was.update(was.len() - 1, (was.last() + 1) as u8));
            return Some(out);
        }
        let ghost was = out@;
        let _ = out.pop();
        assert(out@ =~= was.drop_last());
    }
    None
}

impl<C: ColumnCodec> OnDemandStorage<C> {
    /// The rows of a column in order whose value starts with `prefix`, by the first of them and the
    /// first row after them, which is the end of the table where no string comes after those with the
    /// prefix.
    pub open spec fn prefix_range(self, col: int, prefix: Seq<u8>) -> Result<
        Option<(int, int)>,
        ScanError,
    > {
        match (self.footer, self.file) {
            (Some(f), Some(file)) => match (
                lower_from(f, file@, col, prefix, 0, 0),
                match after_prefix(prefix) {
                    None => Ok(f.total_rows()),
                    Some(end) => lower_from(f, file@, col, end, 0, 0),
                },
            ) {
                (Ok(lo), Ok(hi)) => Ok(Some((lo, hi))),
                (Err(e), _) => Err(e),
                (_, Err(e)) => Err(e),
            },
            _ => Ok(None),
        }
    }

    /// Finds the first row of a column in order whose value is not before `target`.
    pub fn lower_bound_sorted(
        &self,
        col_idx: usize,
        target: &[u8],
        footer: &V4Footer,
        mmap_ref: &[u8],
    ) -> (r: Result<usize, ScanError>)
        requires
            footer.wf(),
        ensures
            match r {
                Err(e) => lower_from(*footer, mmap_ref@, col_idx as int, target@, 0, 0) == Err::<
                    int,
                    ScanError,
                >(e),
                Ok(p) => lower_from(*footer, mmap_ref@, col_idx as int, target@, 0, 0) == Ok::<
                    int,
                    ScanError,
                >(p as int) && p <= footer.total_rows(),
            },
    {
        let ghost want = lower_from(*footer, mmap_ref@, col_idx as int, target@, 0, 0);
        let mut global: usize = 0;
        let mut k: usize = 0;
        while k < footer.row_groups.len()
            invariant
                k <= footer.row_groups@.len(),
                footer.wf(),
                global <= rows_before(footer.row_groups@, k as int),
                want == lower_from(*footer, mmap_ref@, col_idx as int, target@, 0, 0),
                want == lower_from(
                    *footer,
                    mmap_ref@,
                    col_idx as int,
                    target@,
                    k as int,
                    global as int,
                ),
            decreases footer.row_groups@.len() - k,
        {
            let rows: u32 = footer.row_groups[k].row_count;
            proof {
                rows_before_monotonic(
                    footer.row_groups@,
                    k + 1,
                    footer.row_groups@.len() as int,
                );
            }
            if rows > 0 {
                match get_sorted_text(footer, mmap_ref, col_idx, false, k) {
                    Err(e) => {
                        return Err(e);
                    },
                    Ok(None) => {
                        return Ok(global);
                    },
                    Ok(Some(t)) => {
                        let n: usize = min_u64(t.count as u64, rows as u64) as usize;
                        if n > 0 {
                            match (t.value(0), t.value(n - 1)) {
                                (Some(first), Some(last)) => {
                                    if is_lex_less(last, target) {
                                        global = global + n;
                                    } else if !is_lex_less(first, target) {
                                        return Ok(global);
                                    } else {
                                        return match get_lower_in(&t, target, n) {
                                            None => Err(ScanError::Corrupt),
                                            Some(p) => Ok(global + p),
                                        };
                                    }
                                },
                                _ => {
                                    return Err(ScanError::Corrupt);
                                },
                            }
                        }
                    },
                }
            }
            k = k + 1;
        }
        Ok(global)
    }

    /// Finds the rows of a column in order whose value starts with `prefix`.
    pub fn prefix_like_range_sorted(&self, col_idx: usize, prefix: &[u8]) -> (r: Result<
        Option<(usize, usize)>,
        ScanError,
    >)
        requires
            self.wf(),
        ensures
            match r {
                Err(e) => self.prefix_range(col_idx as int, prefix@) == Err::<
                    Option<(int, int)>,
                    ScanError,
                >(e),
                Ok(None) => self.prefix_range(col_idx as int, prefix@) == Ok::<
                    Option<(int, int)>,
                    ScanError,
                >(None),
                Ok(Some((lo, hi))) => self.prefix_range(col_idx as int, prefix@) == Ok::<
                    Option<(int, int)>,
                    ScanError,
                >(Some((lo as int, hi as int))),
            },
    {
        let (f, file): (&V4Footer, &[u8]) = match (&self.footer, &self.file) {
            (Some(f), Some(v)) => (f, v.as_slice()),
            _ => {
                return Ok(None);
            },
        };
        let lo: usize = match self.lower_bound_sorted(col_idx, prefix, f, file) {
            Err(e) => {
                return Err(e);
            },
            Ok(p) => p,
        };
        match get_after_prefix(prefix) {
            None => match f.count_rows() {
                None => Ok(None),
                Some(hi) => Ok(Some((lo, hi))),
            },
            Some(end) => match self.lower_bound_sorted(col_idx, end.as_slice(), f, file) {
                Err(e) => Err(e),
                Ok(hi) => Ok(Some((lo, hi))),
            },
        }
    }
}

/// The values of the first `n` rows of a row group.
pub open spec fn texts_in(t: TextSeq, n: int) -> Seq<Seq<u8>> {
    Seq::new(n as nat, |i: int| t.value(i)->0)
}

/// The values of the rows of the first `k` row groups, one after the other.
pub open spec fn texts_upto(f: V4Footer, file: Seq<u8>, col: int, k: int) -> Seq<Seq<u8>>
    decreases k,
{
    if k <= 0 {
        Seq::empty()
    } else {
        let rows = f.row_groups@[k - 1].row_count as int;
        let before = texts_upto(f, file, col, k - 1);
        match sorted_text(f, file, col, true, k - 1) {
            Ok(Some(t)) if rows > 0 => before + texts_in(t, min2(t.count, rows)),
            _ => before,
        }
    }
}

/// Whether no string comes before an earlier one.
pub open spec fn in_order(s: Seq<Seq<u8>>) -> bool {
    forall|i: int, j: int| 0 <= i <= j < s.len() ==> !lex_less(#[trigger] s[j], #[trigger] s[i])
}

/// Not before is transitive.
proof fn lex_chain(a: Seq<u8>, b: Seq<u8>, c: Seq<u8>)
    requires
        !lex_less(b, a),
        !lex_less(c, b),
    ensures
        !lex_less(c, a),
{
    assert(a.take(0) =~= b.take(0));
    assert(b.take(0) =~= c.take(0));
    lex_total(a, b, 0);
    lex_total(b, c, 0);
    if lex_less(c, a) {
        if a == b {
        } else if b == c {
        } else {
            lex_transitive(a, b, c, 0);
            assert(a.take(0) =~= c.take(0));
            lex_total(a, c, 0);
        }
    }
}

/// One more string that does not come before the last one keeps the order.
proof fn in_order_push(s: Seq<Seq<u8>>, x: Seq<u8>)
    requires
        in_order(s),
        s.len() > 0 ==> !lex_less(x, s.last()),
    ensures
        in_order(s.push(x)),
{
    let r = s.push(x);
    assert forall|i: int, j: int| 0 <= i <= j < r.len() implies !lex_less(
        #[trigger] r[j],
        #[trigger] r[i],
    ) by {
        if j == s.len() && i < j {
            assert(!lex_less(s[s.len() - 1], s[i]));
            lex_chain(s[i], s[s.len() - 1], x);
        } else if j == s.len() {
            assert(x.take(0) =~= x.take(0));
            lex_total(x, x, 0);
        } else {
            assert(!lex_less(s[j], s[i]));
        }
    }
}

/// The last of some strings.
pub open spec fn last_of(s: Seq<Seq<u8>>) -> Option<Seq<u8>> {
    if s.len() == 0 {
        None
    } else {
        Some(s.last())
    }
}

/// A passed check within a row group.
proof fn order_in_facts(t: TextSeq, before: Seq<Seq<u8>>, k: int)
    requires
        0 <= k,
        in_order(before),
        order_in(t, Order::Ascending(last_of(before)), k) is Ascending,
    ensures
        in_order(before + texts_in(t, k)),
        order_in(t, Order::Ascending(last_of(before)), k) == Order::Ascending(
            last_of(before + texts_in(t, k)),
        ),
        forall|i: int| 0 <= i < k ==> (#[trigger] t.value(i)) is Some,
    decreases k,
{
    if k > 0 {
        order_in_facts(t, before, k - 1);
        let s = before + texts_in(t, k - 1);
        let v = t.value(k - 1)->0;
        assert(before + texts_in(t, k) =~= s.push(v));
        in_order_push(s, v);
    } else {
        assert(before + texts_in(t, k) =~= before);
    }
}

/// A passed check over row groups: the values are in order, and every one of them can be read.
proof fn order_upto_facts(f: V4Footer, file: Seq<u8>, col: int, k: int)
    requires
        0 <= k <= f.row_groups@.len(),
        order_upto(f, file, col, k) is Ascending,
    ensures
        in_order(texts_upto(f, file, col, k)),
        order_upto(f, file, col, k) == Order::Ascending(last_of(texts_upto(f, file, col, k))),
    decreases k,
{
    if k > 0 {
        order_upto_facts(f, file, col, k - 1);
        let rows = f.row_groups@[k - 1].row_count as int;
        if rows > 0 {
            let t = sorted_text(f, file, col, true, k - 1)->Ok_0->0;
            let before = texts_upto(f, file, col, k - 1);
            let n = min2(t.count, rows);
            if n >= 0 {
                order_in_facts(t, before, n);
            }
        }
    }
}

/// Halving finds the place of the target in values that are in order.
proof fn lower_in_facts(t: TextSeq, target: Seq<u8>, n: int, lo: int, hi: int)
    requires
        0 <= lo <= hi <= n,
        forall|i: int| 0 <= i < n ==> (#[trigger] t.value(i)) is Some,
        in_order(texts_in(t, n)),
        forall|i: int| 0 <= i < lo ==> lex_less(#[trigger] texts_in(t, n)[i], target),
        forall|i: int| hi <= i < n ==> !lex_less(#[trigger] texts_in(t, n)[i], target),
    ensures
        lower_in(t, target, lo, hi) matches Some(p) && lo <= p <= hi && (forall|i: int|
            0 <= i < p ==> lex_less(#[trigger] texts_in(t, n)[i], target)) && (forall|i: int|
            p <= i < n ==> !lex_less(#[trigger] texts_in(t, n)[i], target)),
    decreases hi - lo,
{
    if lo < hi {
        let s = texts_in(t, n);
        let mid = (lo + hi) / 2;
        assert(t.value(mid) is Some);
        let v = s[mid];
        if lex_less(v, target) {
            assert forall|i: int| 0 <= i < mid + 1 implies lex_less(#[trigger] s[i], target) by {
                before_target(s, target, i, mid);
            }
            lower_in_facts(t, target, n, mid + 1, hi);
        } else {
            assert forall|i: int| mid <= i < n implies !lex_less(#[trigger] s[i], target) by {
                if lex_less(s[i], target) {
                    before_target(s, target, mid, i);
                }
            }
            lower_in_facts(t, target, n, lo, mid);
        }
    }
}

/// What comes before a string that is before the target is before the target.
proof fn before_target(s: Seq<Seq<u8>>, target: Seq<u8>, i: int, j: int)
    requires
        in_order(s),
        0 <= i <= j < s.len(),
        lex_less(s[j], target),
    ensures
        lex_less(s[i], target),
{
    assert(!lex_less(s[j], s[i]));
    assert(s[i].take(0) =~= s[j].take(0));
    lex_total(s[i], s[j], 0);
    if s[i] != s[j] {
        lex_transitive(s[i], s[j], target, 0);
    }
}

/// Whether `p` splits `s` into the strings before the target and the others.
pub open spec fn splits(s: Seq<Seq<u8>>, target: Seq<u8>, p: int) -> bool {
    &&& 0 <= p <= s.len()
    &&& forall|i: int| 0 <= i < p ==> lex_less(#[trigger] s[i], target)
    &&& forall|i: int| p <= i < s.len() ==> !lex_less(#[trigger] s[i], target)
}

/// A row group that passed the check can be searched as well.
proof fn searched_as_checked(f: V4Footer, file: Seq<u8>, col: int, i: int)
    requires
        sorted_text(f, file, col, true, i) matches Ok(Some(_)),
    ensures
        sorted_text(f, file, col, false, i) == sorted_text(f, file, col, true, i),
{
}

/// Values are only added.
proof fn texts_upto_grows(f: V4Footer, file: Seq<u8>, col: int, j: int, k: int)
    requires
        0 <= j <= k,
    ensures
        texts_upto(f, file, col, j).len() <= texts_upto(f, file, col, k).len(),
        forall|i: int|
            0 <= i < texts_upto(f, file, col, j).len() ==> texts_upto(f, file, col, j)[i]
                == #[trigger] texts_upto(f, file, col, k)[i],
    decreases k,
{
    if j < k {
        texts_upto_grows(f, file, col, j, k - 1);
    }
}

/// The search over the row groups from `k` on.
proof fn lower_from_facts(f: V4Footer, file: Seq<u8>, col: int, target: Seq<u8>, k: int)
    requires
        0 <= k <= f.row_groups@.len(),
        order_upto(f, file, col, f.row_groups@.len() as int) is Ascending,
        forall|i: int|
            0 <= i < texts_upto(f, file, col, k).len() ==> lex_less(
                #[trigger] texts_upto(f, file, col, k)[i],
                target,
            ),
    ensures
        lower_from(
            f,
            file,
            col,
            target,
            k,
            texts_upto(f, file, col, k).len() as int,
        ) matches Ok(p) && splits(
            texts_upto(f, file, col, f.row_groups@.len() as int),
            target,
            p,
        ),
    decreases f.row_groups@.len() - k,
{
    let n = f.row_groups@.len() as int;
    let all = texts_upto(f, file, col, n);
    order_upto_facts(f, file, col, n);
    if k < n {
        if !(order_upto(f, file, col, k + 1) is Ascending) {
            order_upto_over(f, file, col, k + 1, n);
        }
        let before = texts_upto(f, file, col, k);
        let next = texts_upto(f, file, col, k + 1);
        texts_upto_grows(f, file, col, k + 1, n);
        order_upto_facts(f, file, col, k + 1);
        let rows = f.row_groups@[k].row_count as int;
        if rows == 0 {
            assert(next =~= before);
            lower_from_facts(f, file, col, target, k + 1);
        } else {
            if !(order_upto(f, file, col, k) is Ascending) {
                order_upto_over(f, file, col, k, k + 1);
            }
            let t = sorted_text(f, file, col, true, k)->Ok_0->0;
            searched_as_checked(f, file, col, k);
            let m = min2(t.count, rows);
            assert(t.count >= 0);
            if m == 0 {
                assert(next =~= before);
                lower_from_facts(f, file, col, target, k + 1);
            } else {
                order_upto_facts(f, file, col, k);
                order_in_facts(t, before, m);
                assert(t.value(0) is Some);
                assert(t.value(m - 1) is Some);
                let here = texts_in(t, m);
                assert forall|i: int| 0 <= i < m implies next[before.len() + i]
                    == #[trigger] here[i] by {}
                assert(in_order(here)) by {
                    assert forall|i: int, j: int| 0 <= i <= j < m implies !lex_less(
                        #[trigger] here[j],
                        #[trigger] here[i],
                    ) by {
                        assert(!lex_less(next[before.len() + j], next[before.len() + i]));
                    }
                }
                if lex_less(here[m - 1], target) {
                    assert forall|i: int| 0 <= i < next.len() implies lex_less(
                        #[trigger] next[i],
                        target,
                    ) by {
                        before_target(next, target, i, next.len() - 1);
                    }
                    assert(next.len() == before.len() + m);
                    lower_from_facts(f, file, col, target, k + 1);
                } else {
                    lower_in_facts(t, target, m, 0, m);
                    let p = if !lex_less(here[0], target) {
                        0
                    } else {
                        lower_in(t, target, 0, m)->0
                    };
                    assert forall|i: int| 0 <= i < before.len() + p implies lex_less(
                        #[trigger] all[i],
                        target,
                    ) by {
                        assert(all[i] == next[i]);
                        if i >= before.len() {
                            assert(next[i] == here[i - before.len()]);
                        }
                    }
                    let at = before.len() + p;
                    if p < m {
                        assert(!lex_less(here[p], target)) by {
                            if p == 0 && lex_less(here[0], target) {
                                assert(lower_in(t, target, 0, m) == Some(p));
                            }
                        }
                        assert(next[at as int] == here[p]);
                    } else {
                        assert(!lex_less(here[m - 1], target));
                    }
                    assert(p < m);
                    assert forall|i: int| at <= i < all.len() implies !lex_less(
                        #[trigger] all[i],
                        target,
                    ) by {
                        assert(all[at as int] == next[at as int]);
                        if lex_less(all[i], target) {
                            before_target(all, target, at as int, i);
                        }
                    }
                }
            }
        }
    }
}

/// In a column that is in order, the search gives the number of the rows whose value is before the
/// target.
pub proof fn law_lower_bound(f: V4Footer, file: Seq<u8>, col: int, target: Seq<u8>)
    requires
        order_upto(f, file, col, f.row_groups@.len() as int) is Ascending,
    ensures
        lower_from(f, file, col, target, 0, 0) matches Ok(p) && splits(
            texts_upto(f, file, col, f.row_groups@.len() as int),
            target,
            p,
        ),
{
    lower_from_facts(f, file, col, target, 0);
}

/// Whether a string comes before what comes after all strings with a prefix.
pub open spec fn before_end(s: Seq<u8>, p: Seq<u8>) -> bool {
    after_prefix(p) matches Some(end) ==> lex_less(s, end)
}

/// A string starts with a prefix exactly if it is not before the prefix but before what comes after
/// all strings with the prefix.
pub proof fn law_prefix_bounds(s: Seq<u8>, p: Seq<u8>)
    ensures
        has_at(s, p, 0) == (!lex_less(s, p) && before_end(s, p)),
    decreases p.len(),
{
    let n = p.len() as int;
    if n == 0 {
        assert(s.subrange(0, 0) =~= p);
    } else if p.last() != 0xFF {
        let q = p.update(n - 1, (p[n - 1] + 1) as u8);
        prefix_from(s, p, q, 0);
        starts_with(s, p);
    } else {
        let q = p.drop_last();
        law_prefix_bounds(s, q);
        starts_with(s, p);
        starts_with(s, q);
        longer_is_later(q, p, 0);
        if lex_less(s, q) {
            lex_transitive(s, q, p, 0);
        }
        if has_at(s, q, 0) {
            differs_last(s, p, 0);
        }
    }
}

/// What it means to start with a prefix.
proof fn starts_with(s: Seq<u8>, p: Seq<u8>)
    ensures
        has_at(s, p, 0) == (p.len() <= s.len() && forall|j: int| 0 <= j < p.len() ==> s[j] == p[j]),
{
    let n = p.len() as int;
    if has_at(s, p, 0) {
        assert forall|j: int| 0 <= j < n implies s[j] == p[j] by {
            assert(s.subrange(0, n)[j] == p[j]);
        }
    } else if n <= s.len() && (forall|j: int| 0 <= j < n ==> s[j] == p[j]) {
        assert(s.subrange(0, n) =~= p);
    }
}

proof fn longer_is_later(q: Seq<u8>, p: Seq<u8>, i: int)
    requires
        q.len() < p.len(),
        0 <= i <= q.len(),
        forall|j: int| 0 <= j < q.len() ==> q[j] == p[j],
    ensures
        lex_from(q, p, i),
    decreases q.len() - i,
{
    if i < q.len() {
        longer_is_later(q, p, i + 1);
    }
}

proof fn differs_last(s: Seq<u8>, p: Seq<u8>, i: int)
    requires
        p.len() > 0,
        0 <= i < p.len(),
        p.len() - 1 <= s.len(),
        forall|j: int| 0 <= j < p.len() - 1 ==> s[j] == p[j],
    ensures
        lex_from(s, p, i) == (s.len() < p.len() || s[p.len() - 1] < p[p.len() - 1]),
    decreases p.len() - i,
{
    if i < p.len() - 1 {
        differs_last(s, p, i + 1);
    } else if i < s.len() {
        assert(!lex_from(s, p, i + 1));
    }
}

proof fn prefix_from(s: Seq<u8>, p: Seq<u8>, q: Seq<u8>, i: int)
    requires
        p.len() > 0,
        p.last() != 0xFF,
        q == p.update(p.len() - 1, (p.last() + 1) as u8),
        0 <= i < p.len(),
        i <= s.len(),
        forall|j: int| 0 <= j < i ==> s[j] == p[j],
    ensures
        (!lex_from(s, p, i) && lex_from(s, q, i)) == (p.len() <= s.len() && forall|j: int|
            0 <= j < p.len() ==> s[j] == p[j]),
    decreases p.len() - i,
{
    let n = p.len() as int;
    if i < s.len() {
        if i < n - 1 {
            if s[i] == p[i] {
                prefix_from(s, p, q, i + 1);
            }
        } else {
            assert(!lex_from(s, p, n));
            if s[i] < p[i] {
            } else if s[i] > p[i] {
                if s[i] == q[i] {
                    assert(!lex_from(s, q, i + 1));
                }
            }
        }
    }
}

proof fn texts_within(f: V4Footer, file: Seq<u8>, col: int, k: int)
    requires
        0 <= k,
    ensures
        texts_upto(f, file, col, k).len() <= rows_before(f.row_groups@, k),
    decreases k,
{
    if k > 0 {
        texts_within(f, file, col, k - 1);
    }
}

/// In a column that is in order, the rows of the prefix range are those whose value starts with
/// the prefix.
pub proof fn law_prefix_range<C: ColumnCodec>(st: OnDemandStorage<C>, col: int, prefix: Seq<u8>)
    requires
        st.footer is Some,
        st.file is Some,
        st.column_sorted(col) == Ok::<bool, ScanError>(true),
    ensures
        st.prefix_range(col, prefix) matches Ok(Some((lo, hi))) && {
            let all = texts_upto(
                st.footer->0,
                st.file->0@,
                col,
                st.footer->0.row_groups@.len() as int,
            );
            forall|i: int|
                0 <= i < all.len() ==> (lo <= i < hi) == has_at(#[trigger] all[i], prefix, 0)
        },
{
    let f = st.footer->0;
    let file = st.file->0@;
    law_lower_bound(f, file, col, prefix);
    let all = texts_upto(f, file, col, f.row_groups@.len() as int);
    let lo = lower_from(f, file, col, prefix, 0, 0)->Ok_0;
    if let Some(q) = after_prefix(prefix) {
        law_lower_bound(f, file, col, q);
    }
    texts_within(f, file, col, f.row_groups@.len() as int);
    let (_, hi) = st.prefix_range(col, prefix)->Ok_0->0;
    assert forall|i: int| 0 <= i < all.len() implies (lo <= i < hi) == has_at(
        #[trigger] all[i],
        prefix,
        0,
    ) by {
        law_prefix_bounds(all[i], prefix);
        assert(lex_less(all[i], prefix) == (i < lo));
        if let Some(q) = after_prefix(prefix) {
            assert(lex_less(all[i], q) == (i < hi));
        }
    }
}

/// A column that is found to be sorted has its strings in order over all row groups.
pub proof fn law_sorted_in_order<C: ColumnCodec>(st: OnDemandStorage<C>, col: int)
    requires
        st.footer is Some,
        st.file is Some,
        st.column_sorted(col) == Ok::<bool, ScanError>(true),
    ensures
        in_order(
            texts_upto(
                st.footer->0,
                st.file->0@,
                col,
                st.footer->0.row_groups@.len() as int,
            ),
        ),
{
    let f = st.footer->0;
    order_upto_facts(f, st.file->0@, col, f.row_groups@.len() as int);
}

} // verus!
