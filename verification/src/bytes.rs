//! Little-endian words, bitmaps and packed integers inside byte slices.

use vstd::prelude::*;
use vstd::arithmetic::power2::{lemma2_to64, lemma2_to64_rest, lemma_pow2_strictly_increases, lemma_pow2_unfold, pow2};

verus! {

/// The 32-bit little-endian word at byte `o`.
pub open spec fn u32_le(s: Seq<u8>, o: int) -> nat {
    (s[o] + 0x100 * s[o + 1] + 0x1_0000 * s[o + 2] + 0x100_0000 * s[o + 3]) as nat
}

/// The 64-bit little-endian word at byte `o`.
pub open spec fn u64_le(s: Seq<u8>, o: int) -> nat {
    u32_le(s, o) + 0x1_0000_0000 * u32_le(s, o + 4)
}

/// A 64-bit word read as a two's complement number.
pub open spec fn signed(w: int) -> int {
    if w < 0x8000_0000_0000_0000 {
        w
    } else {
        w - 0x1_0000_0000_0000_0000
    }
}

/// The 64-bit two's complement little-endian number at byte `o`.
pub open spec fn i64_le(s: Seq<u8>, o: int) -> int {
    signed(u64_le(s, o) as int)
}

/// Whether bit `i` of the bitmap `s` is set; bits beyond the bitmap are clear.
pub open spec fn bit(s: Seq<u8>, i: int) -> bool {
    0 <= i / 8 < s.len() && (s[i / 8] >> ((i % 8) as u8)) & 1u8 == 1u8
}

/// Bytes that a bitmap of `n` bits takes.
pub open spec fn bitmap_len(n: int) -> int {
    (n + 7) / 8
}

/// Reads the word at byte `o`.
pub fn read_u32(s: &[u8], o: usize) -> (r: u32)
    requires
        o + 4 <= s.len(),
    ensures
        r == u32_le(s@, o as int),
{
    s[o] as u32 + 0x100 * (s[o + 1] as u32) + 0x1_0000 * (s[o + 2] as u32) + 0x100_0000 * (
    s[o + 3] as u32)
}

/// Reads the double word at byte `o`.
pub fn read_u64(s: &[u8], o: usize) -> (r: u64)
    requires
        o + 8 <= s.len(),
    ensures
        r == u64_le(s@, o as int),
{
    let low: u32 = read_u32(s, o);
    let high: u32 = read_u32(s, o + 4);
    low as u64 + 0x1_0000_0000 * (high as u64)
}

/// The two's complement number that the bits of `w` stand for.
pub fn as_signed(w: u64) -> (r: i64)
    ensures
        r == signed(w as int),
{
    if w < 0x8000_0000_0000_0000 {
        w as i64
    } else {
        (w - 0x8000_0000_0000_0000) as i64 - 0x7fff_ffff_ffff_ffff - 1
    }
}

/// Reads the signed double word at byte `o`.
pub fn read_i64(s: &[u8], o: usize) -> (r: i64)
    requires
        o + 8 <= s.len(),
    ensures
        r == i64_le(s@, o as int),
{
    as_signed(read_u64(s, o))
}

/// Tests bit `i` of a bitmap.
pub fn test_bit(s: &[u8], i: usize) -> (r: bool)
    ensures
        r == bit(s@, i as int),
{
    test_far_bit(s, i as u128)
}

/// Tests bit `i` of a bitmap, for positions beyond the range of an index too.
fn test_far_bit(s: &[u8], i: u128) -> (r: bool)
    ensures
        r == bit(s@, i as int),
{
    if i / 8 >= s.len() as u128 {
        return false;
    }
    let b: usize = (i / 8) as usize;
    (s[b] >> ((i % 8) as u8)) & 1u8 == 1u8
}

/// The first `n` signed words of `bytes`.
pub fn bytes_as_i64_slice(bytes: &[u8], n: usize) -> (r: Vec<i64>)
    requires
        n * 8 <= bytes.len(),
    ensures
        r@ == Seq::new(n as nat, |i: int| i64_le(bytes@, i * 8) as i64),
{
    let mut out: Vec<i64> = Vec::with_capacity(n);
    let mut i: usize = 0;
    while i < n
        invariant
            i <= n,
            n * 8 <= bytes.len(),
            out@ == Seq::new(i as nat, |k: int| i64_le(bytes@, k * 8) as i64),
        decreases n - i,
    {
        out.push(read_i64(bytes, i * 8));
        i = i + 1;
    }
    out
}

/// The first `n` 64-bit words of `bytes`.
pub fn bytes_as_u64_slice(bytes: &[u8], n: usize) -> (r: Vec<u64>)
    requires
        n * 8 <= bytes.len(),
    ensures
        r@ == Seq::new(n as nat, |i: int| u64_le(bytes@, i * 8) as u64),
{
    let mut out: Vec<u64> = Vec::with_capacity(n);
    let mut i: usize = 0;
    while i < n
        invariant
            i <= n,
            n * 8 <= bytes.len(),
            out@ == Seq::new(i as nat, |k: int| u64_le(bytes@, k * 8) as u64),
        decreases n - i,
    {
        out.push(read_u64(bytes, i * 8));
        i = i + 1;
    }
    out
}

/// The first `n` 32-bit words of `bytes`.
pub fn bytes_as_u32_slice(bytes: &[u8], n: usize) -> (r: Vec<u32>)
    requires
        n * 4 <= bytes.len(),
    ensures
        r@ == Seq::new(n as nat, |i: int| u32_le(bytes@, i * 4) as u32),
{
    let mut out: Vec<u32> = Vec::with_capacity(n);
    let mut i: usize = 0;
    while i < n
        invariant
            i <= n,
            n * 4 <= bytes.len(),
            out@ == Seq::new(i as nat, |k: int| u32_le(bytes@, k * 4) as u32),
        decreases n - i,
    {
        out.push(read_u32(bytes, i * 4));
        i = i + 1;
    }
    out
}

/// The word with index `index`, if the bytes reach that far.
pub fn u32_le_at(bytes: &[u8], index: usize) -> (r: Option<u32>)
    ensures
        r == (if index * 4 + 4 <= bytes@.len() {
            Some(u32_le(bytes@, index * 4) as u32)
        } else {
            None
        }),
{
    if index >= bytes.len() / 4 {
        return None;
    }
    Some(read_u32(bytes, index * 4))
}

/// Bisection over the words `left..right`: probes the middle word and goes on in the half that
/// can hold the target.
pub open spec fn bisect(bytes: Seq<u8>, left: int, right: int, target: u32) -> Option<usize>
    decreases right - left,
{
    if left >= right {
        None
    } else {
        let mid = left + (right - left) / 2;
        let v = u32_le(bytes, mid * 4);
        if v < target {
            bisect(bytes, mid + 1, right, target)
        } else if v > target {
            bisect(bytes, left, mid, target)
        } else {
            Some(mid as usize)
        }
    }
}

/// What a search among the first `n` words of `bytes` gives.
pub open spec fn search_words(bytes: Seq<u8>, n: int, target: u32) -> Option<usize> {
    if bytes.len() < n * 4 {
        None
    } else {
        bisect(bytes, 0, n, target)
    }
}

/// Whether the first `n` words ascend.
pub open spec fn words_sorted(bytes: Seq<u8>, n: int) -> bool {
    forall|i: int, j: int|
        0 <= i <= j < n ==> #[trigger] u32_le(bytes, i * 4) <= #[trigger] u32_le(bytes, j * 4)
}

/// Finds a word among the first `n` words of `bytes`, at any alignment.
pub fn binary_search_u32_le(bytes: &[u8], n: usize, target: u32) -> (r: Option<usize>)
    ensures
        r == search_words(bytes@, n as int, target),
{
    if n > bytes.len() / 4 {
        return None;
    }
    let mut left: usize = 0;
    let mut right: usize = n;
    while left < right
        invariant
            left <= right <= n,
            n * 4 <= bytes.len(),
            bisect(bytes@, 0, n as int, target) == bisect(
                bytes@,
                left as int,
                right as int,
                target,
            ),
        decreases right - left,
    {
        let mid: usize = left + (right - left) / 2;
        let value: u32 = read_u32(bytes, mid * 4);
        if value < target {
            left = mid + 1;
        } else if value > target {
            right = mid;
        } else {
            return Some(mid);
        }
    }
    None
}

/// A hit of a search is a word that equals the target.
pub proof fn bisect_hit(bytes: Seq<u8>, left: int, right: int, target: u32)
    requires
        0 <= left <= right <= usize::MAX,
    ensures
        bisect(bytes, left, right, target) matches Some(k) ==> left <= k < right && u32_le(
            bytes,
            k * 4,
        ) == target,
    decreases right - left,
{
    if left < right {
        let mid = left + (right - left) / 2;
        bisect_hit(bytes, mid + 1, right, target);
        bisect_hit(bytes, left, mid, target);
    }
}

/// In ascending words a search misses only what is not there.
pub proof fn bisect_complete(bytes: Seq<u8>, left: int, right: int, target: u32, k: int)
    requires
        words_sorted(bytes, right),
        0 <= left <= k < right <= usize::MAX,
        u32_le(bytes, k * 4) == target,
    ensures
        bisect(bytes, left, right, target) is Some,
    decreases right - left,
{
    let mid = left + (right - left) / 2;
    let v = u32_le(bytes, mid * 4);
    if v < target {
        if k <= mid {
            assert(u32_le(bytes, k * 4) <= u32_le(bytes, mid * 4));
        }
        bisect_complete(bytes, mid + 1, right, target, k);
    } else if v > target {
        if k >= mid {
            assert(u32_le(bytes, mid * 4) <= u32_le(bytes, k * 4));
        }
        assert(words_sorted(bytes, mid));
        bisect_complete(bytes, left, mid, target, k);
    }
}

/// Searching ascending words finds the target exactly when one of them equals it.
pub proof fn law_search_sorted_words(bytes: Seq<u8>, n: int, target: u32)
    requires
        0 <= n <= usize::MAX,
        n * 4 <= bytes.len(),
        words_sorted(bytes, n),
    ensures
        search_words(bytes, n, target) is Some <==> exists|k: int|
            0 <= k < n && #[trigger] u32_le(bytes, k * 4) == target,
        search_words(bytes, n, target) matches Some(k) ==> k < n && u32_le(bytes, k * 4) == target,
{
    bisect_hit(bytes, 0, n, target);
    if exists|k: int| 0 <= k < n && #[trigger] u32_le(bytes, k * 4) == target {
        let k = choose|k: int| 0 <= k < n && #[trigger] u32_le(bytes, k * 4) == target;
        bisect_complete(bytes, 0, n, target, k);
    }
}

/// The number that `width` bits of `s` starting at bit `pos` make up, lowest bit first.
pub open spec fn bit_field(s: Seq<u8>, pos: int, width: int) -> nat
    decreases width,
{
    if width <= 0 {
        0
    } else {
        (if bit(s, pos) {
            1nat
        } else {
            0nat
        }) + 2 * bit_field(s, pos + 1, width - 1)
    }
}

/// A field of `width` bits is below `2^width`.
pub proof fn bit_field_bound(s: Seq<u8>, pos: int, width: int)
    requires
        0 <= width,
    ensures
        bit_field(s, pos, width) < pow2(width as nat),
    decreases width,
{
    if width > 0 {
        bit_field_bound(s, pos + 1, width - 1);
        lemma_pow2_unfold(width as nat);
    } else {
        lemma2_to64();
    }
}

/// `x` brought into the range of a signed double word, modulo `2^64`.
pub open spec fn wrap_i64(x: int) -> int {
    if x > i64::MAX {
        x - 0x1_0000_0000_0000_0000
    } else {
        x
    }
}

/// Entry `idx` of integers packed at `width` bits each, relative to `min`.
pub open spec fn packed_value(packed: Seq<u8>, width: int, min: int, idx: int) -> Option<i64> {
    if width == 0 {
        Some(min as i64)
    } else if width >= 64 || idx * width > usize::MAX {
        None
    } else if bitmap_len(idx * width + width) > packed.len() {
        None
    } else {
        Some(wrap_i64(min + bit_field(packed, idx * width, width)) as i64)
    }
}

/// Reads entry `idx` of integers packed at `bit_width` bits each.
pub fn bitpack_value_at(packed: &[u8], bit_width: usize, min_val: i64, idx: usize) -> (r: Option<
    i64,
>)
    ensures
        r == packed_value(packed@, bit_width as int, min_val as int, idx as int),
{
    if bit_width == 0 {
        return Some(min_val);
    }
    if bit_width >= 64 {
        return None;
    }
    assert(0 <= idx * bit_width <= 0x1_0000_0000_0000_0000 * 64) by (nonlinear_arith)
        requires
            0 <= idx <= 0xffff_ffff_ffff_ffff,
            0 <= bit_width < 64,
    ;
    let pos: u128 = idx as u128 * bit_width as u128;
    if pos > usize::MAX as u128 {
        return None;
    }
    if (pos + bit_width as u128 + 7) / 8 > packed.len() as u128 {
        return None;
    }
    let mut left: usize = bit_width;
    let mut field: u64 = 0;
    while left > 0
        invariant
            left <= bit_width < 64,
            pos <= usize::MAX,
            field == bit_field(packed@, pos + left, bit_width - left),
        decreases left,
    {
        proof {
            bit_field_bound(packed@, pos + left, bit_width - left);
            lemma2_to64();
            lemma2_to64_rest();
            if bit_width - left < 62 {
                lemma_pow2_strictly_increases((bit_width - left) as nat, 62);
            }
        }
        left = left - 1;
        let low: u64 = if test_far_bit(packed, pos + left as u128) {
            1
        } else {
            0
        };
        field = 2 * field + low;
    }
    proof {
        bit_field_bound(packed@, pos as int, bit_width as int);
        lemma2_to64();
        lemma2_to64_rest();
        if bit_width < 63 {
            lemma_pow2_strictly_increases(bit_width as nat, 63);
        }
    }
    let sum: i128 = min_val as i128 + field as i128;
    if sum > i64::MAX as i128 {
        Some((sum - 0x1_0000_0000_0000_0000) as i64)
    } else {
        Some(sum as i64)
    }
}

} // verus!
