//! A scan for a string gives no row twice, and no row is given for two strings.

use vstd::prelude::*;

use crate::bytes::{bisect_hit, bitmap_len, search_words, u32_le};
use crate::codec::ColumnCodec;
use crate::column::{ColumnSeq, DictSeq};
use crate::group::{group_of, id_section, tail, walk, window};
use crate::model::{
    rows_before, rows_before_monotonic, ColumnType, ScanError, V4Footer,
    COL_ENCODING_COMPACT_DICTIONARY, COL_ENCODING_PLAIN, RG_COMPRESS_NONE,
};
use crate::numeric::{encoding_of, min2, tag_len};
use crate::order::{
    ascending_rows, ascending_rows_facts, ascending_strings, lex_less, lex_total,
};
use crate::outside::occurs_at;
use crate::range_laws::lies_in;
use crate::scan_laws::group_bounds;
use crate::select::{select, select_checked};
use crate::set_laws::{all_below, ascending_places, ascending_strings_facts, gives};
use crate::storage::OnDemandStorage;
use crate::text::{plain_text, TextSeq};
use crate::text_filter::{
    equal_decoded, equal_index, equal_plain, is_dictionary, positions, row_at, rows_by_position,
    sift, TextQuerySeq,
};

verus! {

/// Where the value of row `r` ends, 0 where that is not on record.
pub open spec fn end_of(t: TextSeq, r: int) -> int {
    if (r + 1) * 4 + 4 <= t.offsets.len() {
        u32_le(t.offsets, (r + 1) * 4) as int
    } else {
        0
    }
}

/// Whether row `r` of a plain column has a string.
pub open spec fn plain_has(t: TextSeq, target: Seq<u8>, r: int) -> bool {
    t.start(r) + target.len() == end_of(t, r) && occurs_at(t.raw(), target, t.start(r))
}

/// Whether row `r` of a dictionary column has the index of a string.
pub open spec fn index_has(d: DictSeq, target: Seq<u8>, r: int) -> bool {
    d.find(target) matches Some(k) && d.indices[r] == k
}

/// Whether row `r` of decoded strings has a string.
pub open spec fn decoded_has(offsets: Seq<u64>, data: Seq<u8>, target: Seq<u8>, r: int) -> bool {
    data.subrange(offsets[r] as int, offsets[r + 1] as int) == target
}

/// Whether row `r` of a column whose place was on record has a string.
pub open spec fn direct_has<C: ColumnCodec>(
    c: C,
    kind: ColumnType,
    col: Seq<u8>,
    target: Seq<u8>,
    r: int,
) -> bool {
    if col[0] == COL_ENCODING_PLAIN && kind is String {
        plain_text(tail(col, 1)) matches Some(t) && plain_has(t, target, r)
    } else if kind is String {
        c.decoded(true, col, kind) matches Some((ColumnSeq::String { offsets, data }, _))
            && decoded_has(offsets, data, target, r)
    } else {
        c.dictionary(col[0] == COL_ENCODING_COMPACT_DICTIONARY, tail(col, 1)) matches Some(d)
            && index_has(d, target, r)
    }
}

/// Whether row `r` of a column that a walk has reached has a string.
pub open spec fn reached_has<C: ColumnCodec>(
    c: C,
    kind: ColumnType,
    version: u8,
    col: Seq<u8>,
    target: Seq<u8>,
    r: int,
) -> bool {
    let encoding = encoding_of(version, col);
    let data = if tag_len(version) <= col.len() {
        tail(col, tag_len(version))
    } else {
        Seq::empty()
    };
    if encoding == COL_ENCODING_PLAIN && kind is String {
        plain_text(data) matches Some(t) && t.rest.subrange(t.start(r), t.end(r)) == target
    } else {
        c.dictionary(encoding == COL_ENCODING_COMPACT_DICTIONARY, data) matches Some(d)
            && index_has(d, target, r)
    }
}

/// Whether row `r` of row group `i` has a string.
pub open spec fn group_has<C: ColumnCodec>(
    c: C,
    f: V4Footer,
    file: Seq<u8>,
    col: int,
    i: int,
    target: Seq<u8>,
    r: int,
) -> bool {
    let meta = f.row_groups@[i];
    let rows = meta.row_count as int;
    let bm = bitmap_len(rows);
    let kind = f.schema.kind(col);
    group_of(c, meta, file) matches Ok(g) && if f.rcix(i, col) is Some && g.flag == RG_COMPRESS_NONE
        && g.version >= 1 {
        direct_has(c, kind, tail(g.body, f.rcix(i, col)->0 + bm), target, r)
    } else {
        walk(
            c,
            f.schema,
            g.version >= 1,
            g.body,
            bm,
            0,
            id_section(rows, g.ids) + bm,
            col,
        ) matches Ok(Some(p)) && reached_has(c, kind, g.version, tail(g.body, p + bm), target, r)
    }
}

/// What looking for a string in a dictionary finds has that string.
proof fn find_has(d: DictSeq, s: Seq<u8>, k: int)
    ensures
        d.find_from(s, k) matches Some(m) ==> d.value(m) == Some(s),
    decreases d.values.len() + 1 - k,
{
    if k <= d.values.len() && d.value(k) != Some(s) {
        find_has(d, s, k + 1);
    }
}

/// A row has one string at most.
proof fn one_string<C: ColumnCodec>(
    c: C,
    f: V4Footer,
    file: Seq<u8>,
    col: int,
    i: int,
    a: Seq<u8>,
    b: Seq<u8>,
    r: int,
)
    requires
        group_has(c, f, file, col, i, a, r),
        group_has(c, f, file, col, i, b, r),
    ensures
        a == b,
{
    assert forall|d: DictSeq| index_has(d, a, r) && #[trigger] index_has(d, b, r) implies a == b by {
        find_has(d, a, 1);
        find_has(d, b, 1);
    }
}

/// Whether `v` is `acc` followed by rows from `base` on, each once and each of a kind.
pub open spec fn added(
    acc: Seq<usize>,
    v: Seq<usize>,
    base: int,
    n: int,
    kind: spec_fn(int) -> bool,
) -> bool {
    &&& acc.len() <= v.len()
    &&& forall|k: int| 0 <= k < acc.len() ==> #[trigger] v[k] == acc[k]
    &&& forall|k: int|
        acc.len() <= k < v.len() ==> base <= #[trigger] v[k] < base + n && kind(v[k] - base)
    &&& forall|j: int, k: int|
        acc.len() <= j < k < v.len() ==> #[trigger] v[j] != #[trigger] v[k]
}

proof fn select_added(
    hit: spec_fn(int) -> bool,
    n: int,
    m: int,
    base: int,
    acc: Seq<usize>,
    max: int,
    kind: spec_fn(int) -> bool,
)
    requires
        0 <= base,
        n <= m,
        base + m <= usize::MAX,
        forall|r: int| 0 <= r < n && #[trigger] hit(r) ==> kind(r),
    ensures
        added(acc, select(hit, n, base, acc, max), base, if n > 0 {
            n
        } else {
            0
        }, kind),
    decreases n,
{
    if n > 0 {
        select_added(hit, n - 1, m, base, acc, max, kind);
        let before = select(hit, n - 1, base, acc, max);
        let v = select(hit, n, base, acc, max);
        assert forall|k: int| acc.len() <= k < v.len() implies base <= #[trigger] v[k] < base + n
            && kind(v[k] - base) by {
            if k < before.len() {
                assert(v[k] == before[k]);
            } else {
                assert(hit(n - 1));
            }
        }
        assert forall|j: int, k: int| acc.len() <= j < k < v.len() implies #[trigger] v[j]
            != #[trigger] v[k] by {
            assert(v[j] == before[j]);
            if k < before.len() {
                assert(v[k] == before[k]);
            }
        }
    }
}

proof fn select_checked_added(
    hit: spec_fn(int) -> Option<bool>,
    n: int,
    m: int,
    base: int,
    acc: Seq<usize>,
    max: int,
    kind: spec_fn(int) -> bool,
)
    requires
        0 <= base,
        n <= m,
        base + m <= usize::MAX,
        forall|r: int| 0 <= r < n && #[trigger] hit(r) == Some(true) ==> kind(r),
    ensures
        select_checked(hit, n, base, acc, max) matches Some(v) ==> added(acc, v, base, if n > 0 {
            n
        } else {
            0
        }, kind),
    decreases n,
{
    if n > 0 {
        select_checked_added(hit, n - 1, m, base, acc, max, kind);
        if let Some(v) = select_checked(hit, n, base, acc, max) {
            let before = select_checked(hit, n - 1, base, acc, max)->0;
            assert forall|k: int| acc.len() <= k < v.len() implies base <= #[trigger] v[k] < base
                + n && kind(v[k] - base) by {
                if k < before.len() {
                    assert(v[k] == before[k]);
                } else {
                    assert(hit(n - 1) == Some(true));
                }
            }
            assert forall|j: int, k: int| acc.len() <= j < k < v.len() implies #[trigger] v[j]
                != #[trigger] v[k] by {
                assert(v[j] == before[j]);
                if k < before.len() {
                    assert(v[k] == before[k]);
                }
            }
        }
    }
}

/// Searching the data gives each row once: the position tells the row, and the row the position.
proof fn sift_added(
    t: TextSeq,
    target: Seq<u8>,
    m: int,
    del: Option<Seq<u8>>,
    nulls: Seq<u8>,
    n: int,
    base: int,
    acc: Seq<usize>,
    max: int,
)
    requires
        0 <= base,
        0 <= m,
        base + m <= usize::MAX,
        0 <= t.count <= usize::MAX,
    ensures
        ({
            let v = sift(rows_by_position(t, target, m, del, nulls), n, base, acc, max);
            &&& added(acc, v, base, m, |r: int| plain_has(t, target, r))
            &&& forall|k: int| acc.len() <= k < v.len() ==> t.start(#[trigger] v[k] - base) < n
        }),
    decreases n,
{
    let pick = rows_by_position(t, target, m, del, nulls);
    let key = |r: int| plain_has(t, target, r);
    if n > 0 {
        sift_added(t, target, m, del, nulls, n - 1, base, acc, max);
        let before = sift(pick, n - 1, base, acc, max);
        let v = sift(pick, n, base, acc, max);
        let p = n - 1;
        if let Some(row) = pick(p) {
            assert(row_at(t, target, m, del, nulls, p) == Some(row));
            let w = (p % 0x1_0000_0000) as u32;
            bisect_hit(t.offsets, 0, t.count, w);
            assert(search_words(t.offsets, t.count, w) matches Some(x) && x == row);
            assert(p + target.len() == end_of(t, row));
            assert(end_of(t, row) <= 0xffff_ffff) by {
                if (row + 1) * 4 + 4 <= t.offsets.len() {
                    word_bound(t.offsets, (row + 1) * 4);
                }
            }
            assert(p < 0x1_0000_0000);
            assert(p % 0x1_0000_0000 == p);
            assert(t.start(row) == p);
            assert(key(row));
            assert forall|k: int| acc.len() <= k < v.len() implies base <= #[trigger] v[k] < base
                + m && key(v[k] - base) by {
                if k < before.len() {
                    assert(v[k] == before[k]);
                }
            }
            assert forall|j: int, k: int| acc.len() <= j < k < v.len() implies #[trigger] v[j]
                != #[trigger] v[k] by {
                assert(v[j] == before[j]);
                if k < before.len() {
                    assert(v[k] == before[k]);
                } else {
                    assert(t.start(before[j] - base) < p);
                }
            }
            assert forall|k: int| acc.len() <= k < v.len() implies t.start(#[trigger] v[k] - base)
                < n by {
                if k < before.len() {
                    assert(v[k] == before[k]);
                }
            }
        }
    }
}

pub(crate) proof fn word_bound(s: Seq<u8>, o: int)
    ensures
        u32_le(s, o) <= 0xffff_ffff,
{
}

proof fn same_kind(
    acc: Seq<usize>,
    v: Seq<usize>,
    base: int,
    n: int,
    m: int,
    a: spec_fn(int) -> bool,
    b: spec_fn(int) -> bool,
)
    requires
        added(acc, v, base, n, a),
        n <= m,
        forall|r: int| #[trigger] a(r) ==> b(r),
    ensures
        added(acc, v, base, m, b),
{
    assert forall|k: int| acc.len() <= k < v.len() implies base <= #[trigger] v[k] < base + m && b(
        v[k] - base,
    ) by {
        assert(a(v[k] - base));
    }
}

proof fn added_itself(acc: Seq<usize>, base: int, n: int, kind: spec_fn(int) -> bool)
    ensures
        added(acc, acc, base, n, kind),
{
}

impl TextQuerySeq {
    proof fn dictionary_added<C: ColumnCodec>(
        self,
        c: C,
        encoding: u8,
        data: Seq<u8>,
        rows: int,
        del: Option<Seq<u8>>,
        base: int,
        acc: Seq<usize>,
        kind: spec_fn(int) -> bool,
    )
        requires
            0 <= base,
            0 <= rows,
            base + rows <= usize::MAX,
            c.dictionary(encoding == COL_ENCODING_COMPACT_DICTIONARY, data) matches Some(d)
                ==> forall|r: int| #[trigger] index_has(d, self.target, r) ==> kind(r),
        ensures
            self.dictionary(c, encoding, data, rows, del, base, acc) matches Ok(v) ==> added(
                acc,
                v,
                base,
                rows,
                kind,
            ),
    {
        added_itself(acc, base, rows, kind);
        if let Some(d) = c.dictionary(encoding == COL_ENCODING_COMPACT_DICTIONARY, data) {
            if let Some(k) = d.find(self.target) {
                let n = min2(d.indices.len() as int, rows);
                let hit = equal_index(d, k, del);
                assert forall|r: int| 0 <= r < n && #[trigger] hit(r) implies kind(r) by {
                    assert(index_has(d, self.target, r));
                }
                select_added(hit, n, rows, base, acc, self.max, kind);
                let v = select(hit, n, base, acc, self.max);
                same_kind(acc, v, base, if n > 0 {
                    n
                } else {
                    0
                }, rows, kind, kind);
            }
        }
    }

    proof fn direct_added<C: ColumnCodec>(
        self,
        c: C,
        kind: ColumnType,
        rows: int,
        del: Option<Seq<u8>>,
        nulls: Seq<u8>,
        col: Seq<u8>,
        base: int,
        acc: Seq<usize>,
    )
        requires
            0 <= base,
            0 <= rows,
            base + rows <= usize::MAX,
            col.len() <= usize::MAX,
        ensures
            self.direct(c, kind, rows, del, nulls, col, base, acc) matches Ok(v) ==> added(
                acc,
                v,
                base,
                rows,
                |r: int| direct_has(c, kind, col, self.target, r),
            ),
    {
        let key = |r: int| direct_has(c, kind, col, self.target, r);
        let data = tail(col, 1);
        added_itself(acc, base, rows, key);
        if col.len() == 0 {
        } else if col[0] == COL_ENCODING_PLAIN && kind is String {
            if let Some(t) = plain_text(data) {
                let m = min2(t.count, rows);
                assert(t.count <= usize::MAX);
                sift_added(t, self.target, m, del, nulls, positions(t.raw()), base, acc, self.max);
                let v = sift(
                    rows_by_position(t, self.target, m, del, nulls),
                    positions(t.raw()),
                    base,
                    acc,
                    self.max,
                );
                let a = |r: int| plain_has(t, self.target, r);
                same_kind(acc, v, base, m, rows, a, key);
            }
        } else if kind is String {
            if let Some((ColumnSeq::String { offsets, data: bytes }, _)) = c.decoded(
                true,
                col,
                kind,
            ) {
                let n = min2(
                    if offsets.len() > 0 {
                        offsets.len() - 1
                    } else {
                        0
                    },
                    rows,
                );
                let hit = equal_decoded(offsets, bytes, self.target, del, nulls);
                select_checked_added(hit, n, rows, base, acc, self.max, key);
                if let Some(v) = select_checked(hit, n, base, acc, self.max) {
                    same_kind(acc, v, base, if n > 0 {
                        n
                    } else {
                        0
                    }, rows, key, key);
                }
            }
        } else {
            self.dictionary_added(c, col[0], data, rows, del, base, acc, key);
        }
    }

    proof fn reached_added<C: ColumnCodec>(
        self,
        c: C,
        kind: ColumnType,
        version: u8,
        rows: int,
        del: Option<Seq<u8>>,
        col: Seq<u8>,
        base: int,
        acc: Seq<usize>,
    )
        requires
            0 <= base,
            0 <= rows,
            base + rows <= usize::MAX,
        ensures
            self.reached(c, kind, version, rows, del, col, base, acc) matches Ok(v) ==> added(
                acc,
                v,
                base,
                rows,
                |r: int| reached_has(c, kind, version, col, self.target, r),
            ),
    {
        let key = |r: int| reached_has(c, kind, version, col, self.target, r);
        let encoding = encoding_of(version, col);
        let data = if tag_len(version) <= col.len() {
            tail(col, tag_len(version))
        } else {
            Seq::empty()
        };
        added_itself(acc, base, rows, key);
        if encoding == COL_ENCODING_PLAIN && kind is String {
            if let Some(t) = plain_text(data) {
                let n = min2(t.count, rows);
                let hit = equal_plain(t, self.target, del);
                select_checked_added(hit, n, rows, base, acc, self.max, key);
                if let Some(v) = select_checked(hit, n, base, acc, self.max) {
                    same_kind(acc, v, base, if n > 0 {
                        n
                    } else {
                        0
                    }, rows, key, key);
                }
            }
        } else if is_dictionary(kind, encoding) {
            self.dictionary_added(c, encoding, data, rows, del, base, acc, key);
        }
    }

    /// A row group adds rows that have the string, each once.
    pub(crate) proof fn group_added<C: ColumnCodec>(
        self,
        c: C,
        f: V4Footer,
        file: Seq<u8>,
        i: int,
        acc: Seq<usize>,
    )
        requires
            f.wf(),
            file.len() <= usize::MAX,
            0 <= i < f.row_groups@.len(),
        ensures
            self.group(c, f, file, i, acc) matches Ok(v) ==> added(
                acc,
                v,
                rows_before(f.row_groups@, i),
                f.row_groups@[i].row_count as int,
                |r: int| group_has(c, f, file, self.col, i, self.target, r),
            ),
    {
        group_bounds(f, i);
        let meta = f.row_groups@[i];
        let rows = meta.row_count as int;
        let bm = bitmap_len(rows);
        let base = rows_before(f.row_groups@, i);
        let kind = f.schema.kind(self.col);
        let key = |r: int| group_has(c, f, file, self.col, i, self.target, r);
        added_itself(acc, base, rows, key);
        if let Ok(g) = group_of(c, meta, file) {
            if let Some(w) = window(g.body, id_section(rows, g.ids), bm) {
                let del = if meta.deletion_count > 0 {
                    Some(w)
                } else {
                    None
                };
                if f.rcix(i, self.col) is Some && g.flag == RG_COMPRESS_NONE && g.version >= 1 {
                    let o = f.rcix(i, self.col)->0;
                    if let Some(nulls) = window(g.body, o, bm) {
                        let col = tail(g.body, o + bm);
                        self.direct_added(c, kind, rows, del, nulls, col, base, acc);
                        if let Ok(v) = self.direct(c, kind, rows, del, nulls, col, base, acc) {
                            let a = |r: int| direct_has(c, kind, col, self.target, r);
                            same_kind(acc, v, base, rows, rows, a, key);
                        }
                    }
                } else if let Ok(Some(p)) = walk(
                    c,
                    f.schema,
                    g.version >= 1,
                    g.body,
                    bm,
                    0,
                    id_section(rows, g.ids) + bm,
                    self.col,
                ) {
                    let col = tail(g.body, p + bm);
                    self.reached_added(c, kind, g.version, rows, del, col, base, acc);
                    if let Ok(v) = self.reached(c, kind, g.version, rows, del, col, base, acc) {
                        let a = |r: int| reached_has(c, kind, g.version, col, self.target, r);
                        same_kind(acc, v, base, rows, rows, a, key);
                    }
                }
            }
        }
    }

    /// A scan for a string gives rows that have it, and none of them twice.
    pub proof fn law_rows_once<C: ColumnCodec>(self, c: C, f: V4Footer, file: Seq<u8>, k: int)
        requires
            f.wf(),
            file.len() <= usize::MAX,
            0 <= k <= f.row_groups@.len(),
        ensures
            self.scan(c, f, file, k) matches Ok(v) ==> {
                &&& v.no_duplicates()
                &&& forall|j: int|
                    0 <= j < v.len() ==> #[trigger] v[j] < rows_before(f.row_groups@, k)
                        && row_has_string(c, f, file, self.col, self.target, v[j])
            },
        decreases k,
    {
        if k > 0 {
            let i = k - 1;
            self.law_rows_once(c, f, file, i);
            group_bounds(f, i);
            if let Ok(acc) = self.scan(c, f, file, i) {
                self.group_added(c, f, file, i, acc);
                if let Ok(v) = self.scan(c, f, file, k) {
                    let base = rows_before(f.row_groups@, i);
                    assert forall|j: int| 0 <= j < v.len() implies #[trigger] v[j] < rows_before(
                        f.row_groups@,
                        k,
                    ) && row_has_string(c, f, file, self.col, self.target, v[j]) by {
                        if j < acc.len() {
                            assert(v[j] == acc[j]);
                        } else {
                            assert(lies_in(f, i, v[j] as int));
                        }
                    }
                    assert forall|a: int, b: int| 0 <= a < b < v.len() implies v[a] != v[b] by {
                        if b < acc.len() {
                            assert(v[a] == acc[a] && v[b] == acc[b]);
                        } else if a < acc.len() {
                            assert(v[a] == acc[a]);
                            assert(acc[a] < base);
                            assert(base <= v[b]);
                        }
                    }
                }
            }
        }
    }
}

/// Whether a row of the store has a string in a column.
pub open spec fn row_has_string<C: ColumnCodec>(
    c: C,
    f: V4Footer,
    file: Seq<u8>,
    col: int,
    target: Seq<u8>,
    row: usize,
) -> bool {
    exists|i: int| #[trigger]
        lies_in(f, i, row as int) && group_has(
            c,
            f,
            file,
            col,
            i,
            target,
            row - rows_before(f.row_groups@, i),
        )
}

/// No row has two strings in a column.
pub proof fn law_one_string_per_row<C: ColumnCodec>(
    c: C,
    f: V4Footer,
    file: Seq<u8>,
    col: int,
    a: Seq<u8>,
    b: Seq<u8>,
    row: usize,
)
    requires
        row_has_string(c, f, file, col, a, row),
        row_has_string(c, f, file, col, b, row),
    ensures
        a == b,
{
    let i = choose|i: int| #[trigger]
        lies_in(f, i, row as int) && group_has(
            c,
            f,
            file,
            col,
            i,
            a,
            row - rows_before(f.row_groups@, i),
        );
    let j = choose|j: int| #[trigger]
        lies_in(f, j, row as int) && group_has(
            c,
            f,
            file,
            col,
            j,
            b,
            row - rows_before(f.row_groups@, j),
        );
    if i < j {
        rows_before_monotonic(f.row_groups@, i + 1, j);
    } else if j < i {
        rows_before_monotonic(f.row_groups@, j + 1, i);
    }
    one_string(c, f, file, col, i, a, b, row - rows_before(f.row_groups@, i));
}

/// Sequences without repetition that hold the same rows are as long as each other.
proof fn same_length(a: Seq<usize>, b: Seq<usize>)
    requires
        a.no_duplicates(),
        b.no_duplicates(),
        forall|row: usize| #[trigger] a.contains(row) == b.contains(row),
    ensures
        a.len() == b.len(),
{
    a.unique_seq_to_set();
    b.unique_seq_to_set();
    assert forall|row: usize| #[trigger] a.to_set().contains(row) == b.to_set().contains(row) by {
        assert(a.contains(row) == b.contains(row));
    }
    assert(a.to_set() =~= b.to_set());
}

/// Strings in ascending order are different from each other.
proof fn distinct_strings(values: Seq<Seq<u8>>)
    ensures
        ascending_strings(values).no_duplicates(),
{
    let set = ascending_strings(values);
    ascending_strings_facts(values);
    assert forall|i: int, j: int| 0 <= i < j < set.len() implies set[i] != set[j] by {
        assert(lex_less(set[i], set[j]));
        assert(set[i].take(0) =~= set[j].take(0));
        lex_total(set[i], set[j], 0);
    }
}

/// There are at most `n` different rows below `n`.
proof fn few_rows(v: Seq<usize>, n: int)
    requires
        v.no_duplicates(),
        all_below(v, n),
        0 <= n,
    ensures
        v.len() <= n,
{
    let rows = v.map_values(|r: usize| r as int);
    assert(rows.no_duplicates()) by {
        assert forall|i: int, j: int| 0 <= i < j < rows.len() implies rows[i] != rows[j] by {
            assert(v[i] != v[j]);
        }
    }
    rows.unique_seq_to_set();
    let range = vstd::set_lib::set_int_range(0, n);
    vstd::set_lib::lemma_int_range(0, n);
    assert forall|r: int| #[trigger] rows.to_set().contains(r) implies range.contains(r) by {
        let k = choose|k: int| 0 <= k < rows.len() && rows[k] == r;
        assert(v[k] < n);
    }
    vstd::set_lib::lemma_len_subset(rows.to_set(), range);
}

impl<C: ColumnCodec> OnDemandStorage<C> {
    /// Whether a row is one that has the `j`-th of some strings, for a `j` below `k`.
    pub open spec fn has_one_of(
        self,
        col_name: Seq<char>,
        values: Seq<Seq<u8>>,
        k: int,
        row: usize,
    ) -> bool {
        let f = self.footer->0;
        let col = f.schema.index_of(col_name)->0 as int;
        exists|j: int|
            0 <= j < k && row_has_string(
                self.codec,
                f,
                self.file->0@,
                col,
                #[trigger] values[j],
                row,
            )
    }

    /// Scans for different strings give no row twice.
    proof fn each_once(self, col_name: Seq<char>, values: Seq<Seq<u8>>, k: int)
        requires
            self.wf(),
            self.footer matches Some(f) && f.schema.index_of(col_name) is Some,
            self.file is Some,
            !self.quick_texts(col_name),
            0 <= k <= values.len(),
            values.no_duplicates(),
            self.each_filtered(col_name, values, k) is Ok,
        ensures
            self.each_filtered(col_name, values, k)->Ok_0.no_duplicates(),
            forall|j: int|
                0 <= j < self.each_filtered(col_name, values, k)->Ok_0.len() ==> self.has_one_of(
                    col_name,
                    values,
                    k,
                    #[trigger] self.each_filtered(col_name, values, k)->Ok_0[j],
                ),
        decreases k,
    {
        if k > 0 {
            self.each_once(col_name, values, k - 1);
            let f = self.footer->0;
            let file = self.file->0;
            let col = f.schema.index_of(col_name)->0 as int;
            let n = f.row_groups@.len() as int;
            let q = TextQuerySeq { col, target: values[k - 1], max: usize::MAX as int };
            assert(file.len() == file@.len());
            q.law_rows_once(self.codec, f, file@, n);
            let acc = self.each_filtered(col_name, values, k - 1)->Ok_0;
            let rows = q.scan(self.codec, f, file@, n)->Ok_0;
            let all = self.each_filtered(col_name, values, k)->Ok_0;
            assert(self.string_filter(col_name, values[k - 1], None) == Ok::<
                Option<Seq<usize>>,
                ScanError,
            >(Some(rows)));
            assert(all == acc + rows);
            assert forall|j: int| 0 <= j < all.len() implies self.has_one_of(
                col_name,
                values,
                k,
                #[trigger] all[j],
            ) by {
                if j < acc.len() {
                    assert(all[j] == acc[j]);
                    assert(self.has_one_of(col_name, values, k - 1, acc[j]));
                    let m = choose|m: int|
                        0 <= m < k - 1 && row_has_string(
                            self.codec,
                            f,
                            file@,
                            col,
                            #[trigger] values[m],
                            acc[j],
                        );
                    assert(row_has_string(self.codec, f, file@, col, values[m], all[j]));
                } else {
                    assert(all[j] == rows[j - acc.len()]);
                    assert(row_has_string(self.codec, f, file@, col, values[k - 1], all[j]));
                }
            }
            assert forall|a: int, b: int| 0 <= a < b < all.len() implies all[a] != all[b] by {
                if b < acc.len() {
                    assert(all[a] == acc[a] && all[b] == acc[b]);
                } else if a >= acc.len() {
                    assert(all[a] == rows[a - acc.len()] && all[b] == rows[b - acc.len()]);
                } else if all[a] == all[b] {
                    assert(all[a] == acc[a] && all[b] == rows[b - acc.len()]);
                    assert(self.has_one_of(col_name, values, k - 1, acc[a]));
                    let m = choose|m: int|
                        0 <= m < k - 1 && row_has_string(
                            self.codec,
                            f,
                            file@,
                            col,
                            #[trigger] values[m],
                            acc[a],
                        );
                    law_one_string_per_row(
                        self.codec,
                        f,
                        file@,
                        col,
                        values[m],
                        values[k - 1],
                        acc[a],
                    );
                }
            }
        }
    }

    /// Scans for different strings, or for one, give no more rows than the store has.
    pub(crate) proof fn each_fits(self, col_name: Seq<char>, values: Seq<Seq<u8>>)
        requires
            self.wf(),
            self.footer matches Some(f) && f.schema.index_of(col_name) is Some,
            self.file is Some,
            ascending_strings(values).len() == 1 || !self.quick_texts(col_name),
        ensures
            self.each_filtered(
                col_name,
                ascending_strings(values),
                ascending_strings(values).len() as int,
            ) matches Ok(v) ==> v.len() <= self.footer->0.total_rows(),
    {
        let set = ascending_strings(values);
        let k = set.len() as int;
        if let Ok(v) = self.each_filtered(col_name, set, k) {
            let f = self.footer->0;
            let file = self.file->0;
            let n = f.row_groups@.len() as int;
            let col = f.schema.index_of(col_name)->0 as int;
            assert(file.len() == file@.len());
            self.each_below(col_name, set, k);
            if self.quick_texts(col_name) {
                reveal_with_fuel(OnDemandStorage::each_filtered, 2);
                let q = TextQuerySeq { col, target: set[0], max: usize::MAX as int };
                q.law_rows_once(self.codec, f, file@, n);
                q.law_quick_rows_ascend(self.codec, f, file@, n);
                let empty = Seq::<usize>::empty();
                if let Ok(Some(one)) = self.string_filter(col_name, set[0], None) {
                    assert(empty + one =~= one);
                }
            } else {
                ascending_strings_facts(values);
                distinct_strings(values);
                self.each_once(col_name, set, k);
            }
            rows_before_monotonic(f.row_groups@, 0, n);
            few_rows(v, f.total_rows());
        }
    }

    /// Where a row group cannot be scanned in place, counting the rows that have one of some strings
    /// counts the rows that the scan for them gives as well, whatever the store holds.
    pub proof fn law_in_count_of_each(
        self,
        col_name: Seq<char>,
        values: Seq<Seq<u8>>,
        v: Seq<usize>,
        n: int,
    )
        requires
            self.wf(),
            !self.quick_texts(col_name),
            self.string_in(col_name, values, None) == Ok::<Option<Seq<usize>>, ScanError>(Some(v)),
            self.string_in_count(col_name, values) == Ok::<Option<int>, ScanError>(Some(n)),
        ensures
            n == v.len(),
    {
        let set = ascending_strings(values);
        if values.len() == 1 {
            reveal_with_fuel(ascending_strings, 2);
            assert(set =~= seq![values[0]]);
        } else if values.len() > 1 {
            let m = values.len() as int;
            let k = set.len() as int;
            ascending_strings_facts(values);
            distinct_strings(values);
            let rows = self.each_filtered(col_name, values, m)->Ok_0;
            if k == 1 {
                reveal_with_fuel(OnDemandStorage::each_filtered, 2);
                let one = self.string_filter(col_name, set[0], None)->Ok_0->0;
                assert(Seq::<usize>::empty() + one =~= one);
            }
            let once = self.each_filtered(col_name, set, k)->Ok_0;
            assert(n == once.len());
            self.each_once(col_name, set, k);
            let all = ascending_rows(rows);
            ascending_rows_facts(rows);
            self.each_below(col_name, values, m);
            if all.len() > 0 {
                ascending_places(all, all.len() - 1);
                assert(all.contains(all[all.len() - 1]));
                assert(rows.contains(all[all.len() - 1]));
            }
            assert(all.take(all.len() as int) =~= all);
            assert(v == all);
            assert(all.no_duplicates());
            assert forall|row: usize| #[trigger] all.contains(row) == once.contains(row) by {
                self.each_gives(col_name, values, m, row);
                self.each_gives(col_name, set, k, row);
                if rows.contains(row) {
                    let j = choose|j: int|
                        0 <= j < m && gives(
                            self.string_filter(col_name, #[trigger] values[j], None),
                            row,
                        );
                    assert(values.contains(values[j]));
                    assert(set.contains(values[j]));
                    let i = choose|i: int| 0 <= i < k && set[i] == values[j];
                    assert(gives(self.string_filter(col_name, set[i], None), row));
                }
                if once.contains(row) {
                    let i = choose|i: int|
                        0 <= i < k && gives(
                            self.string_filter(col_name, #[trigger] set[i], None),
                            row,
                        );
                    assert(set.contains(set[i]));
                    assert(values.contains(set[i]));
                    let j = choose|j: int| 0 <= j < m && values[j] == set[i];
                    assert(gives(self.string_filter(col_name, values[j], None), row));
                }
            }
            same_length(all, once);
        }
    }
}

} // verus!
