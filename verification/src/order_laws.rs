//! A scan for strings gives its rows in strictly ascending order.

use vstd::prelude::*;

use crate::bytes::{bisect_hit, bitmap_len, search_words};
use crate::codec::ColumnCodec;
use crate::column::ColumnSeq;
use crate::group::{group_of, id_section, tail, walk, window};
use crate::key_laws::{end_of, word_bound};
use crate::like_extract::first_entries;
use crate::model::{
    rows_before, ColumnType, ScanError, V4Footer, COL_ENCODING_COMPACT_DICTIONARY,
    COL_ENCODING_PLAIN, RG_COMPRESS_NONE,
};
use crate::numeric::{encoding_of, min2, tag_len};
use crate::order::{ascending_rows, ascending_rows_facts, strictly_ascending};
use crate::scan_laws::{
    extends, extends_in_order, extends_itself, group_bounds, rows_in_order, select_checked_extends,
    select_extends,
};
use crate::set_laws::{gives, sound_group};
use crate::storage::{max_rows, OnDemandStorage};
use crate::text::{plain_text, StrTestSeq, TextSeq};
use crate::text_filter::{
    equal_decoded, equal_index, equal_plain, positions, row_at, rows_by_position, sift, TextQuerySeq,
};
use crate::text_scan::quick_column;
use crate::text_sets::{longest, shortest, SetQuerySeq};

verus! {

/// Whether the strings of a plain column start in the order of their rows.
pub open spec fn starts_in_order(t: TextSeq) -> bool {
    forall|a: int, b: int| 0 <= a < b < t.count ==> #[trigger] t.start(a) <= #[trigger] t.start(b)
}

/// Whether plain strings at a place on record start in the order of their rows.
pub open spec fn placed_in_order<C: ColumnCodec>(
    c: C,
    f: V4Footer,
    file: Seq<u8>,
    col: int,
    i: int,
) -> bool {
    let meta = f.row_groups@[i];
    let bm = bitmap_len(meta.row_count as int);
    match (group_of(c, meta, file), f.rcix(i, col)) {
        (Ok(g), Some(o)) => {
            let column = tail(g.body, o + bm);
            g.flag == RG_COMPRESS_NONE && g.version >= 1 && f.schema.kind(col) is String
                && column.len() > 0 && column[0] == COL_ENCODING_PLAIN ==> (plain_text(
                tail(column, 1),
            ) matches Some(t) ==> starts_in_order(t))
        },
        _ => true,
    }
}

/// Searching data in which the strings stand in the order of their rows gives the rows in order.
#[verifier::spinoff_prover]
proof fn sift_extends(
    t: TextSeq,
    target: Seq<u8>,
    m: int,
    del: Option<Seq<u8>>,
    nulls: Seq<u8>,
    n: int,
    base: int,
    acc: Seq<usize>,
    max: int,
)
    requires
        starts_in_order(t),
        0 <= base,
        0 <= m <= t.count,
        base + m <= usize::MAX,
        t.count <= usize::MAX,
    ensures
        ({
            let v = sift(rows_by_position(t, target, m, del, nulls), n, base, acc, max);
            &&& extends(acc, v, base, m)
            &&& forall|k: int| acc.len() <= k < v.len() ==> t.start(#[trigger] v[k] - base) < n
        }),
    decreases n,
{
    let pick = rows_by_position(t, target, m, del, nulls);
    extends_itself(acc, base, m);
    if n > 0 {
        sift_extends(t, target, m, del, nulls, n - 1, base, acc, max);
        let before = sift(pick, n - 1, base, acc, max);
        let v = sift(pick, n, base, acc, max);
        let p = n - 1;
        if let Some(row) = pick(p) {
            assert(row_at(t, target, m, del, nulls, p) == Some(row));
            let w = (p % 0x1_0000_0000) as u32;
            bisect_hit(t.offsets, 0, t.count, w);
            assert(search_words(t.offsets, t.count, w) matches Some(x) && x == row);
            assert(p + target.len() == end_of(t, row));
            assert(end_of(t, row) <= 0xffff_ffff) by {
                if (row + 1) * 4 + 4 <= t.offsets.len() {
                    word_bound(t.offsets, (row + 1) * 4);
                }
            }
            assert(p % 0x1_0000_0000 == p);
            assert(t.start(row) == p);
            assert(0 <= row < m);
            if before.len() < max {
                assert(v.take(acc.len() as int) =~= before.take(acc.len() as int));
                assert forall|k: int| acc.len() <= k < v.len() implies base <= #[trigger] v[k]
                    < base + m && t.start(v[k] - base) < n by {
                    if k < before.len() {
                        assert(v[k] == before[k]);
                    }
                }
                assert forall|j: int, k: int| acc.len() <= j < k < v.len() implies #[trigger] v[j]
                    < #[trigger] v[k] by {
                    assert(v[j] == before[j]);
                    if k < before.len() {
                        assert(v[k] == before[k]);
                    } else {
                        let r = before[j] - base;
                        assert(t.start(r) < p);
                        if r > row {
                            assert(t.start(row) <= t.start(r));
                        }
                    }
                }
            } else {
                assert forall|k: int| acc.len() <= k < v.len() implies t.start(#[trigger] v[k] - base)
                    < n by {
                    assert(t.start(before[k] - base) < n - 1);
                }
            }
        }
    }
}

/// Rows of the first part of a row group are rows of it.
proof fn extends_wider(acc: Seq<usize>, v: Seq<usize>, base: int, n: int, m: int)
    requires
        extends(acc, v, base, n),
        n <= m,
    ensures
        extends(acc, v, base, m),
{
}

impl TextQuerySeq {
    proof fn dictionary_extends<C: ColumnCodec>(
        self,
        c: C,
        encoding: u8,
        data: Seq<u8>,
        rows: int,
        del: Option<Seq<u8>>,
        base: int,
        acc: Seq<usize>,
    )
        requires
            0 <= base,
            0 <= rows,
            base + rows <= usize::MAX,
        ensures
            self.dictionary(c, encoding, data, rows, del, base, acc) matches Ok(v) ==> extends(
                acc,
                v,
                base,
                rows,
            ),
    {
        extends_itself(acc, base, rows);
        if let Some(d) = c.dictionary(encoding == COL_ENCODING_COMPACT_DICTIONARY, data) {
            if let Some(k) = d.find(self.target) {
                let n = min2(d.indices.len() as int, rows);
                select_extends(equal_index(d, k, del), n, rows, base, acc, self.max);
            }
        }
    }

    proof fn direct_extends<C: ColumnCodec>(
        self,
        c: C,
        kind: ColumnType,
        rows: int,
        del: Option<Seq<u8>>,
        nulls: Seq<u8>,
        col: Seq<u8>,
        base: int,
        acc: Seq<usize>,
    )
        requires
            0 <= base,
            0 <= rows,
            base + rows <= usize::MAX,
            col.len() <= usize::MAX,
            kind is String && col.len() > 0 && col[0] == COL_ENCODING_PLAIN ==> (plain_text(
                tail(col, 1),
            ) matches Some(t) ==> starts_in_order(t)),
        ensures
            self.direct(c, kind, rows, del, nulls, col, base, acc) matches Ok(v) ==> extends(
                acc,
                v,
                base,
                rows,
            ),
    {
        let data = tail(col, 1);
        extends_itself(acc, base, rows);
        if col.len() == 0 {
        } else if col[0] == COL_ENCODING_PLAIN && kind is String {
            if let Some(t) = plain_text(data) {
                let m = min2(t.count, rows);
                let n = positions(t.raw());
                sift_extends(t, self.target, m, del, nulls, n, base, acc, self.max);
                let v = sift(rows_by_position(t, self.target, m, del, nulls), n, base, acc, self.max);
                extends_wider(acc, v, base, m, rows);
            }
        } else if kind is String {
            if let Some((ColumnSeq::String { offsets, data: bytes }, _)) = c.decoded(
                true,
                col,
                kind,
            ) {
                let n = min2(
                    if offsets.len() > 0 {
                        offsets.len() - 1
                    } else {
                        0
                    },
                    rows,
                );
                let hit = equal_decoded(offsets, bytes, self.target, del, nulls);
                select_checked_extends(hit, n, rows, base, acc, self.max);
            }
        } else {
            self.dictionary_extends(c, col[0], data, rows, del, base, acc);
        }
    }

    proof fn reached_extends<C: ColumnCodec>(
        self,
        c: C,
        kind: ColumnType,
        version: u8,
        rows: int,
        del: Option<Seq<u8>>,
        col: Seq<u8>,
        base: int,
        acc: Seq<usize>,
    )
        requires
            0 <= base,
            0 <= rows,
            base + rows <= usize::MAX,
        ensures
            self.reached(c, kind, version, rows, del, col, base, acc) matches Ok(v) ==> extends(
                acc,
                v,
                base,
                rows,
            ),
    {
        let encoding = encoding_of(version, col);
        let data = if tag_len(version) <= col.len() {
            tail(col, tag_len(version))
        } else {
            Seq::empty()
        };
        extends_itself(acc, base, rows);
        if let Some(t) = plain_text(data) {
            let n = min2(t.count, rows);
            select_checked_extends(equal_plain(t, self.target, del), n, rows, base, acc, self.max);
        }
        self.dictionary_extends(c, encoding, data, rows, del, base, acc);
    }

    proof fn group_extends<C: ColumnCodec>(
        self,
        c: C,
        f: V4Footer,
        file: Seq<u8>,
        i: int,
        acc: Seq<usize>,
    )
        requires
            f.wf(),
            file.len() <= usize::MAX,
            0 <= i < f.row_groups@.len(),
            placed_in_order(c, f, file, self.col, i),
        ensures
            self.group(c, f, file, i, acc) matches Ok(v) ==> extends(
                acc,
                v,
                rows_before(f.row_groups@, i),
                f.row_groups@[i].row_count as int,
            ),
    {
        group_bounds(f, i);
        let meta = f.row_groups@[i];
        let rows = meta.row_count as int;
        let bm = bitmap_len(rows);
        let base = rows_before(f.row_groups@, i);
        let kind = f.schema.kind(self.col);
        extends_itself(acc, base, rows);
        if let Ok(g) = group_of(c, meta, file) {
            if let Some(w) = window(g.body, id_section(rows, g.ids), bm) {
                let del = if meta.deletion_count > 0 {
                    Some(w)
                } else {
                    None
                };
                if f.rcix(i, self.col) is Some && g.flag == RG_COMPRESS_NONE && g.version >= 1 {
                    let o = f.rcix(i, self.col)->0;
                    if let Some(nulls) = window(g.body, o, bm) {
                        let col = tail(g.body, o + bm);
                        self.direct_extends(c, kind, rows, del, nulls, col, base, acc);
                    }
                } else if let Ok(Some(p)) = walk(
                    c,
                    f.schema,
                    g.version >= 1,
                    g.body,
                    bm,
                    0,
                    id_section(rows, g.ids) + bm,
                    self.col,
                ) {
                    let col = tail(g.body, p + bm);
                    self.reached_extends(c, kind, g.version, rows, del, col, base, acc);
                }
            }
        }
    }

    proof fn quick_extends<C: ColumnCodec>(
        self,
        c: C,
        f: V4Footer,
        file: Seq<u8>,
        i: int,
        acc: Seq<usize>,
    )
        requires
            f.wf(),
            0 <= i < f.row_groups@.len(),
        ensures
            extends(
                acc,
                self.quick(c, f, file, i, acc),
                rows_before(f.row_groups@, i),
                f.row_groups@[i].row_count as int,
            ),
    {
        group_bounds(f, i);
        let meta = f.row_groups@[i];
        let rows = meta.row_count as int;
        let base = rows_before(f.row_groups@, i);
        extends_itself(acc, base, rows);
        if let Some(q) = quick_column(f, file, self.col, i) {
            if let Some(d) = c.dictionary(
                q.encoding == COL_ENCODING_COMPACT_DICTIONARY,
                q.data,
            ) {
                if let Some(k) = d.find(self.target) {
                    let del = if meta.deletion_count > 0 {
                        q.deleted
                    } else {
                        None
                    };
                    let n = min2(d.indices.len() as int, rows);
                    select_extends(equal_index(d, k, del), n, rows, base, acc, self.max);
                }
            }
        }
    }

    /// The rows of a scan for a string come in strictly ascending order, and are rows of the store.
    /// Plain strings at a place on record start in the order of their rows.
    pub proof fn law_rows_ascend<C: ColumnCodec>(self, c: C, f: V4Footer, file: Seq<u8>, k: int)
        requires
            f.wf(),
            file.len() <= usize::MAX,
            0 <= k <= f.row_groups@.len(),
            forall|i: int| 0 <= i < k ==> #[trigger] placed_in_order(c, f, file, self.col, i),
        ensures
            self.scan(c, f, file, k) matches Ok(v) ==> rows_in_order(
                v,
                rows_before(f.row_groups@, k),
            ),
        decreases k,
    {
        if k > 0 {
            let i = k - 1;
            self.law_rows_ascend(c, f, file, i);
            group_bounds(f, i);
            assert(placed_in_order(c, f, file, self.col, i));
            if let Ok(acc) = self.scan(c, f, file, i) {
                self.group_extends(c, f, file, i, acc);
                if let Ok(v) = self.scan(c, f, file, k) {
                    extends_in_order(
                        acc,
                        v,
                        rows_before(f.row_groups@, i),
                        f.row_groups@[i].row_count as int,
                    );
                }
            }
        }
    }

    /// The rows of a scan for a string in place come in strictly ascending order.
    pub proof fn law_quick_rows_ascend<C: ColumnCodec>(self, c: C, f: V4Footer, file: Seq<u8>, k: int)
        requires
            f.wf(),
            0 <= k <= f.row_groups@.len(),
        ensures
            rows_in_order(self.quick_scan(c, f, file, k), rows_before(f.row_groups@, k)),
        decreases k,
    {
        if k > 0 {
            let i = k - 1;
            self.law_quick_rows_ascend(c, f, file, i);
            group_bounds(f, i);
            let acc = self.quick_scan(c, f, file, i);
            self.quick_extends(c, f, file, i, acc);
            extends_in_order(
                acc,
                self.quick_scan(c, f, file, k),
                rows_before(f.row_groups@, i),
                f.row_groups@[i].row_count as int,
            );
        }
    }
}

impl<C: ColumnCodec> OnDemandStorage<C> {
    /// Whether the plain strings of a column start in the order of their rows wherever their place is
    /// on record.
    pub open spec fn texts_in_order(self, col_name: Seq<char>) -> bool {
        (self.footer matches Some(f) && f.schema.index_of(col_name) is Some && self.file is Some)
            ==> {
            let f = self.footer->0;
            forall|i: int|
                0 <= i < f.row_groups@.len() ==> #[trigger] placed_in_order(
                    self.codec,
                    f,
                    self.file->0@,
                    f.schema.index_of(col_name)->0 as int,
                    i,
                )
        }
    }

    /// A scan for a string gives its rows in strictly ascending order, with a limit or without.
    pub proof fn law_filter_ascends(
        self,
        col_name: Seq<char>,
        target: Seq<u8>,
        limit: Option<usize>,
    )
        requires
            self.wf(),
            self.texts_in_order(col_name),
        ensures
            self.string_filter(col_name, target, limit) matches Ok(Some(v)) ==> rows_in_order(
                v,
                self.footer->0.total_rows(),
            ),
    {
        if let Ok(Some(v)) = self.string_filter(col_name, target, limit) {
            let f = self.footer->0;
            let file = self.file->0;
            let n = f.row_groups@.len() as int;
            let col = f.schema.index_of(col_name)->0 as int;
            let q = TextQuerySeq { col, target, max: max_rows(limit) };
            assert(file.len() == file@.len());
            q.law_rows_ascend(self.codec, f, file@, n);
            q.law_quick_rows_ascend(self.codec, f, file@, n);
        }
    }

    /// Strings that are stored as they should be start in the order of their rows.
    proof fn sound_is_in_order(self, col_name: Seq<char>)
        requires
            self.sound_texts(col_name),
        ensures
            self.texts_in_order(col_name),
    {
        let f = self.footer->0;
        let file = self.file->0@;
        let col = f.schema.index_of(col_name)->0 as int;
        assert forall|i: int| 0 <= i < f.row_groups@.len() implies #[trigger] placed_in_order(
            self.codec,
            f,
            file,
            col,
            i,
        ) by {
            assert(sound_group(self.codec, f, file, col, f.schema.kind(col) is StringDict, i));
        }
    }

    /// A scan for a set of strings gives its rows in strictly ascending order, with a limit or
    /// without. For a set of one string, plain strings at a place on record start in the order of
    /// their rows.
    pub proof fn law_in_ascends(
        self,
        col_name: Seq<char>,
        values: Seq<Seq<u8>>,
        limit: Option<usize>,
    )
        requires
            self.wf(),
            values.len() == 1 ==> self.texts_in_order(col_name),
        ensures
            self.string_in(col_name, values, limit) matches Ok(Some(v)) ==> strictly_ascending(v),
    {
        if values.len() == 1 {
            self.law_filter_ascends(col_name, values[0], limit);
        } else if values.len() > 1 {
            if let Ok(Some(v)) = self.string_in(col_name, values, limit) {
                let f = self.footer->0;
                let file = self.file->0@;
                let col = f.schema.index_of(col_name)->0 as int;
                if self.quick_texts(col_name) {
                    let q = SetQuerySeq {
                        col,
                        dict: f.schema.kind(col) is StringDict,
                        test: StrTestSeq::OneOf(values),
                        max: max_rows(limit),
                    };
                    q.law_rows_in_order(
                        self.codec,
                        f,
                        file,
                        shortest(values),
                        longest(values),
                        f.row_groups@.len() as int,
                    );
                } else {
                    let rows = self.each_filtered(col_name, values, values.len() as int)->Ok_0;
                    ascending_rows_facts(rows);
                    let all = ascending_rows(rows);
                    let m = min2(all.len() as int, max_rows(limit));
                    assert(v == all.take(m));
                    assert forall|j: int, k: int| 0 <= j < k < v.len() implies #[trigger] v[j]
                        < #[trigger] v[k] by {
                        assert(v[j] == all[j] && v[k] == all[k]);
                    }
                }
            }
        }
    }

    /// What a scan for a set of strings gives: the rows that the scans for its strings give, all of
    /// them and no others, in strictly ascending order; with a limit, the first of these rows. Where
    /// the row groups are scanned in place, the column is stored as it should be; where they are not,
    /// one string alone is looked for among strings that start in the order of their rows.
    pub proof fn law_in_is_ordered_union(
        self,
        col_name: Seq<char>,
        values: Seq<Seq<u8>>,
        u: Seq<usize>,
        limit: usize,
    )
        requires
            self.wf(),
            self.quick_texts(col_name) ==> self.sound_texts(col_name),
            values.len() == 1 && !self.quick_texts(col_name) ==> self.texts_in_order(col_name),
            self.string_in(col_name, values, None) == Ok::<Option<Seq<usize>>, ScanError>(Some(u)),
        ensures
            strictly_ascending(u),
            forall|row: usize| #[trigger]
                u.contains(row) == (exists|j: int|
                    0 <= j < values.len() && gives(
                        self.string_filter(col_name, #[trigger] values[j], None),
                        row,
                    )),
            self.string_in(col_name, values, Some(limit)) == Ok::<Option<Seq<usize>>, ScanError>(
                Some(first_entries(u, limit as int)),
            ),
    {
        if self.quick_texts(col_name) {
            self.sound_is_in_order(col_name);
        }
        self.law_in_ascends(col_name, values, None);
        assert forall|row: usize| #[trigger] u.contains(row) == (exists|j: int|
            0 <= j < values.len() && gives(
                self.string_filter(col_name, #[trigger] values[j], None),
                row,
            )) by {
            self.law_in_is_union(col_name, values, row);
        }
        if self.quick_texts(col_name) {
            self.law_in_limit(col_name, values, limit);
        } else {
            self.law_in_limit_of_each(col_name, values, u, limit);
        }
    }
}

} // verus!
