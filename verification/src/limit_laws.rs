//! A scan for strings with a limit gives the first rows of the scan without one.

use vstd::prelude::*;

use crate::bytes::bitmap_len;
use crate::codec::ColumnCodec;
use crate::column::ColumnSeq;
use crate::group::{group_of, id_section, tail, walk, window};
use crate::like_extract::first_entries;
use crate::model::{
    rows_before, ColumnType, ScanError, V4Footer, COL_ENCODING_COMPACT_DICTIONARY,
    RG_COMPRESS_NONE,
};
use crate::numeric::{encoding_of, min2, tag_len};
use crate::order::{ascending_rows, ascending_rows_facts};
use crate::scan_laws::law_select_limit;
use crate::select::select_checked;
use crate::set_laws::ascending_places;
use crate::storage::OnDemandStorage;
use crate::text::plain_text;
use crate::text_filter::{
    equal_decoded, equal_index, equal_plain, positions, rows_by_position, sift, TextQuerySeq,
};

verus! {

proof fn checked_prefix(
    hit: spec_fn(int) -> Option<bool>,
    n: int,
    base: int,
    acc: Seq<usize>,
    max: int,
    m: int,
)
    requires
        0 <= m <= max,
        select_checked(hit, n, base, acc, max) is Some,
    ensures
        select_checked(hit, n, base, first_entries(acc, m), m) == Some(
            first_entries(select_checked(hit, n, base, acc, max)->0, m),
        ),
    decreases n,
{
    if n > 0 {
        checked_prefix(hit, n - 1, base, acc, max, m);
        let before = select_checked(hit, n - 1, base, acc, max)->0;
        let all = select_checked(hit, n, base, acc, max)->0;
        if all.len() > before.len() {
            if before.len() < m {
                assert(first_entries(before, m) =~= before);
                assert(first_entries(all, m) =~= all);
            } else {
                assert(first_entries(all, m) =~= first_entries(before, m));
            }
        }
    }
}

proof fn sift_prefix(
    pick: spec_fn(int) -> Option<int>,
    n: int,
    base: int,
    acc: Seq<usize>,
    max: int,
    m: int,
)
    requires
        0 <= m <= max,
    ensures
        sift(pick, n, base, first_entries(acc, m), m) == first_entries(
            sift(pick, n, base, acc, max),
            m,
        ),
    decreases n,
{
    if n > 0 {
        sift_prefix(pick, n - 1, base, acc, max, m);
        let before = sift(pick, n - 1, base, acc, max);
        let all = sift(pick, n, base, acc, max);
        if all.len() > before.len() {
            if before.len() < m {
                assert(first_entries(before, m) =~= before);
                assert(first_entries(all, m) =~= all);
            } else {
                assert(first_entries(all, m) =~= first_entries(before, m));
            }
        }
    }
}

impl TextQuerySeq {
    /// The same scan up to another limit.
    pub open spec fn up_to(self, m: int) -> TextQuerySeq {
        TextQuerySeq { max: m, ..self }
    }

    proof fn dictionary_prefix<C: ColumnCodec>(
        self,
        c: C,
        encoding: u8,
        data: Seq<u8>,
        rows: int,
        del: Option<Seq<u8>>,
        base: int,
        acc: Seq<usize>,
        m: int,
    )
        requires
            0 <= m <= self.max,
        ensures
            self.dictionary(c, encoding, data, rows, del, base, acc) matches Ok(v) ==> self.up_to(
                m,
            ).dictionary(c, encoding, data, rows, del, base, first_entries(acc, m)) == Ok::<
                Seq<usize>,
                ScanError,
            >(first_entries(v, m)),
    {
        if let Some(d) = c.dictionary(encoding == COL_ENCODING_COMPACT_DICTIONARY, data) {
            if let Some(k) = d.find(self.target) {
                law_select_limit(
                    equal_index(d, k, del),
                    min2(d.indices.len() as int, rows),
                    base,
                    acc,
                    self.max,
                    m,
                );
            }
        }
    }

    proof fn direct_prefix<C: ColumnCodec>(
        self,
        c: C,
        kind: ColumnType,
        rows: int,
        del: Option<Seq<u8>>,
        nulls: Seq<u8>,
        col: Seq<u8>,
        base: int,
        acc: Seq<usize>,
        m: int,
    )
        requires
            0 <= m <= self.max,
        ensures
            self.direct(c, kind, rows, del, nulls, col, base, acc) matches Ok(v) ==> self.up_to(
                m,
            ).direct(c, kind, rows, del, nulls, col, base, first_entries(acc, m)) == Ok::<
                Seq<usize>,
                ScanError,
            >(first_entries(v, m)),
    {
        let data = tail(col, 1);
        self.dictionary_prefix(c, col[0], data, rows, del, base, acc, m);
        if let Some(t) = plain_text(data) {
            sift_prefix(
                rows_by_position(t, self.target, min2(t.count, rows), del, nulls),
                positions(t.raw()),
                base,
                acc,
                self.max,
                m,
            );
        }
        if let Some((ColumnSeq::String { offsets, data: bytes }, _)) = c.decoded(true, col, kind) {
            let n = min2(
                if offsets.len() > 0 {
                    offsets.len() - 1
                } else {
                    0
                },
                rows,
            );
            let hit = equal_decoded(offsets, bytes, self.target, del, nulls);
            if select_checked(hit, n, base, acc, self.max) is Some {
                checked_prefix(hit, n, base, acc, self.max, m);
            }
        }
    }

    proof fn reached_prefix<C: ColumnCodec>(
        self,
        c: C,
        kind: ColumnType,
        version: u8,
        rows: int,
        del: Option<Seq<u8>>,
        col: Seq<u8>,
        base: int,
        acc: Seq<usize>,
        m: int,
    )
        requires
            0 <= m <= self.max,
        ensures
            self.reached(c, kind, version, rows, del, col, base, acc) matches Ok(v) ==> self.up_to(
                m,
            ).reached(c, kind, version, rows, del, col, base, first_entries(acc, m)) == Ok::<
                Seq<usize>,
                ScanError,
            >(first_entries(v, m)),
    {
        let data = if tag_len(version) <= col.len() {
            tail(col, tag_len(version))
        } else {
            Seq::empty()
        };
        self.dictionary_prefix(c, encoding_of(version, col), data, rows, del, base, acc, m);
        if let Some(t) = plain_text(data) {
            let n = min2(t.count, rows);
            let hit = equal_plain(t, self.target, del);
            if select_checked(hit, n, base, acc, self.max) is Some {
                checked_prefix(hit, n, base, acc, self.max, m);
            }
        }
    }

    proof fn group_prefix<C: ColumnCodec>(
        self,
        c: C,
        f: V4Footer,
        file: Seq<u8>,
        i: int,
        acc: Seq<usize>,
        m: int,
    )
        requires
            f.wf(),
            file.len() <= usize::MAX,
            0 <= i < f.row_groups@.len(),
            0 <= m <= self.max,
        ensures
            self.group(c, f, file, i, acc) matches Ok(v) ==> self.up_to(m).group(
                c,
                f,
                file,
                i,
                first_entries(acc, m),
            ) == Ok::<Seq<usize>, ScanError>(first_entries(v, m)),
    {
        let meta = f.row_groups@[i];
        let rows = meta.row_count as int;
        let bm = bitmap_len(rows);
        let base = rows_before(f.row_groups@, i);
        let kind = f.schema.kind(self.col);
        let short = self.up_to(m);
        let part = first_entries(acc, m);
        if let Ok(v) = self.group(c, f, file, i, acc) {
            if part.len() >= m {
                self.group_added(c, f, file, i, acc);
                assert(first_entries(v, m) =~= part);
            } else if rows > 0 {
                assert(part =~= acc);
                let g = group_of(c, meta, file)->Ok_0;
                let w = window(g.body, id_section(rows, g.ids), bm)->0;
                let del = if meta.deletion_count > 0 {
                    Some(w)
                } else {
                    None
                };
                if !self.too_long_or_short(f.zone(i, self.col, true)) {
                    if f.rcix(i, self.col) is Some && g.flag == RG_COMPRESS_NONE && g.version >= 1 {
                        let o = f.rcix(i, self.col)->0;
                        if let Some(nulls) = window(g.body, o, bm) {
                            let col = tail(g.body, o + bm);
                            self.direct_prefix(c, kind, rows, del, nulls, col, base, acc, m);
                        }
                    } else if let Ok(Some(p)) = walk(
                        c,
                        f.schema,
                        g.version >= 1,
                        g.body,
                        bm,
                        0,
                        id_section(rows, g.ids) + bm,
                        self.col,
                    ) {
                        let col = tail(g.body, p + bm);
                        self.reached_prefix(c, kind, g.version, rows, del, col, base, acc, m);
                    }
                }
            }
        }
    }

    /// A limit gives the first rows of the scan without it.
    pub proof fn law_limit_is_prefix<C: ColumnCodec>(
        self,
        c: C,
        f: V4Footer,
        file: Seq<u8>,
        m: int,
        k: int,
    )
        requires
            f.wf(),
            file.len() <= usize::MAX,
            0 <= k <= f.row_groups@.len(),
            0 <= m <= self.max,
        ensures
            self.scan(c, f, file, k) matches Ok(v) ==> self.up_to(m).scan(c, f, file, k) == Ok::<
                Seq<usize>,
                ScanError,
            >(first_entries(v, m)),
        decreases k,
    {
        if k > 0 {
            self.law_limit_is_prefix(c, f, file, m, k - 1);
            if let Ok(acc) = self.scan(c, f, file, k - 1) {
                self.group_prefix(c, f, file, k - 1, acc, m);
            }
        } else {
            assert(first_entries(Seq::<usize>::empty(), m) =~= Seq::empty());
        }
    }
}

impl<C: ColumnCodec> OnDemandStorage<C> {
    /// Where a row group cannot be scanned in place, a scan for a set of strings with a limit gives the
    /// first rows of the scan without one.
    pub proof fn law_in_limit_of_each(
        self,
        col_name: Seq<char>,
        values: Seq<Seq<u8>>,
        v: Seq<usize>,
        limit: usize,
    )
        requires
            self.wf(),
            !self.quick_texts(col_name),
            self.string_in(col_name, values, None) == Ok::<Option<Seq<usize>>, ScanError>(Some(v)),
        ensures
            self.string_in(col_name, values, Some(limit)) == Ok::<Option<Seq<usize>>, ScanError>(
                Some(first_entries(v, limit as int)),
            ),
    {
        if values.len() == 0 {
            assert(first_entries(Seq::<usize>::empty(), limit as int) =~= Seq::empty());
        } else if values.len() == 1 {
            let f = self.footer->0;
            let file = self.file->0;
            let col = f.schema.index_of(col_name)->0 as int;
            let q = TextQuerySeq { col, target: values[0], max: usize::MAX as int };
            assert(file.len() == file@.len());
            q.law_limit_is_prefix(
                self.codec,
                f,
                file@,
                limit as int,
                f.row_groups@.len() as int,
            );
        } else {
            let n = values.len() as int;
            let rows = self.each_filtered(col_name, values, n)->Ok_0;
            let all = ascending_rows(rows);
            ascending_rows_facts(rows);
            self.each_below(col_name, values, n);
            if all.len() > 0 {
                ascending_places(all, all.len() - 1);
                assert(all.contains(all[all.len() - 1]));
                assert(rows.contains(all[all.len() - 1]));
            }
            assert(all.take(all.len() as int) =~= all);
        }
    }
}

} // verus!
