//! Scans for strings give the live rows that have one of them.

use vstd::prelude::*;

use crate::bytes::bitmap_len;
use crate::codec::ColumnCodec;
use crate::group::{group_of, id_section, stored_group, tail, window};
use crate::meaning::{
    data_at, deleted_at, flag, holder, is_plain, lists, marks_len, missing_at, place_in, place_of,
    plain_string, whole_column, whole_strings,
};
use crate::model::{
    rows_before, ScanError, V4Footer, COL_ENCODING_COMPACT_DICTIONARY, RG_COMPRESS_NONE,
};
use crate::numeric::min2;
use crate::pick_laws::{in_each_group, lists_grow, marks_of_group, same_list, up_to};
use crate::scan_laws::group_bounds;
use crate::set_laws::{deletions, having, rows_having, string_of};
use crate::storage::OnDemandStorage;
use crate::tally_laws::{plain_strings_read, reads_string};
use crate::text::plain_text;
use crate::text_scan::{quick_column, QuickSeq};

verus! {

/// The string in row `r` of row group `i`, where the row is not missing: in a column of strings, the
/// bytes between two offsets; in a dictionary, the value with the index of the row.
pub open spec fn text_at<C: ColumnCodec>(
    c: C,
    f: V4Footer,
    file: Seq<u8>,
    col: int,
    i: int,
    r: int,
) -> Option<Seq<u8>> {
    let body = group_of(c, f.row_groups@[i], file)->Ok_0.body;
    let at = data_at(c, f, file, col, i);
    if missing_at(c, f, file, col, i, r) {
        None
    } else if f.schema.kind(col) is StringDict {
        match c.dictionary(
            body[at - 1] == COL_ENCODING_COMPACT_DICTIONARY,
            body.subrange(at, body.len() as int),
        ) {
            Some(d) => {
                let k = d.indices[r] as int;
                if 1 <= k <= d.values.len() {
                    d.values[k - 1]
                } else {
                    None
                }
            },
            None => None,
        }
    } else {
        Some(plain_string(body, at, r))
    }
}

/// Whether row group `i` is not compressed and tagged, with the place of a string column on record and
/// a string, or an index, for each row.
pub open spec fn texts_there<C: ColumnCodec>(c: C, f: V4Footer, file: Seq<u8>, col: int, i: int) -> bool {
    let rows = f.row_groups@[i].row_count as int;
    let g = group_of(c, f.row_groups@[i], file)->Ok_0;
    let at = data_at(c, f, file, col, i);
    &&& whole_column(c, f, file, col, i)
    &&& g.flag == RG_COMPRESS_NONE
    &&& g.version >= 1
    &&& f.rcix(i, col) is Some
    &&& if f.schema.kind(col) is StringDict {
        c.dictionary(
            g.body[at - 1] == COL_ENCODING_COMPACT_DICTIONARY,
            g.body.subrange(at, g.body.len() as int),
        ) matches Some(d) && d.indices.len() == rows
    } else {
        is_plain(c, f, file, col, i) && whole_strings(g.body, at, rows)
    }
}

/// What a scan in place looks at.
pub(crate) proof fn quick_parts<C: ColumnCodec>(c: C, f: V4Footer, file: Seq<u8>, col: int, i: int)
    requires
        texts_there(c, f, file, col, i),
    ensures
        ({
            let rows = f.row_groups@[i].row_count as int;
            let g = group_of(c, f.row_groups@[i], file)->Ok_0;
            let p = place_of(c, f, file, col, i);
            let at = data_at(c, f, file, col, i);
            quick_column(f, file, col, i) == Some(
                QuickSeq {
                    deleted: window(g.body, id_section(rows, g.ids), bitmap_len(rows)),
                    nulls: g.body.subrange(p, p + bitmap_len(rows)),
                    encoding: g.body[at - 1],
                    data: g.body.subrange(at, g.body.len() as int),
                },
            )
        }),
{
    let rows = f.row_groups@[i].row_count as int;
    let g = group_of(c, f.row_groups@[i], file)->Ok_0;
    let s = stored_group(f.row_groups@[i], file)->Ok_0;
    let p = place_of(c, f, file, col, i);
    let at = data_at(c, f, file, col, i);
    assert(tail(s, 32) == g.body);
    assert(bitmap_len(rows) == marks_len(rows));
    let bytes = tail(g.body, p + bitmap_len(rows));
    assert(tail(bytes, 1) =~= g.body.subrange(at, g.body.len() as int));
}

/// What a scan in place reads are the strings of the rows.
pub(crate) proof fn text_is_string<C: ColumnCodec>(
    c: C,
    f: V4Footer,
    file: Seq<u8>,
    col: int,
    i: int,
    r: int,
)
    requires
        texts_there(c, f, file, col, i),
        0 <= r < f.row_groups@[i].row_count,
    ensures
        string_of(c, f.schema.kind(col) is StringDict, quick_column(f, file, col, i)->0, r)
            == text_at(c, f, file, col, i, r),
{
    let rows = f.row_groups@[i].row_count as int;
    let g = group_of(c, f.row_groups@[i], file)->Ok_0;
    let at = data_at(c, f, file, col, i);
    quick_parts(c, f, file, col, i);
    marks_of_group(c, f, file, col, i, r);
    if !(f.schema.kind(col) is StringDict) {
        plain_strings_read(g.body, at, rows);
        let t = plain_text(tail(g.body, at))->0;
        assert(reads_string(t, g.body, at, r));
        assert(t.raw() =~= t.rest.subrange(0, t.declared));
        assert(t.raw().subrange(t.start(r), t.end(r)) =~= t.rest.subrange(t.start(r), t.end(r)));
    }
}

/// Whether row `r` of row group `i` is live and has one of some strings.
pub open spec fn has_one_of<C: ColumnCodec>(
    c: C,
    f: V4Footer,
    file: Seq<u8>,
    col: int,
    values: Seq<Seq<u8>>,
    i: int,
    r: int,
) -> bool {
    !deleted_at(c, f, file, i, r) && exists|k: int|
        0 <= k < values.len() && text_at(c, f, file, col, i, r) == Some(#[trigger] values[k])
}

proof fn having_listed<C: ColumnCodec>(
    c: C,
    f: V4Footer,
    file: Seq<u8>,
    col: int,
    values: Seq<Seq<u8>>,
    k: int,
    kind: spec_fn(int) -> bool,
)
    requires
        f.wf(),
        0 <= k <= f.row_groups@.len(),
        forall|i: int|
            0 <= i < k && f.row_groups@[i].row_count > 0 ==> #[trigger] texts_there(
                c,
                f,
                file,
                col,
                i,
            ),
        forall|i: int, r: int|
            0 <= i < k && 0 <= r < f.row_groups@[i].row_count ==> kind(
                rows_before(f.row_groups@, i) + r,
            ) == #[trigger] has_one_of(c, f, file, col, values, i, r),
    ensures
        ({
            let dict = f.schema.kind(col) is StringDict;
            let v = rows_having(c, f, file, col, dict, values, usize::MAX as int, k);
            &&& lists(v, rows_before(f.row_groups@, k), kind)
            &&& v.len() <= rows_before(f.row_groups@, k)
        }),
    decreases k,
{
    if k > 0 {
        let i = k - 1;
        having_listed(c, f, file, col, values, i, kind);
        group_bounds(f, i);
        let dict = f.schema.kind(col) is StringDict;
        let meta = f.row_groups@[i];
        let rows = meta.row_count as int;
        let base = rows_before(f.row_groups@, i);
        let q = quick_column(f, file, col, i)->0;
        let hit = having(c, dict, q, deletions(meta, q), values);
        if rows > 0 {
            assert(texts_there(c, f, file, col, i));
            quick_parts(c, f, file, col, i);
        }
        assert forall|r: int| 0 <= r < rows implies #[trigger] hit(r) == kind(base + r) by {
            marks_of_group(c, f, file, col, i, r);
            text_is_string(c, f, file, col, i, r);
            assert(has_one_of(c, f, file, col, values, i, r) == kind(base + r));
            if let Some(s) = text_at(c, f, file, col, i, r) {
                if values.contains(s) {
                    let m = choose|m: int| 0 <= m < values.len() && values[m] == s;
                    assert(text_at(c, f, file, col, i, r) == Some(values[m]));
                }
            }
        }
        lists_grow(
            hit,
            rows,
            base,
            rows_having(c, f, file, col, dict, values, usize::MAX as int, i),
            usize::MAX as int,
            kind,
        );
    }
}

impl<C: ColumnCodec> OnDemandStorage<C> {
    /// Whether a row of the table is live and has one of some strings.
    pub open spec fn row_has_one_of(self, col: int, values: Seq<Seq<u8>>, row: int) -> bool {
        let f = self.footer->0;
        has_one_of(self.codec, f, self.file->0@, col, values, holder(f, row), place_in(f, row))
    }

    /// Whether a string column holds a string, or an index, for each row of each row group, with its
    /// place on record.
    pub open spec fn whole_strings_table(self, col_name: Seq<char>) -> bool {
        let f = self.footer->0;
        forall|i: int|
            0 <= i < f.row_groups@.len() && f.row_groups@[i].row_count > 0 ==> #[trigger] texts_there(
                self.codec,
                f,
                self.file->0@,
                f.schema.index_of(col_name)->0 as int,
                i,
            )
    }

    /// A scan for a set of strings gives the rows that are live and have one of them: all of them, no
    /// others, each once, in order; with a limit, the first of these. Counting gives the number of them
    /// all.
    pub proof fn law_strings_lists(
        self,
        col_name: Seq<char>,
        values: Seq<Seq<u8>>,
        limit: Option<usize>,
        all: Seq<usize>,
    )
        requires
            self.wf(),
            self.sound_texts(col_name),
            self.whole_strings_table(col_name),
            ({
                let f = self.footer->0;
                let col = f.schema.index_of(col_name)->0 as int;
                lists(all, f.total_rows(), |row: int| self.row_has_one_of(col, values, row))
            }),
        ensures
            self.string_in(col_name, values, limit) == Ok::<Option<Seq<usize>>, ScanError>(
                Some(up_to(all, limit)),
            ),
            self.string_in_count(col_name, values) == Ok::<Option<int>, ScanError>(
                Some(all.len() as int),
            ),
    {
        let c = self.codec;
        let f = self.footer->0;
        let file = self.file->0@;
        let col = f.schema.index_of(col_name)->0 as int;
        let n = f.row_groups@.len() as int;
        let kind = |row: int| self.row_has_one_of(col, values, row);
        self.law_in_count(col_name, values);
        if values.len() == 0 {
            if all.len() > 0 {
                assert(kind(all[0] as int));
            }
            assert(all =~= Seq::empty());
        } else {
            assert forall|i: int, r: int|
                0 <= i < n && 0 <= r < f.row_groups@[i].row_count implies kind(
                rows_before(f.row_groups@, i) + r,
            ) == #[trigger] has_one_of(c, f, file, col, values, i, r) by {
                in_each_group(f, i, r);
            }
            having_listed(c, f, file, col, values, n, kind);
            self.law_in_finds_rows(col_name, values, None);
            let found = self.texts_found(col_name, values, usize::MAX as int);
            same_list(found, all, f.total_rows(), kind);
        }
        if let Some(m) = limit {
            self.law_in_limit(col_name, values, m);
            assert(up_to(all, limit) =~= all.take(min2(all.len() as int, m as int)));
        }
    }

    /// A scan for a string gives the rows that are live and have it: all of them, no others, each once,
    /// in order; with a limit, the first of these.
    pub proof fn law_string_lists(
        self,
        col_name: Seq<char>,
        target: Seq<u8>,
        limit: Option<usize>,
        all: Seq<usize>,
    )
        requires
            self.wf(),
            self.sound_texts(col_name),
            self.whole_strings_table(col_name),
            ({
                let f = self.footer->0;
                let col = f.schema.index_of(col_name)->0 as int;
                lists(all, f.total_rows(), |row: int| self.row_has_one_of(col, seq![target], row))
            }),
        ensures
            self.string_filter(col_name, target, limit) == Ok::<Option<Seq<usize>>, ScanError>(
                Some(up_to(all, limit)),
            ),
    {
        self.law_strings_lists(col_name, seq![target], limit, all);
        self.law_in_finds_rows(col_name, seq![target], limit);
        self.law_filter_finds_rows(col_name, target, limit);
    }
}

} // verus!
