//! A scan for a LIKE pattern gives the live rows whose string matches it.

use vstd::prelude::*;
use vstd::utf8::encode_utf8;

use crate::bytes::bitmap_len;
use crate::codec::ColumnCodec;
use crate::group::{group_of, id_section, tail, window};
use crate::like::{shape_of, LikeShape};
use crate::like_laws::{law_pattern, like};
use crate::like_scan::LikeQuerySeq;
use crate::meaning::{data_at, deleted_at, holder, lists, missing_at, place_in, place_of};
use crate::model::{
    is_text, rows_before, ScanError, V4Footer, COL_ENCODING_COMPACT_DICTIONARY, COL_ENCODING_PLAIN,
};
use crate::pick_laws::{
    checked_is_select, in_each_group, marks_of_group, picked, picked_are_listed, up_to,
};
use crate::select::select;
use crate::set_laws::select_agrees;
use crate::storage::{max_rows, OnDemandStorage};
use crate::string_laws::{quick_parts, text_at, texts_there};
use crate::tally_laws::{plain_strings_read, reads_string};
use crate::text::{dict_rows, plain_text, strict_rows, StrTestSeq};

verus! {

/// Whether a string matches a pattern: a percent sign stands for any bytes, an underscore for any one
/// byte, every other byte for itself. A pattern that takes an expression means what the expression
/// means.
pub open spec fn fits(pattern: Seq<char>, s: Seq<u8>) -> bool {
    match shape_of(pattern) {
        Some(LikeShape::Regex(e)) => LikeShape::Regex(e).matches(s),
        _ => like(s, encode_utf8(pattern)),
    }
}

/// Whether row `r` of row group `i` is live and has a string that matches.
pub open spec fn fits_at<C: ColumnCodec>(
    c: C,
    f: V4Footer,
    file: Seq<u8>,
    col: int,
    pattern: Seq<char>,
    i: int,
    r: int,
) -> bool {
    !deleted_at(c, f, file, i, r) && (text_at(c, f, file, col, i, r) matches Some(s) && fits(
        pattern,
        s,
    ))
}

/// Whether the dictionary of row group `i`, if it has one, has no value for a row that is missing, and
/// is encoded as dictionaries are.
pub open spec fn missing_have_none<C: ColumnCodec>(c: C, f: V4Footer, file: Seq<u8>, col: int, i: int) -> bool {
    let g = group_of(c, f.row_groups@[i], file)->Ok_0;
    let at = data_at(c, f, file, col, i);
    f.schema.kind(col) is StringDict ==> {
        let d = c.dictionary(
            g.body[at - 1] == COL_ENCODING_COMPACT_DICTIONARY,
            g.body.subrange(at, g.body.len() as int),
        )->0;
        &&& g.body[at - 1] == COL_ENCODING_PLAIN || g.body[at - 1]
            == COL_ENCODING_COMPACT_DICTIONARY
        &&& forall|r: int|
            0 <= r < d.indices.len() && missing_at(c, f, file, col, i, r) ==> {
                let k = (#[trigger] d.indices[r]) as int;
                k == 0 || k > d.values.len()
            }
    }
}

/// Whether row group `i` can be scanned for a pattern.
pub open spec fn likeable<C: ColumnCodec>(c: C, f: V4Footer, file: Seq<u8>, col: int, i: int) -> bool {
    texts_there(c, f, file, col, i) && missing_have_none(c, f, file, col, i)
}

/// What a LIKE scan takes of a row group are the rows that are live and match.
#[verifier::spinoff_prover]
proof fn like_group_picks<C: ColumnCodec>(
    q: LikeQuerySeq,
    pattern: Seq<char>,
    c: C,
    f: V4Footer,
    file: Seq<u8>,
    i: int,
    acc: Seq<usize>,
)
    requires
        f.row_groups@[i].row_count > 0,
        texts_there(c, f, file, q.col, i),
        missing_have_none(c, f, file, q.col, i),
        q.dict == (f.schema.kind(q.col) is StringDict),
        shape_of(pattern) == Some(q.shape),
    ensures
        ({
            let g = group_of(c, f.row_groups@[i], file)->Ok_0;
            let rows = f.row_groups@[i].row_count as int;
            let p = place_of(c, f, file, q.col, i);
            let at = data_at(c, f, file, q.col, i);
            q.rows(
                c,
                g.body[at - 1],
                g.body.subrange(at, g.body.len() as int),
                false,
                if f.row_groups@[i].deletion_count > 0 {
                    window(g.body, id_section(rows, g.ids), bitmap_len(rows))
                } else {
                    None
                },
                g.body.subrange(p, p + bitmap_len(rows)),
                rows,
                rows_before(f.row_groups@, i),
                acc,
            ) == Ok::<Seq<usize>, ScanError>(
                select(
                    |r: int| fits_at(c, f, file, q.col, pattern, i, r),
                    rows,
                    rows_before(f.row_groups@, i),
                    acc,
                    q.max,
                ),
            )
        }),
{
    let meta = f.row_groups@[i];
    let rows = meta.row_count as int;
    let base = rows_before(f.row_groups@, i);
    let g = group_of(c, meta, file)->Ok_0;
    let at = data_at(c, f, file, q.col, i);
    let p = place_of(c, f, file, q.col, i);
    let bm = bitmap_len(rows);
    let del = if meta.deletion_count > 0 {
        window(g.body, id_section(rows, g.ids), bm)
    } else {
        None
    };
    let nulls = g.body.subrange(p, p + bm);
    let data = g.body.subrange(at, g.body.len() as int);
    let test = StrTestSeq::Like(q.shape);
    let here = |r: int| fits_at(c, f, file, q.col, pattern, i, r);
    if q.dict {
        let d = c.dictionary(g.body[at - 1] == COL_ENCODING_COMPACT_DICTIONARY, data)->0;
        let hit = dict_rows(d, test, del, None);
        assert forall|r: int| 0 <= r < rows implies #[trigger] hit(r) == here(r) by {
            marks_of_group(c, f, file, q.col, i, r);
            let k = d.indices[r] as int;
            if let Some(s) = d.value(k) {
                shape_fits(pattern, q.shape, s);
            }
        }
        select_agrees(hit, rows, here, rows, base, acc, q.max);
    } else {
        plain_strings_read(g.body, at, rows);
        let t = plain_text(tail(g.body, at))->0;
        let hit = strict_rows(t, test, del, Some(nulls));
        assert forall|r: int| 0 <= r < rows implies #[trigger] hit(r) == Some(here(r)) by {
            marks_of_group(c, f, file, q.col, i, r);
            assert(reads_string(t, g.body, at, r));
            assert(t.raw() =~= t.rest.subrange(0, t.declared));
            let s = t.rest.subrange(t.start(r), t.end(r));
            assert(t.raw().subrange(t.start(r), t.end(r)) =~= s);
            shape_fits(pattern, q.shape, s);
        }
        checked_is_select(hit, here, rows, base, acc, q.max);
    }
}

pub(crate) proof fn shape_fits(pattern: Seq<char>, shape: LikeShape, s: Seq<u8>)
    requires
        shape_of(pattern) == Some(shape),
    ensures
        shape.matches(s) == fits(pattern, s),
{
    if !(shape is Regex) {
        law_pattern(pattern, s);
    }
}

#[verifier::spinoff_prover]
proof fn like_scan_picks<C: ColumnCodec>(
    q: LikeQuerySeq,
    pattern: Seq<char>,
    c: C,
    f: V4Footer,
    file: Seq<u8>,
    quick: bool,
    k: int,
)
    requires
        0 <= k <= f.row_groups@.len(),
        q.dict == (f.schema.kind(q.col) is StringDict),
        shape_of(pattern) == Some(q.shape),
        quick ==> q.max == usize::MAX,
        forall|i: int|
            0 <= i < k && f.row_groups@[i].row_count > 0 ==> #[trigger] likeable(c, f, file, q.col, i),
    ensures
        q.scan(c, f, file, quick, k) == Ok::<Seq<usize>, ScanError>(
            picked(f, |i: int, r: int| fits_at(c, f, file, q.col, pattern, i, r), q.max, k),
        ),
    decreases k,
{
    let hit = |i: int, r: int| fits_at(c, f, file, q.col, pattern, i, r);
    if k > 0 {
        let i = k - 1;
        like_scan_picks(q, pattern, c, f, file, quick, i);
        let acc = picked(f, hit, q.max, i);
        let rows = f.row_groups@[i].row_count as int;
        if rows > 0 {
            assert(likeable(c, f, file, q.col, i));
            like_group_picks(q, pattern, c, f, file, i, acc);
            quick_parts(c, f, file, q.col, i);
            marks_of_group(c, f, file, q.col, i, 0);
            let a = |r: int| fits_at(c, f, file, q.col, pattern, i, r);
            let b = |r: int| hit(i, r);
            assert forall|r: int| 0 <= r < rows implies #[trigger] a(r) == b(r) by {}
            select_agrees(a, rows, b, rows, rows_before(f.row_groups@, i), acc, q.max);
            if !quick {
                let g = group_of(c, f.row_groups@[i], file)->Ok_0;
                let p = place_of(c, f, file, q.col, i);
                let at = data_at(c, f, file, q.col, i);
                let col = tail(g.body, p + bitmap_len(rows));
                assert(tail(col, 1) =~= g.body.subrange(at, g.body.len() as int));
                if acc.len() >= q.max {
                    full_takes_none(b, rows, rows_before(f.row_groups@, i), acc, q.max);
                }
            }
        }
    }
}

/// A selection that is full takes nothing more.
pub(crate) proof fn full_takes_none(
    hit: spec_fn(int) -> bool,
    n: int,
    base: int,
    acc: Seq<usize>,
    max: int,
)
    requires
        acc.len() >= max,
    ensures
        select(hit, n, base, acc, max) == acc,
    decreases n,
{
    if n > 0 {
        full_takes_none(hit, n - 1, base, acc, max);
    }
}

impl<C: ColumnCodec> OnDemandStorage<C> {
    /// A scan for a pattern with wildcards gives the rows that are live and have a string that matches:
    /// all of them, no others, each once, in order; with a limit, the first of these.
    pub proof fn law_like_lists(
        self,
        col_name: Seq<char>,
        pattern: Seq<char>,
        limit: Option<usize>,
        all: Seq<usize>,
    )
        requires
            self.wf(),
            shape_of(pattern) is Some,
            self.footer matches Some(f) && self.file matches Some(file) && f.schema.index_of(
                col_name,
            ) matches Some(col) && {
                &&& is_text(f.schema.kind(col as int))
                &&& forall|i: int|
                    0 <= i < f.row_groups@.len() && f.row_groups@[i].row_count > 0
                        ==> #[trigger] likeable(self.codec, f, file@, col as int, i)
                &&& lists(
                    all,
                    f.total_rows(),
                    |row: int|
                        fits_at(
                            self.codec,
                            f,
                            file@,
                            col as int,
                            pattern,
                            holder(f, row),
                            place_in(f, row),
                        ),
                )
            },
        ensures
            self.like_filter(col_name, pattern, limit) == Ok::<Option<Seq<usize>>, ScanError>(
                Some(up_to(all, limit)),
            ),
    {
        let c = self.codec;
        let f = self.footer->0;
        let file = self.file->0@;
        let col = f.schema.index_of(col_name)->0 as int;
        let n = f.row_groups@.len() as int;
        let kind = |row: int|
            fits_at(c, f, file, col, pattern, holder(f, row), place_in(f, row));
        let hit = |i: int, r: int| fits_at(c, f, file, col, pattern, i, r);
        assert forall|i: int, r: int|
            0 <= i < n && 0 <= r < f.row_groups@[i].row_count implies #[trigger] hit(i, r) == kind(
            rows_before(f.row_groups@, i) + r,
        ) by {
            in_each_group(f, i, r);
        }
        picked_are_listed(f, hit, limit, all, kind);
        let q = LikeQuerySeq {
            col,
            dict: f.schema.kind(col) is StringDict,
            shape: shape_of(pattern)->0,
            max: max_rows(limit),
        };
        assert forall|i: int| 0 <= i < n && f.row_groups@[i].row_count > 0 implies #[trigger] likeable(c, f, file, q.col, i) by {}
        like_scan_picks(q, pattern, c, f, file, false, n);
        if limit is None {
            like_scan_picks(q, pattern, c, f, file, true, n);
        }
    }
}

} // verus!
