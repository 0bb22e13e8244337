//! What is read for a text index: one identifier for each live row.

use vstd::prelude::*;

use crate::bytes::{bit, bitmap_len, u64_le};
use crate::codec::ColumnCodec;
use crate::column::ColumnSeq;
use crate::column_ops::{
    blank_like, default_column, joined, picked, rows_of_column, shaped, spelled, with_bit,
    with_blank, with_rows, without_nulls,
};
use crate::fts::{
    counts_up, fts_group, fts_upto, live_rows, live_rows_bound, short_id, short_ids, text_columns,
    text_piece, text_pieces, FtsSeq,
};
use crate::gather_laws::{
    bit_added, blank_held, data_len, held, held_all, held_len, joined_grows, kept, picked_held,
    picks_fit, row_grows, row_held, rows_held, short, sort_of, spelled_held, text_added, Held,
};
use crate::group::{group_of, id_section, stored_group, tail, window};
use crate::identity_laws::{identifier, ids_there};
use crate::meaning::{deleted_at, flag, holder, lists, marks_len, place_in};
use crate::model::{is_text, rows_before, ColumnType, V4Footer, RG_COMPRESS_NONE};
use crate::not_laws::no_bits;
use crate::pick_laws::{flag_is_bit, in_each_group, lists_same, lists_skip, same_list};
use crate::read_laws::law_live_rows;
use crate::scan_laws::group_bounds;
use crate::scattered::bits_at;
use crate::storage::OnDemandStorage;
use crate::text_scan::has_bits;

verus! {

/// Whether row group `i` can be read for a text index: it is stored as it is and has its identifiers;
/// its catalogue entry is right about deletions and about identifiers that count up; the columns can be
/// decoded where their places are on record.
#[verifier::opaque]
pub open spec fn indexable<C: ColumnCodec>(
    c: C,
    f: V4Footer,
    file: Seq<u8>,
    cols: Seq<usize>,
    i: int,
) -> bool {
    let meta = f.row_groups@[i];
    let rows = meta.row_count as int;
    let s = stored_group(meta, file)->Ok_0;
    let body = tail(s, 32);
    &&& ids_there(c, f, file, i)
    &&& s[28] == RG_COMPRESS_NONE
    &&& s[29] >= 1
    &&& f.rcix(i, 0) is Some
    &&& meta.live() == 0 ==> forall|r: int| 0 <= r < rows ==> #[trigger] deleted_at(c, f, file, i, r)
    &&& meta.deletion_count == 0 && meta.max_id == meta.min_id + meta.row_count - 1 ==> forall|r: int|
        0 <= r < rows ==> #[trigger] identifier(c, f, file, i, r) == meta.min_id + r
    &&& forall|p: int|
        0 <= p < cols.len() ==> (f.rcix(i, #[trigger] cols[p] as int) matches Some(o) ==> o
            + marks_len(rows) <= body.len() && c.decoded(
            true,
            tail(body, o + marks_len(rows)),
            f.schema.kind(cols[p] as int),
        ) is Some)
}

/// Rows moved on by a number of rows.
spec fn moved(rows: Seq<usize>, base: int) -> Seq<usize> {
    Seq::new(rows.len(), |k: int| (base + rows[k]) as usize)
}

proof fn lists_join(
    rows: Seq<usize>,
    places: Seq<usize>,
    base: int,
    n: int,
    hit: spec_fn(int) -> bool,
    kind: spec_fn(int) -> bool,
)
    requires
        0 <= base,
        0 <= n,
        base + n <= usize::MAX,
        lists(rows, base, kind),
        lists(places, n, hit),
        forall|r: int| 0 <= r < n ==> #[trigger] hit(r) == kind(base + r),
    ensures
        lists(rows + moved(places, base), base + n, kind),
{
    let v = rows + moved(places, base);
    let m = rows.len() as int;
    assert forall|k: int| 0 <= k < v.len() implies (#[trigger] v[k]) < base + n && kind(
        v[k] as int,
    ) by {
        if k >= m {
            assert(places[k - m] < n && hit(places[k - m] as int));
        } else {
            assert(rows[k] < base && kind(rows[k] as int));
        }
    }
    assert forall|j: int, k: int| 0 <= j < k < v.len() implies #[trigger] v[j] < #[trigger] v[k] by {
        if k < m {
            assert(rows[j] < rows[k]);
        } else {
            assert(places[k - m] < n);
            if j >= m {
                assert(places[j - m] < places[k - m]);
            } else {
                assert(rows[j] < base);
            }
        }
    }
    assert forall|x: int| 0 <= x < base + n && #[trigger] kind(x) implies v.contains(x as usize) by {
        if x < base {
            assert(rows.contains(x as usize));
            let k = choose|k: int| 0 <= k < rows.len() && rows[k] == x as usize;
            assert(v[k] == x as usize);
        } else {
            let r = x - base;
            assert(hit(r) == kind(base + r));
            assert(places.contains(r as usize));
            let k = choose|k: int| 0 <= k < places.len() && places[k] == r as usize;
            assert(v[m + k] == x as usize);
        }
    }
}

proof fn short_ids_of_rows(
    body: Seq<u8>,
    implicit: bool,
    min_id: int,
    places: Seq<usize>,
    acc: Seq<u32>,
    name: spec_fn(int) -> int,
)
    requires
        forall|k: int|
            0 <= k < places.len() ==> #[trigger] name(places[k] as int) <= u64::MAX && name(
                places[k] as int,
            ) == (if implicit {
                min_id + places[k]
            } else {
                u64_le(body, places[k] * 8) as int
            }),
    ensures
        short_ids(body, implicit, min_id, places, acc) == Some(
            acc + Seq::new(places.len(), |k: int| short_id(name(places[k] as int))),
        ),
    decreases places.len(),
{
    let more = Seq::new(places.len(), |k: int| short_id(name(places[k] as int)));
    if places.len() == 0 {
        assert(acc + more =~= acc);
    } else {
        let d = places.drop_last();
        assert forall|k: int| 0 <= k < d.len() implies #[trigger] name(d[k] as int) <= u64::MAX && name(
            d[k] as int,
        ) == (if implicit {
            min_id + d[k]
        } else {
            u64_le(body, d[k] * 8) as int
        }) by {
            assert(d[k] == places[k]);
            assert(name(places[k] as int) <= u64::MAX);
        }
        short_ids_of_rows(body, implicit, min_id, d, acc, name);
        let last = places.len() - 1;
        assert(places.last() == places[last]);
        assert(name(places[last] as int) <= u64::MAX);
        let fewer = Seq::new(d.len(), |k: int| short_id(name(d[k] as int)));
        assert((acc + fewer).push(short_id(name(places[last] as int))) =~= acc + more);
    }
}

proof fn pieces_read<C: ColumnCodec>(
    c: C,
    f: V4Footer,
    file: Seq<u8>,
    cols: Seq<usize>,
    i: int,
    live: Option<Seq<usize>>,
    acc: Seq<ColumnSeq>,
    p: int,
)
    requires
        indexable(c, f, file, cols, i),
        0 <= p <= cols.len(),
    ensures
        text_pieces(
            c,
            f,
            tail(stored_group(f.row_groups@[i], file)->Ok_0, 32),
            i,
            cols,
            live,
            acc,
            p,
        ) is Ok,
    decreases p,
{
    if p > 0 {
        pieces_read(c, f, file, cols, i, live, acc, p - 1);
        reveal(indexable);
        reveal(text_piece);
        let rows = f.row_groups@[i].row_count as int;
        assert(bitmap_len(rows) == marks_len(rows));
        let col = cols[p - 1] as int;
        assert(f.rcix(i, cols[p - 1] as int) is None || f.rcix(i, col) is Some);
    }
}

/// Text columns with what row group `i` adds.
spec fn cols_after<C: ColumnCodec>(
    c: C,
    f: V4Footer,
    file: Seq<u8>,
    cols: Seq<usize>,
    i: int,
    places: Seq<usize>,
    acc: Seq<ColumnSeq>,
) -> Seq<ColumnSeq> {
    let meta = f.row_groups@[i];
    if meta.row_count == 0 || meta.live() == 0 {
        acc
    } else {
        text_pieces(
            c,
            f,
            tail(stored_group(meta, file)->Ok_0, 32),
            i,
            cols,
            if meta.deletion_count > 0 {
                Some(places)
            } else {
                None
            },
            acc,
            cols.len() as int,
        )->Ok_0
    }
}

proof fn all_rows_live(n: int)
    requires
        0 <= n <= usize::MAX,
    ensures
        live_rows(Seq::empty(), n).len() == n,
        forall|k: int| 0 <= k < n ==> #[trigger] live_rows(Seq::empty(), n)[k] == k,
    decreases n,
{
    if n > 0 {
        all_rows_live(n - 1);
    }
}

/// What a row group adds to the identifiers.
#[verifier::spinoff_prover]
proof fn ids_added<C: ColumnCodec>(
    c: C,
    f: V4Footer,
    file: Seq<u8>,
    cols: Seq<usize>,
    i: int,
    st: FtsSeq,
) -> (places: Seq<usize>)
    requires
        f.wf(),
        0 <= i < f.row_groups@.len(),
        f.row_groups@[i].row_count > 0 ==> indexable(c, f, file, cols, i),
    ensures
        lists(places, f.row_groups@[i].row_count as int, |r: int| !deleted_at(c, f, file, i, r)),
        fts_group(c, f, file, cols, i, st) matches Ok(Some(now)) && now.ids == st.ids + Seq::new(
            places.len(),
            |k: int| short_id(identifier(c, f, file, i, places[k] as int)),
        ) && now.cols == cols_after(c, f, file, cols, i, places, st.cols),
        places.len() <= f.row_groups@[i].row_count,
        f.row_groups@[i].deletion_count == 0 ==> places.len() == f.row_groups@[i].row_count && forall|
            k: int,
        |
            0 <= k < places.len() ==> #[trigger] places[k] == k,
{
    let meta = f.row_groups@[i];
    let rows = meta.row_count as int;
    let kind = |r: int| !deleted_at(c, f, file, i, r);
    group_bounds(f, i);
    if rows == 0 || meta.live() == 0 {
        reveal(indexable);
        let none = Seq::<usize>::empty();
        lists_skip(none, 0, rows, kind);
        assert(st.ids + Seq::new(
            none.len(),
            |k: int| short_id(identifier(c, f, file, i, none[k] as int)),
        ) =~= st.ids);
        none
    } else {
        reveal(indexable);
        let s = stored_group(meta, file)->Ok_0;
        let body = tail(s, 32);
        let g = group_of(c, meta, file)->Ok_0;
        assert(g.body == body && g.ids == s[30]);
        assert(bitmap_len(rows) == marks_len(rows));
        let deleted = window(body, id_section(rows, s[30]), bitmap_len(rows))->0;
        let live = if meta.deletion_count > 0 {
            Some(live_rows(deleted, rows))
        } else {
            None
        };
        let bits = if meta.deletion_count > 0 {
            deleted
        } else {
            Seq::empty()
        };
        let places = live_rows(bits, rows);
        law_live_rows(bits, rows);
        live_rows_bound(bits, rows);
        if meta.deletion_count == 0 {
            all_rows_live(rows);
        }
        let hit = |r: int| !bit(bits, r);
        assert forall|r: int| 0 <= r < rows implies #[trigger] hit(r) == kind(r) by {
            flag_is_bit(body, id_section(rows, s[30]), rows, r);
        }
        lists_same(places, rows, hit, kind);
        let name = |r: int| identifier(c, f, file, i, r);
        assert forall|k: int| 0 <= k < places.len() implies #[trigger] name(places[k] as int)
            <= u64::MAX && name(places[k] as int) == (if counts_up(meta, s[30]) {
            meta.min_id + places[k]
        } else {
            u64_le(body, places[k] * 8) as int
        }) by {
            assert(places[k] < rows);
            let r = places[k] as int;
            assert(name(r) == identifier(c, f, file, i, r));
        }
        short_ids_of_rows(body, counts_up(meta, s[30]), meta.min_id as int, places, st.ids, name);
        pieces_read(c, f, file, cols, i, live, st.cols, cols.len() as int);
        assert(Seq::new(places.len(), |k: int| short_id(name(places[k] as int))) =~= Seq::new(
            places.len(),
            |k: int| short_id(identifier(c, f, file, i, places[k] as int)),
        ));
        places
    }
}

/// What the first row groups add to the identifiers.
proof fn ids_collected<C: ColumnCodec>(
    c: C,
    f: V4Footer,
    file: Seq<u8>,
    cols: Seq<usize>,
    k: int,
) -> (rows: Seq<usize>)
    requires
        f.wf(),
        0 <= k <= f.row_groups@.len(),
        forall|i: int|
            0 <= i < k && f.row_groups@[i].row_count > 0 ==> #[trigger] indexable(c, f, file, cols, i),
    ensures
        lists(
            rows,
            rows_before(f.row_groups@, k),
            |row: int| !deleted_at(c, f, file, holder(f, row), place_in(f, row)),
        ),
        fts_upto(c, f, file, cols, k) matches Ok(Some(st)) && st.ids.len() == rows.len() && forall|
            j: int,
        |
            0 <= j < rows.len() ==> #[trigger] st.ids[j] == short_id(
                identifier(
                    c,
                    f,
                    file,
                    holder(f, rows[j] as int),
                    place_in(f, rows[j] as int),
                ),
            ),
    decreases k,
{
    if k == 0 {
        Seq::empty()
    } else {
        let i = k - 1;
        let rows = ids_collected(c, f, file, cols, i);
        let st = fts_upto(c, f, file, cols, i)->Ok_0->0;
        let places = ids_added(c, f, file, cols, i, st);
        let n = f.row_groups@[i].row_count as int;
        let base = rows_before(f.row_groups@, i);
        group_bounds(f, i);
        let kind = |row: int| !deleted_at(c, f, file, holder(f, row), place_in(f, row));
        let hit = |r: int| !deleted_at(c, f, file, i, r);
        assert forall|r: int| 0 <= r < n implies #[trigger] hit(r) == kind(base + r) by {
            in_each_group(f, i, r);
        }
        lists_join(rows, places, base, n, hit, kind);
        let all = rows + moved(places, base);
        let now = fts_upto(c, f, file, cols, k)->Ok_0->0;
        assert forall|j: int| 0 <= j < all.len() implies #[trigger] now.ids[j] == short_id(
            identifier(c, f, file, holder(f, all[j] as int), place_in(f, all[j] as int)),
        ) by {
            if j < rows.len() {
                assert(all[j] == rows[j]);
                assert(st.ids[j] == now.ids[j]);
            } else {
                let r = places[j - rows.len()] as int;
                assert(r < n);
                in_each_group(f, i, r);
                assert(all[j] == base + r);
            }
        }
        all
    }
}

/// The text of row `r` of row group `i` for an index: an empty one where the row has no value in the
/// column, or the place of the column is not on record.
pub open spec fn index_text<C: ColumnCodec>(
    c: C,
    f: V4Footer,
    file: Seq<u8>,
    col: int,
    i: int,
    r: int,
) -> Held {
    let rows = f.row_groups@[i].row_count as int;
    let body = tail(stored_group(f.row_groups@[i], file)->Ok_0, 32);
    match f.rcix(i, col) {
        None => Held::Text(Seq::empty()),
        Some(o) => if flag(body, o, r) {
            Held::Text(Seq::empty())
        } else {
            match c.decoded(
                true,
                body.subrange(o + marks_len(rows), body.len() as int),
                f.schema.kind(col),
            ) {
                Some((v, _)) => held(v, r),
                None => Held::Text(Seq::empty()),
            }
        },
    }
}

/// Whether a column of row group `i` has a string for each row, where its place is on record.
pub open spec fn index_texts_there<C: ColumnCodec>(
    c: C,
    f: V4Footer,
    file: Seq<u8>,
    col: int,
    i: int,
) -> bool {
    let rows = f.row_groups@[i].row_count as int;
    let body = tail(stored_group(f.row_groups@[i], file)->Ok_0, 32);
    f.rcix(i, col) matches Some(o) ==> {
        &&& o + marks_len(rows) <= body.len()
        &&& c.decoded(
            true,
            body.subrange(o + marks_len(rows), body.len() as int),
            f.schema.kind(col),
        ) matches Some((v, _)) && sort_of(v) is Text && rows_of_column(c, v) == rows && short(c, v)
    }
}

spec fn no_text() -> Held {
    Held::Text(Seq::empty())
}

proof fn blank_text_held<C: ColumnCodec>(c: C, acc: ColumnSeq)
    requires
        acc is String,
        kept(acc),
        data_len(acc) <= u64::MAX,
    ensures
        with_blank(c, acc) is String,
        kept(with_blank(c, acc)),
        data_len(with_blank(c, acc)) == data_len(acc),
        held_all(c, with_blank(c, acc)) == held_all(c, acc).push(no_text()),
{
    if let ColumnSeq::String { offsets, data } = acc {
        text_added(offsets, data, Seq::empty());
        assert(data + Seq::<u8>::empty() =~= data);
        assert(held_all(c, with_blank(c, acc)) =~= held_all(c, acc).push(no_text()));
    }
}

/// Rows without a value hold an empty string.
proof fn nulls_held<C: ColumnCodec>(c: C, col: ColumnSeq, nulls: Seq<u8>, n: int)
    requires
        col is String,
        short(c, col),
        0 <= n <= rows_of_column(c, col) <= u32::MAX,
    ensures
        without_nulls(c, col, nulls, n) is String,
        kept(without_nulls(c, col, nulls, n)),
        data_len(without_nulls(c, col, nulls, n)) <= n * 0xffff_ffff,
        held_all(c, without_nulls(c, col, nulls, n)) == Seq::new(
            n as nat,
            |r: int|
                if bit(nulls, r) {
                    no_text()
                } else {
                    held(col, r)
                },
        ),
    decreases n,
{
    let now = without_nulls(c, col, nulls, n);
    let want = Seq::new(
        n as nat,
        |r: int|
            if bit(nulls, r) {
                no_text()
            } else {
                held(col, r)
            },
    );
    if n == 0 {
        blank_held(c, col);
        assert(held_all(c, now) =~= want);
    } else {
        nulls_held(c, col, nulls, n - 1);
        let before = without_nulls(c, col, nulls, n - 1);
        assert(held_all(c, before).len() == rows_of_column(c, before));
        if bit(nulls, n - 1) {
            blank_text_held(c, before);
            assert(held_all(c, now) =~= want);
        } else {
            row_grows(c, before, col, n - 1);
            assert(held_len(held(col, n - 1)) <= 0xffff_ffff);
            row_held(c, before, col, n - 1);
            assert(now is String);
            assert(held_all(c, now) =~= want);
        }
    }
}

/// A column of rows without values holds empty strings.
proof fn blanks_held<C: ColumnCodec>(c: C, n: int)
    requires
        0 <= n,
    ensures
        default_column(c, ColumnType::String, n) is String,
        kept(default_column(c, ColumnType::String, n)),
        data_len(default_column(c, ColumnType::String, n)) == 0,
        held_all(c, default_column(c, ColumnType::String, n)) == Seq::new(
            n as nat,
            |r: int| no_text(),
        ),
    decreases n,
{
    let now = default_column(c, ColumnType::String, n);
    if n == 0 {
        assert(held_all(c, now) =~= Seq::new(0, |r: int| no_text()));
    } else {
        blanks_held(c, n - 1);
        let before = default_column(c, ColumnType::String, n - 1);
        blank_text_held(c, before);
        assert(held_all(c, now) =~= Seq::new(n as nat, |r: int| no_text()));
    }
}

/// Bits at some places are the bits there.
proof fn bits_held(bits: Seq<u8>, places: Seq<usize>)
    requires
        places.len() <= usize::MAX,
    ensures
        bits_at(bits, places) matches ColumnSeq::Bool { data, len } && len == places.len()
            && data.len() == bitmap_len(len as int) && (forall|k: int|
            k >= len ==> !#[trigger] bit(data, k)) && forall|k: int|
            0 <= k < len ==> #[trigger] bit(data, k) == bit(bits, places[k] as int),
    decreases places.len(),
{
    if places.len() == 0 {
        assert forall|k: int| k >= 0 implies !#[trigger] bit(Seq::<u8>::empty(), k) by {}
    } else {
        let d = places.drop_last();
        bits_held(bits, d);
        if let ColumnSeq::Bool { data, len } = bits_at(bits, d) {
            let b = bit(bits, places.last() as int);
            bit_added(data, len as int, b);
            let now = with_bit(data, len as int, b);
            assert forall|k: int| 0 <= k < places.len() implies #[trigger] bit(now, k) == bit(
                bits,
                places[k] as int,
            ) by {
                if k < len {
                    assert(bit(data, k) == bit(bits, d[k] as int));
                }
            }
        }
    }
}

/// What a row group adds to a text column holds the texts of the rows at the places.
#[verifier::spinoff_prover]
proof fn piece_held<C: ColumnCodec>(
    c: C,
    f: V4Footer,
    file: Seq<u8>,
    col: int,
    i: int,
    places: Seq<usize>,
    live: Option<Seq<usize>>,
)
    requires
        index_texts_there(c, f, file, col, i),
        places.len() <= f.row_groups@[i].row_count,
        f.row_groups@[i].row_count <= usize::MAX,
        forall|k: int| 0 <= k < places.len() ==> #[trigger] places[k] < f.row_groups@[i].row_count,
        match live {
            Some(v) => v == places,
            None => places.len() == f.row_groups@[i].row_count && forall|k: int|
                0 <= k < places.len() ==> #[trigger] places[k] == k,
        },
    ensures
        text_piece(
            c,
            f,
            tail(stored_group(f.row_groups@[i], file)->Ok_0, 32),
            i,
            col,
            live,
        ) matches Ok(piece) && sort_of(piece) is Text && held_all(c, piece) == Seq::new(
            places.len(),
            |k: int| index_text(c, f, file, col, i, places[k] as int),
        ),
{
    reveal(text_piece);
    let rows = f.row_groups@[i].row_count as int;
    let bm = bitmap_len(rows);
    let body = tail(stored_group(f.row_groups@[i], file)->Ok_0, 32);
    let n = places.len() as int;
    let want = Seq::new(
        places.len(),
        |k: int| index_text(c, f, file, col, i, places[k] as int),
    );
    assert(bm == marks_len(rows));
    let piece = text_piece(c, f, body, i, col, live)->Ok_0;
    match f.rcix(i, col) {
        None => {
            blanks_held(c, n);
            assert(held_all(c, piece) =~= want);
        },
        Some(o) => {
            let nulls = body.subrange(o, o + bm);
            assert(tail(body, o + bm) == body.subrange(o + marks_len(rows), body.len() as int));
            let (v, _) = c.decoded(true, tail(body, o + bm), f.schema.kind(col))->0;
            let whole = spelled(c, v);
            spelled_held(c, v);
            assert(whole is String);
            assert(forall|r: int|
                0 <= r < rows ==> #[trigger] held(whole, r) == held(v, r)) by {
                assert forall|r: int| 0 <= r < rows implies #[trigger] held(whole, r) == held(
                    v,
                    r,
                ) by {
                    assert(held_all(c, whole)[r] == held_all(c, v)[r]);
                }
            }
            assert forall|r: int| 0 <= r < rows implies #[trigger] bit(nulls, r) == flag(
                body,
                o,
                r,
            ) by {
                flag_is_bit(body, o, rows, r);
            }
            if !has_bits(nulls) {
                no_bits(nulls, rows);
            }
            match live {
                None => {
                    if has_bits(nulls) {
                        nulls_held(c, whole, nulls, rows);
                    }
                    assert forall|k: int| 0 <= k < n implies #[trigger] held_all(c, piece)[k]
                        == want[k] by {
                        assert(places[k] == k);
                        assert(bit(nulls, k) == flag(body, o, k));
                        assert(held(whole, k) == held(v, k));
                    }
                    assert(held_all(c, piece) =~= want);
                },
                Some(_) => {
                    let part = picked(c, whole, places);
                    picked_held(c, whole, places);
                    picks_fit(c, blank_like(whole), whole, places);
                    assert(part is String);
                    assert(held_all(c, part).len() == n);
                    assert forall|k: int| 0 <= k < n implies #[trigger] held(part, k) == held(
                        v,
                        places[k] as int,
                    ) by {
                        assert(held_all(c, part)[k] == held(whole, places[k] as int));
                        assert(places[k] < rows);
                    }
                    assert(short(c, part)) by {
                        assert forall|k: int| 0 <= k < rows_of_column(c, part) implies held_len(
                            #[trigger] held(part, k),
                        ) <= 0xffff_ffff by {
                            assert(places[k] < rows);
                            assert(held_len(held(v, places[k] as int)) <= 0xffff_ffff);
                        }
                    }
                    bits_held(nulls, places);
                    if has_bits(nulls) {
                        nulls_held(c, part, bits_at(nulls, places)->Bool_data, n);
                    }
                    assert forall|k: int| 0 <= k < n implies #[trigger] held_all(c, piece)[k]
                        == want[k] by {
                        assert(places[k] < rows);
                        assert(held(part, k) == held(v, places[k] as int));
                        assert(bit(nulls, places[k] as int) == flag(body, o, places[k] as int));
                        assert(bit(bits_at(nulls, places)->Bool_data, k) == bit(
                            nulls,
                            places[k] as int,
                        ));
                    }
                    assert(held_all(c, piece) =~= want);
                },
            }
        },
    }
}

proof fn column_after<C: ColumnCodec>(
    c: C,
    f: V4Footer,
    body: Seq<u8>,
    i: int,
    cols: Seq<usize>,
    live: Option<Seq<usize>>,
    acc: Seq<ColumnSeq>,
    p: int,
    q: int,
)
    requires
        0 <= p <= cols.len(),
        0 <= q < cols.len(),
        acc.len() == cols.len(),
        text_pieces(c, f, body, i, cols, live, acc, p) is Ok,
    ensures
        text_pieces(c, f, body, i, cols, live, acc, p)->Ok_0.len() == acc.len(),
        text_pieces(c, f, body, i, cols, live, acc, p)->Ok_0[q] == (if q < p {
            joined(c, acc[q], text_piece(c, f, body, i, cols[q] as int, live)->Ok_0)
        } else {
            acc[q]
        }),
    decreases p,
{
    if p > 0 {
        column_after(c, f, body, i, cols, live, acc, p - 1, q);
    }
}

/// What the first row groups add to a text column.
#[verifier::spinoff_prover]
proof fn texts_collected<C: ColumnCodec>(
    c: C,
    f: V4Footer,
    file: Seq<u8>,
    cols: Seq<usize>,
    q: int,
    k: int,
) -> (rows: Seq<usize>)
    requires
        f.wf(),
        0 <= k <= f.row_groups@.len(),
        0 <= q < cols.len(),
        forall|i: int|
            0 <= i < k && f.row_groups@[i].row_count > 0 ==> #[trigger] indexable(c, f, file, cols, i),
        forall|i: int|
            0 <= i < k && f.row_groups@[i].row_count > 0 ==> #[trigger] index_texts_there(
                c,
                f,
                file,
                cols[q] as int,
                i,
            ),
        fts_upto(c, f, file, cols, k) matches Ok(Some(st)) ==> data_len(st.cols[q]) <= u64::MAX,
    ensures
        lists(
            rows,
            rows_before(f.row_groups@, k),
            |row: int| !deleted_at(c, f, file, holder(f, row), place_in(f, row)),
        ),
        rows.len() <= rows_before(f.row_groups@, k),
        fts_upto(c, f, file, cols, k) matches Ok(Some(st)) && st.cols.len() == cols.len()
            && st.cols[q] is String && kept(st.cols[q]) && held_all(c, st.cols[q]) == Seq::new(
            rows.len(),
            |j: int|
                index_text(
                    c,
                    f,
                    file,
                    cols[q] as int,
                    holder(f, rows[j] as int),
                    place_in(f, rows[j] as int),
                ),
        ),
    decreases k,
{
    let texts = |v: Seq<usize>|
        Seq::new(
            v.len(),
            |j: int|
                index_text(
                    c,
                    f,
                    file,
                    cols[q] as int,
                    holder(f, v[j] as int),
                    place_in(f, v[j] as int),
                ),
        );
    if k == 0 {
        let none = Seq::<usize>::empty();
        let st = fts_upto(c, f, file, cols, 0)->Ok_0->0;
        assert(held_all(c, st.cols[q]) =~= texts(none));
        none
    } else {
        let i = k - 1;
        let _ = ids_collected(c, f, file, cols, i);
        let st = fts_upto(c, f, file, cols, i)->Ok_0->0;
        cols_kept(c, f, file, cols, i);
        let places = ids_added(c, f, file, cols, i, st);
        let now = fts_upto(c, f, file, cols, k)->Ok_0->0;
        let meta = f.row_groups@[i];
        let n = meta.row_count as int;
        let base = rows_before(f.row_groups@, i);
        group_bounds(f, i);
        let kind = |row: int| !deleted_at(c, f, file, holder(f, row), place_in(f, row));
        let hit = |r: int| !deleted_at(c, f, file, i, r);
        if n == 0 || meta.live() == 0 {
            assert(now.cols == st.cols);
            let rows = texts_collected(c, f, file, cols, q, i);
            assert forall|x: int| base <= x < base + n implies !#[trigger] kind(x) by {
                reveal(indexable);
                in_each_group(f, i, x - base);
                assert(indexable(c, f, file, cols, i));
                assert(deleted_at(c, f, file, i, x - base));
            }
            lists_skip(rows, base, base + n, kind);
            rows
        } else {
            let body = tail(stored_group(meta, file)->Ok_0, 32);
            let live = if meta.deletion_count > 0 {
                Some(places)
            } else {
                None
            };
            assert(indexable(c, f, file, cols, i));
            assert(index_texts_there(c, f, file, cols[q] as int, i));
            pieces_read(c, f, file, cols, i, live, st.cols, cols.len() as int);
            column_after(c, f, body, i, cols, live, st.cols, cols.len() as int, q);
            let piece = text_piece(c, f, body, i, cols[q] as int, live)->Ok_0;
            assert forall|m: int| 0 <= m < places.len() implies #[trigger] places[m] < n by {}
            piece_held(c, f, file, cols[q] as int, i, places, live);
            joined_grows(c, shaped(st.cols[q], piece), piece, rows_of_column(c, piece));
            strings_keep_shape(st.cols[q], piece);
            let rows = texts_collected(c, f, file, cols, q, i);
            assert(held_all(c, piece).len() == rows_of_column(c, piece));
            assert(held_all(c, st.cols[q]).len() == rows_of_column(c, st.cols[q]));
            rows_held(c, st.cols[q], piece, 0, rows_of_column(c, piece));
            assert forall|r: int| 0 <= r < n implies #[trigger] hit(r) == kind(base + r) by {
                in_each_group(f, i, r);
            }
            lists_join(rows, places, base, n, hit, kind);
            let all = rows + moved(places, base);
            assert forall|j: int| 0 <= j < all.len() implies #[trigger] texts(all)[j] == (
            held_all(c, st.cols[q]) + held_all(c, piece))[j] by {
                if j < rows.len() {
                    assert(all[j] == rows[j]);
                } else {
                    let r = places[j - rows.len()] as int;
                    assert(r < n);
                    in_each_group(f, i, r);
                    assert(all[j] == base + r);
                }
            }
            assert(held_all(c, piece).subrange(0, rows_of_column(c, piece)) =~= held_all(c, piece));
            assert(held_all(c, now.cols[q]) =~= texts(all));
            all
        }
    }
}

/// Strings take on no shape.
proof fn strings_keep_shape(acc: ColumnSeq, col: ColumnSeq)
    requires
        acc is String,
    ensures
        shaped(acc, col) == acc,
{
}

/// Text columns stay text columns.
proof fn cols_kept<C: ColumnCodec>(c: C, f: V4Footer, file: Seq<u8>, cols: Seq<usize>, k: int)
    requires
        f.wf(),
        0 <= k <= f.row_groups@.len(),
        forall|i: int|
            0 <= i < k && f.row_groups@[i].row_count > 0 ==> #[trigger] indexable(c, f, file, cols, i),
    ensures
        fts_upto(c, f, file, cols, k) matches Ok(Some(st)) && st.cols.len() == cols.len() && forall|
            q: int,
        |
            0 <= q < cols.len() ==> (#[trigger] st.cols[q]) is String,
    decreases k,
{
    if k > 0 {
        let i = k - 1;
        cols_kept(c, f, file, cols, i);
        let st = fts_upto(c, f, file, cols, i)->Ok_0->0;
        let places = ids_added(c, f, file, cols, i, st);
        let meta = f.row_groups@[i];
        if meta.row_count > 0 && meta.live() > 0 {
            let body = tail(stored_group(meta, file)->Ok_0, 32);
            let live = if meta.deletion_count > 0 {
                Some(places)
            } else {
                None
            };
            assert(indexable(c, f, file, cols, i));
            pieces_read(c, f, file, cols, i, live, st.cols, cols.len() as int);
            let now = fts_upto(c, f, file, cols, k)->Ok_0->0;
            if cols.len() == 0 {
                assert(now.cols == st.cols);
            }
            assert forall|q: int| 0 <= q < cols.len() implies now.cols.len() == cols.len() && (
            #[trigger] now.cols[q]) is String by {
                column_after(c, f, body, i, cols, live, st.cols, cols.len() as int, q);
                assert(st.cols[q] is String);
                let piece = text_piece(c, f, body, i, cols[q] as int, live)->Ok_0;
                strings_keep_shape(st.cols[q], piece);
                rows_stay_text(c, st.cols[q], piece, rows_of_column(c, piece));
            }
            if cols.len() > 0 {
                assert(now.cols[0] is String);
            }
        }
    }
}

proof fn rows_stay_text<C: ColumnCodec>(c: C, acc: ColumnSeq, col: ColumnSeq, n: int)
    requires
        acc is String,
    ensures
        with_rows(c, acc, col, 0, n) is String,
    decreases n,
{
    if n > 0 {
        rows_stay_text(c, acc, col, n - 1);
    }
}

/// Names are looked up where each is that of a column with strings; each leads to its column.
pub proof fn law_text_columns(f: V4Footer, names: Seq<Seq<char>>)
    ensures
        text_columns(f, names) is Some <==> (forall|p: int|
            0 <= p < names.len() ==> (f.schema.index_of(#[trigger] names[p]) matches Some(j) && is_text(
                f.schema.kind(j as int),
            ))),
        text_columns(f, names) matches Some(cols) ==> cols.len() == names.len() && forall|p: int|
            0 <= p < names.len() ==> f.schema.index_of(#[trigger] names[p]) == Some(cols[p]),
    decreases names.len(),
{
    if names.len() > 0 {
        let d = names.drop_last();
        law_text_columns(f, d);
        assert(names.last() == names[names.len() - 1]);
        assert forall|p: int| 0 <= p < d.len() implies #[trigger] d[p] == names[p] by {}
        if text_columns(f, names) is None {
            if text_columns(f, d) is None {
                let p = choose|p: int|
                    0 <= p < d.len() && !(f.schema.index_of(#[trigger] d[p]) matches Some(j) && is_text(
                        f.schema.kind(j as int),
                    ));
                assert(d[p] == names[p]);
            }
        } else {
            assert forall|p: int| 0 <= p < names.len() implies (f.schema.index_of(
                #[trigger] names[p],
            ) matches Some(j) && is_text(f.schema.kind(j as int))) && f.schema.index_of(names[p])
                == Some(text_columns(f, names)->0[p]) by {
                if p < d.len() {
                    assert(d[p] == names[p]);
                }
            }
        }
    }
}

impl<C: ColumnCodec> OnDemandStorage<C> {
    /// Reading text columns for an index gives the identifiers of the live rows, cut to 32 bits, one for
    /// each and in the order of the rows.
    pub proof fn law_index_ids_of_rows(self, names: Seq<Seq<char>>, rows: Seq<usize>)
        requires
            self.wf(),
            names.len() > 0,
            self.footer is Some,
            self.file is Some,
            ({
                let f = self.footer->0;
                &&& text_columns(f, names) is Some
                &&& forall|i: int|
                    0 <= i < f.row_groups@.len() && f.row_groups@[i].row_count > 0
                        ==> #[trigger] indexable(
                        self.codec,
                        f,
                        self.file->0@,
                        text_columns(f, names)->0,
                        i,
                    )
                &&& lists(
                    rows,
                    f.total_rows(),
                    |row: int|
                        !deleted_at(
                            self.codec,
                            f,
                            self.file->0@,
                            holder(f, row),
                            place_in(f, row),
                        ),
                )
            }),
        ensures
            self.fts_columns(names, false) matches Ok(Some(out)) && out.ids.len() == rows.len()
                && forall|j: int|
                0 <= j < rows.len() ==> #[trigger] out.ids[j] == self.id_of_row(rows[j] as int)
                    % 0x1_0000_0000,
    {
        let f = self.footer->0;
        let file = self.file->0@;
        let cols = text_columns(f, names)->0;
        let all = ids_collected(self.codec, f, file, cols, f.row_groups@.len() as int);
        same_list(
            all,
            rows,
            f.total_rows(),
            |row: int| !deleted_at(self.codec, f, file, holder(f, row), place_in(f, row)),
        );
    }

    /// Reading text columns for an index gives, for each live row and in the order of the rows, the text
    /// that the row has in the column, and an empty one where it has none. The texts together fit into the
    /// offsets of a column.
    pub proof fn law_index_texts_of_rows(self, names: Seq<Seq<char>>, rows: Seq<usize>, q: int)
        requires
            self.wf(),
            0 <= q < names.len(),
            self.footer is Some,
            self.file is Some,
            ({
                let f = self.footer->0;
                let file = self.file->0@;
                let cols = text_columns(f, names)->0;
                &&& text_columns(f, names) is Some
                &&& q < cols.len()
                &&& forall|i: int|
                    0 <= i < f.row_groups@.len() && f.row_groups@[i].row_count > 0
                        ==> #[trigger] indexable(self.codec, f, file, cols, i)
                &&& forall|i: int|
                    0 <= i < f.row_groups@.len() && f.row_groups@[i].row_count > 0
                        ==> #[trigger] index_texts_there(self.codec, f, file, cols[q] as int, i)
                &&& lists(
                    rows,
                    f.total_rows(),
                    |row: int|
                        !deleted_at(self.codec, f, file, holder(f, row), place_in(f, row)),
                )
                &&& self.fts_columns(names, false) matches Ok(Some(out)) ==> data_len(out.cols[q])
                    <= u64::MAX
            }),
        ensures
            ({
                let f = self.footer->0;
                let col = text_columns(f, names)->0[q] as int;
                self.fts_columns(names, false) matches Ok(Some(out)) && held_all(
                    self.codec,
                    out.cols[q],
                ) == Seq::new(
                    rows.len(),
                    |j: int|
                        index_text(
                            self.codec,
                            f,
                            self.file->0@,
                            col,
                            holder(f, rows[j] as int),
                            place_in(f, rows[j] as int),
                        ),
                )
            }),
    {
        let f = self.footer->0;
        let file = self.file->0@;
        let cols = text_columns(f, names)->0;
        let all = texts_collected(self.codec, f, file, cols, q, f.row_groups@.len() as int);
        same_list(
            all,
            rows,
            f.total_rows(),
            |row: int| !deleted_at(self.codec, f, file, holder(f, row), place_in(f, row)),
        );
    }
}

} // verus!
