//! Leaving out row groups whose zone maps rule out every row.

use vstd::prelude::*;

use crate::bytes::bitmap_len;
use crate::codec::ColumnCodec;
use crate::column::{ColumnData, ColumnSeq};
use crate::column_ops::{add_bytes, joined, spelled};
use crate::column_scan::{
    columns_there, columns_view, find_columns, found_from, get_wanted, pieces_view, scan_start,
    start_columns, take_pieces, walked_pieces, wanted_of, Found, Piece, PieceSeq,
};
use crate::double::{le, lt, trunc_i64, F64};
use crate::group::{
    get_window, group_of, id_section, open_group, rg_bitmap_len, rg_id_section_len, window, Group,
};
use crate::model::{str_eq, RowGroupMeta, ScanError, V4Footer, ZoneMap};
use crate::storage::OnDemandStorage;

verus! {

/// Whether no integer in `min..=max` can stand in the relation `op` to `v`.
pub open spec fn rules_out_ints(op: Seq<char>, min: int, max: int, v: int) -> bool {
    if op == ">"@ {
        max <= v
    } else if op == ">="@ {
        max < v
    } else if op == "<"@ {
        min >= v
    } else if op == "<="@ {
        min > v
    } else if op == "="@ || op == "=="@ {
        v < min || v > max
    } else if op == "!="@ || op == "<>"@ {
        min == max && min == v
    } else {
        false
    }
}

/// Whether no double between `min` and `max` can stand in the relation `op` to `v`. Inequality is
/// not looked at.
pub open spec fn rules_out_reals(op: Seq<char>, min: F64, max: F64, v: F64) -> bool {
    if op == ">"@ {
        le(max, v)
    } else if op == ">="@ {
        lt(max, v)
    } else if op == "<"@ {
        le(v, min)
    } else if op == "<="@ {
        lt(v, min)
    } else if op == "="@ || op == "=="@ {
        lt(v, min) || lt(max, v)
    } else {
        false
    }
}

/// Whether a zone map rules out every row.
pub open spec fn rules_out(z: ZoneMap, op: Seq<char>, v: F64) -> bool {
    if z.is_float {
        rules_out_reals(op, z.low(), z.high(), v)
    } else {
        rules_out_ints(op, z.min_bits as int, z.max_bits as int, trunc_i64(v))
    }
}

fn test_rules_out(z: ZoneMap, op: &str, v: F64) -> (r: bool)
    ensures
        r == rules_out(z, op@, v),
{
    let equal: bool = str_eq(op, "=") || str_eq(op, "==");
    if z.is_float {
        let min: F64 = z.low_f64();
        let max: F64 = z.high_f64();
        if str_eq(op, ">") {
            max.le(v)
        } else if str_eq(op, ">=") {
            max.lt(v)
        } else if str_eq(op, "<") {
            v.le(min)
        } else if str_eq(op, "<=") {
            v.lt(min)
        } else {
            equal && (v.lt(min) || max.lt(v))
        }
    } else {
        let min: i64 = z.min_bits;
        let max: i64 = z.max_bits;
        let w: i64 = v.trunc_i64();
        if str_eq(op, ">") {
            max <= w
        } else if str_eq(op, ">=") {
            max < w
        } else if str_eq(op, "<") {
            min >= w
        } else if str_eq(op, "<=") {
            min > w
        } else if equal {
            w < min || w > max
        } else {
            (str_eq(op, "!=") || str_eq(op, "<>")) && min == max && min == w
        }
    }
}

/// Whether an integer stands in the relation `op` to another one.
pub open spec fn stands(op: Seq<char>, x: int, v: int) -> bool {
    if op == ">"@ {
        x > v
    } else if op == ">="@ {
        x >= v
    } else if op == "<"@ {
        x < v
    } else if op == "<="@ {
        x <= v
    } else if op == "="@ || op == "=="@ {
        x == v
    } else {
        (op == "!="@ || op == "<>"@) && x != v
    }
}

/// Whether a double stands in the relation `op` to another one.
pub open spec fn stands_real(op: Seq<char>, x: F64, v: F64) -> bool {
    if op == ">"@ {
        lt(v, x)
    } else if op == ">="@ {
        le(v, x)
    } else if op == "<"@ {
        lt(x, v)
    } else if op == "<="@ {
        le(x, v)
    } else {
        (op == "="@ || op == "=="@) && le(x, v) && le(v, x)
    }
}

/// A row group is only left out where no integer between its bounds stands in the relation to the
/// whole number that it is asked about.
pub proof fn law_prune_ints(op: Seq<char>, min: int, max: int, x: int, v: int)
    requires
        min <= x <= max,
        rules_out_ints(op, min, max, v),
    ensures
        !stands(op, x, v),
{
}

/// A row group is only left out where no double between its bounds stands in the relation to the
/// number that it is asked about.
pub proof fn law_prune_reals(op: Seq<char>, min: F64, max: F64, x: F64, v: F64)
    requires
        le(min, x),
        le(x, max),
        rules_out_reals(op, min, max, v),
    ensures
        !stands_real(op, x, v),
{
}

/// The row groups among the first `k` that are ruled out.
pub open spec fn ruled_out(f: V4Footer, col: int, op: Seq<char>, v: F64, k: int) -> Seq<usize>
    decreases k,
{
    if k <= 0 {
        Seq::empty()
    } else {
        let before = ruled_out(f, col, op, v, k - 1);
        match f.zone(k - 1, col, false) {
            Some(z) if rules_out(z, op, v) => before.push((k - 1) as usize),
            _ => before,
        }
    }
}

/// The pieces that are there, added to the columns.
pub open spec fn added<C: ColumnCodec>(
    c: C,
    cols: Seq<ColumnSeq>,
    pieces: Seq<Option<PieceSeq>>,
) -> Seq<ColumnSeq> {
    Seq::new(
        cols.len(),
        |p: int|
            match pieces[p] {
                None => cols[p],
                Some(x) => joined(c, cols[p], spelled(c, x.data)),
            },
    )
}

fn add_pieces<C: ColumnCodec>(c: &C, cols: &mut Vec<ColumnData>, pieces: Vec<Option<Piece>>)
    requires
        pieces@.len() == old(cols)@.len(),
    ensures
        columns_view(final(cols)@) == added(*c, columns_view(old(cols)@), pieces_view(pieces@)),
        final(cols)@.len() == old(cols)@.len(),
{
    let ghost ps = pieces_view(pieces@);
    let ghost all = columns_view(cols@);
    let mut pieces: Vec<Option<Piece>> = pieces;
    let mut p: usize = 0;
    while p < cols.len()
        invariant
            p <= cols@.len(),
            cols@.len() == all.len(),
            ps.len() == all.len(),
            pieces@.len() == all.len() - p,
            forall|k: int|
                0 <= k < pieces@.len() ==> crate::column_scan::piece_view(#[trigger] pieces@[k])
                    == ps[k + p],
            forall|k: int| p <= k < all.len() ==> (#[trigger] cols@[k])@ == all[k],
            forall|k: int| 0 <= k < p ==> (#[trigger] cols@[k])@ == added(*c, all, ps)[k],
        decreases cols@.len() - p,
    {
        let ghost prior = pieces@;
        assert(crate::column_scan::piece_view(pieces@[0]) == ps[p as int]);
        let piece: Option<Piece> = pieces.remove(0);
        assert forall|k: int| 0 <= k < pieces@.len() implies crate::column_scan::piece_view(
            #[trigger] pieces@[k],
        ) == ps[k + p + 1] by {
            assert(pieces@[k] == prior[k + 1]);
        }
        if let Some(x) = piece {
            let ghost prior_cols = cols@;
            let mut col: ColumnData = cols.remove(p);
            let own: ColumnData = x.data.decode_string_dict(c);
            col.append(c, &own);
            let ghost now = col;
            cols.insert(p, col);
            proof {
                assert(cols@ =~= prior_cols.update(p as int, now));
                assert(prior_cols[p as int]@ == all[p as int]);
            }
        }
        p = p + 1;
    }
    assert(columns_view(cols@) =~= added(*c, all, ps));
}

/// A collection after row group `i`, which is walked over. Columns that it does not have stay as
/// they are.
pub open spec fn walk_group<C: ColumnCodec>(
    c: C,
    f: V4Footer,
    file: Seq<u8>,
    cols: Seq<usize>,
    i: int,
    st: (Seq<ColumnSeq>, Seq<u8>),
) -> Result<(Seq<ColumnSeq>, Seq<u8>), ScanError> {
    let meta = f.row_groups@[i];
    let rows = meta.row_count as int;
    let bm = bitmap_len(rows);
    match group_of(c, meta, file) {
        Err(e) => Err(e),
        Ok(g) => match window(g.body, id_section(rows, g.ids), bm) {
            None => Err(ScanError::DeletionsTruncated),
            Some(d) => match found_from(
                c,
                f.schema,
                g.version >= 1,
                g.body,
                bm,
                wanted_of(cols, f.schema.columns@.len() as int),
                None,
                Seq::empty(),
                0,
                id_section(rows, g.ids) + bm,
            ) {
                Err(e) => Err(e),
                Ok(found) => Ok((added(c, st.0, walked_pieces(found, cols)), st.1 + d)),
            },
        },
    }
}

/// What is collected from the first `k` row groups without those in `skip`.
pub open spec fn walk_upto<C: ColumnCodec>(
    c: C,
    f: V4Footer,
    file: Seq<u8>,
    cols: Seq<usize>,
    skip: Seq<usize>,
    k: int,
) -> Result<(Seq<ColumnSeq>, Seq<u8>), ScanError>
    decreases k,
{
    if k <= 0 {
        Ok((scan_start(f.schema, cols).cols, Seq::empty()))
    } else {
        match walk_upto(c, f, file, cols, skip, k - 1) {
            Err(e) => Err(e),
            Ok(st) => if f.row_groups@[k - 1].row_count == 0 || skip.contains((k - 1) as usize) {
                Ok(st)
            } else {
                walk_group(c, f, file, cols, k - 1, st)
            },
        }
    }
}

proof fn walk_upto_failed<C: ColumnCodec>(
    c: C,
    f: V4Footer,
    file: Seq<u8>,
    cols: Seq<usize>,
    skip: Seq<usize>,
    j: int,
    k: int,
)
    requires
        0 <= j <= k,
        walk_upto(c, f, file, cols, skip, j) is Err,
    ensures
        walk_upto(c, f, file, cols, skip, k) == walk_upto(c, f, file, cols, skip, j),
    decreases k,
{
    if j < k {
        walk_upto_failed(c, f, file, cols, skip, j, k - 1);
    }
}

fn walk_one<C: ColumnCodec>(
    c: &C,
    f: &V4Footer,
    file: &[u8],
    col_indices: &[usize],
    i: usize,
    cols: &mut Vec<ColumnData>,
    deleted: &mut Vec<u8>,
) -> (r: Result<(), ScanError>)
    requires
        i < f.row_groups@.len(),
        columns_there(f.schema, col_indices@),
        old(cols)@.len() == col_indices@.len(),
    ensures
        final(cols)@.len() == col_indices@.len(),
        match r {
            Err(e) => walk_group(
                *c,
                *f,
                file@,
                col_indices@,
                i as int,
                (columns_view(old(cols)@), old(deleted)@),
            ) == Err::<(Seq<ColumnSeq>, Seq<u8>), ScanError>(e),
            Ok(_) => walk_group(
                *c,
                *f,
                file@,
                col_indices@,
                i as int,
                (columns_view(old(cols)@), old(deleted)@),
            ) == Ok::<(Seq<ColumnSeq>, Seq<u8>), ScanError>(
                (columns_view(final(cols)@), final(deleted)@),
            ),
        },
{
    let meta: RowGroupMeta = f.row_groups[i];
    let rows: u32 = meta.row_count;
    let bm: u64 = rg_bitmap_len(rows);
    let g: Group = match open_group(c, &meta, file) {
        Err(e) => {
            return Err(e);
        },
        Ok(g) => g,
    };
    let body: &[u8] = g.body();
    let start: u64 = rg_id_section_len(rows, g.ids);
    let d: &[u8] = match get_window(body, start, bm) {
        None => {
            return Err(ScanError::DeletionsTruncated);
        },
        Some(d) => d,
    };
    let wanted: Vec<bool> = get_wanted(col_indices, f.schema.columns.len());
    let found: Vec<Found> = match find_columns(
        c,
        &f.schema,
        g.version >= 1,
        body,
        bm,
        &wanted,
        None,
        start + bm,
    ) {
        Err(e) => {
            return Err(e);
        },
        Ok(v) => v,
    };
    add_bytes(deleted, d);
    add_pieces(c, cols, take_pieces(found, col_indices));
    Ok(())
}

fn is_in(v: &[usize], x: usize) -> (r: bool)
    ensures
        r == v@.contains(x),
{
    let mut i: usize = 0;
    while i < v.len()
        invariant
            i <= v.len(),
            forall|k: int| 0 <= k < i ==> v@[k] != x,
        decreases v.len() - i,
    {
        if v[i] == x {
            assert(v@[i as int] == x);
            return true;
        }
        i = i + 1;
    }
    false
}

impl<C: ColumnCodec> OnDemandStorage<C> {
    /// Finds the row groups that the zone maps of a column rule out.
    pub fn zone_map_prune_rgs(
        footer: &V4Footer,
        filter_col_idx: usize,
        filter_op: &str,
        filter_value: F64,
    ) -> (r: Vec<usize>)
        ensures
            r@ == ruled_out(
                *footer,
                filter_col_idx as int,
                filter_op@,
                filter_value,
                footer.zone_maps@.len() as int,
            ),
    {
        let mut out: Vec<usize> = Vec::new();
        let mut i: usize = 0;
        while i < footer.zone_maps.len()
            invariant
                i <= footer.zone_maps@.len(),
                out@ == ruled_out(
                    *footer,
                    filter_col_idx as int,
                    filter_op@,
                    filter_value,
                    i as int,
                ),
            decreases footer.zone_maps@.len() - i,
        {
            if let Some(z) = footer.zone_map(i, filter_col_idx, false) {
                if test_rules_out(z, filter_op, filter_value) {
                    out.push(i);
                }
            }
            i = i + 1;
        }
        out
    }

    /// What reading whole columns without some row groups gives.
    pub open spec fn pruned_columns(self, cols: Seq<usize>, footer: V4Footer, skip: Seq<usize>) -> Result<
        (Seq<ColumnSeq>, Seq<u8>),
        ScanError,
    > {
        if skip.len() == 0 {
            match self.whole_columns(cols, footer) {
                Err(e) => Err(e),
                Ok(s) => Ok((s.cols, s.deleted)),
            }
        } else {
            match self.file {
                None => Err(ScanError::NotOpen),
                Some(file) => walk_upto(
                    self.codec,
                    footer,
                    file@,
                    cols,
                    skip,
                    footer.row_groups@.len() as int,
                ),
            }
        }
    }

    /// Reads whole columns without some row groups, with the deletion bitmaps of the others.
    pub fn scan_columns_mmap_skip_rgs(
        &self,
        col_indices: &[usize],
        footer: &V4Footer,
        skip_rgs: &[usize],
    ) -> (r: Result<(Vec<ColumnData>, Vec<u8>), ScanError>)
        requires
            columns_there(footer.schema, col_indices@),
        ensures
            match r {
                Err(e) => self.pruned_columns(col_indices@, *footer, skip_rgs@) == Err::<
                    (Seq<ColumnSeq>, Seq<u8>),
                    ScanError,
                >(e),
                Ok((cols, deleted)) => self.pruned_columns(
                    col_indices@,
                    *footer,
                    skip_rgs@,
                ) == Ok::<(Seq<ColumnSeq>, Seq<u8>), ScanError>((columns_view(cols@), deleted@)),
            },
    {
        if skip_rgs.len() == 0 {
            return self.scan_columns_mmap(col_indices, footer);
        }
        let file: &[u8] = match &self.file {
            None => {
                return Err(ScanError::NotOpen);
            },
            Some(v) => v.as_slice(),
        };
        let c: &C = &self.codec;
        let ghost n = footer.row_groups@.len() as int;
        let mut cols: Vec<ColumnData> = start_columns(&footer.schema, col_indices);
        let mut deleted: Vec<u8> = Vec::new();
        assert(columns_view(cols@).len() == col_indices@.len());
        assert(deleted@ =~= Seq::empty());
        let mut i: usize = 0;
        while i < footer.row_groups.len()
            invariant
                i <= footer.row_groups@.len(),
                n == footer.row_groups@.len(),
                skip_rgs@.len() > 0,
                columns_there(footer.schema, col_indices@),
                self.file matches Some(v) && v@ == file@,
                *c == self.codec,
                cols@.len() == col_indices@.len(),
                walk_upto(*c, *footer, file@, col_indices@, skip_rgs@, i as int) == Ok::<
                    (Seq<ColumnSeq>, Seq<u8>),
                    ScanError,
                >((columns_view(cols@), deleted@)),
            decreases footer.row_groups@.len() - i,
        {
            if footer.row_groups[i].row_count > 0 && !is_in(skip_rgs, i) {
                match walk_one(c, footer, file, col_indices, i, &mut cols, &mut deleted) {
                    Err(e) => {
                        proof {
                            walk_upto_failed(
                                *c,
                                *footer,
                                file@,
                                col_indices@,
                                skip_rgs@,
                                i + 1,
                                n,
                            );
                        }
                        return Err(e);
                    },
                    Ok(_) => {},
                }
            }
            i = i + 1;
        }
        Ok((cols, deleted))
    }
}

} // verus!
