//! What the arrays of a batch show are the values of its rows.

use vstd::prelude::*;
use vstd::utf8::{decode_utf8, valid_utf8};

use crate::arrays::{
    array_of, distinct_facts, distinct_texts, entries_of, low_half, place_found, slices_of, text_array,
    ArraySeq,
};
use crate::batch::{
    batch_columns, gather_upto, live_before, live_before_bound, named_arrays, BatchSeq, GatherSeq,
};
use crate::batch_laws::{all_live, all_live_len, law_gathered_rows};
use crate::bytes::bit;
use crate::codec::ColumnCodec;
use crate::column::ColumnSeq;
use crate::column_ops::rows_of_column;
use crate::gather_laws::{
    data_len, group_held, group_marks, held, kept, law_gathered_cells, row_holds, sort_of_kind,
    sound_cells, Held,
};
use crate::like_row_laws::{group_with, one_group};
use crate::model::{rows_before, ColumnType, OnDemandSchema, ScanError, V4Footer};
use crate::numeric::min2;
use crate::overlay::ValueSeq;
use crate::overlay_laws::entry;
use crate::range_laws::lies_in;
use crate::storage::OnDemandStorage;

verus! {

/// What an array shows at an entry; behind a dictionary, the text that the key stands for.
pub open spec fn shown_at(a: ArraySeq, j: int) -> ValueSeq {
    match a {
        ArraySeq::Dictionary { keys, values } => ValueSeq::Text(values[keys[j] as int]),
        _ => entry(a, j),
    }
}

/// How a value of a column shows: nothing where it is missing, days as the lower half of a number.
pub open spec fn value_shown(kind: ColumnType, x: Held, missing: bool) -> ValueSeq {
    if missing {
        ValueSeq::Null
    } else {
        match x {
            Held::Int(v) => if kind == ColumnType::Date {
                ValueSeq::Int(low_half(v as int) as i64)
            } else {
                ValueSeq::Int(v)
            },
            Held::Real(v) => ValueSeq::Real(v),
            Held::Text(s) => ValueSeq::Text(decode_utf8(s)),
            Held::Truth(b) => ValueSeq::Truth(b),
            Held::Bytes(s) => ValueSeq::Bytes(s),
            Held::List => ValueSeq::Null,
        }
    }
}

/// Whether a value, if it is a text, is one.
pub open spec fn proper(x: Held) -> bool {
    x matches Held::Text(s) ==> valid_utf8(s)
}

proof fn each_entry(offsets: Seq<u64>, data: Seq<u8>, nulls: Seq<bool>, n: int)
    requires
        0 <= n,
    ensures
        entries_of(offsets, data, nulls, n) matches Some(v) ==> v.len() == n && forall|j: int|
            0 <= j < n ==> #[trigger] v[j] == (if j < nulls.len() && nulls[j] {
                None
            } else {
                Some(crate::column_ops::slice_of(offsets, data, j))
            }),
    decreases n,
{
    if n > 0 {
        each_entry(offsets, data, nulls, n - 1);
    }
}

proof fn each_slice(offsets: Seq<u64>, data: Seq<u8>, n: int)
    requires
        0 <= n,
    ensures
        slices_of(offsets, data, n) matches Some(v) ==> v.len() == n && forall|j: int|
            0 <= j < n ==> #[trigger] v[j] == crate::column_ops::slice_of(offsets, data, j),
    decreases n,
{
    if n > 0 {
        each_slice(offsets, data, n - 1);
    }
}

proof fn text_shows(offsets: Seq<u64>, data: Seq<u8>, n: int, dict: bool, a: ArraySeq, j: int)
    requires
        text_array(offsets, data, n, dict) == Ok::<ArraySeq, ScanError>(a),
        offsets.len() == n + 1,
        0 <= j < n,
        valid_utf8(crate::column_ops::slice_of(offsets, data, j)),
    ensures
        shown_at(a, j) == ValueSeq::Text(
            decode_utf8(crate::column_ops::slice_of(offsets, data, j)),
        ),
{
    each_slice(offsets, data, n);
    let texts = slices_of(offsets, data, n)->0;
    if a is Dictionary {
        let d = distinct_texts(texts);
        distinct_facts(texts);
        assert(d.contains(texts[j]));
        let k = choose|k: int| 0 <= k < d.len() && d[k] == texts[j];
        place_found(d, texts[j], 0, k);
    }
}

/// What the array of a column shows at an entry is the value in that row.
#[verifier::spinoff_prover]
pub proof fn law_array_shows<C: ColumnCodec>(
    c: C,
    kind: ColumnType,
    col: ColumnSeq,
    nulls: Seq<bool>,
    n: int,
    dict: bool,
    a: ArraySeq,
    j: int,
)
    requires
        array_of(c, kind, col, nulls, n, dict) == Ok::<ArraySeq, ScanError>(a),
        kept(col),
        rows_of_column(c, col) == n,
        nulls.len() == n,
        0 <= j < n,
        kind != ColumnType::Blob,
        proper(held(col, j)),
    ensures
        shown_at(a, j) == value_shown(kind, held(col, j), nulls[j]),
{
    reveal(array_of);
    match col {
        ColumnSeq::String { offsets, data } => {
            each_entry(offsets, data, nulls, n);
            if a is Dictionary || crate::arrays::validity(nulls, n) == Ok::<
                Option<Seq<bool>>,
                ScanError,
            >(None) {
                text_shows(offsets, data, n, dict, a, j);
            }
        },
        ColumnSeq::Binary { offsets, data } => {
            each_entry(offsets, data, nulls, n);
        },
        _ => {},
    }
}

/// The array of a column among those of a collection.
proof fn array_of_each<C: ColumnCodec>(
    c: C,
    schema: OnDemandSchema,
    cols: Seq<usize>,
    st: GatherSeq,
    dict: bool,
    k: int,
    p: int,
)
    requires
        0 <= p < k,
        named_arrays(c, schema, cols, st, dict, k) is Ok,
    ensures
        ({
            let all = named_arrays(c, schema, cols, st, dict, k)->Ok_0;
            let kind = schema.kind(cols[p] as int);
            &&& all.len() == k
            &&& all[p].0 == schema.columns@[cols[p] as int].0@
            &&& array_of(c, kind, st.cols[p], st.nulls[p], st.taken, dict) == Ok::<
                ArraySeq,
                ScanError,
            >(all[p].1)
        }),
    decreases k,
{
    if k > 1 {
        if p < k - 1 {
            array_of_each(c, schema, cols, st, dict, k - 1, p);
        } else {
            array_of_each(c, schema, cols, st, dict, k - 1, 0);
        }
    } else {
        reveal_with_fuel(named_arrays, 2);
    }
}

/// How a row of the store shows in a column.
pub open spec fn row_shown<C: ColumnCodec>(
    c: C,
    f: V4Footer,
    file: Seq<u8>,
    cols: Seq<usize>,
    p: int,
    row: int,
) -> ValueSeq {
    let i = group_with(f, row);
    let r = row - rows_before(f.row_groups@, i);
    value_shown(
        f.schema.kind(cols[p] as int),
        group_held(c, f, file, cols, i, p)[r],
        bit(group_marks(c, f, file, cols, i, p), r),
    )
}

/// Whether the texts of a column of row group `i` are texts.
pub open spec fn proper_texts<C: ColumnCodec>(
    c: C,
    f: V4Footer,
    file: Seq<u8>,
    cols: Seq<usize>,
    i: int,
    p: int,
) -> bool {
    forall|r: int|
        0 <= r < f.row_groups@[i].row_count ==> proper(
            #[trigger] group_held(c, f, file, cols, i, p)[r],
        )
}

impl<C: ColumnCodec> OnDemandStorage<C> {
    /// What is gathered for the batch of a range.
    pub open spec fn range_gathered(
        self,
        names: Option<Seq<Seq<char>>>,
        offset: int,
        limit: Option<usize>,
    ) -> Result<GatherSeq, ScanError> {
        let f = self.footer->0;
        let n = f.row_groups@.len() as int;
        let total = live_before(f.row_groups@, n);
        let start = min2(offset, total);
        let most = match limit {
            None => total - start,
            Some(n) => min2(n as int, total - start),
        };
        gather_upto(
            self.codec,
            f,
            self.file->0@,
            batch_columns(f.schema, names),
            start,
            most,
            n,
        )
    }

    /// Whether column `p` of a batch is stored as it should be in every row group with rows: it has a
    /// value for each row, and its texts are texts.
    pub open spec fn sound_columns(self, names: Option<Seq<Seq<char>>>, p: int) -> bool {
        let f = self.footer->0;
        let cols = batch_columns(f.schema, names);
        forall|i: int|
            0 <= i < f.row_groups@.len() && f.row_groups@[i].row_count > 0 ==> #[trigger] sound_cells(
                self.codec,
                f,
                self.file->0@,
                cols,
                i,
                p,
            ) && proper_texts(self.codec, f, self.file->0@, cols, i, p)
    }

    /// Row `j` of the batch of a range shows in each of its columns the value of the live row
    /// `offset + j` of the store: integers, floats, texts, truth values and bytes.
    #[verifier::spinoff_prover]
    pub proof fn law_cells_of_batch(
        self,
        names: Option<Seq<Seq<char>>>,
        with_id: bool,
        offset: int,
        limit: Option<usize>,
        dict: bool,
        p: int,
    )
        requires
            self.wf(),
            self.sound_groups(),
            self.footer is Some,
            0 <= offset,
            0 <= p < batch_columns(self.footer->0.schema, names).len(),
            ({
                let kind = self.footer->0.schema.kind(
                    batch_columns(self.footer->0.schema, names)[p] as int,
                );
                kind != ColumnType::Blob && !(sort_of_kind(kind) is List)
            }),
            self.sound_columns(names, p),
            self.range_gathered(names, offset, limit) matches Ok(st) ==> data_len(st.cols[p])
                <= u64::MAX,
        ensures
            self.batch_range(names, with_id, offset, limit, dict) matches Ok(
                Some(BatchSeq::Rows { ids, columns, .. }),
            ) ==> {
                let f = self.footer->0;
                let file = self.file->0@;
                let cols = batch_columns(f.schema, names);
                let live = all_live(self.codec, f, file, f.row_groups@.len() as int);
                &&& columns.len() == cols.len()
                &&& columns[p].0 == f.schema.columns@[cols[p] as int].0@
                &&& forall|j: int|
                    0 <= j < ids.len() ==> #[trigger] shown_at(columns[p].1, j) == row_shown(
                        self.codec,
                        f,
                        file,
                        cols,
                        p,
                        live[offset + j] as int,
                    )
            },
    {
        if let Ok(Some(BatchSeq::Rows { ids, columns, .. })) = self.batch_range(
            names,
            with_id,
            offset,
            limit,
            dict,
        ) {
            let c = self.codec;
            let f = self.footer->0;
            let file = self.file->0@;
            let cols = batch_columns(f.schema, names);
            let kind = f.schema.kind(cols[p] as int);
            let n = f.row_groups@.len() as int;
            let total = live_before(f.row_groups@, n);
            let start = min2(offset, total);
            let most = match limit {
                None => total - start,
                Some(n) => min2(n as int, total - start),
            };
            let st = gather_upto(c, f, file, cols, start, most, n)->Ok_0;
            live_before_bound(f.row_groups@, n, n);
            all_live_len(c, f, file, n);
            law_gathered_rows(c, f, file, cols, start, most, n);
            assert forall|i: int|
                0 <= i < n && f.row_groups@[i].row_count > 0 implies #[trigger] sound_cells(
                c,
                f,
                file,
                cols,
                i,
                p,
            ) by {}
            law_gathered_cells(c, f, file, cols, start, most, p, n);
            array_of_each(c, f.schema, cols, st, dict, cols.len() as int, p);
            let live = all_live(c, f, file, n);
            assert forall|j: int| 0 <= j < ids.len() implies #[trigger] shown_at(columns[p].1, j)
                == row_shown(c, f, file, cols, p, live[offset + j] as int) by {
                let row = live[start + j];
                let x = held(st.cols[p], j);
                assert(row_holds(c, f, file, cols, p, row, x, st.nulls[p][j]));
                let i = choose|i: int| #[trigger]
                    lies_in(f, i, row as int) && ({
                        let r = row - rows_before(f.row_groups@, i);
                        &&& group_held(c, f, file, cols, i, p)[r] == x
                        &&& bit(group_marks(c, f, file, cols, i, p), r) == st.nulls[p][j]
                    });
                one_group(f, i, row as int);
                assert(f.row_groups@[i].row_count > 0);
                assert(sound_cells(c, f, file, cols, i, p));
                assert(proper_texts(c, f, file, cols, i, p));
                let r = row - rows_before(f.row_groups@, i);
                assert(proper(group_held(c, f, file, cols, i, p)[r]));
                law_array_shows(
                    c,
                    kind,
                    st.cols[p],
                    st.nulls[p],
                    st.taken,
                    dict,
                    columns[p].1,
                    j,
                );
            }
        }
    }
}

} // verus!
