//! Whether every row has a value is told of all rows.

use vstd::prelude::*;

use crate::bytes::bitmap_len;
use crate::codec::ColumnCodec;
use crate::column::DictSeq;
use crate::group::group_of;
use crate::length_laws::{no_bits, none_missing};
use crate::meaning::{data_at, held, holder, marks_len, missing_at, place_in, place_of};
use crate::model::{
    rows_before, ScanError, V4Footer, COL_ENCODING_COMPACT_DICTIONARY, COL_ENCODING_PLAIN,
};
use crate::pick_laws::in_each_group;
use crate::storage::OnDemandStorage;
use crate::string_laws::{quick_parts, text_at, texts_there};
use crate::text_scan::{all_equal_from, all_index, group_all_equal};

verus! {

/// The value that a search in a dictionary finds.
proof fn find_facts(d: DictSeq, target: Seq<u8>, k: int)
    requires
        1 <= k,
    ensures
        match d.find_from(target, k) {
            Some(j) => k <= j <= d.values.len() && d.values[j - 1] == Some(target),
            None => forall|j: int|
                k <= j <= d.values.len() ==> #[trigger] d.values[j - 1] != Some(target),
        },
    decreases d.values.len() + 1 - k,
{
    if k <= d.values.len() {
        find_facts(d, target, k + 1);
        if d.find_from(target, k) is None {
            assert forall|j: int| k <= j <= d.values.len() implies #[trigger] d.values[j - 1] != Some(
                target,
            ) by {
                if j == k {
                    assert(d.values[k - 1] != Some(target));
                }
            }
        }
    }
}

/// Whether row group `i` shows at a glance what its rows have: no row is deleted or missing, and its
/// dictionary has values, each of them once.
pub open spec fn plain_to_see<C: ColumnCodec>(c: C, f: V4Footer, file: Seq<u8>, col: int, i: int) -> bool {
    let g = group_of(c, f.row_groups@[i], file)->Ok_0;
    let at = data_at(c, f, file, col, i);
    let tag = g.body[at - 1];
    &&& texts_there(c, f, file, col, i)
    &&& f.row_groups@[i].deletion_count == 0
    &&& none_missing(c, f, file, col, i)
    &&& tag == COL_ENCODING_PLAIN || tag == COL_ENCODING_COMPACT_DICTIONARY
    &&& c.dictionary(
        tag == COL_ENCODING_COMPACT_DICTIONARY,
        g.body.subrange(at, g.body.len() as int),
    ) matches Some(d) && d.values.len() > 0 && forall|a: int, b: int|
        0 <= a < b < d.values.len() && (#[trigger] d.values[a]) is Some ==> d.values[a]
            != #[trigger] d.values[b]
}

/// Whether all rows of row group `i` have a string.
pub open spec fn all_have<C: ColumnCodec>(
    c: C,
    f: V4Footer,
    file: Seq<u8>,
    col: int,
    target: Seq<u8>,
    i: int,
) -> bool {
    forall|r: int|
        0 <= r < f.row_groups@[i].row_count ==> #[trigger] text_at(c, f, file, col, i, r) == Some(
            target,
        )
}

#[verifier::spinoff_prover]
proof fn group_tells<C: ColumnCodec>(
    c: C,
    f: V4Footer,
    file: Seq<u8>,
    col: int,
    target: Seq<u8>,
    i: int,
)
    requires
        f.schema.kind(col) is StringDict,
        f.row_groups@[i].row_count > 0 ==> plain_to_see(c, f, file, col, i),
    ensures
        group_all_equal(c, f, file, col, target, i) == Ok::<Option<bool>, ScanError>(
            Some(all_have(c, f, file, col, target, i)),
        ),
{
    let rows = f.row_groups@[i].row_count as int;
    if rows > 0 {
        let g = group_of(c, f.row_groups@[i], file)->Ok_0;
        let at = data_at(c, f, file, col, i);
        quick_parts(c, f, file, col, i);
        no_bits(c, f, file, col, i);
        assert(bitmap_len(rows) == marks_len(rows));
        let d = c.dictionary(
            g.body[at - 1] == COL_ENCODING_COMPACT_DICTIONARY,
            g.body.subrange(at, g.body.len() as int),
        )->0;
        find_facts(d, target, 1);
        assert forall|r: int| 0 <= r < rows implies !missing_at(c, f, file, col, i, r) && (
        #[trigger] text_at(c, f, file, col, i, r) == Some(target)) == (d.find(target) == Some(
            d.indices[r] as int,
        )) by {
            not_missing(c, f, file, col, i, r);
            let k = d.indices[r] as int;
            if let Some(j) = d.find(target) {
                if 1 <= k < j {
                    assert(d.values[k - 1] is Some ==> d.values[k - 1] != d.values[j - 1]);
                } else if j < k <= d.values.len() {
                    assert(d.values[j - 1] != d.values[k - 1]);
                }
            } else if 1 <= k <= d.values.len() {
                assert(d.values[k - 1] != Some(target));
            }
        }
        let first = text_at(c, f, file, col, i, 0);
        if let Some(k) = d.find(target) {
            if all_index(d, rows, k) {
                assert forall|r: int| 0 <= r < rows implies #[trigger] text_at(
                    c,
                    f,
                    file,
                    col,
                    i,
                    r,
                ) == Some(target) by {
                    assert(d.indices[r] == k);
                }
            } else {
                let r = choose|r: int| 0 <= r < rows && #[trigger] d.indices[r] != k;
                assert(text_at(c, f, file, col, i, r) != Some(target));
            }
        }
    }
}

/// Where nothing is missing, no row is.
proof fn not_missing<C: ColumnCodec>(c: C, f: V4Footer, file: Seq<u8>, col: int, i: int, r: int)
    requires
        0 <= r < f.row_groups@[i].row_count,
        none_missing(c, f, file, col, i),
    ensures
        !missing_at(c, f, file, col, i, r),
{
    let p = place_of(c, f, file, col, i);
    let body = group_of(c, f.row_groups@[i], file)->Ok_0.body;
    assert(0 <= r / 8 < marks_len(f.row_groups@[i].row_count as int));
    assert(body[p + r / 8] == 0);
    let n = (r % 8) as u8;
    assert((0u8 >> n) & 1u8 == 0u8) by (bit_vector);
}

proof fn groups_tell<C: ColumnCodec>(
    c: C,
    f: V4Footer,
    file: Seq<u8>,
    col: int,
    target: Seq<u8>,
    k: int,
)
    requires
        0 <= k <= f.row_groups@.len(),
        f.schema.kind(col) is StringDict,
        forall|i: int|
            0 <= i < f.row_groups@.len() && f.row_groups@[i].row_count > 0
                ==> #[trigger] plain_to_see(c, f, file, col, i),
    ensures
        all_equal_from(c, f, file, col, target, k) == Ok::<Option<bool>, ScanError>(
            Some(
                forall|i: int|
                    k <= i < f.row_groups@.len() ==> #[trigger] all_have(c, f, file, col, target, i),
            ),
        ),
    decreases f.row_groups@.len() - k,
{
    if k < f.row_groups@.len() {
        groups_tell(c, f, file, col, target, k + 1);
        if f.row_groups@[k].row_count > 0 {
            assert(plain_to_see(c, f, file, col, k));
        }
        group_tells(c, f, file, col, target, k);
        let here = all_have(c, f, file, col, target, k);
        if here && forall|i: int|
            k + 1 <= i < f.row_groups@.len() ==> #[trigger] all_have(c, f, file, col, target, i) {
            assert forall|i: int| k <= i < f.row_groups@.len() implies #[trigger] all_have(
                c,
                f,
                file,
                col,
                target,
                i,
            ) by {}
        }
    }
}

impl<C: ColumnCodec> OnDemandStorage<C> {
    /// The string of a row of the table, where it has one.
    pub open spec fn text_of_row(self, col: int, row: int) -> Option<Seq<u8>> {
        let f = self.footer->0;
        text_at(self.codec, f, self.file->0@, col, holder(f, row), place_in(f, row))
    }

    /// Asking whether every row of a dictionary column has a value tells whether every row of the table
    /// has it, where the row groups show what their rows have.
    pub proof fn law_equality_of_all_rows(self, col_name: Seq<char>, target: Seq<u8>)
        requires
            self.wf(),
            self.footer matches Some(f) && self.file matches Some(file) && f.schema.index_of(
                col_name,
            ) matches Some(col) && f.schema.kind(col as int) is StringDict && forall|i: int|
                0 <= i < f.row_groups@.len() && f.row_groups@[i].row_count > 0
                    ==> #[trigger] plain_to_see(self.codec, f, file@, col as int, i),
        ensures
            ({
                let f = self.footer->0;
                let col = f.schema.index_of(col_name)->0 as int;
                self.matches_all(col_name, target) == Ok::<Option<bool>, ScanError>(
                    Some(
                        forall|row: int|
                            0 <= row < f.total_rows() ==> #[trigger] self.text_of_row(col, row)
                                == Some(target),
                    ),
                )
            }),
    {
        let c = self.codec;
        let f = self.footer->0;
        let file = self.file->0@;
        let col = f.schema.index_of(col_name)->0 as int;
        let n = f.row_groups@.len() as int;
        groups_tell(c, f, file, col, target, 0);
        if forall|i: int| 0 <= i < n ==> #[trigger] all_have(c, f, file, col, target, i) {
            assert forall|row: int| 0 <= row < f.total_rows() implies #[trigger] self.text_of_row(
                col,
                row,
            ) == Some(target) by {
                held(f, row);
                assert(all_have(c, f, file, col, target, holder(f, row)));
            }
        } else {
            let i = choose|i: int| 0 <= i < n && !#[trigger] all_have(c, f, file, col, target, i);
            let r = choose|r: int|
                0 <= r < f.row_groups@[i].row_count && #[trigger] text_at(c, f, file, col, i, r)
                    != Some(target);
            in_each_group(f, i, r);
            crate::scan_laws::group_bounds(f, i);
            assert(self.text_of_row(col, rows_before(f.row_groups@, i) + r) != Some(target));
        }
    }
}

} // verus!
