//! Statistics and rankings take in every live row, with its number.

use vstd::arithmetic::power2::{
    lemma2_to64, lemma2_to64_rest, lemma_pow2_adds, lemma_pow2_strictly_increases, pow2,
};
use vstd::prelude::*;

use crate::bytes::{bitmap_len, i64_le};
use crate::codec::ColumnCodec;
use crate::column::ColumnSeq;
use crate::double::{bits_of_i64, digits, digits_bounds, is_nan, le, lt, round_53, F64};
use crate::group::{group_of, id_section, tail, window};
use crate::meaning::{
    as_double, deleted_at, held, holder, is_number, is_plain, lists, marks_len, missing_at,
    number_at, place_in, place_of, row_deleted, whole_numbers, Number,
};
use crate::model::{is_float, is_int, rows_before, ScanError, V4Footer, COL_ENCODING_PLAIN};
use crate::numeric::{encoding_of, f64_le, plain_numbers, row_open, tag_len, NumSeq};
use crate::pick_laws::{
    in_each_group, int_is_integer, lists_step, marks_of_group, plain_is_numbers, same_list,
};
use crate::ranking::{Candidate, Preference};
use crate::scan_laws::group_bounds;
use crate::stats::{
    addends_of, all_addends, column_addends, largest, law_stats_bounds, smallest, stats_of,
};
use crate::storage::OnDemandStorage;
use crate::topk::{located, ranked_numbers, rows_and_values, top_values, value_candidates};

verus! {

/// An integer rounded to a double is a number.
proof fn int_is_number(v: int)
    requires
        i64::MIN <= v <= i64::MAX,
    ensures
        0 <= bits_of_i64(v) <= u64::MAX,
        !is_nan(bits_of_i64(v) as u64),
{
    let a = if v < 0 {
        (-v) as nat
    } else {
        v as nat
    };
    lemma2_to64();
    lemma2_to64_rest();
    if a > 0 {
        digits_bounds(a);
        let n = digits(a);
        if n > 64 {
            if n > 65 {
                lemma_pow2_strictly_increases(64, (n - 1) as nat);
            }
            assert(false);
        }
        if n <= 53 {
            lemma_pow2_adds(n, (53 - n) as nat);
            let p = pow2((53 - n) as nat);
            assert(a * p <= pow2(n) * p) by (nonlinear_arith)
                requires
                    a <= pow2(n),
                    p >= 0,
            ;
            lemma_pow2_adds((n - 1) as nat, (53 - n) as nat);
            assert(a * p >= pow2((n - 1) as nat) * p) by (nonlinear_arith)
                requires
                    a >= pow2((n - 1) as nat),
                    p >= 0,
            ;
        } else {
            let unit = pow2((n - 53) as nat);
            lemma_pow2_adds(53, (n - 53) as nat);
            lemma_pow2_adds(52, (n - 53) as nat);
            assert(0 < unit) by {
                vstd::arithmetic::power2::lemma_pow2_pos((n - 53) as nat);
            }
            assert(pow2(52) <= a / unit < pow2(53)) by (nonlinear_arith)
                requires
                    0 < unit,
                    pow2(52) * unit <= a < pow2(53) * unit,
            ;
        }
        assert(pow2(52) <= round_53(a) <= pow2(53));
    }
}

/// Whether doubles are those of some rows, one for each.
pub open spec fn doubles_of(v: Seq<F64>, rows: Seq<usize>, number: spec_fn(int) -> Number) -> bool {
    &&& v.len() == rows.len()
    &&& forall|j: int| 0 <= j < v.len() ==> #[trigger] v[j] == as_double(number(rows[j] as int))
}

/// The numbers that one column of a row group adds are those of the rows of a kind.
proof fn addends_listed(
    src: NumSeq,
    del: Option<Seq<u8>>,
    nulls: Seq<u8>,
    rows: int,
    acc: Seq<F64>,
    n: int,
    base: int,
    kind: spec_fn(int) -> bool,
    number: spec_fn(int) -> Number,
    before: Seq<usize>,
) -> (after: Seq<usize>)
    requires
        0 <= n <= rows,
        0 <= base,
        base + n <= usize::MAX,
        lists(before, base, kind),
        doubles_of(acc, before, number),
        forall|r: int|
            0 <= r < n ==> #[trigger] src.real_at(r) == as_double(number(base + r)) && kind(base + r)
                == (row_open(del, Some(nulls), r) && !is_nan(src.real_at(r).bits)),
    ensures
        lists(after, base + n, kind),
        doubles_of(addends_of(src, del, nulls, rows, acc, n), after, number),
    decreases n,
{
    if n == 0 {
        before
    } else {
        let most = addends_listed(src, del, nulls, rows, acc, n - 1, base, kind, number, before);
        let last = base + n - 1;
        assert(src.real_at(n - 1) == as_double(number(base + (n - 1))));
        let after = if kind(last) {
            most.push(last as usize)
        } else {
            most
        };
        lists_step(most, after, last, kind);
        after
    }
}

/// Whether the numbers of a source are those of a row group.
pub(crate) open spec fn source_of<C: ColumnCodec>(
    src: NumSeq,
    c: C,
    f: V4Footer,
    file: Seq<u8>,
    col: int,
    i: int,
) -> bool {
    forall|r: int|
        0 <= r < f.row_groups@[i].row_count ==> #[trigger] src.real_at(r) == as_double(
            number_at(c, f, file, col, i, r),
        )
}

/// A plain column, or a decoded one, is a source of the numbers of its row group.
pub(crate) proof fn sources<C: ColumnCodec>(c: C, f: V4Footer, file: Seq<u8>, col: int, i: int)
    requires
        whole_numbers(c, f, file, col, i),
        f.row_groups@[i].row_count > 0,
    ensures
        ({
            let rows = f.row_groups@[i].row_count as int;
            let g = group_of(c, f.row_groups@[i], file)->Ok_0;
            let column = tail(g.body, place_of(c, f, file, col, i) + bitmap_len(rows));
            &&& column == g.body.subrange(
                place_of(c, f, file, col, i) + marks_len(rows),
                g.body.len() as int,
            )
            &&& column.len() > 0
            &&& if is_plain(c, f, file, col, i) {
                let (src, n) = plain_numbers(
                    is_int(f.schema.kind(col)),
                    rows,
                    tail(column, tag_len(g.version)),
                );
                &&& encoding_of(g.version, column) == COL_ENCODING_PLAIN
                &&& column.len() > tag_len(g.version) + 8
                &&& tail(column, tag_len(g.version)).len() > 8
                &&& n == rows
                &&& source_of(src, c, f, file, col, i)
            } else {
                &&& encoding_of(g.version, column) != COL_ENCODING_PLAIN
                &&& match c.decoded(g.version >= 1, column, f.schema.kind(col)) {
                    Some((ColumnSeq::Int64(v), _)) => v.len() == rows && source_of(
                        NumSeq::Ints(v),
                        c,
                        f,
                        file,
                        col,
                        i,
                    ),
                    Some((ColumnSeq::Float64(v), _)) => v.len() == rows && source_of(
                        NumSeq::Reals(v),
                        c,
                        f,
                        file,
                        col,
                        i,
                    ),
                    _ => false,
                }
            }
        }),
{
    let rows = f.row_groups@[i].row_count as int;
    let g = group_of(c, f.row_groups@[i], file)->Ok_0;
    let column = tail(g.body, place_of(c, f, file, col, i) + bitmap_len(rows));
    assert(bitmap_len(rows) == marks_len(rows));
    if is_plain(c, f, file, col, i) {
        plain_is_numbers(c, f, file, col, i);
        let payload = tail(column, tag_len(g.version));
        let ints = is_int(f.schema.kind(col));
        let (src, n) = plain_numbers(ints, rows, payload);
        assert forall|r: int| 0 <= r < rows implies #[trigger] src.real_at(r) == as_double(
            number_at(c, f, file, col, i, r),
        ) by {
            assert(number_at(c, f, file, col, i, r) == (if ints {
                Number::Int(i64_le(tail(payload, 8), r * 8))
            } else {
                Number::Real(f64_le(tail(payload, 8), r * 8))
            }));
        }
    }
}

/// The numbers that count in the first row groups are those of the rows that count.
#[verifier::spinoff_prover]
proof fn all_addends_listed<C: ColumnCodec>(
    c: C,
    f: V4Footer,
    file: Seq<u8>,
    col: int,
    k: int,
    kind: spec_fn(int) -> bool,
    number: spec_fn(int) -> Number,
) -> (rows: Seq<usize>)
    requires
        f.wf(),
        0 <= k <= f.row_groups@.len(),
        forall|i: int|
            0 <= i < k && f.row_groups@[i].row_count > 0 ==> #[trigger] whole_numbers(
                c,
                f,
                file,
                col,
                i,
            ),
        forall|i: int, r: int|
            0 <= i < k && 0 <= r < f.row_groups@[i].row_count ==> #[trigger] number_at(
                c,
                f,
                file,
                col,
                i,
                r,
            ) == number(rows_before(f.row_groups@, i) + r) && kind(
                rows_before(f.row_groups@, i) + r,
            ) == (!deleted_at(c, f, file, i, r) && !missing_at(c, f, file, col, i, r) && is_number(
                number_at(c, f, file, col, i, r),
            )),
    ensures
        all_addends(c, f, file, col, k) matches Ok(v) && doubles_of(v, rows, number),
        lists(rows, rows_before(f.row_groups@, k), kind),
    decreases k,
{
    if k == 0 {
        Seq::empty()
    } else {
        let i = k - 1;
        let before = all_addends_listed(c, f, file, col, i, kind, number);
        group_bounds(f, i);
        let meta = f.row_groups@[i];
        let rows = meta.row_count as int;
        let base = rows_before(f.row_groups@, i);
        if rows == 0 {
            before
        } else {
            let acc = all_addends(c, f, file, col, i)->Ok_0;
            assert(whole_numbers(c, f, file, col, i));
            sources(c, f, file, col, i);
            let g = group_of(c, meta, file)->Ok_0;
            let bm = bitmap_len(rows);
            let p = place_of(c, f, file, col, i);
            let column = tail(g.body, p + bm);
            marks_of_group(c, f, file, col, i, 0);
            let del = if meta.deletion_count > 0 {
                window(g.body, id_section(rows, g.ids), bm)
            } else {
                None
            };
            let nulls = g.body.subrange(p, p + bm);
            let src = if is_plain(c, f, file, col, i) {
                let (src, n) = plain_numbers(
                    is_int(f.schema.kind(col)),
                    rows,
                    tail(column, tag_len(g.version)),
                );
                src
            } else {
                match c.decoded(g.version >= 1, column, f.schema.kind(col)) {
                    Some((ColumnSeq::Int64(v), _)) => NumSeq::Ints(v),
                    Some((ColumnSeq::Float64(v), _)) => NumSeq::Reals(v),
                    _ => NumSeq::Ints(Seq::empty()),
                }
            };
            assert(source_of(src, c, f, file, col, i));
            assert forall|r: int| 0 <= r < rows implies #[trigger] src.real_at(r) == as_double(
                number(base + r),
            ) && kind(base + r) == (row_open(del, Some(nulls), r) && !is_nan(
                src.real_at(r).bits,
            )) by {
                marks_of_group(c, f, file, col, i, r);
                let x = number_at(c, f, file, col, i, r);
                assert(x == number(base + r));
                int_is_integer(c, f, file, col, i, r);
                if let Number::Int(v) = x {
                    int_is_number(v);
                }
            }
            assert(column_addends(
                c,
                f.schema.kind(col),
                g.version,
                rows,
                del,
                nulls,
                column,
                acc,
            ) == Ok::<Seq<F64>, ScanError>(addends_of(src, del, nulls, rows, acc, rows)));
            addends_listed(src, del, nulls, rows, acc, rows, base, kind, number, before)
        }
    }
}

/// Where there are numbers, the smallest and the largest are among them.
proof fn extremes_are_among(v: Seq<F64>)
    requires
        v.len() > 0,
        forall|k: int| 0 <= k < v.len() ==> !is_nan((#[trigger] v[k]).bits),
    ensures
        exists|j: int| 0 <= j < v.len() && #[trigger] v[j] == smallest(v),
        exists|j: int| 0 <= j < v.len() && #[trigger] v[j] == largest(v),
    decreases v.len(),
{
    let w = v.drop_last();
    let last = v.len() - 1;
    assert(v[last] == v.last());
    if w.len() > 0 {
        assert forall|k: int| 0 <= k < w.len() implies !is_nan((#[trigger] w[k]).bits) by {
            assert(w[k] == v[k]);
        }
        extremes_are_among(w);
        let a = choose|j: int| 0 <= j < w.len() && #[trigger] w[j] == smallest(w);
        let b = choose|j: int| 0 <= j < w.len() && #[trigger] w[j] == largest(w);
        assert(v[a] == w[a]);
        assert(v[b] == w[b]);
    } else {
        assert(w =~= Seq::empty());
        assert(!is_nan(v[0].bits));
        assert(smallest(w).bits == crate::stats::INFINITY);
        assert(largest(w).bits == crate::stats::NEG_INFINITY);
    }
}

impl<C: ColumnCodec> OnDemandStorage<C> {
    /// The numbers that the statistics of a column sum up are, in the order of the rows, those of the
    /// rows that are neither deleted nor missing and have a number, one for each and whatever it is.
    /// The smallest and the largest of the statistics are the smallest and the largest of them; both
    /// are zero where there are none.
    pub proof fn law_stats_of_rows(self, col_name: Seq<char>, rows: Seq<usize>)
        requires
            self.wf(),
            self.whole_table(col_name),
            ({
                let f = self.footer->0;
                let col = f.schema.index_of(col_name)->0 as int;
                lists(
                    rows,
                    f.total_rows(),
                    |row: int| self.has_number(col, row) && is_number(self.number(col, row)),
                )
            }),
        ensures
            ({
                let col = self.footer->0.schema.index_of(col_name)->0 as int;
                &&& self.column_stats(col_name) matches Ok(Some(s)) && {
                    &&& s.addends.len() == rows.len()
                    &&& forall|j: int|
                        0 <= j < rows.len() ==> #[trigger] s.addends[j] == as_double(
                            self.number(col, rows[j] as int),
                        )
                    &&& forall|j: int|
                        0 <= j < rows.len() ==> le(s.min, #[trigger] s.addends[j]) && le(
                            s.addends[j],
                            s.max,
                        )
                    &&& rows.len() > 0 ==> s.addends.contains(s.min) && s.addends.contains(s.max)
                    &&& rows.len() == 0 ==> s.min.bits == 0 && s.max.bits == 0
                }
            }),
    {
        let c = self.codec;
        let f = self.footer->0;
        let file = self.file->0@;
        let col = f.schema.index_of(col_name)->0 as int;
        let n = f.row_groups@.len() as int;
        let kind = |row: int| self.has_number(col, row) && is_number(self.number(col, row));
        let number = |row: int| self.number(col, row);
        assert forall|i: int, r: int|
            0 <= i < n && 0 <= r < f.row_groups@[i].row_count implies #[trigger] number_at(
            c,
            f,
            file,
            col,
            i,
            r,
        ) == number(rows_before(f.row_groups@, i) + r) && kind(rows_before(f.row_groups@, i) + r) == (
        !deleted_at(c, f, file, i, r) && !missing_at(c, f, file, col, i, r) && is_number(
            number_at(c, f, file, col, i, r),
        )) by {
            in_each_group(f, i, r);
        }
        let found = all_addends_listed(c, f, file, col, n, kind, number);
        same_list(found, rows, f.total_rows(), kind);
        let v = all_addends(c, f, file, col, n)->Ok_0;
        assert forall|k: int| 0 <= k < v.len() implies !is_nan((#[trigger] v[k]).bits) by {
            let row = rows[k] as int;
            assert(kind(row));
            held(f, row);
            let i = holder(f, row);
            assert(whole_numbers(c, f, file, col, i));
            int_is_integer(c, f, file, col, i, place_in(f, row));
            if let Number::Int(x) = number(row) {
                int_is_number(x);
            }
        }
        assert forall|j: int| 0 <= j < rows.len() implies le(
            stats_of(v).min,
            #[trigger] v[j],
        ) && le(v[j], stats_of(v).max) by {
            law_stats_bounds(v, j);
        }
        if v.len() > 0 {
            extremes_are_among(v);
        }
    }
}

/// Whether candidates are some rows with their numbers, one for each.
pub open spec fn candidates_of(
    xs: Seq<Candidate>,
    rows: Seq<usize>,
    number: spec_fn(int) -> Number,
) -> bool {
    &&& xs.len() == rows.len()
    &&& forall|j: int|
        0 <= j < xs.len() ==> (#[trigger] xs[j]).row == rows[j] && xs[j].value == as_double(
            number(rows[j] as int),
        ) && xs[j].length == 0
}

/// Whether the rows of a kind are those that are not deleted, with the numbers of a source.
spec fn live_rows(
    src: NumSeq,
    del: Option<Seq<u8>>,
    n: int,
    base: int,
    kind: spec_fn(int) -> bool,
    number: spec_fn(int) -> Number,
) -> bool {
    forall|r: int|
        0 <= r < n ==> #[trigger] src.real_at(r) == as_double(number(base + r)) && kind(base + r)
            == row_open(del, None, r)
}

/// The candidates of a row group are its live rows.
proof fn candidates_listed(
    src: NumSeq,
    del: Option<Seq<u8>>,
    n: int,
    base: int,
    kind: spec_fn(int) -> bool,
    number: spec_fn(int) -> Number,
    xs: Seq<Candidate>,
    before: Seq<usize>,
) -> (after: Seq<usize>)
    requires
        0 <= n,
        0 <= base,
        base + n <= usize::MAX,
        lists(before, base, kind),
        candidates_of(xs, before, number),
        live_rows(src, del, n, base, kind, number),
    ensures
        lists(after, base + n, kind),
        candidates_of(xs + value_candidates(src, del, base, n), after, number),
    decreases n,
{
    if n == 0 {
        assert(xs + value_candidates(src, del, base, n) =~= xs);
        before
    } else {
        let most = candidates_listed(src, del, n - 1, base, kind, number, xs, before);
        let last = base + n - 1;
        assert(src.real_at(n - 1) == as_double(number(base + (n - 1))));
        let after = if kind(last) {
            most.push(last as usize)
        } else {
            most
        };
        lists_step(most, after, last, kind);
        let all = xs + value_candidates(src, del, base, n);
        let part = xs + value_candidates(src, del, base, n - 1);
        if kind(last) {
            assert(all =~= part.push(
                Candidate { length: 0, value: src.real_at(n - 1), row: last as usize },
            ));
        }
        after
    }
}

/// The best of the first row groups are the best of their live rows.
#[verifier::spinoff_prover]
proof fn top_values_listed<C: ColumnCodec>(
    c: C,
    f: V4Footer,
    file: Seq<u8>,
    col: int,
    p: Preference,
    room: int,
    k: int,
    kind: spec_fn(int) -> bool,
    number: spec_fn(int) -> Number,
) -> (r: (Seq<usize>, Seq<Candidate>))
    requires
        f.wf(),
        0 <= k <= f.row_groups@.len(),
        is_int(f.schema.kind(col)) || is_float(f.schema.kind(col)),
        forall|i: int|
            0 <= i < k && f.row_groups@[i].row_count > 0 ==> #[trigger] whole_numbers(
                c,
                f,
                file,
                col,
                i,
            ),
        forall|i: int, r: int|
            0 <= i < k && 0 <= r < f.row_groups@[i].row_count ==> #[trigger] number_at(
                c,
                f,
                file,
                col,
                i,
                r,
            ) == number(rows_before(f.row_groups@, i) + r) && kind(
                rows_before(f.row_groups@, i) + r,
            ) == !deleted_at(c, f, file, i, r),
    ensures
        lists(r.0, rows_before(f.row_groups@, k), kind),
        candidates_of(r.1, r.0, number),
        top_values(c, f, file, col, p, room, k) == Ok::<Seq<Candidate>, ScanError>(
            p.enter_all(Seq::empty(), r.1, room),
        ),
    decreases k,
{
    if k == 0 {
        (Seq::empty(), Seq::empty())
    } else {
        let i = k - 1;
        let (before, xs) = top_values_listed(c, f, file, col, p, room, i, kind, number);
        group_bounds(f, i);
        let meta = f.row_groups@[i];
        let rows = meta.row_count as int;
        let base = rows_before(f.row_groups@, i);
        if rows == 0 {
            (before, xs)
        } else {
            assert(whole_numbers(c, f, file, col, i));
            sources(c, f, file, col, i);
            let g = group_of(c, meta, file)->Ok_0;
            let bm = bitmap_len(rows);
            let at = place_of(c, f, file, col, i);
            let column = tail(g.body, at + bm);
            marks_of_group(c, f, file, col, i, 0);
            let del = if meta.deletion_count > 0 {
                window(g.body, id_section(rows, g.ids), bm)
            } else {
                None
            };
            let src = if is_plain(c, f, file, col, i) {
                let (src, n) = plain_numbers(
                    is_int(f.schema.kind(col)),
                    rows,
                    tail(column, tag_len(g.version)),
                );
                src
            } else {
                match c.decoded(g.version >= 1, column, f.schema.kind(col)) {
                    Some((ColumnSeq::Int64(v), _)) => NumSeq::Ints(v),
                    Some((ColumnSeq::Float64(v), _)) => NumSeq::Reals(v),
                    _ => NumSeq::Ints(Seq::empty()),
                }
            };
            assert(source_of(src, c, f, file, col, i));
            assert(located(c, f, g, col, i) == Ok::<Option<Seq<u8>>, ScanError>(Some(column)));
            assert(ranked_numbers(c, f.schema.kind(col), g.version, rows, column) == Ok::<
                Option<(NumSeq, int)>,
                ScanError,
            >(Some((src, rows))));
            assert forall|r: int| 0 <= r < rows implies #[trigger] src.real_at(r) == as_double(
                number(base + r),
            ) && kind(base + r) == row_open(del, None, r) by {
                marks_of_group(c, f, file, col, i, r);
                let x = number_at(c, f, file, col, i, r);
                assert(x == number(base + r));
                assert(kind(base + r) == !deleted_at(c, f, file, i, r));
            }
            assert(live_rows(src, del, rows, base, kind, number));
            let after = candidates_listed(src, del, rows, base, kind, number, xs, before);
            let more = value_candidates(src, del, base, rows);
            p.enter_all_joined(Seq::empty(), xs, more, room);
            (after, xs + more)
        }
    }
}

impl Preference {
    /// The best hold as many candidates as there is room for, and each at most as often as it was
    /// there.
    proof fn entered(self, xs: Seq<Candidate>, k: int)
        requires
            0 < k,
        ensures
            self.enter_all(Seq::empty(), xs, k).len() == (if xs.len() < k {
                xs.len() as int
            } else {
                k
            }),
            self.enter_all(Seq::empty(), xs, k).to_multiset().subset_of(xs.to_multiset()),
        decreases xs.len(),
    {
        broadcast use vstd::seq_lib::group_to_multiset_ensures;

        if xs.len() > 0 {
            let most = xs.drop_last();
            let x = xs.last();
            self.entered(most, k);
            let best = self.enter_all(Seq::empty(), most, k);
            let now = self.enter(best, x, k);
            assert(xs =~= most.push(x));
            assert(xs.to_multiset() =~= most.to_multiset().insert(x));
            self.place_bounds(best, x, 0);
            let at = self.place(best, x, 0);
            let grown = best.insert(at, x);
            vstd::seq_lib::to_multiset_insert(best, at, x);
            assert(grown.to_multiset() =~= best.to_multiset().insert(x));
            if !self.turned_away(best, x, k) && grown.len() > k {
                assert(grown =~= now.push(grown.last()));
                assert(grown.to_multiset() =~= now.to_multiset().insert(grown.last()));
            }
            let m = most.to_multiset();
            let b = best.to_multiset();
            assert forall|y: Candidate| #[trigger] now.to_multiset().count(y)
                <= xs.to_multiset().count(y) by {
                assert(b.count(y) <= m.count(y));
                assert(xs.to_multiset().count(y) == m.count(y) + (if y == x {
                    1int
                } else {
                    0
                }));
                assert(grown.to_multiset().count(y) == b.count(y) + (if y == x {
                    1int
                } else {
                    0
                }));
                if !self.turned_away(best, x, k) && grown.len() > k {
                    assert(now.to_multiset().insert(grown.last()).count(y)
                        >= now.to_multiset().count(y));
                }
            }
        } else {
            assert(xs =~= Seq::empty());
        }
    }

    proof fn place_bounds(self, best: Seq<Candidate>, x: Candidate, i: int)
        requires
            0 <= i <= best.len(),
        ensures
            i <= self.place(best, x, i) <= best.len(),
        decreases best.len() - i,
    {
        if i < best.len() && self.ahead(best[i], x) {
            self.place_bounds(best, x, i + 1);
        }
    }
}

/// Whether `a` comes strictly before `b` in a ranking of numbers.
pub open spec fn comes_first(descending: bool, a: F64, b: F64) -> bool {
    if descending {
        lt(b, a)
    } else {
        lt(a, b)
    }
}

impl<C: ColumnCodec> OnDemandStorage<C> {
    /// A ranking has as many entries as asked for, or one for each live row where there are fewer:
    /// different live rows, each with its number. Where each live row has a number, the entries are in
    /// order, and no live row that is left out has a number that comes strictly before that of an
    /// entry.
    pub proof fn law_top_k_of_rows(
        self,
        col_name: Seq<char>,
        k: usize,
        descending: bool,
        live: Seq<usize>,
    )
        requires
            self.wf(),
            self.whole_table(col_name),
            ({
                let f = self.footer->0;
                lists(live, f.total_rows(), |row: int| !self.is_deleted(row))
            }),
        ensures
            ({
                let col = self.footer->0.schema.index_of(col_name)->0 as int;
                &&& self.top_k_values(col_name, k, descending) matches Ok(Some(top)) && {
                    &&& top.len() == (if live.len() < k {
                        live.len() as int
                    } else {
                        k as int
                    })
                    &&& forall|j: int|
                        0 <= j < top.len() ==> live.contains((#[trigger] top[j]).0) && top[j].1
                            == as_double(self.number(col, top[j].0 as int))
                    &&& forall|j: int, m: int|
                        0 <= j < m < top.len() ==> (#[trigger] top[j]).0 != (#[trigger] top[m]).0
                    &&& (forall|j: int|
                        0 <= j < live.len() ==> is_number(
                            self.number(col, #[trigger] live[j] as int),
                        )) ==> {
                        &&& forall|j: int, m: int|
                            0 <= j < m < top.len() ==> !comes_first(
                                descending,
                                (#[trigger] top[m]).1,
                                (#[trigger] top[j]).1,
                            )
                        &&& forall|row: usize, j: int|
                            0 <= j < top.len() && #[trigger] live.contains(row) && (forall|m: int|
                                0 <= m < top.len() ==> (#[trigger] top[m]).0 != row)
                                ==> !comes_first(
                                descending,
                                as_double(self.number(col, row as int)),
                                (#[trigger] top[j]).1,
                            )
                    }
                }
            }),
    {
        broadcast use vstd::seq_lib::group_to_multiset_ensures;

        let c = self.codec;
        let f = self.footer->0;
        let file = self.file->0@;
        let col = f.schema.index_of(col_name)->0 as int;
        let n = f.row_groups@.len() as int;
        let kind = |row: int| !self.is_deleted(row);
        let number = |row: int| self.number(col, row);
        if k > 0 {
            assert forall|i: int, r: int|
                0 <= i < n && 0 <= r < f.row_groups@[i].row_count implies #[trigger] number_at(
                c,
                f,
                file,
                col,
                i,
                r,
            ) == number(rows_before(f.row_groups@, i) + r) && kind(
                rows_before(f.row_groups@, i) + r,
            ) == !deleted_at(c, f, file, i, r) by {
                in_each_group(f, i, r);
            }
            let p = Preference::Value { descending };
            let (found, xs) = top_values_listed(
                c,
                f,
                file,
                col,
                p,
                k as int,
                n,
                kind,
                number,
            );
            same_list(found, live, f.total_rows(), kind);
            p.entered(xs, k as int);
            let best = p.enter_all(Seq::empty(), xs, k as int);
            let top = rows_and_values(best);
            rows_once(xs, live);
            assert forall|j: int| 0 <= j < top.len() implies live.contains((#[trigger] top[j]).0)
                && top[j].1 == as_double(self.number(col, top[j].0 as int)) by {
                assert(best.to_multiset().count(best[j]) > 0);
                assert(xs.to_multiset().count(best[j]) > 0);
                assert(xs.contains(best[j]));
                let m = choose|m: int| 0 <= m < xs.len() && xs[m] == best[j];
                assert(live[m] == xs[m].row);
            }
            best_rows_differ(best, xs);
            if forall|j: int|
                0 <= j < live.len() ==> is_number(self.number(col, #[trigger] live[j] as int)) {
                assert forall|j: int| 0 <= j < xs.len() implies !is_nan(
                    (#[trigger] xs[j]).value.bits,
                ) by {
                    let row = live[j] as int;
                    assert(is_number(self.number(col, live[j] as int)));
                    held(f, row);
                    let i = holder(f, row);
                    assert(whole_numbers(c, f, file, col, i));
                    int_is_integer(c, f, file, col, i, place_in(f, row));
                    if let Number::Int(x) = number(row) {
                        int_is_number(x);
                    }
                }
                p.law_best(xs, k as int);
                assert forall|j: int, m: int| 0 <= j < m < top.len() implies !comes_first(
                    descending,
                    (#[trigger] top[m]).1,
                    (#[trigger] top[j]).1,
                ) by {
                    assert(!p.ahead(best[m], best[j]));
                }
                assert forall|row: usize, j: int|
                    0 <= j < top.len() && #[trigger] live.contains(row) && (forall|m: int|
                        0 <= m < top.len() ==> (#[trigger] top[m]).0 != row) implies !comes_first(
                    descending,
                    as_double(self.number(col, row as int)),
                    (#[trigger] top[j]).1,
                ) by {
                    let m = choose|m: int| 0 <= m < live.len() && live[m] == row;
                    let y = xs[m];
                    assert(y.row == row);
                    if best.contains(y) {
                        let t = choose|t: int| 0 <= t < best.len() && best[t] == y;
                        assert(top[t].0 == row);
                    }
                    assert(best.to_multiset().count(y) == 0);
                    assert(xs.contains(y));
                    assert(xs.to_multiset().count(y) > 0);
                    assert(!p.ahead(y, best[j]));
                }
            }
        }
    }

    /// Whether a row of the table is deleted.
    pub open spec fn is_deleted(self, row: int) -> bool {
        row_deleted(self.codec, self.footer->0, self.file->0@, row)
    }
}

/// Candidates of different rows are there once.
pub(crate) proof fn rows_once(xs: Seq<Candidate>, rows: Seq<usize>)
    requires
        xs.len() == rows.len(),
        forall|j: int| 0 <= j < xs.len() ==> (#[trigger] xs[j]).row == rows[j],
        forall|j: int, k: int| 0 <= j < k < rows.len() ==> #[trigger] rows[j] < #[trigger] rows[k],
    ensures
        forall|y: Candidate| #[trigger] xs.to_multiset().count(y) <= 1,
        forall|y: Candidate, z: Candidate|
            xs.contains(y) && xs.contains(z) && y.row == z.row ==> y == z,
{
    assert(xs.no_duplicates()) by {
        assert forall|j: int, k: int| 0 <= j < k < xs.len() implies xs[j] != xs[k] by {
            assert(rows[j] < rows[k]);
        }
    }
    xs.lemma_multiset_has_no_duplicates();
    assert forall|y: Candidate| #[trigger] xs.to_multiset().count(y) <= 1 by {
        if xs.to_multiset().count(y) > 0 {
            assert(xs.to_multiset().contains(y));
        }
    }
    assert forall|y: Candidate, z: Candidate|
        xs.contains(y) && xs.contains(z) && y.row == z.row implies y == z by {
        let j = choose|j: int| 0 <= j < xs.len() && xs[j] == y;
        let k = choose|k: int| 0 <= k < xs.len() && xs[k] == z;
        if j < k {
            assert(rows[j] < rows[k]);
        } else if k < j {
            assert(rows[k] < rows[j]);
        }
    }
}

/// The best of candidates of different rows have different rows.
pub(crate) proof fn best_rows_differ(best: Seq<Candidate>, xs: Seq<Candidate>)
    requires
        best.to_multiset().subset_of(xs.to_multiset()),
        forall|y: Candidate| #[trigger] xs.to_multiset().count(y) <= 1,
        forall|y: Candidate, z: Candidate|
            xs.contains(y) && xs.contains(z) && y.row == z.row ==> y == z,
    ensures
        forall|j: int, m: int|
            0 <= j < m < best.len() ==> (#[trigger] best[j]).row != (#[trigger] best[m]).row,
{
    broadcast use vstd::seq_lib::group_to_multiset_ensures;

    assert forall|j: int, m: int| 0 <= j < m < best.len() implies (#[trigger] best[j]).row != (
    #[trigger] best[m]).row by {
        assert(best.contains(best[j]));
        assert(best.contains(best[m]));
        assert(xs.to_multiset().count(best[j]) > 0);
        assert(xs.to_multiset().count(best[m]) > 0);
        assert(xs.contains(best[j]));
        assert(xs.contains(best[m]));
        if best[j] == best[m] {
            let rest = best.remove(m);
            vstd::seq_lib::to_multiset_remove(best, m);
            assert(rest[j] == best[j]);
            assert(rest.contains(best[j]));
            assert(rest.to_multiset().count(best[j]) > 0);
            assert(best.to_multiset().count(best[j]) > 1);
        }
    }
}

} // verus!
