//! Scans for a set of strings find the rows that have one of them, whichever way they take.

use vstd::prelude::*;

use crate::bytes::{bit, bitmap_len};
use crate::codec::ColumnCodec;
use crate::column::{ColumnSeq, DictSeq};
use crate::group::{group_of, id_section, stored_group, tail, walk, window};
use crate::model::{
    is_text, rows_before, ColumnType, RowGroupMeta, ScanError, V4Footer,
    COL_ENCODING_COMPACT_DICTIONARY, COL_ENCODING_PLAIN,
};
use crate::numeric::{encoding_of, min2, row_open, tag_len};
use crate::order::{
    ascending_rows, ascending_rows_facts, ascending_strings, lex_less, lex_total, strictly_ascending,
};
use crate::scan_laws::{group_bounds, law_select_limit, select_counts};
use crate::select::{select, select_checked, select_full};
use crate::storage::{max_rows, OnDemandStorage};
use crate::text::{dict_rows, plain_text, text_rows, StrTestSeq};
use crate::text_filter::{
    equal_decoded, equal_index, equal_plain, is_dictionary, positions, rows_by_position, sift,
    TextQuerySeq,
};
use crate::text_laws::{equal_rows, law_search_finds_rows, strings_follow};
use crate::text_scan::{all_quick, quick_column, quick_group, QuickSeq};
use crate::text_sets::{countable_group, lengths_miss, longest, shortest, SetQuerySeq};
use crate::value_laws::law_collected_once;

verus! {

/// The string of row `r` of a column, where it has one.
pub open spec fn string_of<C: ColumnCodec>(c: C, dict: bool, q: QuickSeq, r: int) -> Option<Seq<u8>> {
    if bit(q.nulls, r) {
        None
    } else if dict {
        match c.dictionary(q.encoding == COL_ENCODING_COMPACT_DICTIONARY, q.data) {
            Some(d) if r < d.indices.len() => d.value(d.indices[r] as int),
            _ => None,
        }
    } else {
        match plain_text(q.data) {
            Some(t) if r < t.count && t.start(r) <= t.end(r) <= t.raw().len() => Some(
                t.raw().subrange(t.start(r), t.end(r)),
            ),
            _ => None,
        }
    }
}

/// Whether no string has two indices in a dictionary, and no missing row has one.
pub open spec fn sound_dictionary(d: DictSeq, nulls: Seq<u8>) -> bool {
    &&& forall|j: int, k: int|
        j != k && #[trigger] d.value(j) is Some ==> d.value(j) != #[trigger] d.value(k)
    &&& forall|r: int|
        0 <= r < d.indices.len() && bit(nulls, r) ==> d.value(#[trigger] d.indices[r] as int) is None
}

/// Whether the column holds strings that follow each other, or indices into a dictionary.
pub open spec fn sound_column<C: ColumnCodec>(c: C, dict: bool, q: QuickSeq) -> bool {
    if dict {
        &&& is_dictionary(ColumnType::StringDict, q.encoding)
        &&& c.dictionary(q.encoding == COL_ENCODING_COMPACT_DICTIONARY, q.data) matches Some(d)
            && sound_dictionary(d, q.nulls)
    } else {
        &&& q.encoding == COL_ENCODING_PLAIN
        &&& plain_text(q.data) matches Some(t) && strings_follow(t)
    }
}

/// Whether the zone map of row group `i` gives bounds for the lengths of its strings.
pub open spec fn sound_lengths<C: ColumnCodec>(
    c: C,
    f: V4Footer,
    q: QuickSeq,
    col: int,
    dict: bool,
    i: int,
) -> bool {
    f.zone(i, col, true) matches Some(m) ==> forall|r: int|
        0 <= r < f.row_groups@[i].row_count && #[trigger] string_of(c, dict, q, r) is Some
            ==> m.min_bits <= string_of(c, dict, q, r)->0.len() <= m.max_bits
}

/// Whether row group `i` is stored as it should be: with its deletion bitmap, a column of strings or
/// of indices, and a zone map, if it has one, whose bounds hold.
pub open spec fn sound_group<C: ColumnCodec>(
    c: C,
    f: V4Footer,
    file: Seq<u8>,
    col: int,
    dict: bool,
    i: int,
) -> bool {
    &&& quick_group(f, file, col, i)
    &&& quick_column(f, file, col, i) matches Some(q) && q.deleted is Some && sound_column(
        c,
        dict,
        q,
    ) && sound_lengths(c, f, q, col, dict, i)
}

/// The rows of a column that are not deleted and have one of some strings.
pub open spec fn having<C: ColumnCodec>(
    c: C,
    dict: bool,
    q: QuickSeq,
    del: Option<Seq<u8>>,
    values: Seq<Seq<u8>>,
) -> spec_fn(int) -> bool {
    |r: int|
        row_open(del, None, r) && string_of(c, dict, q, r) is Some && values.contains(
            string_of(c, dict, q, r)->0,
        )
}

/// The deletion bitmap that counts.
pub open spec fn deletions(meta: RowGroupMeta, q: QuickSeq) -> Option<Seq<u8>> {
    if meta.deletion_count > 0 {
        q.deleted
    } else {
        None
    }
}

/// `acc` with the rows of row group `i` that have one of some strings.
pub open spec fn group_having<C: ColumnCodec>(
    c: C,
    f: V4Footer,
    file: Seq<u8>,
    col: int,
    dict: bool,
    values: Seq<Seq<u8>>,
    i: int,
    acc: Seq<usize>,
    max: int,
) -> Seq<usize> {
    let meta = f.row_groups@[i];
    let q = quick_column(f, file, col, i)->0;
    select(
        having(c, dict, q, deletions(meta, q), values),
        meta.row_count as int,
        rows_before(f.row_groups@, i),
        acc,
        max,
    )
}

/// The rows of the first `k` row groups that have one of some strings.
pub open spec fn rows_having<C: ColumnCodec>(
    c: C,
    f: V4Footer,
    file: Seq<u8>,
    col: int,
    dict: bool,
    values: Seq<Seq<u8>>,
    max: int,
    k: int,
) -> Seq<usize>
    decreases k,
{
    if k <= 0 {
        Seq::empty()
    } else {
        group_having(
            c,
            f,
            file,
            col,
            dict,
            values,
            k - 1,
            rows_having(c, f, file, col, dict, values, max, k - 1),
            max,
        )
    }
}

/// Tests that agree on the rows there are select the same rows.
pub(crate) proof fn select_agrees(
    a: spec_fn(int) -> bool,
    n: int,
    b: spec_fn(int) -> bool,
    m: int,
    base: int,
    acc: Seq<usize>,
    max: int,
)
    requires
        0 <= n <= m,
        forall|r: int| 0 <= r < n ==> #[trigger] a(r) == b(r),
        forall|r: int| n <= r < m ==> !#[trigger] b(r),
    ensures
        select(a, n, base, acc, max) == select(b, m, base, acc, max),
    decreases m,
{
    if m > n {
        select_agrees(a, n, b, m - 1, base, acc, max);
        assert(!b(m - 1));
    } else if n > 0 {
        select_agrees(a, n - 1, b, m - 1, base, acc, max);
        assert(a(n - 1) == b(m - 1));
    }
}

/// A selection holds what was there and what passes.
pub(crate) proof fn select_holds(
    hit: spec_fn(int) -> bool,
    n: int,
    base: int,
    acc: Seq<usize>,
    max: int,
    row: usize,
)
    requires
        0 <= n,
        0 <= base,
        base + n <= usize::MAX,
        acc.len() + n <= max,
    ensures
        select(hit, n, base, acc, max).len() <= acc.len() + n,
        select(hit, n, base, acc, max).contains(row) == (acc.contains(row) || (base <= row < base + n
            && hit(row - base))),
    decreases n,
{
    if n > 0 {
        select_holds(hit, n - 1, base, acc, max, row);
        let before = select(hit, n - 1, base, acc, max);
        let all = select(hit, n, base, acc, max);
        if hit(n - 1) {
            let x = (base + n - 1) as usize;
            assert(all == before.push(x));
            if before.contains(row) {
                let k = choose|k: int| 0 <= k < before.len() && before[k] == row;
                assert(all[k] == row);
            }
            assert(all[before.len() as int] == x);
            if all.contains(row) {
                let k = choose|k: int| 0 <= k < all.len() && all[k] == row;
                if k < before.len() {
                    assert(before[k] == row);
                }
            }
        }
    }
}

/// Every string is as long as the shortest and the longest allow.
proof fn lengths_hold(values: Seq<Seq<u8>>, s: Seq<u8>)
    requires
        values.contains(s),
    ensures
        shortest(values) <= s.len() <= longest(values),
    decreases values.len(),
{
    let k = choose|k: int| 0 <= k < values.len() && values[k] == s;
    if values.len() > 1 && k < values.len() - 1 {
        assert(values.drop_last()[k] == s);
        lengths_hold(values.drop_last(), s);
    } else if values.len() > 1 {
        lengths_hold(values.drop_last(), values.drop_last()[0]);
        assert(values.drop_last().contains(values.drop_last()[0]));
    }
}

/// What looking for a string in a dictionary finds.
proof fn find_facts(d: DictSeq, s: Seq<u8>, k: int)
    requires
        1 <= k,
    ensures
        match d.find_from(s, k) {
            None => forall|j: int| k <= j ==> #[trigger] d.value(j) != Some(s),
            Some(m) => k <= m && d.value(m) == Some(s),
        },
    decreases d.values.len() + 1 - k,
{
    if k <= d.values.len() && d.value(k) != Some(s) {
        find_facts(d, s, k + 1);
        if d.find_from(s, k + 1) is None {
            assert forall|j: int| k <= j implies #[trigger] d.value(j) != Some(s) by {
                if j > k {
                    assert(k + 1 <= j);
                }
            }
        }
    }
}

impl SetQuerySeq {
    /// Scanning a row group for a set gives the rows that have one of its strings.
    proof fn rows_are_those_having<C: ColumnCodec>(
        self,
        c: C,
        q: QuickSeq,
        del: Option<Seq<u8>>,
        rows: int,
        base: int,
        acc: Seq<usize>,
    )
        requires
            0 <= rows,
            sound_column(c, self.dict, q),
            self.test is OneOf,
        ensures
            self.rows(c, q, del, rows, base, acc) == select(
                having(c, self.dict, q, del, self.test->OneOf_0),
                rows,
                base,
                acc,
                self.max,
            ),
    {
        let b = having(c, self.dict, q, del, self.test->OneOf_0);
        if self.dict {
            let d = c.dictionary(q.encoding == COL_ENCODING_COMPACT_DICTIONARY, q.data)->0;
            let a = dict_rows(d, self.test, del, Some(q.nulls));
            let n = min2(d.indices.len() as int, rows);
            assert forall|r: int| 0 <= r < n implies #[trigger] a(r) == b(r) by {}
            select_agrees(a, n, b, rows, base, acc, self.max);
        } else {
            let t = plain_text(q.data)->0;
            let a = text_rows(t, self.test, del, Some(q.nulls));
            let n = min2(t.count, rows);
            assert forall|r: int| 0 <= r < n implies #[trigger] a(r) == b(r) by {}
            select_agrees(a, n, b, rows, base, acc, self.max);
        }
    }

    /// Where the lengths rule a row group out, none of its rows has one of the strings.
    proof fn ruled_out_has_none<C: ColumnCodec>(
        self,
        c: C,
        f: V4Footer,
        file: Seq<u8>,
        i: int,
        acc: Seq<usize>,
    )
        requires
            0 <= i < f.row_groups@.len(),
            sound_group(c, f, file, self.col, self.dict, i),
            self.test is OneOf,
            lengths_miss(
                f.zone(i, self.col, true),
                shortest(self.test->OneOf_0),
                longest(self.test->OneOf_0),
            ),
        ensures
            group_having(c, f, file, self.col, self.dict, self.test->OneOf_0, i, acc, self.max)
                == acc,
    {
        let values = self.test->OneOf_0;
        let meta = f.row_groups@[i];
        let q = quick_column(f, file, self.col, i)->0;
        let b = having(c, self.dict, q, deletions(meta, q), values);
        assert forall|r: int| 0 <= r < meta.row_count implies !#[trigger] b(r) by {
            if b(r) {
                lengths_hold(values, string_of(c, self.dict, q, r)->0);
            }
        }
        select_agrees(
            b,
            0,
            b,
            meta.row_count as int,
            rows_before(f.row_groups@, i),
            acc,
            self.max,
        );
    }

    /// A scan for a set of strings gives the rows that have one of them, in order, up to its limit.
    /// Row groups are left out only where the lengths of their strings rule every string of the set
    /// out.
    pub proof fn law_scan_finds_rows<C: ColumnCodec>(self, c: C, f: V4Footer, file: Seq<u8>, k: int)
        requires
            0 <= k <= f.row_groups@.len(),
            self.test is OneOf,
            forall|i: int|
                0 <= i < k ==> #[trigger] sound_group(c, f, file, self.col, self.dict, i),
        ensures
            self.in_scan(
                c,
                f,
                file,
                shortest(self.test->OneOf_0),
                longest(self.test->OneOf_0),
                k,
            ) == rows_having(
                c,
                f,
                file,
                self.col,
                self.dict,
                self.test->OneOf_0,
                self.max,
                k,
            ),
        decreases k,
    {
        if k > 0 {
            self.law_scan_finds_rows(c, f, file, k - 1);
            assert(sound_group(c, f, file, self.col, self.dict, k - 1));
            let values = self.test->OneOf_0;
            let acc = self.in_scan(c, f, file, shortest(values), longest(values), k - 1);
            let meta = f.row_groups@[k - 1];
            let q = quick_column(f, file, self.col, k - 1)->0;
            let base = rows_before(f.row_groups@, k - 1);
            let rows = meta.row_count as int;
            if acc.len() >= self.max {
                select_full(
                    having(c, self.dict, q, deletions(meta, q), values),
                    0,
                    rows,
                    base,
                    acc,
                    self.max,
                );
            } else if lengths_miss(
                f.zone(k - 1, self.col, true),
                shortest(values),
                longest(values),
            ) {
                self.ruled_out_has_none(c, f, file, k - 1, acc);
            } else {
                self.rows_are_those_having(c, q, deletions(meta, q), rows, base, acc);
            }
        }
    }

    /// Counting the rows that have one of some strings counts the rows that a scan without a limit
    /// gives, also where that scan leaves row groups out.
    pub proof fn law_set_count_is_length<C: ColumnCodec>(self, c: C, f: V4Footer, file: Seq<u8>, k: int)
        requires
            f.wf(),
            0 <= k <= f.row_groups@.len(),
            self.test is OneOf,
            self.max >= rows_before(f.row_groups@, k),
            forall|i: int|
                0 <= i < k ==> #[trigger] sound_group(c, f, file, self.col, self.dict, i),
        ensures
            self.count(c, f, file, k) == self.in_scan(
                c,
                f,
                file,
                shortest(self.test->OneOf_0),
                longest(self.test->OneOf_0),
                k,
            ).len(),
            self.count(c, f, file, k) <= rows_before(f.row_groups@, k),
        decreases k,
    {
        self.law_scan_finds_rows(c, f, file, k);
        if k > 0 {
            group_bounds(f, k - 1);
            self.law_set_count_is_length(c, f, file, k - 1);
            self.law_scan_finds_rows(c, f, file, k - 1);
            assert(sound_group(c, f, file, self.col, self.dict, k - 1));
            let values = self.test->OneOf_0;
            let acc = self.in_scan(c, f, file, shortest(values), longest(values), k - 1);
            let meta = f.row_groups@[k - 1];
            let q = quick_column(f, file, self.col, k - 1)->0;
            let base = rows_before(f.row_groups@, k - 1);
            let rows = meta.row_count as int;
            self.rows_are_those_having(c, q, deletions(meta, q), rows, 0, Seq::empty());
            select_counts(
                having(c, self.dict, q, deletions(meta, q), values),
                rows,
                base,
                acc,
                self.max,
            );
        }
    }
}

/// A dictionary index is that of a string where its value is that string.
proof fn index_is_string<C: ColumnCodec>(c: C, q: QuickSeq, target: Seq<u8>, del: Option<Seq<u8>>, r: int)
    requires
        sound_column(c, true, q),
        0 <= r,
        ({
            let d = c.dictionary(q.encoding == COL_ENCODING_COMPACT_DICTIONARY, q.data)->0;
            r < d.indices.len()
        }),
    ensures
        ({
            let d = c.dictionary(q.encoding == COL_ENCODING_COMPACT_DICTIONARY, q.data)->0;
            having(c, true, q, del, seq![target])(r) == (match d.find(target) {
                None => false,
                Some(k) => equal_index(d, k, del)(r),
            })
        }),
{
    let d = c.dictionary(q.encoding == COL_ENCODING_COMPACT_DICTIONARY, q.data)->0;
    find_facts(d, target, 1);
    let v = d.value(d.indices[r] as int);
    assert(seq![target].contains(target)) by {
        assert(seq![target][0] == target);
    }
    if let Some(k) = d.find(target) {
        if d.indices[r] != k {
            assert(d.value(k) != d.value(d.indices[r] as int));
        }
    }
}

/// Looking for the index of a string gives the rows that have the string.
proof fn dictionary_finds_rows<C: ColumnCodec>(
    c: C,
    q: QuickSeq,
    target: Seq<u8>,
    del: Option<Seq<u8>>,
    rows: int,
    base: int,
    acc: Seq<usize>,
    max: int,
)
    requires
        sound_column(c, true, q),
        0 <= rows,
    ensures
        ({
            let d = c.dictionary(q.encoding == COL_ENCODING_COMPACT_DICTIONARY, q.data)->0;
            select(having(c, true, q, del, seq![target]), rows, base, acc, max) == (match d.find(
                target,
            ) {
                None => acc,
                Some(k) => select(
                    equal_index(d, k, del),
                    min2(d.indices.len() as int, rows),
                    base,
                    acc,
                    max,
                ),
            })
        }),
{
    let d = c.dictionary(q.encoding == COL_ENCODING_COMPACT_DICTIONARY, q.data)->0;
    let b = having(c, true, q, del, seq![target]);
    let n = min2(d.indices.len() as int, rows);
    match d.find(target) {
        None => {
            assert forall|r: int| 0 <= r < rows implies !#[trigger] b(r) by {
                if r < n {
                    index_is_string(c, q, target, del, r);
                }
            }
            select_agrees(b, 0, b, rows, base, acc, max);
        },
        Some(k) => {
            let a = equal_index(d, k, del);
            assert forall|r: int| 0 <= r < n implies #[trigger] a(r) == b(r) by {
                index_is_string(c, q, target, del, r);
            }
            select_agrees(a, n, b, rows, base, acc, max);
        },
    }
}

/// Searching the data for a string gives the rows that have the string.
proof fn search_finds_rows<C: ColumnCodec>(
    c: C,
    q: QuickSeq,
    target: Seq<u8>,
    del: Option<Seq<u8>>,
    rows: int,
    base: int,
    acc: Seq<usize>,
    max: int,
)
    requires
        sound_column(c, false, q),
        0 <= rows,
    ensures
        ({
            let t = plain_text(q.data)->0;
            select(having(c, false, q, del, seq![target]), rows, base, acc, max) == sift(
                rows_by_position(t, target, min2(t.count, rows), del, q.nulls),
                positions(t.raw()),
                base,
                acc,
                max,
            )
        }),
{
    let t = plain_text(q.data)->0;
    let n = min2(t.count, rows);
    let a = equal_rows(t, target, del, q.nulls);
    let b = having(c, false, q, del, seq![target]);
    law_search_finds_rows(t, target, n, del, q.nulls, base, acc, max);
    assert(seq![target].contains(target)) by {
        assert(seq![target][0] == target);
    }
    assert forall|r: int| 0 <= r < n implies #[trigger] a(r) == b(r) by {
        assert(t.end(r) == t.start(r + 1));
        assert(t.start(r) < t.start(r + 1));
        if r + 1 < t.count {
            assert(t.start(r + 1) < t.start(t.count));
        }
    }
    select_agrees(a, n, b, rows, base, acc, max);
}

impl TextQuerySeq {
    /// Where its length rules a row group out, none of its rows has the string.
    proof fn ruled_out_has_none<C: ColumnCodec>(
        self,
        c: C,
        f: V4Footer,
        file: Seq<u8>,
        dict: bool,
        i: int,
        acc: Seq<usize>,
    )
        requires
            0 <= i < f.row_groups@.len(),
            sound_group(c, f, file, self.col, dict, i),
            self.too_long_or_short(f.zone(i, self.col, true)),
        ensures
            group_having(c, f, file, self.col, dict, seq![self.target], i, acc, self.max) == acc,
    {
        let meta = f.row_groups@[i];
        let q = quick_column(f, file, self.col, i)->0;
        let b = having(c, dict, q, deletions(meta, q), seq![self.target]);
        assert forall|r: int| 0 <= r < meta.row_count implies !#[trigger] b(r) by {}
        select_agrees(
            b,
            0,
            b,
            meta.row_count as int,
            rows_before(f.row_groups@, i),
            acc,
            self.max,
        );
    }

    proof fn quick_finds_rows<C: ColumnCodec>(
        self,
        c: C,
        f: V4Footer,
        file: Seq<u8>,
        i: int,
        acc: Seq<usize>,
    )
        requires
            0 <= i < f.row_groups@.len(),
            sound_group(c, f, file, self.col, true, i),
        ensures
            self.quick(c, f, file, i, acc) == group_having(
                c,
                f,
                file,
                self.col,
                true,
                seq![self.target],
                i,
                acc,
                self.max,
            ),
    {
        let meta = f.row_groups@[i];
        let q = quick_column(f, file, self.col, i)->0;
        if self.too_long_or_short(f.zone(i, self.col, true)) {
            self.ruled_out_has_none(c, f, file, true, i, acc);
        } else {
            dictionary_finds_rows(
                c,
                q,
                self.target,
                deletions(meta, q),
                meta.row_count as int,
                rows_before(f.row_groups@, i),
                acc,
                self.max,
            );
        }
    }

    proof fn group_finds_rows<C: ColumnCodec>(
        self,
        c: C,
        f: V4Footer,
        file: Seq<u8>,
        i: int,
        acc: Seq<usize>,
    )
        requires
            0 <= i < f.row_groups@.len(),
            is_text(f.schema.kind(self.col)),
            sound_group(c, f, file, self.col, f.schema.kind(self.col) is StringDict, i),
        ensures
            self.group(c, f, file, i, acc) == Ok::<Seq<usize>, ScanError>(
                group_having(
                    c,
                    f,
                    file,
                    self.col,
                    f.schema.kind(self.col) is StringDict,
                    seq![self.target],
                    i,
                    acc,
                    self.max,
                ),
            ),
    {
        let dict = f.schema.kind(self.col) is StringDict;
        let meta = f.row_groups@[i];
        let rows = meta.row_count as int;
        let base = rows_before(f.row_groups@, i);
        let q = quick_column(f, file, self.col, i)->0;
        let del = deletions(meta, q);
        let b = having(c, dict, q, del, seq![self.target]);
        if acc.len() >= self.max {
            select_full(b, 0, rows, base, acc, self.max);
        } else if rows > 0 {
            let s = stored_group(meta, file)->Ok_0;
            assert(s[28] == file[meta.offset + 28]);
            assert(s[29] == file[meta.offset + 29]);
            let g = group_of(c, meta, file)->Ok_0;
            assert(g.body == tail(s, 32));
            if self.too_long_or_short(f.zone(i, self.col, true)) {
                self.ruled_out_has_none(c, f, file, dict, i, acc);
            } else if dict {
                dictionary_finds_rows(c, q, self.target, del, rows, base, acc, self.max);
            } else {
                search_finds_rows(c, q, self.target, del, rows, base, acc, self.max);
            }
        }
    }

    /// A scan for a string gives the rows that have it, in order, up to its limit, whether it goes
    /// through the row groups in turn or, for a dictionary, in place.
    pub proof fn law_scan_finds_rows<C: ColumnCodec>(self, c: C, f: V4Footer, file: Seq<u8>, k: int)
        requires
            0 <= k <= f.row_groups@.len(),
            is_text(f.schema.kind(self.col)),
            forall|i: int|
                0 <= i < k ==> #[trigger] sound_group(
                    c,
                    f,
                    file,
                    self.col,
                    f.schema.kind(self.col) is StringDict,
                    i,
                ),
        ensures
            ({
                let dict = f.schema.kind(self.col) is StringDict;
                let found = rows_having(
                    c,
                    f,
                    file,
                    self.col,
                    dict,
                    seq![self.target],
                    self.max,
                    k,
                );
                &&& self.scan(c, f, file, k) == Ok::<Seq<usize>, ScanError>(found)
                &&& dict ==> self.quick_scan(c, f, file, k) == found
            }),
        decreases k,
    {
        if k > 0 {
            let dict = f.schema.kind(self.col) is StringDict;
            self.law_scan_finds_rows(c, f, file, k - 1);
            assert(sound_group(c, f, file, self.col, dict, k - 1));
            let acc = rows_having(
                c,
                f,
                file,
                self.col,
                dict,
                seq![self.target],
                self.max,
                k - 1,
            );
            self.group_finds_rows(c, f, file, k - 1, acc);
            if dict {
                self.quick_finds_rows(c, f, file, k - 1, acc);
            }
        }
    }
}

/// Sets with the same strings are found in the same rows.
proof fn same_strings_same_rows<C: ColumnCodec>(
    c: C,
    f: V4Footer,
    file: Seq<u8>,
    col: int,
    dict: bool,
    a: Seq<Seq<u8>>,
    b: Seq<Seq<u8>>,
    max: int,
    k: int,
)
    requires
        0 <= k <= f.row_groups@.len(),
        forall|s: Seq<u8>| #[trigger] a.contains(s) == b.contains(s),
    ensures
        rows_having(c, f, file, col, dict, a, max, k) == rows_having(
            c,
            f,
            file,
            col,
            dict,
            b,
            max,
            k,
        ),
    decreases k,
{
    if k > 0 {
        same_strings_same_rows(c, f, file, col, dict, a, b, max, k - 1);
        let meta = f.row_groups@[k - 1];
        let q = quick_column(f, file, col, k - 1)->0;
        select_agrees(
            having(c, dict, q, deletions(meta, q), a),
            meta.row_count as int,
            having(c, dict, q, deletions(meta, q), b),
            meta.row_count as int,
            rows_before(f.row_groups@, k - 1),
            rows_having(c, f, file, col, dict, a, max, k - 1),
            max,
        );
    }
}

/// A limit gives the first of the rows.
proof fn limit_is_prefix<C: ColumnCodec>(
    c: C,
    f: V4Footer,
    file: Seq<u8>,
    col: int,
    dict: bool,
    values: Seq<Seq<u8>>,
    max: int,
    m: int,
    k: int,
)
    requires
        0 <= m <= max,
    ensures
        ({
            let all = rows_having(c, f, file, col, dict, values, max, k);
            rows_having(c, f, file, col, dict, values, m, k) == all.take(
                min2(all.len() as int, m),
            )
        }),
    decreases k,
{
    if k > 0 {
        limit_is_prefix(c, f, file, col, dict, values, max, m, k - 1);
        let meta = f.row_groups@[k - 1];
        let q = quick_column(f, file, col, k - 1)->0;
        law_select_limit(
            having(c, dict, q, deletions(meta, q), values),
            meta.row_count as int,
            rows_before(f.row_groups@, k - 1),
            rows_having(c, f, file, col, dict, values, max, k - 1),
            max,
            m,
        );
    } else {
        assert(Seq::<usize>::empty().take(0) =~= Seq::empty());
    }
}

/// The rows that have one of some strings are the rows that have one of them each.
proof fn having_is_union<C: ColumnCodec>(
    c: C,
    f: V4Footer,
    file: Seq<u8>,
    col: int,
    dict: bool,
    values: Seq<Seq<u8>>,
    max: int,
    k: int,
    row: usize,
)
    requires
        f.wf(),
        0 <= k <= f.row_groups@.len(),
        max >= rows_before(f.row_groups@, k),
    ensures
        rows_having(c, f, file, col, dict, values, max, k).len() <= rows_before(f.row_groups@, k),
        rows_having(c, f, file, col, dict, values, max, k).contains(row) == (exists|j: int|
            0 <= j < values.len() && rows_having(
                c,
                f,
                file,
                col,
                dict,
                seq![#[trigger] values[j]],
                max,
                k,
            ).contains(row)),
        forall|j: int|
            0 <= j < values.len() ==> rows_having(
                c,
                f,
                file,
                col,
                dict,
                seq![#[trigger] values[j]],
                max,
                k,
            ).len() <= rows_before(f.row_groups@, k),
    decreases k,
{
    if k > 0 {
        group_bounds(f, k - 1);
        having_is_union(c, f, file, col, dict, values, max, k - 1, row);
        let meta = f.row_groups@[k - 1];
        let q = quick_column(f, file, col, k - 1)->0;
        let del = deletions(meta, q);
        let base = rows_before(f.row_groups@, k - 1);
        let rows = meta.row_count as int;
        let b = having(c, dict, q, del, values);
        let acc = rows_having(c, f, file, col, dict, values, max, k - 1);
        select_holds(b, rows, base, acc, max, row);
        assert forall|j: int| 0 <= j < values.len() implies {
            let one = rows_having(c, f, file, col, dict, seq![#[trigger] values[j]], max, k);
            let before = rows_having(c, f, file, col, dict, seq![values[j]], max, k - 1);
            &&& one.len() <= rows_before(f.row_groups@, k)
            &&& one.contains(row) == (before.contains(row) || (base <= row < base + rows && having(
                c,
                dict,
                q,
                del,
                seq![values[j]],
            )(row - base)))
        } by {
            select_holds(
                having(c, dict, q, del, seq![values[j]]),
                rows,
                base,
                rows_having(c, f, file, col, dict, seq![values[j]], max, k - 1),
                max,
                row,
            );
        }
        if base <= row < base + rows {
            let r = row - base;
            if b(r) {
                let s = string_of(c, dict, q, r)->0;
                let j = choose|j: int| 0 <= j < values.len() && values[j] == s;
                assert(seq![values[j]][0] == s);
                assert(having(c, dict, q, del, seq![values[j]])(r));
            }
            assert forall|j: int|
                0 <= j < values.len() && having(c, dict, q, del, seq![#[trigger] values[j]])(
                    r,
                ) implies b(r) by {
                assert(values.contains(values[j]));
            }
        }
    }
}

/// Sorting keeps the strings, once each.
pub(crate) proof fn ascending_strings_facts(s: Seq<Seq<u8>>)
    ensures
        crate::value_laws::strictly_ascending(ascending_strings(s)),
        forall|y: Seq<u8>| #[trigger] ascending_strings(s).contains(y) == s.contains(y),
        s.len() > 0 ==> ascending_strings(s).len() > 0,
{
    assert forall|y: Seq<u8>| #[trigger] ascending_strings(s).contains(y) == s.contains(y) by {
        law_collected_once(s, y);
    }
    law_collected_once(s, s[0]);
    if s.len() > 0 {
        assert(s.contains(s[0]));
    }
}

/// The last of some ascending strings is not before any of them.
proof fn last_is_greatest(s: Seq<Seq<u8>>, y: Seq<u8>)
    requires
        crate::value_laws::strictly_ascending(s),
        s.contains(y),
    ensures
        y == s.last() || lex_less(y, s.last()),
{
    let k = choose|k: int| 0 <= k < s.len() && s[k] == y;
    if k < s.len() - 1 {
        assert(lex_less(s[k], s[s.len() - 1]));
    }
}

/// Strictly ascending strings are known by what they hold.
proof fn ascending_strings_unique(a: Seq<Seq<u8>>, b: Seq<Seq<u8>>)
    requires
        crate::value_laws::strictly_ascending(a),
        crate::value_laws::strictly_ascending(b),
        forall|y: Seq<u8>| #[trigger] a.contains(y) == b.contains(y),
    ensures
        a == b,
    decreases a.len(),
{
    if a.len() == 0 {
        if b.len() > 0 {
            assert(b.contains(b[0]));
            assert(a.contains(b[0]));
        }
        assert(a =~= b);
    } else {
        assert(a.contains(a[0]));
        assert(b.contains(a[0]));
        let x = a.last();
        let y = b.last();
        assert(a[a.len() - 1] == x);
        assert(b[b.len() - 1] == y);
        assert(a.contains(x));
        assert(b.contains(y));
        assert(a.contains(y));
        last_is_greatest(a, y);
        last_is_greatest(b, x);
        assert(x.take(0) =~= y.take(0));
        lex_total(x, y, 0);
        let c = a.drop_last();
        let d = b.drop_last();
        assert forall|z: Seq<u8>| #[trigger] c.contains(z) == d.contains(z) by {
            if c.contains(z) {
                let k = choose|k: int| 0 <= k < c.len() && c[k] == z;
                assert(a[k] == z);
                assert(lex_less(a[k], a[a.len() - 1]));
                lex_total(z, z, 0);
                assert(a.contains(z));
                let m = choose|m: int| 0 <= m < b.len() && b[m] == z;
                assert(d[m] == z);
            }
            if d.contains(z) {
                let k = choose|k: int| 0 <= k < d.len() && d[k] == z;
                assert(b[k] == z);
                assert(lex_less(b[k], b[b.len() - 1]));
                lex_total(z, z, 0);
                assert(b.contains(z));
                assert(a.contains(z));
                let m = choose|m: int| 0 <= m < a.len() && a[m] == z;
                assert(c[m] == z);
            }
        }
        assert forall|i: int, j: int| 0 <= i < j < c.len() implies lex_less(
            #[trigger] c[i],
            #[trigger] c[j],
        ) by {
            assert(lex_less(a[i], a[j]));
        }
        assert forall|i: int, j: int| 0 <= i < j < d.len() implies lex_less(
            #[trigger] d[i],
            #[trigger] d[j],
        ) by {
            assert(lex_less(b[i], b[j]));
        }
        ascending_strings_unique(c, d);
        assert(a =~= c.push(x));
        assert(b =~= d.push(y));
    }
}

/// Whether all rows lie below a bound.
pub open spec fn all_below(v: Seq<usize>, n: int) -> bool {
    forall|k: int| 0 <= k < v.len() ==> #[trigger] v[k] < n
}

proof fn select_below(hit: spec_fn(int) -> bool, n: int, base: int, acc: Seq<usize>, max: int, m: int)
    requires
        0 <= base,
        n <= m,
        base + m <= usize::MAX,
        all_below(acc, base + m),
    ensures
        all_below(select(hit, n, base, acc, max), base + m),
    decreases n,
{
    if n > 0 {
        select_below(hit, n - 1, base, acc, max, m);
    }
}

proof fn select_checked_below(
    hit: spec_fn(int) -> Option<bool>,
    n: int,
    base: int,
    acc: Seq<usize>,
    max: int,
    m: int,
)
    requires
        0 <= base,
        n <= m,
        base + m <= usize::MAX,
        all_below(acc, base + m),
    ensures
        select_checked(hit, n, base, acc, max) matches Some(v) ==> all_below(v, base + m),
    decreases n,
{
    if n > 0 {
        select_checked_below(hit, n - 1, base, acc, max, m);
    }
}

proof fn sift_below(
    pick: spec_fn(int) -> Option<int>,
    n: int,
    base: int,
    acc: Seq<usize>,
    max: int,
    m: int,
)
    requires
        0 <= base,
        base + m <= usize::MAX,
        all_below(acc, base + m),
        forall|p: int| #[trigger] pick(p) matches Some(row) ==> 0 <= row < m,
    ensures
        all_below(sift(pick, n, base, acc, max), base + m),
    decreases n,
{
    if n > 0 {
        sift_below(pick, n - 1, base, acc, max, m);
        assert(pick(n - 1) matches Some(row) ==> 0 <= row < m);
    }
}

impl TextQuerySeq {
    proof fn dictionary_below<C: ColumnCodec>(
        self,
        c: C,
        encoding: u8,
        data: Seq<u8>,
        rows: int,
        del: Option<Seq<u8>>,
        base: int,
        acc: Seq<usize>,
    )
        requires
            0 <= base,
            0 <= rows,
            base + rows <= usize::MAX,
            all_below(acc, base + rows),
        ensures
            self.dictionary(c, encoding, data, rows, del, base, acc) matches Ok(v) ==> all_below(
                v,
                base + rows,
            ),
    {
        if let Some(d) = c.dictionary(encoding == COL_ENCODING_COMPACT_DICTIONARY, data) {
            if let Some(k) = d.find(self.target) {
                select_below(
                    equal_index(d, k, del),
                    min2(d.indices.len() as int, rows),
                    base,
                    acc,
                    self.max,
                    rows,
                );
            }
        }
    }

    proof fn group_below<C: ColumnCodec>(
        self,
        c: C,
        f: V4Footer,
        file: Seq<u8>,
        i: int,
        acc: Seq<usize>,
    )
        requires
            f.wf(),
            0 <= i < f.row_groups@.len(),
            all_below(acc, rows_before(f.row_groups@, i)),
        ensures
            self.group(c, f, file, i, acc) matches Ok(v) ==> all_below(
                v,
                rows_before(f.row_groups@, i + 1),
            ),
            all_below(self.quick(c, f, file, i, acc), rows_before(f.row_groups@, i + 1)),
    {
        group_bounds(f, i);
        let meta = f.row_groups@[i];
        let rows = meta.row_count as int;
        let bm = bitmap_len(rows);
        let base = rows_before(f.row_groups@, i);
        let kind = f.schema.kind(self.col);
        assert(all_below(acc, base + rows));
        if let Some(q) = quick_column(f, file, self.col, i) {
            self.dictionary_below(c, q.encoding, q.data, rows, deletions(meta, q), base, acc);
        }
        if let Ok(g) = group_of(c, meta, file) {
            if let Some(w) = window(g.body, id_section(rows, g.ids), bm) {
                let del = if meta.deletion_count > 0 {
                    Some(w)
                } else {
                    None
                };
                if let Some(o) = f.rcix(i, self.col) {
                    if let Some(nulls) = window(g.body, o, bm) {
                        let col = tail(g.body, o + bm);
                        self.direct_below(c, kind, rows, del, nulls, col, base, acc);
                    }
                }
                if let Ok(Some(p)) = walk(
                    c,
                    f.schema,
                    g.version >= 1,
                    g.body,
                    bm,
                    0,
                    id_section(rows, g.ids) + bm,
                    self.col,
                ) {
                    let col = tail(g.body, p + bm);
                    self.reached_below(c, kind, g.version, rows, del, col, base, acc);
                }
            }
        }
    }

    proof fn direct_below<C: ColumnCodec>(
        self,
        c: C,
        kind: ColumnType,
        rows: int,
        del: Option<Seq<u8>>,
        nulls: Seq<u8>,
        col: Seq<u8>,
        base: int,
        acc: Seq<usize>,
    )
        requires
            0 <= base,
            0 <= rows,
            base + rows <= usize::MAX,
            all_below(acc, base + rows),
        ensures
            self.direct(c, kind, rows, del, nulls, col, base, acc) matches Ok(v) ==> all_below(
                v,
                base + rows,
            ),
    {
        let data = tail(col, 1);
        self.dictionary_below(c, col[0], data, rows, del, base, acc);
        if let Some(t) = plain_text(data) {
            sift_below(
                rows_by_position(t, self.target, min2(t.count, rows), del, nulls),
                positions(t.raw()),
                base,
                acc,
                self.max,
                rows,
            );
        }
        if let Some((ColumnSeq::String { offsets, data: bytes }, _)) = c.decoded(true, col, kind) {
            let n = if offsets.len() > 0 {
                offsets.len() - 1
            } else {
                0
            };
            select_checked_below(
                equal_decoded(offsets, bytes, self.target, del, nulls),
                min2(n, rows),
                base,
                acc,
                self.max,
                rows,
            );
        }
    }

    proof fn reached_below<C: ColumnCodec>(
        self,
        c: C,
        kind: ColumnType,
        version: u8,
        rows: int,
        del: Option<Seq<u8>>,
        col: Seq<u8>,
        base: int,
        acc: Seq<usize>,
    )
        requires
            0 <= base,
            0 <= rows,
            base + rows <= usize::MAX,
            all_below(acc, base + rows),
        ensures
            self.reached(c, kind, version, rows, del, col, base, acc) matches Ok(v) ==> all_below(
                v,
                base + rows,
            ),
    {
        let data = if tag_len(version) <= col.len() {
            tail(col, tag_len(version))
        } else {
            Seq::empty()
        };
        self.dictionary_below(c, encoding_of(version, col), data, rows, del, base, acc);
        if let Some(t) = plain_text(data) {
            select_checked_below(
                equal_plain(t, self.target, del),
                min2(t.count, rows),
                base,
                acc,
                self.max,
                rows,
            );
        }
    }

    /// The rows of a scan for a string are rows of the store.
    pub proof fn law_rows_of_store<C: ColumnCodec>(self, c: C, f: V4Footer, file: Seq<u8>, k: int)
        requires
            f.wf(),
            0 <= k <= f.row_groups@.len(),
        ensures
            self.scan(c, f, file, k) matches Ok(v) ==> all_below(v, rows_before(f.row_groups@, k)),
            all_below(self.quick_scan(c, f, file, k), rows_before(f.row_groups@, k)),
        decreases k,
    {
        if k > 0 {
            self.law_rows_of_store(c, f, file, k - 1);
            if let Ok(acc) = self.scan(c, f, file, k - 1) {
                self.group_below(c, f, file, k - 1, acc);
            }
            self.group_below(c, f, file, k - 1, self.quick_scan(c, f, file, k - 1));
        }
    }
}

/// Numbers in strictly ascending order are at least as large as their places.
pub(crate) proof fn ascending_places(v: Seq<usize>, k: int)
    requires
        strictly_ascending(v),
        0 <= k < v.len(),
    ensures
        v[k] >= k,
    decreases k,
{
    if k > 0 {
        ascending_places(v, k - 1);
        assert(v[k - 1] < v[k]);
    }
}

/// Whether the answer of a scan holds a row.
pub open spec fn gives(r: Result<Option<Seq<usize>>, ScanError>, row: usize) -> bool {
    r matches Ok(Some(v)) && v.contains(row)
}

impl<C: ColumnCodec> OnDemandStorage<C> {
    /// Whether a column of strings is stored as it should be in every row group, with its place on
    /// record.
    pub open spec fn sound_texts(self, col_name: Seq<char>) -> bool {
        &&& self.footer matches Some(f) && f.schema.index_of(col_name) matches Some(col)
            && self.file matches Some(file) && is_text(f.schema.kind(col as int))
            && forall|i: int|
            0 <= i < f.row_groups@.len() ==> #[trigger] sound_group(
                self.codec,
                f,
                file@,
                col as int,
                f.schema.kind(col as int) is StringDict,
                i,
            )
    }

    /// Whether every row group can be scanned for a column in place.
    pub open spec fn quick_texts(self, col_name: Seq<char>) -> bool {
        self.footer matches Some(f) && f.schema.index_of(col_name) matches Some(col)
            && self.file matches Some(file) && all_quick(f, file@, col as int)
    }

    /// The rows that have one of some strings, up to a limit.
    pub open spec fn texts_found(
        self,
        col_name: Seq<char>,
        values: Seq<Seq<u8>>,
        max: int,
    ) -> Seq<usize> {
        let f = self.footer->0;
        let col = f.schema.index_of(col_name)->0 as int;
        rows_having(
            self.codec,
            f,
            self.file->0@,
            col,
            f.schema.kind(col) is StringDict,
            values,
            max,
            f.row_groups@.len() as int,
        )
    }

    /// A scan for a string gives the rows that have it.
    pub proof fn law_filter_finds_rows(
        self,
        col_name: Seq<char>,
        target: Seq<u8>,
        limit: Option<usize>,
    )
        requires
            self.sound_texts(col_name),
        ensures
            self.string_filter(col_name, target, limit) == Ok::<Option<Seq<usize>>, ScanError>(
                Some(self.texts_found(col_name, seq![target], max_rows(limit))),
            ),
    {
        let f = self.footer->0;
        let col = f.schema.index_of(col_name)->0 as int;
        let q = TextQuerySeq { col, target, max: max_rows(limit) };
        q.law_scan_finds_rows(self.codec, f, self.file->0@, f.row_groups@.len() as int);
    }

    /// A scan for a set of strings gives the rows that have one of them.
    pub proof fn law_in_finds_rows(
        self,
        col_name: Seq<char>,
        values: Seq<Seq<u8>>,
        limit: Option<usize>,
    )
        requires
            self.sound_texts(col_name),
            values.len() > 0,
        ensures
            self.string_in(col_name, values, limit) == Ok::<Option<Seq<usize>>, ScanError>(
                Some(self.texts_found(col_name, values, max_rows(limit))),
            ),
    {
        let f = self.footer->0;
        let file = self.file->0@;
        let col = f.schema.index_of(col_name)->0 as int;
        let n = f.row_groups@.len() as int;
        if values.len() == 1 {
            assert(values =~= seq![values[0]]);
            self.law_filter_finds_rows(col_name, values[0], limit);
        } else {
            assert forall|i: int| 0 <= i < n implies #[trigger] quick_group(f, file, col, i) by {
                assert(sound_group(
                    self.codec,
                    f,
                    file,
                    col,
                    f.schema.kind(col) is StringDict,
                    i,
                ));
            }
            let q = SetQuerySeq {
                col,
                dict: f.schema.kind(col) is StringDict,
                test: StrTestSeq::OneOf(values),
                max: max_rows(limit),
            };
            q.law_scan_finds_rows(self.codec, f, file, n);
        }
    }

    pub(crate) proof fn each_gives(self, col_name: Seq<char>, values: Seq<Seq<u8>>, k: int, row: usize)
        requires
            0 <= k <= values.len(),
            self.each_filtered(col_name, values, k) is Ok,
        ensures
            self.each_filtered(col_name, values, k)->Ok_0.contains(row) == (exists|j: int|
                0 <= j < k && gives(self.string_filter(col_name, #[trigger] values[j], None), row)),
        decreases k,
    {
        if k > 0 {
            self.each_gives(col_name, values, k - 1, row);
            let acc = self.each_filtered(col_name, values, k - 1)->Ok_0;
            let all = self.each_filtered(col_name, values, k)->Ok_0;
            let last = self.string_filter(col_name, values[k - 1], None);
            if let Ok(Some(rows)) = last {
                assert(all == acc + rows);
                if acc.contains(row) {
                    let m = choose|m: int| 0 <= m < acc.len() && acc[m] == row;
                    assert(all[m] == row);
                }
                if rows.contains(row) {
                    let m = choose|m: int| 0 <= m < rows.len() && rows[m] == row;
                    assert(all[acc.len() + m] == row);
                }
                if all.contains(row) {
                    let m = choose|m: int| 0 <= m < all.len() && all[m] == row;
                    if m < acc.len() {
                        assert(acc[m] == row);
                    } else {
                        assert(rows[m - acc.len()] == row);
                    }
                }
            }
            if gives(last, row) {
                assert(gives(self.string_filter(col_name, values[k - 1], None), row));
            }
            if exists|j: int|
                0 <= j < k && gives(
                    self.string_filter(col_name, #[trigger] values[j], None),
                    row,
                ) {
                let j = choose|j: int|
                    0 <= j < k && gives(
                        self.string_filter(col_name, #[trigger] values[j], None),
                        row,
                    );
                if j < k - 1 {
                    assert(gives(self.string_filter(col_name, values[j], None), row));
                }
            }
        }
    }

    pub(crate) proof fn each_below(self, col_name: Seq<char>, values: Seq<Seq<u8>>, k: int)
        requires
            self.wf(),
            self.footer is Some,
            0 <= k <= values.len(),
        ensures
            self.each_filtered(col_name, values, k) matches Ok(v) ==> all_below(
                v,
                self.footer->0.total_rows(),
            ),
        decreases k,
    {
        if k > 0 {
            self.each_below(col_name, values, k - 1);
            let f = self.footer->0;
            if let Some(col) = f.schema.index_of(col_name) {
                if let Some(file) = self.file {
                    let q = TextQuerySeq {
                        col: col as int,
                        target: values[k - 1],
                        max: usize::MAX as int,
                    };
                    q.law_rows_of_store(self.codec, f, file@, f.row_groups@.len() as int);
                }
            }
        }
    }

    /// A scan for a set of strings gives a row where a scan for one of the strings gives it. Where the
    /// row groups are scanned in place, the column is stored as it should be.
    pub proof fn law_in_is_union(self, col_name: Seq<char>, values: Seq<Seq<u8>>, row: usize)
        requires
            self.wf(),
            self.string_in(col_name, values, None) is Ok,
            values.len() > 1 && self.quick_texts(col_name) ==> self.sound_texts(col_name),
        ensures
            gives(self.string_in(col_name, values, None), row) == (exists|j: int|
                0 <= j < values.len() && gives(
                    self.string_filter(col_name, #[trigger] values[j], None),
                    row,
                )),
    {
        if values.len() == 1 {
            assert(gives(self.string_filter(col_name, values[0], None), row) == gives(
                self.string_in(col_name, values, None),
                row,
            ));
        } else if values.len() > 1 && self.sound_texts(col_name) && self.quick_texts(col_name) {
            let f = self.footer->0;
            let col = f.schema.index_of(col_name)->0 as int;
            self.law_in_finds_rows(col_name, values, None);
            assert forall|j: int| 0 <= j < values.len() implies self.string_filter(
                col_name,
                #[trigger] values[j],
                None,
            ) == Ok::<Option<Seq<usize>>, ScanError>(
                Some(self.texts_found(col_name, seq![values[j]], max_rows(None))),
            ) by {
                self.law_filter_finds_rows(col_name, values[j], None);
            }
            having_is_union(
                self.codec,
                f,
                self.file->0@,
                col,
                f.schema.kind(col) is StringDict,
                values,
                usize::MAX as int,
                f.row_groups@.len() as int,
                row,
            );
        } else if values.len() > 1 {
            if let Ok(Some(_)) = self.string_in(col_name, values, None) {
                let n = values.len() as int;
                self.each_gives(col_name, values, n, row);
                let rows = self.each_filtered(col_name, values, n)->Ok_0;
                ascending_rows_facts(rows);
                let all = ascending_rows(rows);
                self.each_below(col_name, values, n);
                if all.len() > 0 {
                    ascending_places(all, all.len() - 1);
                    assert(all.contains(all[all.len() - 1]));
                    assert(rows.contains(all[all.len() - 1]));
                }
                assert(all.take(all.len() as int) =~= all);
            }
        }
    }

    /// A scan for a set of strings with a limit gives the first rows of the scan without it.
    pub proof fn law_in_limit(self, col_name: Seq<char>, values: Seq<Seq<u8>>, limit: usize)
        requires
            self.sound_texts(col_name),
        ensures
            ({
                let all = self.string_in(col_name, values, None);
                &&& all matches Ok(Some(v)) && self.string_in(col_name, values, Some(limit)) == Ok::<
                    Option<Seq<usize>>,
                    ScanError,
                >(Some(v.take(min2(v.len() as int, limit as int))))
            }),
    {
        if values.len() > 0 {
            let f = self.footer->0;
            let col = f.schema.index_of(col_name)->0 as int;
            self.law_in_finds_rows(col_name, values, None);
            self.law_in_finds_rows(col_name, values, Some(limit));
            limit_is_prefix(
                self.codec,
                f,
                self.file->0@,
                col,
                f.schema.kind(col) is StringDict,
                values,
                usize::MAX as int,
                limit as int,
                f.row_groups@.len() as int,
            );
        } else {
            assert(Seq::<usize>::empty().take(0) =~= Seq::empty());
        }
    }

    /// Counting the rows that have one of some strings counts the rows that the scan for them gives,
    /// however often and in which order the strings are named.
    pub proof fn law_in_count(self, col_name: Seq<char>, values: Seq<Seq<u8>>)
        requires
            self.wf(),
            self.sound_texts(col_name),
        ensures
            self.string_in(col_name, values, None) matches Ok(Some(v)) && self.string_in_count(
                col_name,
                values,
            ) == Ok::<Option<int>, ScanError>(Some(v.len() as int)),
    {
        if values.len() > 0 {
            let f = self.footer->0;
            let file = self.file->0@;
            let col = f.schema.index_of(col_name)->0 as int;
            let dict = f.schema.kind(col) is StringDict;
            let n = f.row_groups@.len() as int;
            let set = ascending_strings(values);
            ascending_strings_facts(values);
            self.law_in_finds_rows(col_name, values, None);
            self.law_in_finds_rows(col_name, set, None);
            same_strings_same_rows(
                self.codec,
                f,
                file,
                col,
                dict,
                set,
                values,
                usize::MAX as int,
                n,
            );
            assert forall|one: bool, i: int|
                0 <= i < n implies #[trigger] countable_group(self.codec, f, file, col, one, i) by {
                assert(sound_group(self.codec, f, file, col, dict, i));
            }
            if set.len() == 1 {
                reveal_with_fuel(OnDemandStorage::each_filtered, 2);
                assert(set =~= seq![set[0]]);
                self.law_filter_finds_rows(col_name, set[0], None);
                let one = self.string_filter(col_name, set[0], None)->Ok_0->0;
                assert(Seq::<usize>::empty() + one =~= one);
            } else {
                assert(set.len() > 1) by {
                    assert(values.contains(values[0]));
                    assert(set.contains(values[0]));
                }
                assert forall|i: int| 0 <= i < n implies #[trigger] quick_group(
                    f,
                    file,
                    col,
                    i,
                ) by {
                    assert(sound_group(self.codec, f, file, col, dict, i));
                }
                let q = SetQuerySeq {
                    col,
                    dict,
                    test: StrTestSeq::OneOf(set),
                    max: usize::MAX as int,
                };
                q.law_set_count_is_length(self.codec, f, file, n);
                q.law_scan_finds_rows(self.codec, f, file, n);
            }
        }
    }

    /// Only which strings are named matters to a count, not how often or in which order.
    pub proof fn law_count_of_set(self, col_name: Seq<char>, a: Seq<Seq<u8>>, b: Seq<Seq<u8>>)
        requires
            forall|s: Seq<u8>| #[trigger] a.contains(s) == b.contains(s),
        ensures
            self.string_in_count(col_name, a) == self.string_in_count(col_name, b),
    {
        ascending_strings_facts(a);
        ascending_strings_facts(b);
        ascending_strings_unique(ascending_strings(a), ascending_strings(b));
        if a.len() > 0 {
            assert(a.contains(a[0]));
        }
        if b.len() > 0 {
            assert(b.contains(b[0]));
            assert(a.contains(b[0]));
        }
    }
}

} // verus!
