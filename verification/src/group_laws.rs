//! The groups of a query are made of the live rows that match: each has its rows, in their order.

use vstd::prelude::*;

use crate::bytes::bitmap_len;
use crate::codec::ColumnCodec;
use crate::dict_text::{dict_text, strict_text, DictTextSeq};
use crate::dict_values::text_of;
use crate::double::F64;
use crate::group::{id_section, stored_group, tail, window};
use crate::groupby::{
    agg_numbers, credit, credit_group, credit_rows, credit_slots, filter_of, find_key, find_key_facts,
    law_credit, part_of, plain_column, slot_count, slot_part, sound, AggSeq, FilterSeq, GroupQuery,
    KeySeq, PlainColumn, TallySeq,
};
use crate::model::{is_float, ScanError, V4Footer};
use crate::numeric::{min2, row_open};
use crate::storage::OnDemandStorage;

verus! {

/// The rows that the groups credit to a key.
pub open spec fn count_of(ts: Seq<TallySeq>, key: Seq<char>) -> int {
    let at = find_key(ts, key, 0);
    if at < ts.len() {
        ts[at].count
    } else {
        0
    }
}

/// Numbers in parts, one after the other.
pub open spec fn flat(parts: Seq<Seq<F64>>) -> Seq<F64>
    decreases parts.len(),
{
    if parts.len() == 0 {
        Seq::empty()
    } else {
        flat(parts.drop_last()) + parts.last()
    }
}

/// The numbers that the groups credit to a key.
pub open spec fn addends_of(ts: Seq<TallySeq>, key: Seq<char>) -> Seq<F64> {
    let at = find_key(ts, key, 0);
    if at < ts.len() {
        flat(ts[at].parts)
    } else {
        Seq::empty()
    }
}

/// The string in row `r` of a column.
pub open spec fn string_in(dict: bool, data: Seq<u8>, r: int) -> Option<Seq<u8>> {
    if dict {
        match dict_text(data) {
            Ok(Some(d)) if r < d.rows && 1 <= d.index(r) <= d.size => d.value(d.index(r) - 1),
            _ => None,
        }
    } else {
        match strict_text(data) {
            Ok(Some(t)) if r < t.count && t.start(r) <= t.end(r) <= t.rest.len() => Some(
                t.rest.subrange(t.start(r), t.end(r)),
            ),
            _ => None,
        }
    }
}

/// Whether row `r` of a dictionary column is there without a string.
pub open spec fn blank_in(data: Seq<u8>, r: int) -> bool {
    dict_text(data) matches Ok(Some(d)) && r < d.rows && d.index(r) == 0
}

/// The key in row `r` of a column: the text of its string. A row without a string has an empty key in
/// a dictionary, unless the filter stands in a dictionary too.
pub open spec fn key_in(q: GroupQuery, data: Seq<u8>, r: int) -> Option<Seq<char>> {
    match string_in(q.key_dict, data, r) {
        Some(s) => if q.key_dict || vstd::utf8::valid_utf8(s) {
            Some(text_of(s))
        } else {
            None
        },
        None => if q.key_dict && !q.filter_dict && blank_in(data, r) {
            Some(Seq::empty())
        } else {
            None
        },
    }
}

/// The columns of a row group: the filter, the keys, the numbers and the deletion bitmap that counts.
pub struct GroupColumns {
    pub filter: Seq<u8>,
    pub keys: Seq<u8>,
    pub agg: Option<AggSeq>,
    pub del: Option<Seq<u8>>,
}

/// The columns of row group `i`, where they are there.
pub open spec fn group_columns(q: GroupQuery, f: V4Footer, file: Seq<u8>, i: int) -> Option<
    GroupColumns,
> {
    let meta = f.row_groups@[i];
    let rows = meta.row_count as int;
    let bm = bitmap_len(rows);
    match stored_group(meta, file) {
        Err(_) => None,
        Ok(s) => {
            let body = tail(s, 32);
            match (
                plain_column(body, f.rcix(i, q.filter as int)->0, bm),
                plain_column(body, f.rcix(i, q.key as int)->0, bm),
            ) {
                (PlainColumn::Data(filter), PlainColumn::Data(keys)) => Some(
                    GroupColumns {
                        filter,
                        keys,
                        agg: match q.agg {
                            None => None,
                            Some(a) => match agg_numbers(
                                body,
                                f.rcix(i, a as int)->0 + bm,
                                rows,
                                q.agg_float,
                            ) {
                                Ok(agg) => agg,
                                Err(_) => None,
                            },
                        },
                        del: if meta.deletion_count > 0 {
                            window(body, id_section(rows, s[30]), bm)
                        } else {
                            None
                        },
                    },
                ),
                _ => None,
            }
        },
    }
}

/// The key of a row that is live and whose filter column holds `target`.
pub open spec fn matched_key(q: GroupQuery, cs: GroupColumns, target: Seq<u8>, r: int) -> Option<
    Seq<char>,
> {
    if row_open(cs.del, None, r) && string_in(q.filter_dict, cs.filter, r) == Some(target) {
        key_in(q, cs.keys, r)
    } else {
        None
    }
}

/// The key of row `r` of row group `i`, where the row is live and its filter column holds `target`.
pub open spec fn row_key(
    q: GroupQuery,
    f: V4Footer,
    file: Seq<u8>,
    target: Seq<u8>,
    i: int,
    r: int,
) -> Option<Seq<char>> {
    match group_columns(q, f, file, i) {
        None => None,
        Some(cs) => matched_key(q, cs, target, r),
    }
}

/// The number of row `r` of row group `i` that is aggregated, if there is one.
pub open spec fn row_addend(q: GroupQuery, f: V4Footer, file: Seq<u8>, i: int, r: int) -> Seq<F64> {
    match group_columns(q, f, file, i) {
        None => Seq::empty(),
        Some(cs) => part_of(cs.agg, r),
    }
}

/// The rows with a key among the first `m` of some columns, in order.
pub open spec fn matched_rows(
    q: GroupQuery,
    cs: GroupColumns,
    target: Seq<u8>,
    key: Seq<char>,
    m: int,
) -> Seq<int>
    decreases m,
{
    if m <= 0 {
        Seq::empty()
    } else {
        let before = matched_rows(q, cs, target, key, m - 1);
        if matched_key(q, cs, target, m - 1) == Some(key) {
            before.push(m - 1)
        } else {
            before
        }
    }
}

/// The numbers of some rows, in order.
pub open spec fn numbers_at(agg: Option<AggSeq>, rows: Seq<int>) -> Seq<F64>
    decreases rows.len(),
{
    if rows.len() == 0 {
        Seq::empty()
    } else {
        numbers_at(agg, rows.drop_last()) + part_of(agg, rows.last())
    }
}

/// The rows with a key in the first `k` row groups, in order: the row group and the row in it of each
/// row that is live and whose filter column holds `target`.
pub open spec fn key_rows(
    q: GroupQuery,
    f: V4Footer,
    file: Seq<u8>,
    target: Seq<u8>,
    key: Seq<char>,
    k: int,
) -> Seq<(int, int)>
    decreases k,
{
    if k <= 0 {
        Seq::empty()
    } else {
        let before = key_rows(q, f, file, target, key, k - 1);
        match group_columns(q, f, file, k - 1) {
            None => before,
            Some(cs) => {
                let here = matched_rows(
                    q,
                    cs,
                    target,
                    key,
                    f.row_groups@[k - 1].row_count as int,
                );
                before + Seq::new(here.len(), |j: int| (k - 1, here[j]))
            },
        }
    }
}

/// The numbers of some rows of the store, in order.
pub open spec fn addends_at(q: GroupQuery, f: V4Footer, file: Seq<u8>, rows: Seq<(int, int)>) -> Seq<
    F64,
>
    decreases rows.len(),
{
    if rows.len() == 0 {
        Seq::empty()
    } else {
        addends_at(q, f, file, rows.drop_last()) + row_addend(
            q,
            f,
            file,
            rows.last().0,
            rows.last().1,
        )
    }
}

/// Whether no two values of a dictionary are the same.
pub open spec fn values_differ(d: DictTextSeq) -> bool {
    forall|a: int, b: int|
        0 <= a < b < d.size && (#[trigger] d.value(a)) is Some ==> d.value(a) != #[trigger] d.value(b)
}

/// Whether no two values of a dictionary have the same text.
pub open spec fn texts_differ(d: DictTextSeq) -> bool {
    forall|a: int, b: int|
        0 <= a < b < d.size && (#[trigger] d.value(a)) is Some && (#[trigger] d.value(b)) is Some
            ==> text_of(d.value(a)->0) != text_of(d.value(b)->0)
}

/// Whether the dictionaries among the columns of a row group name each value once.
pub open spec fn sound_dictionaries(q: GroupQuery, cs: GroupColumns) -> bool {
    &&& q.filter_dict ==> (dict_text(cs.filter) matches Ok(Some(d)) ==> values_differ(d))
    &&& q.filter_dict && q.key_dict ==> (dict_text(cs.keys) matches Ok(Some(d)) ==> texts_differ(d))
}

proof fn same_places(a: Seq<TallySeq>, b: Seq<TallySeq>, key: Seq<char>, i: int)
    requires
        0 <= i <= a.len(),
        a.len() == b.len(),
        forall|j: int| 0 <= j < a.len() ==> (#[trigger] a[j]).key == b[j].key,
    ensures
        find_key(a, key, i) == find_key(b, key, i),
    decreases a.len() - i,
{
    if i < a.len() {
        assert(a[i].key == b[i].key);
        if a[i].key != key {
            same_places(a, b, key, i + 1);
        }
    }
}

proof fn pushed_places(ts: Seq<TallySeq>, t: TallySeq, key: Seq<char>, i: int)
    requires
        0 <= i <= ts.len(),
    ensures
        find_key(ts, key, i) < ts.len() ==> find_key(ts.push(t), key, i) == find_key(ts, key, i),
        find_key(ts, key, i) == ts.len() ==> find_key(ts.push(t), key, i) == (if t.key == key {
            ts.len() as int
        } else {
            (ts.len() + 1) as int
        }),
    decreases ts.len() - i,
{
    find_key_facts(ts, key, i);
    if i < ts.len() {
        assert(ts.push(t)[i] == ts[i]);
        if ts[i].key != key {
            pushed_places(ts, t, key, i + 1);
        }
    } else {
        assert(find_key(ts.push(t), key, i + 1) == ts.len() + 1);
    }
}

/// A credit adds to its key and to no other.
pub proof fn law_credit_adds(
    ts: Seq<TallySeq>,
    key: Seq<char>,
    count: int,
    part: Seq<F64>,
    other: Seq<char>,
)
    ensures
        count_of(credit(ts, key, count, part), other) == count_of(ts, other) + (if other == key {
            count
        } else {
            0
        }),
        addends_of(credit(ts, key, count, part), other) == addends_of(ts, other) + (if other
            == key {
            part
        } else {
            Seq::empty()
        }),
{
    let now = credit(ts, key, count, part);
    let at = find_key(ts, key, 0);
    find_key_facts(ts, key, 0);
    find_key_facts(ts, other, 0);
    if at < ts.len() {
        assert forall|j: int| 0 <= j < ts.len() implies (#[trigger] ts[j]).key == now[j].key by {}
        same_places(ts, now, other, 0);
        let parts = ts[at].parts.push(part);
        assert(parts.drop_last() =~= ts[at].parts);
    } else {
        let t = TallySeq { key, count, parts: seq![part] };
        pushed_places(ts, t, other, 0);
        assert(seq![part].drop_last() =~= Seq::<Seq<F64>>::empty());
        assert(flat(seq![part]) =~= part) by {
            reveal_with_fuel(flat, 2);
        }
    }
    assert(addends_of(now, other) =~= addends_of(ts, other) + (if other == key {
        part
    } else {
        Seq::empty()
    }));
}

/// What looking for a value in a dictionary finds.
proof fn find_facts(d: DictTextSeq, target: Seq<u8>, k: int)
    requires
        0 <= k,
    ensures
        d.find(target, k) matches Ok(Some(m)) ==> k <= m < d.size && d.value(m) == Some(target),
        d.find(target, k) matches Ok(None) ==> forall|m: int|
            k <= m < d.size ==> #[trigger] d.value(m) != Some(target),
    decreases d.size - k,
{
    if k < d.size && d.start(k) <= d.end(k) {
        find_facts(d, target, k + 1);
        if d.find(target, k) matches Ok(None) {
            assert forall|m: int| k <= m < d.size implies #[trigger] d.value(m) != Some(target) by {
                if m == k {
                    if d.value(k) == Some(target) {
                        assert(d.raw.subrange(d.start(k), d.end(k)).len() == d.end(k) - d.start(k));
                    }
                }
            }
        }
    }
}

/// A filter hits the rows that hold the target.
#[verifier::spinoff_prover]
proof fn hit_is_string(q: GroupQuery, cs: GroupColumns, target: Seq<u8>, fl: FilterSeq, r: int)
    requires
        sound_dictionaries(q, cs),
        filter_of(q.filter_dict, cs.filter, target) == Ok::<
            Option<FilterSeq>,
            ScanError,
        >(Some(fl)),
        0 <= r < fl.rows(),
    ensures
        (fl.hit(r) == Some(true)) == (string_in(q.filter_dict, cs.filter, r) == Some(target)),
{
    match fl {
        FilterSeq::Dict(d, k) => {
            find_facts(d, target, 0);
            let m = d.index(r) - 1;
            assert(d.value(k - 1) == Some(target));
            if 0 <= m < d.size && d.value(m) == Some(target) {
                if m < k - 1 {
                    assert(d.value(m) != d.value(k - 1));
                } else if m > k - 1 {
                    assert(d.value(k - 1) != d.value(m));
                }
            }
        },
        FilterSeq::Text(t, s) => {
            if t.start(r) <= t.end(r) <= t.rest.len() {
                assert(t.rest.subrange(t.start(r), t.end(r)).len() == t.end(r) - t.start(r));
            }
        },
    }
}

/// Where no filter comes about, or beyond its rows, no row holds the target.
proof fn no_string(q: GroupQuery, cs: GroupColumns, target: Seq<u8>, r: int)
    requires
        match filter_of(q.filter_dict, cs.filter, target) {
            Err(_) => false,
            Ok(None) => true,
            Ok(Some(fl)) => r >= fl.rows(),
        },
    ensures
        string_in(q.filter_dict, cs.filter, r) != Some(target),
{
    if q.filter_dict {
        if let Ok(Some(d)) = dict_text(cs.filter) {
            if cs.filter.len() >= 16 && crate::bytes::u64_le(cs.filter, 8) == 0 {
                assert(d.size == 0);
            } else {
                find_facts(d, target, 0);
            }
        }
    }
}

/// Rows from `n` on without the key add nothing.
proof fn none_behind(
    q: GroupQuery,
    cs: GroupColumns,
    target: Seq<u8>,
    key: Seq<char>,
    n: int,
    m: int,
)
    requires
        n <= m,
        0 <= n,
        forall|r: int| n <= r < m ==> #[trigger] matched_key(q, cs, target, r) != Some(key),
    ensures
        matched_rows(q, cs, target, key, m) == matched_rows(q, cs, target, key, n),
    decreases m,
{
    if n < m {
        assert(matched_key(q, cs, target, m - 1) != Some(key));
        none_behind(q, cs, target, key, n, m - 1);
    }
}

/// Whether groups have grown by some rows of a row group with a key.
pub open spec fn grown(
    ts: Seq<TallySeq>,
    now: Seq<TallySeq>,
    agg: Option<AggSeq>,
    rows: Seq<int>,
    key: Seq<char>,
) -> bool {
    &&& count_of(now, key) == count_of(ts, key) + rows.len()
    &&& addends_of(now, key) == addends_of(ts, key) + numbers_at(agg, rows)
}

proof fn grown_by_none(ts: Seq<TallySeq>, agg: Option<AggSeq>, key: Seq<char>)
    ensures
        grown(ts, ts, agg, Seq::empty(), key),
{
    assert(addends_of(ts, key) + numbers_at(agg, Seq::empty()) =~= addends_of(ts, key));
}

/// Crediting rows one by one credits each key with its rows.
#[verifier::spinoff_prover]
proof fn rows_credited(
    q: GroupQuery,
    cs: GroupColumns,
    target: Seq<u8>,
    fl: FilterSeq,
    keys: KeySeq,
    ts: Seq<TallySeq>,
    key: Seq<char>,
    n: int,
)
    requires
        sound(ts),
        sound_dictionaries(q, cs),
        filter_of(q.filter_dict, cs.filter, target) == Ok::<
            Option<FilterSeq>,
            ScanError,
        >(Some(fl)),
        !(q.filter_dict && q.key_dict),
        match keys {
            KeySeq::Dict(d) => q.key_dict && dict_text(cs.keys) == Ok::<
                Option<DictTextSeq>,
                ScanError,
            >(Some(d)),
            KeySeq::Text(t) => !q.key_dict && strict_text(cs.keys) == Ok::<
                Option<crate::text::TextSeq>,
                ScanError,
            >(Some(t)),
        },
        n <= fl.rows(),
        credit_rows(ts, fl, keys, cs.agg, cs.del, n) is Some,
    ensures
        sound(credit_rows(ts, fl, keys, cs.agg, cs.del, n)->0),
        grown(
            ts,
            credit_rows(ts, fl, keys, cs.agg, cs.del, n)->0,
            cs.agg,
            matched_rows(q, cs, target, key, n),
            key,
        ),
    decreases n,
{
    if n > 0 {
        let r = n - 1;
        rows_credited(q, cs, target, fl, keys, ts, key, r);
        hit_is_string(q, cs, target, fl, r);
        let before = credit_rows(ts, fl, keys, cs.agg, cs.del, r)->0;
        let now = credit_rows(ts, fl, keys, cs.agg, cs.del, n)->0;
        let rows = matched_rows(q, cs, target, key, n);
        let some = matched_rows(q, cs, target, key, r);
        if row_open(cs.del, None, r) && fl.hit(r) == Some(true) {
            assert(keys.key(r) == Some(key_in(q, cs.keys, r)));
            if let Some(found) = key_in(q, cs.keys, r) {
                let part = part_of(cs.agg, r);
                law_credit(before, found, 1, part);
                law_credit_adds(before, found, 1, part, key);
                if found == key {
                    assert(rows.drop_last() =~= some);
                    assert(addends_of(ts, key) + numbers_at(cs.agg, rows) =~= addends_of(ts, key)
                        + numbers_at(cs.agg, some) + part);
                } else {
                    assert(addends_of(now, key) =~= addends_of(before, key));
                }
            }
        }
    } else {
        grown_by_none(ts, cs.agg, key);
    }
}

/// The rows of a key index are those with its text.
#[verifier::spinoff_prover]
proof fn slot_is_key(
    q: GroupQuery,
    cs: GroupColumns,
    target: Seq<u8>,
    fl: FilterSeq,
    d: DictTextSeq,
    k: int,
    n: int,
)
    requires
        sound_dictionaries(q, cs),
        q.filter_dict && q.key_dict,
        filter_of(true, cs.filter, target) == Ok::<Option<FilterSeq>, ScanError>(
            Some(fl),
        ),
        dict_text(cs.keys) == Ok::<Option<DictTextSeq>, ScanError>(Some(d)),
        1 <= k <= d.size,
        d.value(k - 1) is Some,
        n <= fl.rows(),
        n <= d.rows,
    ensures
        slot_count(fl, d, cs.del, k, n) == matched_rows(
            q,
            cs,
            target,
            text_of(d.value(k - 1)->0),
            n,
        ).len(),
        slot_part(fl, d, cs.agg, cs.del, k, n) == numbers_at(
            cs.agg,
            matched_rows(q, cs, target, text_of(d.value(k - 1)->0), n),
        ),
    decreases n,
{
    if n > 0 {
        let r = n - 1;
        let key = text_of(d.value(k - 1)->0);
        slot_is_key(q, cs, target, fl, d, k, r);
        hit_is_string(q, cs, target, fl, r);
        let m = d.index(r) - 1;
        if 0 <= m < d.size && d.value(m) is Some && m != k - 1 {
            if m < k - 1 {
                assert(text_of(d.value(m)->0) != text_of(d.value(k - 1)->0));
            } else {
                assert(text_of(d.value(k - 1)->0) != text_of(d.value(m)->0));
            }
        }
        let rows = matched_rows(q, cs, target, key, n);
        let some = matched_rows(q, cs, target, key, r);
        assert((matched_key(q, cs, target, r) == Some(key)) == (row_open(cs.del, None, r) && fl.hit(
            r,
        ) == Some(true) && d.index(r) == k));
        if matched_key(q, cs, target, r) == Some(key) {
            assert(rows.drop_last() =~= some);
        }
    }
}

/// The key index of a text, where the dictionary has it among its first `k` values.
pub open spec fn has_text(d: DictTextSeq, key: Seq<char>, k: int) -> bool {
    exists|m: int| 0 <= m < k && (#[trigger] d.value(m)) is Some && text_of(d.value(m)->0) == key
}

/// Crediting key indices credits each key with its rows.
#[verifier::spinoff_prover]
proof fn slots_credited(
    q: GroupQuery,
    cs: GroupColumns,
    target: Seq<u8>,
    fl: FilterSeq,
    d: DictTextSeq,
    ts: Seq<TallySeq>,
    key: Seq<char>,
    n: int,
    k: int,
)
    requires
        sound(ts),
        sound_dictionaries(q, cs),
        q.filter_dict && q.key_dict,
        filter_of(true, cs.filter, target) == Ok::<Option<FilterSeq>, ScanError>(
            Some(fl),
        ),
        dict_text(cs.keys) == Ok::<Option<DictTextSeq>, ScanError>(Some(d)),
        0 <= k <= d.size,
        n <= fl.rows(),
        n <= d.rows,
        credit_slots(ts, fl, d, cs.agg, cs.del, n, k) is Some,
    ensures
        sound(credit_slots(ts, fl, d, cs.agg, cs.del, n, k)->0),
        grown(
            ts,
            credit_slots(ts, fl, d, cs.agg, cs.del, n, k)->0,
            cs.agg,
            if has_text(d, key, k) {
                matched_rows(q, cs, target, key, n)
            } else {
                Seq::empty()
            },
            key,
        ),
    decreases k,
{
    grown_by_none(ts, cs.agg, key);
    if k > 0 {
        slots_credited(q, cs, target, fl, d, ts, key, n, k - 1);
        let before = credit_slots(ts, fl, d, cs.agg, cs.del, n, k - 1)->0;
        let now = credit_slots(ts, fl, d, cs.agg, cs.del, n, k)->0;
        let count = slot_count(fl, d, cs.del, k, n);
        let part = slot_part(fl, d, cs.agg, cs.del, k, n);
        let rows = matched_rows(q, cs, target, key, n);
        if d.value(k - 1) is Some {
            let found = text_of(d.value(k - 1)->0);
            slot_is_key(q, cs, target, fl, d, k, n);
            if found == key {
                assert(has_text(d, key, k));
                if has_text(d, key, k - 1) {
                    let m = choose|m: int|
                        0 <= m < k - 1 && (#[trigger] d.value(m)) is Some && text_of(
                            d.value(m)->0,
                        ) == key;
                    assert(text_of(d.value(m)->0) != text_of(d.value(k - 1)->0));
                }
            }
            if count != 0 {
                law_credit(before, found, count, part);
                law_credit_adds(before, found, count, part, key);
                if found == key {
                    assert(addends_of(ts, key) + Seq::<F64>::empty() =~= addends_of(ts, key));
                    assert(numbers_at(cs.agg, Seq::empty()) =~= Seq::<F64>::empty());
                } else {
                    assert(addends_of(now, key) =~= addends_of(before, key));
                }
            } else if found == key {
                assert(rows =~= Seq::empty());
            }
        } else {
            assert(count == 0);
        }
        if has_text(d, key, k) && !has_text(d, key, k - 1) {
            let m = choose|m: int|
                0 <= m < k && (#[trigger] d.value(m)) is Some && text_of(d.value(m)->0) == key;
            assert(m == k - 1);
        }
        if has_text(d, key, k - 1) {
            let m = choose|m: int|
                0 <= m < k - 1 && (#[trigger] d.value(m)) is Some && text_of(d.value(m)->0) == key;
            assert(has_text(d, key, k));
        }
    }
}

/// A row group credits each key with its rows.
#[verifier::spinoff_prover]
proof fn group_credited(
    q: GroupQuery,
    cs: GroupColumns,
    target: Seq<u8>,
    ts: Seq<TallySeq>,
    key: Seq<char>,
    rows: int,
)
    requires
        0 <= rows,
        sound(ts),
        sound_dictionaries(q, cs),
        credit_group(ts, q, cs.filter, cs.keys, cs.agg, cs.del, target, rows) is Ok,
    ensures
        sound(credit_group(ts, q, cs.filter, cs.keys, cs.agg, cs.del, target, rows)->Ok_0),
        grown(
            ts,
            credit_group(ts, q, cs.filter, cs.keys, cs.agg, cs.del, target, rows)->Ok_0,
            cs.agg,
            matched_rows(q, cs, target, key, rows),
            key,
        ),
{
    grown_by_none(ts, cs.agg, key);
    let fl = filter_of(q.filter_dict, cs.filter, target);
    let now = credit_group(ts, q, cs.filter, cs.keys, cs.agg, cs.del, target, rows)->Ok_0;
    let n = if let Ok(Some(x)) = fl {
        if q.filter_dict && q.key_dict {
            match dict_text(cs.keys) {
                Ok(Some(d)) => min2(min2(x.rows(), rows), d.rows),
                _ => 0,
            }
        } else {
            match (q.key_dict, dict_text(cs.keys), strict_text(cs.keys)) {
                (true, Ok(Some(_)), _) => min2(x.rows(), rows),
                (false, _, Ok(Some(_))) => min2(x.rows(), rows),
                _ => 0,
            }
        }
    } else {
        0
    };
    assert(0 <= n <= rows) by {
        if let Ok(Some(x)) = fl {
            assert(x.rows() >= 0);
        }
    }
    assert forall|r: int| n <= r < rows implies #[trigger] matched_key(q, cs, target, r) != Some(
        key,
    ) by {
        if fl is Ok && (fl->Ok_0 is None || r >= fl->Ok_0->0.rows()) {
            no_string(q, cs, target, r);
        }
    }
    none_behind(q, cs, target, key, n, rows);
    if let Ok(Some(x)) = fl {
        if q.filter_dict && q.key_dict {
            if let Ok(Some(d)) = dict_text(cs.keys) {
                slots_credited(q, cs, target, x, d, ts, key, n, d.size);
                if !has_text(d, key, d.size) {
                    assert forall|r: int| 0 <= r < n implies #[trigger] matched_key(
                        q,
                        cs,
                        target,
                        r,
                    ) != Some(key) by {
                        if matched_key(q, cs, target, r) == Some(key) {
                            assert(d.value(d.index(r) - 1) is Some);
                        }
                    }
                    none_behind(q, cs, target, key, 0, n);
                }
            }
        } else if q.key_dict {
            if let Ok(Some(d)) = dict_text(cs.keys) {
                rows_credited(q, cs, target, x, KeySeq::Dict(d), ts, key, n);
            }
        } else if let Ok(Some(t)) = strict_text(cs.keys) {
            rows_credited(q, cs, target, x, KeySeq::Text(t), ts, key, n);
        }
    }
}

proof fn addends_joined(
    q: GroupQuery,
    f: V4Footer,
    file: Seq<u8>,
    i: int,
    before: Seq<(int, int)>,
    here: Seq<int>,
)
    requires
        group_columns(q, f, file, i) is Some,
    ensures
        addends_at(q, f, file, before + Seq::new(here.len(), |j: int| (i, here[j]))) == addends_at(
            q,
            f,
            file,
            before,
        ) + numbers_at(group_columns(q, f, file, i)->0.agg, here),
    decreases here.len(),
{
    let agg = group_columns(q, f, file, i)->0.agg;
    let more = Seq::new(here.len(), |j: int| (i, here[j]));
    let all = before + more;
    if here.len() > 0 {
        let d = here.drop_last();
        addends_joined(q, f, file, i, before, d);
        let some = Seq::new(d.len(), |j: int| (i, d[j]));
        assert(all.drop_last() =~= before + some);
        assert(all.last() == (i, here.last()));
        assert(addends_at(q, f, file, before) + numbers_at(agg, here) =~= addends_at(
            q,
            f,
            file,
            before,
        ) + numbers_at(agg, d) + part_of(agg, here.last()));
    } else {
        assert(all =~= before);
        assert(addends_at(q, f, file, before) + numbers_at(agg, here) =~= addends_at(
            q,
            f,
            file,
            before,
        ));
    }
}

/// Whether the dictionaries of row group `i`, if it has rows, name each value once.
pub open spec fn sound_group_columns(q: GroupQuery, f: V4Footer, file: Seq<u8>, i: int) -> bool {
    f.row_groups@[i].row_count > 0 ==> (group_columns(q, f, file, i) matches Some(cs)
        ==> sound_dictionaries(q, cs))
}

impl GroupQuery {
    /// A row group with rows is credited column by column; one without them, or without its columns,
    /// changes nothing.
    #[verifier::spinoff_prover]
    proof fn group_step(
        self,
        f: V4Footer,
        file: Seq<u8>,
        target: Seq<u8>,
        i: int,
        ts: Seq<TallySeq>,
    )
        requires
            self.group(f, file, target, i, ts) matches Ok(Some(_)),
        ensures
            ({
                let now = self.group(f, file, target, i, ts)->Ok_0->0;
                let rows = f.row_groups@[i].row_count as int;
                match group_columns(self, f, file, i) {
                    Some(cs) if rows > 0 => credit_group(
                        ts,
                        self,
                        cs.filter,
                        cs.keys,
                        cs.agg,
                        cs.del,
                        target,
                        rows,
                    ) == Ok::<Seq<TallySeq>, ScanError>(now),
                    _ => now == ts,
                }
            }),
    {
    }

    /// Over the whole table, the count of a key is the number of live rows with that key whose filter
    /// column holds the value, and its numbers are theirs, in the order of the rows. No key has two
    /// groups, and no group is without rows. The dictionaries name each value once.
    #[verifier::spinoff_prover]
    #[verifier::rlimit(50)]
    pub proof fn law_groups(
        self,
        f: V4Footer,
        file: Seq<u8>,
        target: Seq<u8>,
        key: Seq<char>,
        k: int,
    )
        requires
            0 <= k <= f.row_groups@.len(),
            self.tallies(f, file, target, k) matches Ok(Some(_)),
            forall|i: int| 0 <= i < k ==> #[trigger] sound_group_columns(self, f, file, i),
        ensures
            ({
                let ts = self.tallies(f, file, target, k)->Ok_0->0;
                let rows = key_rows(self, f, file, target, key, k);
                &&& sound(ts)
                &&& count_of(ts, key) == rows.len()
                &&& addends_of(ts, key) == addends_at(self, f, file, rows)
            }),
        decreases k,
    {
        if k > 0 {
            let i = k - 1;
            self.law_groups(f, file, target, key, i);
            assert(sound_group_columns(self, f, file, i));
            let before = self.tallies(f, file, target, i)->Ok_0->0;
            let now = self.tallies(f, file, target, k)->Ok_0->0;
            let rows = f.row_groups@[i].row_count as int;
            let some = key_rows(self, f, file, target, key, i);
            self.group_step(f, file, target, i, before);
            if let Some(cs) = group_columns(self, f, file, i) {
                let here = matched_rows(self, cs, target, key, rows);
                addends_joined(self, f, file, i, some, here);
                if rows > 0 {
                    group_credited(self, cs, target, before, key, rows);
                } else {
                    grown_by_none(before, cs.agg, key);
                }
            }
        }
    }

    /// A row is among those of a key where it is live, its filter column holds the value and it has
    /// the key; and it is there once, behind the rows before it.
    #[verifier::spinoff_prover]
    pub proof fn law_key_rows(
        self,
        f: V4Footer,
        file: Seq<u8>,
        target: Seq<u8>,
        key: Seq<char>,
        k: int,
    )
        requires
            0 <= k <= f.row_groups@.len(),
        ensures
            ({
                let rows = key_rows(self, f, file, target, key, k);
                &&& forall|i: int, r: int|
                    #![trigger row_key(self, f, file, target, i, r)]
                    rows.contains((i, r)) == (0 <= i < k && 0 <= r < f.row_groups@[i].row_count
                        && row_key(self, f, file, target, i, r) == Some(key))
                &&& forall|a: int, b: int|
                    0 <= a < b < rows.len() ==> (#[trigger] rows[a]).0 < (#[trigger] rows[b]).0 || (
                    rows[a].0 == rows[b].0 && rows[a].1 < rows[b].1)
            }),
        decreases k,
    {
        if k > 0 {
            let g = k - 1;
            self.law_key_rows(f, file, target, key, g);
            let before = key_rows(self, f, file, target, key, g);
            let rows = key_rows(self, f, file, target, key, k);
            if let Some(cs) = group_columns(self, f, file, g) {
                let n = f.row_groups@[g].row_count as int;
                let here = matched_rows(self, cs, target, key, n);
                matched_facts(self, cs, target, key, n);
                let more = Seq::new(here.len(), |j: int| (g, here[j]));
                assert(rows == before + more);
                assert forall|j: int| 0 <= j < before.len() implies (#[trigger] before[j]).0 < g by {
                    let (i, r) = before[j];
                    assert(before.contains((i, r)));
                    assert(row_key(self, f, file, target, i, r) == Some(key));
                }
                assert forall|i: int, r: int|
                    #![trigger row_key(self, f, file, target, i, r)]
                    rows.contains((i, r)) == (0 <= i < k && 0 <= r < f.row_groups@[i].row_count
                        && row_key(self, f, file, target, i, r) == Some(key)) by {
                    if rows.contains((i, r)) {
                        let j = choose|j: int| 0 <= j < rows.len() && rows[j] == (i, r);
                        if j < before.len() {
                            assert(before[j] == (i, r));
                            assert(before.contains((i, r)));
                        } else {
                            assert(more[j - before.len()] == (i, r));
                            assert(here[j - before.len()] == r);
                            assert(here.contains(r));
                        }
                    }
                    if before.contains((i, r)) {
                        let j = choose|j: int| 0 <= j < before.len() && before[j] == (i, r);
                        assert(rows[j] == (i, r));
                    }
                    if i == g && 0 <= r < n && row_key(self, f, file, target, i, r) == Some(key) {
                        assert(here.contains(r));
                        let j = choose|j: int| 0 <= j < here.len() && here[j] == r;
                        assert(rows[before.len() + j] == (i, r));
                    }
                }
                assert forall|a: int, b: int| 0 <= a < b < rows.len() implies (
                #[trigger] rows[a]).0 < (#[trigger] rows[b]).0 || (rows[a].0 == rows[b].0
                    && rows[a].1 < rows[b].1) by {
                    if b < before.len() {
                        assert(rows[a] == before[a] && rows[b] == before[b]);
                    } else if a < before.len() {
                        assert(rows[a] == before[a]);
                        assert(before[a].0 < g);
                        assert(rows[b] == more[b - before.len()]);
                    } else {
                        assert(rows[a] == more[a - before.len()] && rows[b] == more[b
                            - before.len()]);
                        assert(here[a - before.len()] < here[b - before.len()]);
                    }
                }
            }
        }
    }
}

proof fn matched_facts(
    q: GroupQuery,
    cs: GroupColumns,
    target: Seq<u8>,
    key: Seq<char>,
    m: int,
)
    requires
        0 <= m,
    ensures
        ({
            let rows = matched_rows(q, cs, target, key, m);
            &&& forall|r: int| #[trigger]
                rows.contains(r) == (0 <= r < m && matched_key(q, cs, target, r) == Some(key))
            &&& forall|a: int, b: int|
                0 <= a < b < rows.len() ==> #[trigger] rows[a] < #[trigger] rows[b]
        }),
    decreases m,
{
    if m > 0 {
        matched_facts(q, cs, target, key, m - 1);
        let before = matched_rows(q, cs, target, key, m - 1);
        let rows = matched_rows(q, cs, target, key, m);
        if matched_key(q, cs, target, m - 1) == Some(key) {
            assert forall|r: int| #[trigger] rows.contains(r) == (0 <= r < m && matched_key(
                q,
                cs,
                target,
                r,
            ) == Some(key)) by {
                if before.contains(r) {
                    let j = choose|j: int| 0 <= j < before.len() && before[j] == r;
                    assert(rows[j] == r);
                }
                if rows.contains(r) && r != m - 1 {
                    let j = choose|j: int| 0 <= j < rows.len() && rows[j] == r;
                    assert(before[j] == r);
                    assert(before.contains(r));
                }
                assert(rows[before.len() as int] == m - 1);
            }
            assert forall|a: int, b: int| 0 <= a < b < rows.len() implies #[trigger] rows[a]
                < #[trigger] rows[b] by {
                assert(rows[a] == before[a]);
                assert(before.contains(before[a]));
                if b < before.len() {
                    assert(rows[b] == before[b]);
                }
            }
        }
    }
}

impl<C: ColumnCodec> OnDemandStorage<C> {
    /// The query that groups the rows of the store.
    pub open spec fn group_query(
        self,
        filter_col: Seq<char>,
        group_col: Seq<char>,
        agg_col: Option<Seq<char>>,
    ) -> GroupQuery {
        let f = self.footer->0;
        let filter = f.schema.index_of(filter_col)->0;
        let key = f.schema.index_of(group_col)->0;
        let agg = match agg_col {
            None => None,
            Some(name) => f.schema.index_of(name),
        };
        GroupQuery {
            filter,
            filter_dict: f.schema.kind(filter as int) is StringDict,
            key,
            key_dict: f.schema.kind(key as int) is StringDict,
            agg,
            agg_float: agg is Some && is_float(f.schema.kind(agg->0 as int)),
        }
    }

    /// Grouping the rows whose filter column holds a value: over the whole table, the count of a key
    /// is the number of live rows with that key whose filter column holds the value, and its numbers
    /// are theirs, in the order of the rows. The dictionaries name each value once.
    pub proof fn law_groups_of_table(
        self,
        filter_col: Seq<char>,
        filter_val: Seq<u8>,
        group_col: Seq<char>,
        agg_col: Option<Seq<char>>,
        key: Seq<char>,
    )
        requires
            self.group_tallies(filter_col, filter_val, group_col, agg_col) matches Ok(Some(_)),
            forall|i: int|
                0 <= i < self.footer->0.row_groups@.len() ==> #[trigger] sound_group_columns(
                    self.group_query(filter_col, group_col, agg_col),
                    self.footer->0,
                    self.file->0@,
                    i,
                ),
        ensures
            ({
                let ts = self.group_tallies(filter_col, filter_val, group_col, agg_col)->Ok_0->0;
                let q = self.group_query(filter_col, group_col, agg_col);
                let f = self.footer->0;
                let rows = key_rows(
                    q,
                    f,
                    self.file->0@,
                    filter_val,
                    key,
                    f.row_groups@.len() as int,
                );
                &&& sound(ts)
                &&& count_of(ts, key) == rows.len()
                &&& addends_of(ts, key) == addends_at(q, f, self.file->0@, rows)
            }),
    {
        let f = self.footer->0;
        self.group_query(filter_col, group_col, agg_col).law_groups(
            f,
            self.file->0@,
            filter_val,
            key,
            f.row_groups@.len() as int,
        );
    }
}

} // verus!
