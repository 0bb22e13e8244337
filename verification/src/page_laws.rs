//! The answer of a group query is a page of its groups in order.

use vstd::prelude::*;

use crate::double::{is_nan, F64};
use crate::groupby::{
    arranged, graded, grouped, page, result_place, tallies_view, with_values, GroupTally, TallySeq,
};
use crate::model::ScanError;
use crate::row_laws::comes_first;
use crate::value_laws::{law_groups_in_order, result_place_facts};

verus! {

/// How many entries of `n` a page has that leaves out `offset` of them and has room for `limit`.
pub open spec fn page_len(n: int, offset: int, limit: int) -> int {
    if offset >= n {
        0
    } else if n - offset < limit {
        n - offset
    } else {
        limit
    }
}

/// Whether some groups are each group with the value that it gets, in the order of their values: none
/// lost, none doubled. What is no number compares with nothing.
pub open spec fn in_order_of_values<F: Fn(&GroupTally) -> F64>(
    finish: F,
    ts: Seq<TallySeq>,
    groups: Seq<GroupTally>,
    values: Seq<F64>,
    descending: bool,
    ordered: Seq<(Seq<char>, F64)>,
) -> bool {
    &&& tallies_view(groups) == ts
    &&& values.len() == ts.len()
    &&& forall|i: int| 0 <= i < ts.len() ==> finish.ensures((&groups[i],), #[trigger] values[i])
    &&& ordered.len() == ts.len()
    &&& ordered.to_multiset() == Seq::new(
        ts.len(),
        |i: int| (ts[i].key, values[i]),
    ).to_multiset()
    &&& (forall|i: int| 0 <= i < values.len() ==> !is_nan((#[trigger] values[i]).bits)) ==> forall|
        i: int,
        j: int,
    |
        0 <= i < j < ordered.len() ==> !comes_first(
            descending,
            (#[trigger] ordered[j]).1,
            (#[trigger] ordered[i]).1,
        )
}

/// Whether an answer is a page of some groups: none where the page is empty, else entry by entry what
/// stands behind those left out.
pub open spec fn is_page(
    ordered: Seq<(Seq<char>, F64)>,
    offset: int,
    limit: int,
    found: Option<Seq<(Seq<char>, F64)>>,
) -> bool {
    match found {
        None => page_len(ordered.len() as int, offset, limit) == 0,
        Some(v) => {
            &&& v.len() > 0
            &&& v.len() == page_len(ordered.len() as int, offset, limit)
            &&& forall|j: int| 0 <= j < v.len() ==> #[trigger] v[j] == ordered[offset + j]
        },
    }
}

proof fn arranged_keeps(s: Seq<(Seq<char>, F64)>, descending: bool)
    ensures
        arranged(s, descending).to_multiset() == s.to_multiset(),
        arranged(s, descending).len() == s.len(),
    decreases s.len(),
{
    broadcast use vstd::seq_lib::group_to_multiset_ensures;

    if s.len() > 0 {
        let d = s.drop_last();
        arranged_keeps(d, descending);
        let before = arranged(d, descending);
        let p = result_place(before, s.last().1, descending, 0);
        result_place_facts(before, s.last().1, descending, 0);
        assert(s =~= d.push(s.last()));
        vstd::seq_lib::to_multiset_insert(before, p, s.last());
    }
}

/// The answer of a group query has as many entries as the page has room for and groups are left,
/// entry `j` being group `offset + j` of the groups in the order of their values. There is no answer
/// where the page is empty.
pub proof fn law_answer_is_page<F: Fn(&GroupTally) -> F64>(
    finish: F,
    ts: Seq<TallySeq>,
    descending: bool,
    offset: int,
    limit: int,
    got: Result<Option<Seq<(Seq<char>, F64)>>, ScanError>,
)
    requires
        0 <= offset,
        0 <= limit,
        grouped(
            finish,
            Ok::<Option<Seq<TallySeq>>, ScanError>(Some(ts)),
            descending,
            offset,
            limit,
            got,
        ),
    ensures
        got matches Ok(found) && exists|
            groups: Seq<GroupTally>,
            values: Seq<F64>,
            ordered: Seq<(Seq<char>, F64)>,
        |
            #[trigger] in_order_of_values(finish, ts, groups, values, descending, ordered)
                && is_page(ordered, offset, limit, found),
{
    let found = got->Ok_0;
    let (groups, values) = choose|groups: Seq<GroupTally>, values: Seq<F64>|
        tallies_view(groups) == ts && #[trigger] graded(finish, groups, values) && {
            let rest = page(arranged(with_values(ts, values), descending), offset, limit);
            match found {
                None => rest.len() == 0,
                Some(v) => rest.len() > 0 && v == rest,
            }
        };
    let pairs = with_values(ts, values);
    let ordered = arranged(pairs, descending);
    arranged_keeps(pairs, descending);
    assert(pairs =~= Seq::new(ts.len(), |i: int| (ts[i].key, values[i])));
    if forall|i: int| 0 <= i < values.len() ==> !is_nan((#[trigger] values[i]).bits) {
        assert forall|i: int| 0 <= i < pairs.len() implies !is_nan((#[trigger] pairs[i]).1.bits) by {
            assert(!is_nan(values[i].bits));
        }
        law_groups_in_order(pairs, descending);
    }
    assert(in_order_of_values(finish, ts, groups, values, descending, ordered));
    assert(is_page(ordered, offset, limit, found));
}

/// Where nothing is left out and there is room for all groups, each group is in the answer.
pub proof fn law_every_group_is_there<F: Fn(&GroupTally) -> F64>(
    finish: F,
    ts: Seq<TallySeq>,
    descending: bool,
    limit: int,
    got: Result<Option<Seq<(Seq<char>, F64)>>, ScanError>,
    g: int,
)
    requires
        ts.len() <= limit,
        0 <= g < ts.len(),
        grouped(
            finish,
            Ok::<Option<Seq<TallySeq>>, ScanError>(Some(ts)),
            descending,
            0,
            limit,
            got,
        ),
    ensures
        got matches Ok(Some(v)) && v.len() == ts.len() && exists|j: int|
            0 <= j < v.len() && (#[trigger] v[j]).0 == ts[g].key,
{
    broadcast use vstd::seq_lib::group_to_multiset_ensures;

    law_answer_is_page(finish, ts, descending, 0, limit, got);
    let found = got->Ok_0;
    let (groups, values, ordered) = choose|
        groups: Seq<GroupTally>,
        values: Seq<F64>,
        ordered: Seq<(Seq<char>, F64)>,
    |
        #[trigger] in_order_of_values(finish, ts, groups, values, descending, ordered) && is_page(
            ordered,
            0,
            limit,
            found,
        );
    let pairs = Seq::new(ts.len(), |i: int| (ts[i].key, values[i]));
    assert(pairs[g] == (ts[g].key, values[g]));
    assert(pairs.contains(pairs[g]));
    assert(pairs.to_multiset().count(pairs[g]) > 0);
    assert(ordered.contains(pairs[g]));
    let j = choose|j: int| 0 <= j < ordered.len() && ordered[j] == pairs[g];
    let v = found->0;
    assert(v[j] == ordered[j]);
}

} // verus!
