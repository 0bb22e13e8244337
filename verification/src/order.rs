//! Orders: byte strings in lexicographic order, and sequences brought into ascending order.

use vstd::prelude::*;

use crate::outside::sort_rows;
use crate::text::strings_view;

verus! {

/// Whether `a` comes before `b`, compared from position `i` on.
pub open spec fn lex_from(a: Seq<u8>, b: Seq<u8>, i: int) -> bool
    decreases a.len() - i,
{
    if i >= b.len() {
        false
    } else if i >= a.len() {
        true
    } else if a[i] != b[i] {
        a[i] < b[i]
    } else {
        lex_from(a, b, i + 1)
    }
}

/// Whether `a` comes before `b` in lexicographic order.
pub open spec fn lex_less(a: Seq<u8>, b: Seq<u8>) -> bool {
    lex_from(a, b, 0)
}

/// Tests whether `a` comes before `b` in lexicographic order.
pub fn is_lex_less(a: &[u8], b: &[u8]) -> (r: bool)
    ensures
        r == lex_less(a@, b@),
{
    let mut i: usize = 0;
    loop
        invariant
            i <= a.len(),
            lex_less(a@, b@) == lex_from(a@, b@, i as int),
        decreases a.len() - i,
    {
        if i >= b.len() {
            return false;
        }
        if i >= a.len() {
            return true;
        }
        if a[i] != b[i] {
            return a[i] < b[i];
        }
        i = i + 1;
    }
}

/// Of two different strings one comes first.
pub proof fn lex_total(a: Seq<u8>, b: Seq<u8>, i: int)
    requires
        0 <= i <= a.len(),
        i <= b.len(),
        a.take(i) == b.take(i),
    ensures
        a == b || lex_from(a, b, i) || lex_from(b, a, i),
        !(lex_from(a, b, i) && lex_from(b, a, i)),
        a == b ==> !lex_from(a, b, i),
    decreases a.len() - i,
{
    if i < a.len() && i < b.len() {
        if a[i] == b[i] {
            assert(a.take(i + 1) =~= a.take(i).push(a[i]));
            assert(b.take(i + 1) =~= b.take(i).push(b[i]));
            lex_total(a, b, i + 1);
        }
    } else if i >= a.len() && i >= b.len() {
        assert(a =~= a.take(i));
        assert(b =~= b.take(i));
    }
}

/// The order is transitive.
pub proof fn lex_transitive(a: Seq<u8>, b: Seq<u8>, c: Seq<u8>, i: int)
    requires
        0 <= i,
        lex_from(a, b, i),
        lex_from(b, c, i),
    ensures
        lex_from(a, c, i),
    decreases a.len() - i,
{
    if i < a.len() && i < b.len() && i < c.len() && a[i] == b[i] && b[i] == c[i] {
        lex_transitive(a, b, c, i + 1);
    }
}

/// `s` with a string put in its place; a string that is there stays there once.
pub open spec fn insert_string(s: Seq<Seq<u8>>, x: Seq<u8>) -> Seq<Seq<u8>>
    decreases s.len(),
{
    if s.len() == 0 {
        seq![x]
    } else if s.last() == x {
        s
    } else if lex_less(s.last(), x) {
        s.push(x)
    } else {
        insert_string(s.drop_last(), x).push(s.last())
    }
}

/// Strings in ascending order, each once.
pub open spec fn ascending_strings(s: Seq<Seq<u8>>) -> Seq<Seq<u8>>
    decreases s.len(),
{
    if s.len() == 0 {
        Seq::empty()
    } else {
        insert_string(ascending_strings(s.drop_last()), s.last())
    }
}

/// Puts a string in its place.
pub fn put_string(v: &mut Vec<Vec<u8>>, x: Vec<u8>)
    ensures
        strings_view(final(v)@) == insert_string(strings_view(old(v)@), x@),
{
    let mut at: usize = v.len();
    let ghost s = strings_view(v@);
    proof {
        assert(s.take(s.len() as int) =~= s);
        assert(insert_string(s, x@) + s.subrange(s.len() as int, s.len() as int) =~= insert_string(
            s,
            x@,
        ));
    }
    while at > 0
        invariant_except_break
            insert_string(s, x@) == insert_string(s.take(at as int), x@) + s.subrange(
                at as int,
                s.len() as int,
            ),
        invariant
            at <= v@.len(),
            s == strings_view(v@),
            *v == *old(v),
        ensures
            insert_string(s, x@) == s.take(at as int).push(x@) + s.subrange(
                at as int,
                s.len() as int,
            ),
        decreases at,
    {
        let ghost head = s.take(at as int);
        let ghost rest = s.subrange(at as int, s.len() as int);
        assert(head.last() == v@[at - 1]@);
        if crate::model::bytes_eq(v[at - 1].as_slice(), x.as_slice()) {
            assert(head + rest =~= s);
            return ;
        }
        if is_lex_less(v[at - 1].as_slice(), x.as_slice()) {
            break ;
        }
        proof {
            assert(head.drop_last() =~= s.take(at - 1));
            assert((insert_string(head.drop_last(), x@).push(head.last())) + rest =~= insert_string(
                s.take(at - 1),
                x@,
            ) + s.subrange(at - 1, s.len() as int));
        }
        at = at - 1;
        assert(at == 0 ==> insert_string(s.take(0), x@) =~= s.take(0).push(x@));
    }
    assert(s.take(0).push(x@) =~= insert_string(s.take(0), x@));
    let ghost bytes = x@;
    v.insert(at, x);
    assert(strings_view(v@) =~= s.take(at as int).push(bytes) + s.subrange(
        at as int,
        s.len() as int,
    ));
}

/// Brings strings into ascending order, each once.
pub fn sort_strings(v: &Vec<Vec<u8>>) -> (r: Vec<Vec<u8>>)
    ensures
        strings_view(r@) == ascending_strings(strings_view(v@)),
{
    let mut out: Vec<Vec<u8>> = Vec::new();
    let mut i: usize = 0;
    let ghost all = strings_view(v@);
    assert(all.take(0) =~= Seq::empty());
    assert(strings_view(out@) =~= Seq::empty());
    while i < v.len()
        invariant
            i <= v@.len(),
            all == strings_view(v@),
            strings_view(out@) == ascending_strings(all.take(i as int)),
        decreases v@.len() - i,
    {
        assert(all.take(i + 1).drop_last() =~= all.take(i as int));
        put_string(&mut out, vstd::slice::slice_to_vec(v[i].as_slice()));
        i = i + 1;
    }
    assert(all.take(all.len() as int) =~= all);
    out
}

/// Whether numbers ascend strictly.
pub open spec fn strictly_ascending(s: Seq<usize>) -> bool {
    forall|i: int, j: int| 0 <= i < j < s.len() ==> s[i] < s[j]
}

/// `s` with a number put in its place; a number that is there stays there once.
pub open spec fn insert_row(s: Seq<usize>, x: usize) -> Seq<usize>
    decreases s.len(),
{
    if s.len() == 0 {
        seq![x]
    } else if s.last() == x {
        s
    } else if s.last() < x {
        s.push(x)
    } else {
        insert_row(s.drop_last(), x).push(s.last())
    }
}

/// Numbers in ascending order, each once.
pub open spec fn ascending_rows(s: Seq<usize>) -> Seq<usize>
    decreases s.len(),
{
    if s.len() == 0 {
        Seq::empty()
    } else {
        insert_row(ascending_rows(s.drop_last()), s.last())
    }
}

proof fn insert_row_facts(s: Seq<usize>, x: usize)
    requires
        strictly_ascending(s),
    ensures
        strictly_ascending(insert_row(s, x)),
        forall|y: usize| #[trigger] insert_row(s, x).contains(y) == (s.contains(y) || y == x),
        insert_row(s, x).len() > 0,
        insert_row(s, x).last() == (if s.len() > 0 && s.last() > x {
            s.last()
        } else {
            x
        }),
    decreases s.len(),
{
    let r = insert_row(s, x);
    if s.len() == 0 {
        assert(r[0] == x);
    } else if s.last() == x {
        assert(s[s.len() - 1] == x);
    } else if s.last() < x {
        assert forall|y: usize| r.contains(y) == (s.contains(y) || y == x) by {
            if s.contains(y) {
                let k = choose|k: int| 0 <= k < s.len() && s[k] == y;
                assert(r[k] == y);
            }
            assert(r[s.len() as int] == x);
        }
    } else {
        let d = s.drop_last();
        let q = insert_row(d, x);
        insert_row_facts(d, x);
        assert(r == q.push(s.last()));
        assert forall|i: int, j: int| 0 <= i < j < r.len() implies r[i] < r[j] by {
            if j == r.len() - 1 {
                assert(q.contains(q[i]));
                assert(d.contains(q[i]) || q[i] == x);
                if d.contains(q[i]) {
                    let k = choose|k: int| 0 <= k < d.len() && d[k] == q[i];
                    assert(s[k] < s[s.len() - 1]);
                }
            }
        }
        assert forall|y: usize| r.contains(y) == (s.contains(y) || y == x) by {
            if s.contains(y) {
                let k = choose|k: int| 0 <= k < s.len() && s[k] == y;
                if k < d.len() {
                    assert(d[k] == y);
                    assert(d.contains(y));
                    assert(q.contains(y));
                    let m = choose|m: int| 0 <= m < q.len() && q[m] == y;
                    assert(r[m] == y);
                } else {
                    assert(r[r.len() - 1] == y);
                }
            }
            if y == x {
                assert(q.contains(x));
                let m = choose|m: int| 0 <= m < q.len() && q[m] == x;
                assert(r[m] == x);
            }
            if r.contains(y) {
                let m = choose|m: int| 0 <= m < r.len() && r[m] == y;
                if m < q.len() {
                    assert(q.contains(y));
                    if d.contains(y) {
                        let k = choose|k: int| 0 <= k < d.len() && d[k] == y;
                        assert(s[k] == y);
                    }
                } else {
                    assert(s[s.len() - 1] == y);
                }
            }
        }
    }
}

/// Bringing numbers into order keeps exactly the numbers.
pub proof fn ascending_rows_facts(s: Seq<usize>)
    ensures
        strictly_ascending(ascending_rows(s)),
        forall|y: usize| ascending_rows(s).contains(y) == s.contains(y),
    decreases s.len(),
{
    if s.len() > 0 {
        let d = s.drop_last();
        ascending_rows_facts(d);
        insert_row_facts(ascending_rows(d), s.last());
        assert forall|y: usize| ascending_rows(s).contains(y) == s.contains(y) by {
            if s.contains(y) {
                let k = choose|k: int| 0 <= k < s.len() && s[k] == y;
                if k < d.len() {
                    assert(d[k] == y);
                }
            }
            if d.contains(y) {
                let k = choose|k: int| 0 <= k < d.len() && d[k] == y;
                assert(s[k] == y);
            }
            assert(s[s.len() - 1] == s.last());
        }
    }
}

/// Strictly ascending numbers are known by what they hold.
pub proof fn ascending_unique(a: Seq<usize>, b: Seq<usize>)
    requires
        strictly_ascending(a),
        strictly_ascending(b),
        forall|y: usize| a.contains(y) == b.contains(y),
    ensures
        a == b,
    decreases a.len(),
{
    if a.len() == 0 {
        if b.len() > 0 {
            assert(b.contains(b[0]));
            assert(a.contains(b[0]));
        }
    } else if b.len() == 0 {
        assert(a.contains(a[0]));
        assert(b.contains(a[0]));
    } else {
        let x = a.last();
        let y = b.last();
        assert(x == y) by {
            assert(a.contains(x));
            assert(b.contains(x));
            assert(b.contains(y));
            assert(a.contains(y));
            let i = choose|i: int| 0 <= i < b.len() && b[i] == x;
            let j = choose|j: int| 0 <= j < a.len() && a[j] == y;
            if i < b.len() - 1 {
                assert(b[i] < b[b.len() - 1]);
            }
            if j < a.len() - 1 {
                assert(a[j] < a[a.len() - 1]);
            }
        }
        let p = a.drop_last();
        let q = b.drop_last();
        assert forall|z: usize| p.contains(z) == q.contains(z) by {
            if p.contains(z) {
                let i = choose|i: int| 0 <= i < p.len() && p[i] == z;
                assert(a[i] < a[a.len() - 1]);
                assert(a.contains(z));
                assert(b.contains(z));
                let j = choose|j: int| 0 <= j < b.len() && b[j] == z;
                assert(q[j] == z);
            }
            if q.contains(z) {
                let j = choose|j: int| 0 <= j < q.len() && q[j] == z;
                assert(b[j] < b[b.len() - 1]);
                assert(b.contains(z));
                assert(a.contains(z));
                let i = choose|i: int| 0 <= i < a.len() && a[i] == z;
                assert(p[i] == z);
            }
        }
        ascending_unique(p, q);
        assert(a =~= p.push(x));
        assert(b =~= q.push(y));
    }
}

/// Brings numbers into ascending order, each once.
pub fn sort_distinct(mut rows: Vec<usize>) -> (r: Vec<usize>)
    ensures
        r@ == ascending_rows(rows@),
{
    let ghost given = rows@;
    sort_rows(&mut rows);
    let mut out: Vec<usize> = Vec::new();
    let mut i: usize = 0;
    while i < rows.len()
        invariant
            i <= rows@.len(),
            forall|i: int, j: int| 0 <= i <= j < rows@.len() ==> rows@[i] <= rows@[j],
            strictly_ascending(out@),
            forall|y: usize| out@.contains(y) == rows@.take(i as int).contains(y),
            i > 0 ==> out@.len() > 0 && out@.last() == rows@[i - 1],
        decreases rows@.len() - i,
    {
        let x: usize = rows[i];
        let ghost before = out@;
        let ghost was = rows@.take(i as int);
        let ghost now = rows@.take(i + 1);
        assert(now =~= was.push(x));
        if out.len() == 0 || out[out.len() - 1] != x {
            proof {
                assert forall|k: int| 0 <= k < before.len() implies before[k] < x by {
                    assert(before.contains(before[k]));
                    assert(was.contains(before[k]));
                    assert(rows@[i - 1] <= rows@[i as int]);
                    if k < before.len() - 1 {
                        assert(before[k] < before[before.len() - 1]);
                    }
                }
            }
            out.push(x);
        }
        proof {
            assert forall|y: usize| out@.contains(y) == now.contains(y) by {
                if was.contains(y) {
                    let k = choose|k: int| 0 <= k < was.len() && was[k] == y;
                    assert(now[k] == y);
                    assert(before.contains(y));
                    let m = choose|m: int| 0 <= m < before.len() && before[m] == y;
                    assert(out@[m] == y);
                }
                if now.contains(y) {
                    let k = choose|k: int| 0 <= k < now.len() && now[k] == y;
                    if k < was.len() {
                        assert(was[k] == y);
                    } else {
                        assert(out@[out@.len() - 1] == y);
                    }
                }
                if out@.contains(y) {
                    let m = choose|m: int| 0 <= m < out@.len() && out@[m] == y;
                    if m < before.len() {
                        assert(before[m] == y);
                        assert(before.contains(y));
                    } else {
                        assert(now[i as int] == y);
                    }
                }
            }
        }
        i = i + 1;
    }
    proof {
        assert(rows@.take(rows@.len() as int) =~= rows@);
        ascending_rows_facts(given);
        assert forall|y: usize| out@.contains(y) == ascending_rows(given).contains(y) by {
            broadcast use vstd::seq_lib::group_to_multiset_ensures;

            assert(rows@.contains(y) == (rows@.to_multiset().count(y) > 0));
            assert(given.contains(y) == (given.to_multiset().count(y) > 0));
        }
        ascending_unique(out@, ascending_rows(given));
    }
    out
}

} // verus!
