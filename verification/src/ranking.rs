//! Keeping the best few of many candidates.

use vstd::multiset::Multiset;
use vstd::prelude::*;

use crate::double::{is_nan, lt, rank, F64};

verus! {

/// A row that asks for a place: the length of its string, its number, and where it stands.
#[derive(Clone, Copy, Debug, PartialEq, Eq, Structural)]
pub struct Candidate {
    pub length: u64,
    pub value: F64,
    pub row: usize,
}

/// Which candidates are wanted first.
#[derive(Clone, Copy, Debug, PartialEq, Eq, Structural)]
pub enum Preference {
    /// Those with the largest or the smallest number.
    Value { descending: bool },
    /// Those with the longest or the shortest string; among equals those with the largest or the
    /// smallest number, then those that come first.
    Length { descending: bool, tie_descending: bool },
}

/// Whether two numbers differ; one that is no number differs from every number.
pub open spec fn differs_from(a: F64, b: F64) -> bool {
    is_nan(a.bits) || is_nan(b.bits) || rank(a.bits) != rank(b.bits)
}

impl Preference {
    /// Whether `a` is strictly preferred to `b`.
    pub open spec fn ahead(self, a: Candidate, b: Candidate) -> bool {
        match self {
            Preference::Value { descending } => if descending {
                lt(b.value, a.value)
            } else {
                lt(a.value, b.value)
            },
            Preference::Length { descending, tie_descending } => if a.length != b.length {
                if descending {
                    a.length > b.length
                } else {
                    a.length < b.length
                }
            } else if differs_from(a.value, b.value) {
                if tie_descending {
                    lt(b.value, a.value)
                } else {
                    lt(a.value, b.value)
                }
            } else {
                a.row < b.row
            },
        }
    }

    /// The first place from `i` on that is not strictly preferred to a candidate.
    pub open spec fn place(self, best: Seq<Candidate>, x: Candidate, i: int) -> int
        decreases best.len() - i,
    {
        if i >= best.len() || !self.ahead(best[i], x) {
            i
        } else {
            self.place(best, x, i + 1)
        }
    }

    /// Whether a candidate finds no place among `k`. By number it has to be strictly preferred to
    /// the last one; by length it is enough that the last one is not strictly preferred to it.
    pub open spec fn turned_away(self, best: Seq<Candidate>, x: Candidate, k: int) -> bool {
        best.len() >= k && match self {
            Preference::Value { .. } => !self.ahead(x, best[k - 1]),
            Preference::Length { .. } => self.ahead(best[k - 1], x),
        }
    }

    /// The best `k` after one more candidate, which stands before those that it is equal to.
    pub open spec fn enter(self, best: Seq<Candidate>, x: Candidate, k: int) -> Seq<Candidate> {
        if self.turned_away(best, x, k) {
            best
        } else {
            let grown = best.insert(self.place(best, x, 0), x);
            if grown.len() > k {
                grown.drop_last()
            } else {
                grown
            }
        }
    }

    /// The best `k` after some more candidates.
    pub open spec fn enter_all(self, best: Seq<Candidate>, xs: Seq<Candidate>, k: int) -> Seq<
        Candidate,
    >
        decreases xs.len(),
    {
        if xs.len() == 0 {
            best
        } else {
            self.enter(self.enter_all(best, xs.drop_last(), k), xs.last(), k)
        }
    }

    /// Whether `a` is strictly preferred to `b`.
    pub fn is_ahead(self, a: Candidate, b: Candidate) -> (r: bool)
        ensures
            r == self.ahead(a, b),
    {
        match self {
            Preference::Value { descending } => if descending {
                b.value.lt(a.value)
            } else {
                a.value.lt(b.value)
            },
            Preference::Length { descending, tie_descending } => if a.length != b.length {
                if descending {
                    a.length > b.length
                } else {
                    a.length < b.length
                }
            } else if a.value.is_nan() || b.value.is_nan() || a.value.rank() != b.value.rank() {
                if tie_descending {
                    b.value.lt(a.value)
                } else {
                    a.value.lt(b.value)
                }
            } else {
                a.row < b.row
            },
        }
    }

    /// Lets a candidate enter the best `k`.
    pub fn offer(self, best: &mut Vec<Candidate>, x: Candidate, k: usize)
        requires
            0 < k,
            old(best)@.len() <= k,
        ensures
            final(best)@ == self.enter(old(best)@, x, k as int),
            final(best)@.len() <= k,
    {
        if best.len() >= k {
            let last: Candidate = best[k - 1];
            let away: bool = match self {
                Preference::Value { .. } => !self.is_ahead(x, last),
                Preference::Length { .. } => self.is_ahead(last, x),
            };
            if away {
                return ;
            }
        }
        let mut at: usize = 0;
        while at < best.len() && self.is_ahead(best[at], x)
            invariant
                at <= best@.len(),
                self.place(best@, x, 0) == self.place(best@, x, at as int),
            decreases best@.len() - at,
        {
            at = at + 1;
        }
        if best.len() >= k {
            proof {
                assert(best@.insert(at as int, x).drop_last() =~= if at < k {
                    best@.drop_last().insert(at as int, x)
                } else {
                    best@
                });
            }
            if at < k {
                best.pop();
                best.insert(at, x);
            }
        } else {
            best.insert(at, x);
        }
    }

    /// Whether the values of the candidates are numbers.
    pub open spec fn comparable(xs: Seq<Candidate>) -> bool {
        forall|i: int| 0 <= i < xs.len() ==> !is_nan((#[trigger] xs[i]).value.bits)
    }

    /// Whether no candidate is strictly preferred to an earlier one.
    pub open spec fn in_order(self, best: Seq<Candidate>) -> bool {
        forall|i: int, j: int|
            0 <= i < j < best.len() ==> !self.ahead(#[trigger] best[j], #[trigger] best[i])
    }

    /// Whether `best` holds the best `k` of `xs`: candidates of `xs`, as many as there is room for,
    /// in order, and none of the others is strictly preferred to one of them.
    pub open spec fn is_best(self, best: Seq<Candidate>, xs: Multiset<Candidate>, k: int) -> bool {
        &&& best.to_multiset().subset_of(xs)
        &&& best.len() == if xs.len() < k {
            xs.len() as int
        } else {
            k
        }
        &&& self.in_order(best)
        &&& forall|y: Candidate, i: int|
            #![trigger self.ahead(y, best[i])]
            best.to_multiset().count(y) < xs.count(y) && 0 <= i < best.len() ==> !self.ahead(
                y,
                best[i],
            )
    }

    /// Preference between numbers is transitive, and what is not preferred is transitive as well.
    proof fn chain(self, a: Candidate, b: Candidate, c: Candidate)
        requires
            !is_nan(a.value.bits),
            !is_nan(b.value.bits),
            !is_nan(c.value.bits),
        ensures
            self.ahead(a, b) && self.ahead(b, c) ==> self.ahead(a, c),
            !self.ahead(a, b) && !self.ahead(b, c) ==> !self.ahead(a, c),
            self.ahead(a, b) ==> !self.ahead(b, a),
    {
    }

    /// Where a candidate is put.
    proof fn place_facts(self, best: Seq<Candidate>, x: Candidate, i: int)
        requires
            0 <= i <= best.len(),
            forall|j: int| 0 <= j < i ==> self.ahead(#[trigger] best[j], x),
        ensures
            i <= self.place(best, x, i) <= best.len(),
            forall|j: int| 0 <= j < self.place(best, x, i) ==> self.ahead(#[trigger] best[j], x),
            self.place(best, x, i) < best.len() ==> !self.ahead(
                best[self.place(best, x, i)],
                x,
            ),
        decreases best.len() - i,
    {
        if i < best.len() && self.ahead(best[i], x) {
            self.place_facts(best, x, i + 1);
        }
    }

    /// One more candidate.
    proof fn enter_best(self, best: Seq<Candidate>, xs: Multiset<Candidate>, x: Candidate, k: int)
        requires
            0 < k,
            self.is_best(best, xs, k),
            Self::comparable(best),
            forall|y: Candidate| #[trigger] xs.count(y) > 0 ==> !is_nan(y.value.bits),
            !is_nan(x.value.bits),
        ensures
            self.is_best(self.enter(best, x, k), xs.insert(x), k),
            Self::comparable(self.enter(best, x, k)),
    {
        broadcast use vstd::seq_lib::group_to_multiset_ensures;

        let now = self.enter(best, x, k);
        let all = xs.insert(x);
        let at = self.place(best, x, 0);
        self.place_facts(best, x, 0);
        if self.turned_away(best, x, k) {
            assert forall|y: Candidate, i: int|
                #![trigger self.ahead(y, now[i])]
                now.to_multiset().count(y) < all.count(y) && 0 <= i < now.len() implies !self.ahead(
                y,
                now[i],
            ) by {
                if y == x {
                    if self.ahead(x, best[i]) {
                        let last = best[k - 1];
                        assert(!is_nan(last.value.bits));
                        assert(!is_nan(best[i].value.bits));
                        self.chain(x, last, best[i]);
                        self.chain(last, x, best[i]);
                        if i < k - 1 {
                            assert(!self.ahead(best[k - 1], best[i]));
                        }
                    }
                } else {
                    assert(best.to_multiset().count(y) < xs.count(y));
                    assert(!self.ahead(y, best[i]));
                }
            }
        } else {
            let grown = best.insert(at, x);
            assert(grown.to_multiset() =~= best.to_multiset().insert(x));
            assert forall|i: int, j: int| 0 <= i < j < grown.len() implies !self.ahead(
                #[trigger] grown[j],
                #[trigger] grown[i],
            ) by {
                let oi = if i < at {
                    i
                } else {
                    i - 1
                };
                let oj = if j < at {
                    j
                } else {
                    j - 1
                };
                if i != at && j != at {
                    assert(!self.ahead(best[oj], best[oi]));
                } else if i == at {
                    if oj > at {
                        assert(!self.ahead(best[oj], best[at]));
                        self.chain(best[oj], best[at], x);
                    }
                } else {
                    assert(self.ahead(best[i], x));
                    self.chain(best[i], x, best[i]);
                }
            }
            assert(self.in_order(grown));
            if grown.len() > k {
                let last = grown[k];
                assert(now.push(last) =~= grown);
                assert(now.to_multiset().insert(last) =~= grown.to_multiset());
                assert forall|y: Candidate| #[trigger]
                    now.to_multiset().count(y) <= all.count(y) by {
                    let g = grown.to_multiset();
                    assert(g.count(y) == best.to_multiset().insert(x).count(y));
                    assert(g.count(y) == now.to_multiset().insert(last).count(y));
                    assert(best.to_multiset().count(y) <= xs.count(y));
                }
                assert forall|y: Candidate, i: int|
                    #![trigger self.ahead(y, now[i])]
                    now.to_multiset().count(y) < all.count(y) && 0 <= i < now.len() implies !self.ahead(
                    y,
                    now[i],
                ) by {
                    assert(now[i] == grown[i]);
                    if y == last {
                        assert(!self.ahead(grown[k], grown[i]));
                    } else {
                        let g = grown.to_multiset();
                        assert(g.count(y) == best.to_multiset().insert(x).count(y));
                        assert(g.count(y) == now.to_multiset().insert(last).count(y));
                        assert(best.to_multiset().count(y) < xs.count(y));
                        self.left_behind(best, xs, x, k, y, i);
                    }
                }
                assert forall|i: int, j: int| 0 <= i < j < now.len() implies !self.ahead(
                    #[trigger] now[j],
                    #[trigger] now[i],
                ) by {
                    assert(!self.ahead(grown[j], grown[i]));
                }
            } else {
                assert(xs.len() == best.len()) by {
                    assert(best.len() < k);
                }
                assert(best.to_multiset() =~= xs) by {
                    same_size(best.to_multiset(), xs);
                }
                assert(now.to_multiset() =~= all);
            }
        }
        assert forall|i: int| 0 <= i < now.len() implies !is_nan(
            (#[trigger] now[i]).value.bits,
        ) by {
            if !self.turned_away(best, x, k) {
                let grown = best.insert(at, x);
                assert(now[i] == grown[i]);
            }
        }
    }

    /// A candidate that was left behind stays behind.
    proof fn left_behind(
        self,
        best: Seq<Candidate>,
        xs: Multiset<Candidate>,
        x: Candidate,
        k: int,
        y: Candidate,
        i: int,
    )
        requires
            0 < k,
            self.is_best(best, xs, k),
            Self::comparable(best),
            best.len() == k,
            !is_nan(x.value.bits),
            !is_nan(y.value.bits),
            !self.turned_away(best, x, k),
            best.to_multiset().count(y) < xs.count(y),
            0 <= i < k,
        ensures
            !self.ahead(y, best.insert(self.place(best, x, 0), x)[i]),
    {
        let at = self.place(best, x, 0);
        self.place_facts(best, x, 0);
        let grown = best.insert(at, x);
        if i < at {
            assert(!self.ahead(y, best[i]));
        } else if i == at {
            let last = best[k - 1];
            assert(!self.ahead(y, last));
            assert(!is_nan(last.value.bits));
            self.chain(y, last, x);
            self.chain(x, last, x);
            self.chain(last, x, last);
        } else {
            assert(!self.ahead(y, best[i - 1]));
        }
    }

    /// All candidates so far.
    proof fn enter_all_best(self, xs: Seq<Candidate>, k: int)
        requires
            0 < k,
            Self::comparable(xs),
        ensures
            self.is_best(self.enter_all(Seq::empty(), xs, k), xs.to_multiset(), k),
            Self::comparable(self.enter_all(Seq::empty(), xs, k)),
        decreases xs.len(),
    {
        broadcast use vstd::seq_lib::group_to_multiset_ensures;

        if xs.len() > 0 {
            let before = xs.drop_last();
            assert forall|i: int| 0 <= i < before.len() implies !is_nan(
                (#[trigger] before[i]).value.bits,
            ) by {
                assert(before[i] == xs[i]);
            }
            self.enter_all_best(before, k);
            assert(before.push(xs.last()) =~= xs);
            assert forall|y: Candidate| #[trigger]
                before.to_multiset().count(y) > 0 implies !is_nan(y.value.bits) by {
                assert(before.to_multiset().contains(y));
                assert(before.contains(y));
            }
            assert(!is_nan(xs[xs.len() - 1].value.bits));
            self.enter_best(
                self.enter_all(Seq::empty(), before, k),
                before.to_multiset(),
                xs.last(),
                k,
            );
        }
    }

    /// Candidates that enter one by one leave the best `k` of them, in order, where every value is
    /// a number.
    pub proof fn law_best(self, xs: Seq<Candidate>, k: int)
        requires
            0 < k,
            Self::comparable(xs),
        ensures
            self.is_best(self.enter_all(Seq::empty(), xs, k), xs.to_multiset(), k),
    {
        self.enter_all_best(xs, k);
    }
}

/// Whether no two candidates are the same row.
pub open spec fn different_rows(xs: Seq<Candidate>) -> bool {
    forall|i: int, j: int| 0 <= i < j < xs.len() ==> (#[trigger] xs[i]).row != (#[trigger] xs[j]).row
}

impl Preference {
    /// Candidates that enter after others have entered.
    pub proof fn enter_all_joined(
        self,
        best: Seq<Candidate>,
        xs: Seq<Candidate>,
        ys: Seq<Candidate>,
        k: int,
    )
        ensures
            self.enter_all(best, xs + ys, k) == self.enter_all(
                self.enter_all(best, xs, k),
                ys,
                k,
            ),
        decreases ys.len(),
    {
        if ys.len() == 0 {
            assert(xs + ys =~= xs);
        } else {
            assert((xs + ys).drop_last() =~= xs + ys.drop_last());
            self.enter_all_joined(best, xs, ys.drop_last(), k);
        }
    }

    /// By length there is only one best `k` of candidates that differ in their rows.
    proof fn best_is_unique(
        self,
        a: Seq<Candidate>,
        b: Seq<Candidate>,
        xs: Seq<Candidate>,
        k: int,
        n: int,
    )
        requires
            self is Length,
            different_rows(xs),
            Self::comparable(xs),
            self.is_best(a, xs.to_multiset(), k),
            self.is_best(b, xs.to_multiset(), k),
            0 <= n <= a.len(),
        ensures
            a.take(n) == b.take(n),
        decreases n,
    {
        if n > 0 {
            self.best_is_unique(a, b, xs, k, n - 1);
            if a[n - 1] != b[n - 1] {
                self.member_of(a, xs, n - 1);
                self.member_of(b, xs, n - 1);
                self.overtaken(a, b, xs, k, n - 1);
                self.overtaken(b, a, xs, k, n - 1);
            }
            assert(a.take(n) =~= a.take(n - 1).push(a[n - 1]));
            assert(b.take(n) =~= b.take(n - 1).push(b[n - 1]));
        } else {
            assert(a.take(0) =~= b.take(0));
        }
    }

    /// What is among the best is one of the candidates.
    proof fn member_of(self, a: Seq<Candidate>, xs: Seq<Candidate>, i: int)
        requires
            a.to_multiset().subset_of(xs.to_multiset()),
            0 <= i < a.len(),
        ensures
            xs.contains(a[i]),
            a.to_multiset().count(a[i]) > 0,
    {
        broadcast use vstd::seq_lib::group_to_multiset_ensures;

        assert(a.contains(a[i]));
        assert(a.to_multiset().contains(a[i]));
        assert(xs.to_multiset().count(a[i]) > 0);
        assert(xs.to_multiset().contains(a[i]));
    }

    /// No candidate of one best `k` is preferred to its counterpart in another.
    proof fn overtaken(
        self,
        a: Seq<Candidate>,
        b: Seq<Candidate>,
        xs: Seq<Candidate>,
        k: int,
        i: int,
    )
        requires
            different_rows(xs),
            self.is_best(a, xs.to_multiset(), k),
            self.is_best(b, xs.to_multiset(), k),
            0 <= i < a.len(),
            a.take(i) == b.take(i),
            a[i] != b[i],
        ensures
            !self.ahead(a[i], b[i]),
    {
        broadcast use vstd::seq_lib::group_to_multiset_ensures;

        let y = a[i];
        self.member_of(a, xs, i);
        assert(xs.no_duplicates());
        xs.lemma_multiset_has_no_duplicates();
        assert(xs.to_multiset().count(y) == 1);
        if b.to_multiset().count(y) < 1 {
            assert(!self.ahead(y, b[i]));
        } else {
            assert(b.to_multiset().contains(y));
            assert(b.contains(y));
            let j = choose|j: int| 0 <= j < b.len() && b[j] == y;
            if j < i {
                assert(a[j] == a.take(i)[j]);
                assert(b[j] == b.take(i)[j]);
                assert(a[j] == y && a[i] == y);
                once(a, y, j, i);
                assert(a.to_multiset().count(y) <= xs.to_multiset().count(y));
            } else if j > i {
                assert(!self.ahead(b[j], b[i]));
            }
        }
    }

    /// The best of a collection in which a part was replaced by its best are the best of the whole.
    proof fn best_through_part(
        self,
        h: Seq<Candidate>,
        part: Seq<Candidate>,
        x: Multiset<Candidate>,
        y: Multiset<Candidate>,
        k: int,
    )
        requires
            0 < k,
            self.is_best(part, x, k),
            self.is_best(h, y.add(part.to_multiset()), k),
            forall|c: Candidate| #[trigger] x.count(c) > 0 ==> !is_nan(c.value.bits),
            forall|c: Candidate| #[trigger] y.count(c) > 0 ==> !is_nan(c.value.bits),
        ensures
            self.is_best(h, y.add(x), k),
    {
        broadcast use {
            vstd::seq_lib::group_to_multiset_ensures,
            vstd::multiset::group_multiset_properties,
        };

        let p = part.to_multiset();
        let all = y.add(x);
        if x.len() < k {
            same_size(p, x);
        } else {
            assert forall|c: Candidate| #[trigger] h.to_multiset().count(c) <= all.count(c) by {
                assert(h.to_multiset().count(c) <= y.add(p).count(c));
                assert(p.count(c) <= x.count(c));
            }
            assert forall|c: Candidate, i: int|
                #![trigger self.ahead(c, h[i])]
                h.to_multiset().count(c) < all.count(c) && 0 <= i < h.len() implies !self.ahead(
                c,
                h[i],
            ) by {
                if h.to_multiset().count(c) >= y.add(p).count(c) {
                    assert(p.count(c) < x.count(c));
                    self.behind_part(h, part, x, y, k, c, i);
                }
            }
        }
    }

    /// What the best of a part leave behind is left behind by the best of the whole.
    proof fn behind_part(
        self,
        h: Seq<Candidate>,
        part: Seq<Candidate>,
        x: Multiset<Candidate>,
        y: Multiset<Candidate>,
        k: int,
        c: Candidate,
        i: int,
    )
        requires
            self.is_best(part, x, k),
            part.len() == k,
            self.is_best(h, y.add(part.to_multiset()), k),
            forall|c: Candidate| #[trigger] x.count(c) > 0 ==> !is_nan(c.value.bits),
            forall|c: Candidate| #[trigger] y.count(c) > 0 ==> !is_nan(c.value.bits),
            part.to_multiset().count(c) < x.count(c),
            0 <= i < h.len(),
        ensures
            !self.ahead(c, h[i]),
    {
        broadcast use {
            vstd::seq_lib::group_to_multiset_ensures,
            vstd::multiset::group_multiset_properties,
        };

        let p = part.to_multiset();
        let whole = y.add(p);
        assert(h.contains(h[i]));
        assert(h.to_multiset().contains(h[i]));
        assert(whole.count(h[i]) > 0);
        assert(p.count(h[i]) <= x.count(h[i]));
        if p.subset_of(h.to_multiset()) {
            same_size(p, h.to_multiset());
            assert(p.contains(h[i]));
            assert(part.contains(h[i]));
            let j = choose|j: int| 0 <= j < part.len() && part[j] == h[i];
            assert(!self.ahead(c, part[j]));
        } else {
            let z = choose|z: Candidate| p.count(z) > h.to_multiset().count(z);
            assert(p.contains(z));
            assert(part.contains(z));
            let j = choose|j: int| 0 <= j < part.len() && part[j] == z;
            assert(!self.ahead(c, part[j]));
            assert(!self.ahead(z, h[i]));
            assert(x.count(z) > 0);
            assert(x.count(c) > 0);
            self.chain(c, z, h[i]);
        }
    }

    /// The best of candidates with numbers have numbers.
    pub proof fn keeps_numbers(self, xs: Seq<Candidate>, k: int)
        requires
            0 < k,
            Self::comparable(xs),
        ensures
            Self::comparable(self.enter_all(Seq::empty(), xs, k)),
    {
        self.enter_all_best(xs, k);
    }

    /// Ranking by length can be shared out: the best of the best of two parts are the best of both
    /// together, where every value is a number and no row occurs twice.
    pub proof fn law_best_of_best(
        self,
        done: Seq<Candidate>,
        xs: Seq<Candidate>,
        ys: Seq<Candidate>,
        k: int,
    )
        requires
            0 < k,
            self is Length,
            Self::comparable(xs + ys),
            different_rows(xs + ys),
            Self::comparable(done),
            self.is_best(self.enter_all(Seq::empty(), done, k), xs.to_multiset(), k),
        ensures
            self.enter_all(
                Seq::empty(),
                done + self.enter_all(Seq::empty(), ys, k),
                k,
            ) == self.enter_all(Seq::empty(), xs + ys, k),
            self.is_best(
                self.enter_all(Seq::empty(), done + self.enter_all(Seq::empty(), ys, k), k),
                (xs + ys).to_multiset(),
                k,
            ),
    {
        broadcast use vstd::seq_lib::group_to_multiset_ensures;

        let first = self.enter_all(Seq::empty(), done, k);
        let part = self.enter_all(Seq::empty(), ys, k);
        assert forall|i: int| 0 <= i < ys.len() implies !is_nan((#[trigger] ys[i]).value.bits) by {
            assert((xs + ys)[xs.len() + i] == ys[i]);
        }
        assert forall|i: int| 0 <= i < xs.len() implies !is_nan((#[trigger] xs[i]).value.bits) by {
            assert((xs + ys)[i] == xs[i]);
        }
        self.enter_all_best(ys, k);
        self.enter_all_best(done, k);
        self.enter_all_joined(Seq::empty(), done, part, k);
        let h = self.enter_all(Seq::empty(), done + part, k);
        assert(Self::comparable(done + part));
        self.enter_all_best(done + part, k);
        numbers_only(done);
        numbers_only(xs);
        numbers_only(ys);
        numbers_only(part);
        joined(done, part);
        joined(xs, ys);
        self.first_of_done(h, done, first, part, k);
        let d = first.to_multiset();
        let p = part.to_multiset();
        assert(p.add(d) =~= d.add(p));
        assert forall|c: Candidate| #[trigger] p.count(c) > 0 implies !is_nan(c.value.bits) by {}
        self.best_through_part(h, first, xs.to_multiset(), p, k);
        let x = xs.to_multiset();
        assert(p.add(x) =~= x.add(p));
        self.best_through_part(h, part, ys.to_multiset(), x, k);
        self.enter_all_best(xs + ys, k);
        let g = self.enter_all(Seq::empty(), xs + ys, k);
        self.best_is_unique(h, g, xs + ys, k, h.len() as int);
        assert(h.take(h.len() as int) =~= h);
        assert(g.take(g.len() as int) =~= g);
    }

    /// The best of candidates and others are the best of the best of the candidates and the others.
    proof fn first_of_done(
        self,
        h: Seq<Candidate>,
        done: Seq<Candidate>,
        first: Seq<Candidate>,
        part: Seq<Candidate>,
        k: int,
    )
        requires
            0 < k,
            first == self.enter_all(Seq::empty(), done, k),
            h == self.enter_all(Seq::empty(), done + part, k),
            Self::comparable(done),
            Self::comparable(part),
            first.len() <= k,
        ensures
            self.is_best(h, part.to_multiset().add(first.to_multiset()), k),
    {
        broadcast use vstd::seq_lib::group_to_multiset_ensures;

        self.enter_all_joined(Seq::empty(), done, part, k);
        self.enter_all_best(done, k);
        self.self_best(first, k);
        self.enter_all_from(first, first.to_multiset(), part, k);
        joined(first, part);
        assert(first.to_multiset().add(part.to_multiset()) =~= part.to_multiset().add(
            first.to_multiset(),
        ));
    }

    /// What is in order and within the room is the best of itself.
    proof fn self_best(self, best: Seq<Candidate>, k: int)
        requires
            best.len() <= k,
            self.in_order(best),
        ensures
            self.is_best(best, best.to_multiset(), k),
    {
        broadcast use vstd::seq_lib::group_to_multiset_ensures;

    }

    /// Candidates that enter the best of others.
    proof fn enter_all_from(
        self,
        best: Seq<Candidate>,
        xs: Multiset<Candidate>,
        ys: Seq<Candidate>,
        k: int,
    )
        requires
            0 < k,
            self.is_best(best, xs, k),
            Self::comparable(best),
            Self::comparable(ys),
            forall|c: Candidate| #[trigger] xs.count(c) > 0 ==> !is_nan(c.value.bits),
        ensures
            self.is_best(self.enter_all(best, ys, k), xs.add(ys.to_multiset()), k),
            Self::comparable(self.enter_all(best, ys, k)),
        decreases ys.len(),
    {
        broadcast use vstd::seq_lib::group_to_multiset_ensures;

        if ys.len() == 0 {
            assert(xs.add(ys.to_multiset()) =~= xs);
        } else {
            let before = ys.drop_last();
            assert forall|i: int| 0 <= i < before.len() implies !is_nan(
                (#[trigger] before[i]).value.bits,
            ) by {
                assert(before[i] == ys[i]);
            }
            self.enter_all_from(best, xs, before, k);
            numbers_only(before);
            assert(before.push(ys.last()) =~= ys);
            let m = xs.add(before.to_multiset());
            assert forall|c: Candidate| #[trigger] m.count(c) > 0 implies !is_nan(
                c.value.bits,
            ) by {
                assert(xs.count(c) > 0 || before.to_multiset().count(c) > 0);
            }
            assert(!is_nan(ys[ys.len() - 1].value.bits));
            self.enter_best(self.enter_all(best, before, k), m, ys.last(), k);
            assert(m.insert(ys.last()) =~= xs.add(ys.to_multiset()));
        }
    }
}

/// Every member of comparable candidates has a number.
proof fn numbers_only(xs: Seq<Candidate>)
    requires
        Preference::comparable(xs),
    ensures
        forall|c: Candidate| #[trigger] xs.to_multiset().count(c) > 0 ==> !is_nan(c.value.bits),
{
    broadcast use vstd::seq_lib::group_to_multiset_ensures;

    assert forall|c: Candidate| #[trigger] xs.to_multiset().count(c) > 0 implies !is_nan(
        c.value.bits,
    ) by {
        assert(xs.to_multiset().contains(c));
        assert(xs.contains(c));
    }
}

/// The members of two sequences one after the other.
proof fn joined(a: Seq<Candidate>, b: Seq<Candidate>)
    ensures
        (a + b).to_multiset() =~= a.to_multiset().add(b.to_multiset()),
{
    vstd::seq_lib::lemma_multiset_commutative(a, b);
}

/// A candidate that stands in two places counts twice.
proof fn once(a: Seq<Candidate>, y: Candidate, j: int, i: int)
    requires
        0 <= j < i < a.len(),
        a[j] == y,
        a[i] == y,
    ensures
        a.to_multiset().count(y) >= 2,
{
    broadcast use vstd::seq_lib::group_to_multiset_ensures;

    let rest = a.remove(i);
    assert(rest[j] == y);
    assert(rest.contains(y));
    assert(rest.to_multiset().contains(y));
    assert(rest.insert(i, y) =~= a);
    assert(a.to_multiset() =~= rest.to_multiset().insert(y));
}

/// A part of a collection with as many members is all of it.
proof fn same_size(a: Multiset<Candidate>, b: Multiset<Candidate>)
    requires
        a.subset_of(b),
        a.len() == b.len(),
    ensures
        a =~= b,
{
    broadcast use vstd::multiset::group_multiset_properties;

    let rest = b.sub(a);
    assert(rest.len() == 0);
    assert(rest =~= Multiset::empty());
    assert(b =~= a.add(rest));
}

} // verus!
