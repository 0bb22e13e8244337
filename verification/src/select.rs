//! Picking rows in order, up to a limit.

use vstd::prelude::*;

verus! {

/// `acc` followed by the rows `base + i` for the `i < n` with `hit(i)`, in order, as far as the
/// whole stays within `max` entries.
pub open spec fn select(
    hit: spec_fn(int) -> bool,
    n: int,
    base: int,
    acc: Seq<usize>,
    max: int,
) -> Seq<usize>
    decreases n,
{
    if n <= 0 {
        acc
    } else {
        let before = select(hit, n - 1, base, acc, max);
        if before.len() < max && hit(n - 1) {
            before.push((base + n - 1) as usize)
        } else {
            before
        }
    }
}

/// As `select`, where looking at a row can fail.
pub open spec fn select_checked(
    hit: spec_fn(int) -> Option<bool>,
    n: int,
    base: int,
    acc: Seq<usize>,
    max: int,
) -> Option<Seq<usize>>
    decreases n,
{
    if n <= 0 {
        Some(acc)
    } else {
        match select_checked(hit, n - 1, base, acc, max) {
            None => None,
            Some(before) => if before.len() >= max {
                Some(before)
            } else {
                match hit(n - 1) {
                    None => None,
                    Some(true) => Some(before.push((base + n - 1) as usize)),
                    Some(false) => Some(before),
                }
            },
        }
    }
}

/// A full selection takes nothing more.
pub proof fn select_full(
    hit: spec_fn(int) -> bool,
    k: int,
    n: int,
    base: int,
    acc: Seq<usize>,
    max: int,
)
    requires
        0 <= k <= n,
        select(hit, k, base, acc, max).len() >= max,
    ensures
        select(hit, n, base, acc, max) == select(hit, k, base, acc, max),
    decreases n,
{
    if k < n {
        select_full(hit, k, n - 1, base, acc, max);
    }
}

/// A full selection takes nothing more and fails no more.
pub proof fn select_checked_full(
    hit: spec_fn(int) -> Option<bool>,
    k: int,
    n: int,
    base: int,
    acc: Seq<usize>,
    max: int,
)
    requires
        0 <= k <= n,
        select_checked(hit, k, base, acc, max) matches Some(s) && s.len() >= max,
    ensures
        select_checked(hit, n, base, acc, max) == select_checked(hit, k, base, acc, max),
    decreases n,
{
    if k < n {
        select_checked_full(hit, k, n - 1, base, acc, max);
    }
}

/// A failed selection stays failed.
pub proof fn select_checked_failed(
    hit: spec_fn(int) -> Option<bool>,
    k: int,
    n: int,
    base: int,
    acc: Seq<usize>,
    max: int,
)
    requires
        0 <= k <= n,
        select_checked(hit, k, base, acc, max) is None,
    ensures
        select_checked(hit, n, base, acc, max) is None,
    decreases n,
{
    if k < n {
        select_checked_failed(hit, k, n - 1, base, acc, max);
    }
}

/// Appends the rows below `n` that `f` accepts, up to `max` entries in all.
pub(crate) fn select_rows<F: Fn(usize) -> bool>(
    f: F,
    Ghost(hit): Ghost<spec_fn(int) -> bool>,
    n: usize,
    base: usize,
    acc: &mut Vec<usize>,
    max: usize,
)
    requires
        base + n <= usize::MAX,
        forall|i: usize| i < n ==> #[trigger] f.requires((i,)),
        forall|i: usize, r: bool| i < n && #[trigger] f.ensures((i,), r) ==> r == hit(i as int),
    ensures
        final(acc)@ == select(hit, n as int, base as int, old(acc)@, max as int),
{
    let mut i: usize = 0;
    while i < n
        invariant
            i <= n,
            base + n <= usize::MAX,
            forall|i: usize| i < n ==> #[trigger] f.requires((i,)),
            forall|i: usize, r: bool| i < n && #[trigger] f.ensures((i,), r) ==> r == hit(i as int),
            acc@ == select(hit, i as int, base as int, old(acc)@, max as int),
        decreases n - i,
    {
        if acc.len() >= max {
            proof {
                select_full(hit, i as int, n as int, base as int, old(acc)@, max as int);
            }
            return ;
        }
        if f(i) {
            acc.push(base + i);
        }
        i = i + 1;
    }
}

/// Appends the rows below `n` that `f` accepts, up to `max` entries in all; `false` where `f`
/// failed on a row.
pub(crate) fn select_rows_checked<F: Fn(usize) -> Option<bool>>(
    f: F,
    Ghost(hit): Ghost<spec_fn(int) -> Option<bool>>,
    n: usize,
    base: usize,
    acc: &mut Vec<usize>,
    max: usize,
) -> (ok: bool)
    requires
        base + n <= usize::MAX,
        forall|i: usize| i < n ==> #[trigger] f.requires((i,)),
        forall|i: usize, r: Option<bool>|
            i < n && #[trigger] f.ensures((i,), r) ==> r == hit(i as int),
    ensures
        ok ==> select_checked(hit, n as int, base as int, old(acc)@, max as int) == Some(
            final(acc)@,
        ),
        !ok ==> select_checked(hit, n as int, base as int, old(acc)@, max as int) is None,
{
    let mut i: usize = 0;
    while i < n
        invariant
            i <= n,
            base + n <= usize::MAX,
            forall|i: usize| i < n ==> #[trigger] f.requires((i,)),
            forall|i: usize, r: Option<bool>|
                i < n && #[trigger] f.ensures((i,), r) ==> r == hit(i as int),
            select_checked(hit, i as int, base as int, old(acc)@, max as int) == Some(acc@),
        decreases n - i,
    {
        if acc.len() >= max {
            proof {
                select_checked_full(hit, i as int, n as int, base as int, old(acc)@, max as int);
            }
            return true;
        }
        match f(i) {
            None => {
                proof {
                    select_checked_failed(
                        hit,
                        i + 1,
                        n as int,
                        base as int,
                        old(acc)@,
                        max as int,
                    );
                }
                return false;
            },
            Some(b) => if b {
                acc.push(base + i);
            },
        }
        i = i + 1;
    }
    true
}

/// What a selection adds: rows of the range that are hits, in ascending order.
pub proof fn select_adds(
    hit: spec_fn(int) -> bool,
    n: int,
    base: int,
    acc: Seq<usize>,
    max: int,
)
    requires
        0 <= n,
        0 <= base,
        base + n <= usize::MAX,
    ensures
        ({
            let s = select(hit, n, base, acc, max);
            &&& acc.len() <= s.len() <= acc.len() + n
            &&& s.take(acc.len() as int) == acc
            &&& forall|k: int|
                acc.len() <= k < s.len() ==> base <= #[trigger] s[k] < base + n && hit(s[k] - base)
            &&& forall|j: int, k: int|
                acc.len() <= j < k < s.len() ==> #[trigger] s[j] < #[trigger] s[k]
        }),
    decreases n,
{
    let s = select(hit, n, base, acc, max);
    if n > 0 {
        select_adds(hit, n - 1, base, acc, max);
        let before = select(hit, n - 1, base, acc, max);
        assert(s.take(acc.len() as int) =~= before.take(acc.len() as int));
        assert forall|k: int| acc.len() <= k < s.len() implies base <= #[trigger] s[k] < base + n
            && hit(s[k] - base) by {
            if k < before.len() {
                assert(s[k] == before[k]);
            }
        }
        assert forall|j: int, k: int| acc.len() <= j < k < s.len() implies #[trigger] s[j]
            < #[trigger] s[k] by {
            assert(s[j] == before[j]);
            if k < before.len() {
                assert(s[k] == before[k]);
            }
        }
    } else {
        assert(s.take(acc.len() as int) =~= acc);
    }
}

/// What a selection adds where looking at a row can fail: rows of the range that are hits, in
/// ascending order.
pub proof fn select_checked_adds(
    hit: spec_fn(int) -> Option<bool>,
    n: int,
    base: int,
    acc: Seq<usize>,
    max: int,
)
    requires
        0 <= n,
        0 <= base,
        base + n <= usize::MAX,
    ensures
        select_checked(hit, n, base, acc, max) matches Some(s) ==> {
            &&& acc.len() <= s.len() <= acc.len() + n
            &&& s.take(acc.len() as int) == acc
            &&& forall|k: int|
                acc.len() <= k < s.len() ==> base <= #[trigger] s[k] < base + n && hit(s[k] - base)
                    == Some(true)
            &&& forall|j: int, k: int|
                acc.len() <= j < k < s.len() ==> #[trigger] s[j] < #[trigger] s[k]
        },
    decreases n,
{
    if n > 0 {
        select_checked_adds(hit, n - 1, base, acc, max);
        if let Some(s) = select_checked(hit, n, base, acc, max) {
            let before = select_checked(hit, n - 1, base, acc, max)->0;
            assert(s.take(acc.len() as int) =~= before.take(acc.len() as int));
            assert forall|k: int| acc.len() <= k < s.len() implies base <= #[trigger] s[k] < base
                + n && hit(s[k] - base) == Some(true) by {
                if k < before.len() {
                    assert(s[k] == before[k]);
                }
            }
            assert forall|j: int, k: int| acc.len() <= j < k < s.len() implies #[trigger] s[j]
                < #[trigger] s[k] by {
                assert(s[j] == before[j]);
                if k < before.len() {
                    assert(s[k] == before[k]);
                }
            }
        }
    } else {
        assert(acc.take(acc.len() as int) =~= acc);
    }
}

/// How many of the first `n` rows are hits, where looking at a row can fail.
pub open spec fn count_checked(hit: spec_fn(int) -> Option<bool>, n: int) -> Option<int>
    decreases n,
{
    if n <= 0 {
        Some(0)
    } else {
        match (count_checked(hit, n - 1), hit(n - 1)) {
            (Some(k), Some(b)) => Some(
                if b {
                    k + 1
                } else {
                    k
                },
            ),
            _ => None,
        }
    }
}

/// A failed count stays failed.
pub proof fn count_checked_failed(hit: spec_fn(int) -> Option<bool>, j: int, n: int)
    requires
        0 <= j <= n,
        count_checked(hit, j) is None,
    ensures
        count_checked(hit, n) is None,
    decreases n,
{
    if j < n {
        count_checked_failed(hit, j, n - 1);
    }
}

/// Counts the rows below `n` that `f` accepts; `None` where it failed on a row.
pub(crate) fn count_rows_checked<F: Fn(usize) -> Option<bool>>(
    f: F,
    Ghost(hit): Ghost<spec_fn(int) -> Option<bool>>,
    n: usize,
) -> (r: Option<usize>)
    requires
        forall|i: usize| i < n ==> #[trigger] f.requires((i,)),
        forall|i: usize, r: Option<bool>|
            i < n && #[trigger] f.ensures((i,), r) ==> r == hit(i as int),
    ensures
        match r {
            None => count_checked(hit, n as int) is None,
            Some(k) => count_checked(hit, n as int) == Some(k as int) && k <= n,
        },
{
    let mut count: usize = 0;
    let mut i: usize = 0;
    while i < n
        invariant
            i <= n,
            count <= i,
            forall|i: usize| i < n ==> #[trigger] f.requires((i,)),
            forall|i: usize, r: Option<bool>|
                i < n && #[trigger] f.ensures((i,), r) ==> r == hit(i as int),
            count_checked(hit, i as int) == Some(count as int),
        decreases n - i,
    {
        match f(i) {
            None => {
                proof {
                    count_checked_failed(hit, i + 1, n as int);
                }
                return None;
            },
            Some(b) => if b {
                count = count + 1;
            },
        }
        i = i + 1;
    }
    Some(count)
}

} // verus!
