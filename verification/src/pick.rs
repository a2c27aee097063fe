//! Counting, adding up and picking out over the first indices: the vocabulary in which laws
//! about lists are stated.

use vstd::prelude::*;

verus! {

/// How many of the indices below `n` satisfy `p`.
pub open spec fn count(n: int, p: spec_fn(int) -> bool) -> int
    decreases n,
{
    if n <= 0 {
        0
    } else if p(n - 1) {
        count(n - 1, p) + 1
    } else {
        count(n - 1, p)
    }
}

/// The sum of `f` over the indices below `n` that satisfy `p`.
pub open spec fn sum(n: int, p: spec_fn(int) -> bool, f: spec_fn(int) -> int) -> int
    decreases n,
{
    if n <= 0 {
        0
    } else if p(n - 1) {
        sum(n - 1, p, f) + f(n - 1)
    } else {
        sum(n - 1, p, f)
    }
}

/// The values of `f` at the indices below `n` that satisfy `p`, in order.
pub open spec fn picked<T>(n: int, p: spec_fn(int) -> bool, f: spec_fn(int) -> T) -> Seq<T>
    decreases n,
{
    if n <= 0 {
        Seq::empty()
    } else if p(n - 1) {
        picked(n - 1, p, f).push(f(n - 1))
    } else {
        picked(n - 1, p, f)
    }
}

/// A value is picked exactly where some index that satisfies `p` has it; as many are picked
/// as satisfy `p`.
pub proof fn law_picked<T>(n: int, p: spec_fn(int) -> bool, f: spec_fn(int) -> T)
    ensures
        picked(n, p, f).len() == count(n, p),
        forall|x: T| #[trigger]
            picked(n, p, f).contains(x) <==> exists|i: int|
                0 <= i < n && #[trigger] p(i) && f(i) == x,
    decreases n,
{
    if n > 0 {
        law_picked(n - 1, p, f);
        let rest = picked(n - 1, p, f);
        let all = picked(n, p, f);
        assert forall|x: T| #[trigger] all.contains(x) <==> exists|i: int|
            0 <= i < n && #[trigger] p(i) && f(i) == x by {
            if all.contains(x) {
                let k = choose|k: int| 0 <= k < all.len() && all[k] == x;
                if k < rest.len() {
                    assert(rest[k] == x);
                    assert(rest.contains(x));
                    let i = choose|i: int| 0 <= i < n - 1 && #[trigger] p(i) && f(i) == x;
                    assert(p(i) && f(i) == x);
                } else {
                    assert(p(n - 1) && f(n - 1) == x);
                }
            }
            if exists|i: int| 0 <= i < n && #[trigger] p(i) && f(i) == x {
                let i = choose|i: int| 0 <= i < n && #[trigger] p(i) && f(i) == x;
                if i < n - 1 {
                    assert(rest.contains(x));
                    let k = choose|k: int| 0 <= k < rest.len() && rest[k] == x;
                    assert(all[k] == x);
                } else {
                    assert(all[rest.len() as int] == x);
                }
            }
        }
    }
}

/// A count lies between none and all, and is the one or the other exactly where no index or
/// every index satisfies `p`.
pub proof fn law_count_bounds(n: int, p: spec_fn(int) -> bool)
    requires
        n >= 0,
    ensures
        0 <= count(n, p) <= n,
        count(n, p) == 0 <==> forall|i: int| 0 <= i < n ==> !#[trigger] p(i),
        count(n, p) == n <==> forall|i: int| 0 <= i < n ==> #[trigger] p(i),
    decreases n,
{
    if n > 0 {
        law_count_bounds(n - 1, p);
        if count(n, p) == 0 {
            assert(!p(n - 1));
        }
        if forall|i: int| 0 <= i < n ==> #[trigger] p(i) {
            assert(p(n - 1));
        }
    }
}

} // verus!
