use std::cmp::Ordering;
use vstd::prelude::*;

verus! {

/// The place of an ordering in `Less < Equal < Greater`.
pub open spec fn rank(o: Ordering) -> int {
    match o {
        Ordering::Less => 0,
        Ordering::Equal => 1,
        Ordering::Greater => 2,
    }
}

/// The comparisons that `f` makes on `0..size` never step down: once an index
/// compares `Equal` or `Greater`, no later index compares lower.
pub open spec fn sorted_by<F: Fn(usize) -> Ordering>(f: F, size: usize) -> bool {
    forall|i: usize, j: usize, oi: Ordering, oj: Ordering|
        i <= j < size && call_ensures(f, (i,), oi) && call_ensures(f, (j,), oj) ==> rank(oi)
            <= rank(oj)
}

/// Index-based binary search over `0..size`: `f(i)` says how the element at
/// `i` compares with the one sought.
///
/// `Ok(i)` names an index at which `f` reported `Equal`. `Err(i)` is the
/// insertion point: `f` reported `Less` for the index just below it and
/// `Greater` for the index at it (where those lie in range), and where the
/// comparisons are sorted, every index below it compares `Less` and every
/// index from it on compares `Greater`.
pub fn binary_search_by<F>(size: usize, f: F) -> (r: Result<usize, usize>)
    where F: Fn(usize) -> Ordering,
    requires
        forall|i: usize| i < size ==> call_requires(f, (i,)),
    ensures
        match r {
            Ok(i) => i < size && call_ensures(f, (i,), Ordering::Equal),
            Err(i) => {
                &&& i <= size
                &&& forall|j: usize| j + 1 == i ==> call_ensures(f, (j,), Ordering::Less)
                &&& i < size ==> call_ensures(f, (i,), Ordering::Greater)
                &&& sorted_by(f, size) ==> forall|j: usize, o: Ordering|
                    j < i && call_ensures(f, (j,), o) ==> o == Ordering::Less
                &&& sorted_by(f, size) ==> forall|j: usize, o: Ordering|
                    i <= j < size && call_ensures(f, (j,), o) ==> o == Ordering::Greater
            },
        },
{
    let total = size;
    let mut len = size;
    let mut left: usize = 0;
    let mut right: usize = len;
    while left < right
        invariant
            left <= right <= total,
            total == size,
            len == right - left,
            forall|i: usize| i < total ==> call_requires(f, (i,)),
            forall|j: usize| j + 1 == left ==> call_ensures(f, (j,), Ordering::Less),
            right < total ==> call_ensures(f, (right,), Ordering::Greater),
            sorted_by(f, total) ==> forall|j: usize, o: Ordering|
                j < left && call_ensures(f, (j,), o) ==> o == Ordering::Less,
            sorted_by(f, total) ==> forall|j: usize, o: Ordering|
                right <= j < total && call_ensures(f, (j,), o) ==> o == Ordering::Greater,
        decreases right - left,
    {
        let mid = left + len / 2;
        let c = f(mid);
        match c {
            Ordering::Less => {
                proof {
                    if sorted_by(f, total) {
                        assert forall|j: usize, o: Ordering|
                            j < mid + 1 && call_ensures(f, (j,), o) implies o == Ordering::Less by {
                            assert(rank(o) <= rank(c));
                        }
                    }
                }
                left = mid + 1;
            },
            Ordering::Greater => {
                proof {
                    if sorted_by(f, total) {
                        assert forall|j: usize, o: Ordering|
                            mid <= j < total && call_ensures(f, (j,), o) implies o
                            == Ordering::Greater by {
                            assert(rank(c) <= rank(o));
                        }
                    }
                }
                right = mid;
            },
            Ordering::Equal => {
                return Ok(mid);
            },
        }
        len = right - left;
    }
    Err(left)
}

} // verus!
