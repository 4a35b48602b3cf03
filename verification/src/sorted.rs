//! Strictly increasing vectors of integers used as sets.
use vstd::prelude::*;

verus! {

/// Every element is smaller than the next.
pub open spec fn strictly_sorted(s: Seq<i32>) -> bool {
    forall|i: int, j: int| 0 <= i < j < s.len() ==> s[i] < s[j]
}

/// Insert `x` into a strictly sorted vector unless it is already there,
/// and tell whether it was missing. The search starts from the end, so a
/// value larger than every other one is placed at once.
pub fn insert_sorted(v: &mut Vec<i32>, x: i32) -> (r: bool)
    requires
        strictly_sorted(old(v)@),
    ensures
        r == !old(v)@.contains(x),
        strictly_sorted(final(v)@),
        final(v)@.to_set() == old(v)@.to_set().insert(x),
{
    let mut i = v.len();
    while i > 0 && v[i - 1] > x
        invariant
            i <= v.len(),
            v@ == old(v)@,
            strictly_sorted(v@),
            forall|j: int| i <= j < v.len() ==> v@[j] > x,
        decreases i,
    {
        i = i - 1;
    }
    if i > 0 && v[i - 1] == x {
        assert(v@.to_set() =~= old(v)@.to_set().insert(x)) by {
            assert(v@[i - 1] == x);
        }
        return false;
    }
    let ghost before = v@;
    v.insert(i, x);
    proof {
        before.insert_ensures(i as int, x);
        assert forall|a: int, b: int| 0 <= a < b < v@.len() implies v@[a] < v@[b] by {
            if b < i {
            } else if a > i {
                assert(v@[a] == before[a - 1]);
                assert(v@[b] == before[b - 1]);
            } else if a == i {
                assert(v@[b] == before[b - 1]);
            } else {
                if b == i {
                    assert(before[a] <= before[i - 1]);
                } else {
                    assert(v@[b] == before[b - 1]);
                }
            }
        }
        assert forall|y: i32| v@.contains(y) <==> before.contains(y) || y == x by {
            if v@.contains(y) {
                let k = choose|k: int| 0 <= k < v@.len() && v@[k] == y;
                if k < i {
                    assert(before[k] == y);
                } else if k > i {
                    assert(before[k - 1] == y);
                }
            }
            if before.contains(y) {
                let k = choose|k: int| 0 <= k < before.len() && before[k] == y;
                if k < i {
                    assert(v@[k] == y);
                } else {
                    assert(v@[k + 1] == y);
                }
            }
            if y == x {
                assert(v@[i as int] == x);
            }
        }
        assert(v@.to_set() =~= before.to_set().insert(x));
        assert(!before.contains(x)) by {
            if before.contains(x) {
                let k = choose|k: int| 0 <= k < before.len() && before[k] == x;
                if k >= i {
                } else if k < i - 1 {
                    assert(before[k] < before[i - 1]);
                }
            }
        }
    }
    true
}

} // verus!
