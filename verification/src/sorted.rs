//! Sets of numbers in ascending order.

use vstd::prelude::*;

verus! {

/// The numbers below `n` that satisfy a predicate, in ascending order.
pub open spec fn ascending(p: spec_fn(int) -> bool, n: nat) -> Seq<int>
    decreases n,
{
    if n == 0 {
        Seq::empty()
    } else {
        let s = ascending(p, (n - 1) as nat);
        if p(n - 1) {
            s.push(n - 1)
        } else {
            s
        }
    }
}

/// Strictly increasing.
pub open spec fn increasing(s: Seq<int>) -> bool {
    forall|i: int, j: int| 0 <= i < j < s.len() ==> s[i] < s[j]
}

/// A strictly increasing sequence of exactly the numbers below `n` that satisfy a
/// predicate is the one in ascending order.
pub proof fn lemma_ascending(p: spec_fn(int) -> bool, n: nat, s: Seq<int>)
    requires
        increasing(s),
        forall|x: int| #[trigger] s.contains(x) <==> 0 <= x < n && p(x),
    ensures
        s == ascending(p, n),
    decreases n,
{
    if n == 0 {
        if s.len() > 0 {
            assert(s.contains(s[0]));
        }
        assert(s =~= ascending(p, n));
    } else {
        let k = n - 1;
        if p(k) {
            assert(s.contains(k));
            let i = choose|i: int| 0 <= i < s.len() && s[i] == k;
            if i < s.len() - 1 {
                assert(s.contains(s[i + 1]));
                assert(s[i] < s[i + 1]);
            }
            let t = s.drop_last();
            assert forall|x: int| #[trigger] t.contains(x) <==> 0 <= x < k && p(x) by {
                if t.contains(x) {
                    let j = choose|j: int| 0 <= j < t.len() && t[j] == x;
                    assert(s[j] == x && s[j] < s[s.len() - 1]);
                    assert(s.contains(x));
                }
                if 0 <= x < k && p(x) {
                    assert(s.contains(x));
                    let j = choose|j: int| 0 <= j < s.len() && s[j] == x;
                    assert(t[j] == x);
                }
            }
            lemma_ascending(p, k as nat, t);
            assert(s =~= t.push(k));
        } else {
            assert forall|x: int| #[trigger] s.contains(x) <==> 0 <= x < k && p(x) by {}
            lemma_ascending(p, k as nat, s);
        }
    }
}

/// The numbers of a list.
pub open spec fn numbers(s: Seq<usize>) -> Seq<int> {
    Seq::new(s.len(), |i: int| s[i] as int)
}

/// Insert a number into an ascending list, where it is not in it yet.
pub fn insert(v: &mut Vec<usize>, x: usize)
    requires
        increasing(numbers(old(v)@)),
    ensures
        increasing(numbers(final(v)@)),
        forall|y: usize| #[trigger] final(v)@.contains(y) <==> old(v)@.contains(y) || y == x,
{
    let mut i: usize = 0;
    while i < v.len() && v[i] < x
        invariant
            i <= v@.len(),
            *v == *old(v),
            forall|k: int| 0 <= k < i ==> v@[k] < x,
        decreases v@.len() - i,
    {
        i += 1;
    }
    if i < v.len() && v[i] == x {
        assert(v@[i as int] == x);
        return;
    }
    let ghost before = v@;
    v.insert(i, x);
    proof {
        let a = numbers(before);
        let b = numbers(v@);
        assert forall|j: int, k: int| 0 <= j < k < b.len() implies b[j] < b[k] by {
            if k < i {
                assert(a[j] < a[k]);
            } else if k == i {
                assert(before[j] < x);
            } else if j < i {
                assert(a[j] < a[k - 1]);
            } else if j == i {
                if k - 1 > i {
                    assert(a[i as int] < a[k - 1]);
                }
                assert(before[i as int] > x);
            } else {
                assert(a[j - 1] < a[k - 1]);
            }
        }
        assert forall|y: usize| #[trigger] v@.contains(y) <==> before.contains(y) || y == x by {
            if before.contains(y) {
                let k = choose|k: int| 0 <= k < before.len() && before[k] == y;
                if k < i {
                    assert(v@[k] == y);
                } else {
                    assert(v@[k + 1] == y);
                }
            }
            if y == x {
                assert(v@[i as int] == x);
            }
            if v@.contains(y) {
                let k = choose|k: int| 0 <= k < v@.len() && v@[k] == y;
                if k < i {
                    assert(before[k] == y);
                } else if k > i {
                    assert(before[k - 1] == y);
                }
            }
        }
    }
}

} // verus!
