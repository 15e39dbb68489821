//! Sorted lists without repetition: pairs, and counters keyed by pairs.

use vstd::prelude::*;

verus! {

/// Lexicographic order.
pub open spec fn pair_before(a: (int, int), b: (int, int)) -> bool {
    a.0 < b.0 || (a.0 == b.0 && a.1 < b.1)
}

/// Strictly increasing pairs of positions.
pub open spec fn sorted_pairs(s: Seq<(usize, usize)>) -> bool {
    forall|i: int, j: int|
        0 <= i < j < s.len() ==> pair_before(
            (s[i].0 as int, s[i].1 as int),
            (s[j].0 as int, s[j].1 as int),
        )
}

/// Strictly increasing pairs of a position and a label.
pub open spec fn sorted_labels(s: Seq<(usize, u32)>) -> bool {
    forall|i: int, j: int|
        0 <= i < j < s.len() ==> pair_before(
            (s[i].0 as int, s[i].1 as int),
            (s[j].0 as int, s[j].1 as int),
        )
}

/// Sorted lists with the same members are equal.
pub proof fn sorted_pairs_unique(a: Seq<(usize, usize)>, b: Seq<(usize, usize)>)
    requires
        sorted_pairs(a),
        sorted_pairs(b),
        forall|x: (usize, usize)| #[trigger] a.contains(x) <==> b.contains(x),
    ensures
        a == b,
    decreases a.len(),
{
    if a.len() == 0 {
        if b.len() > 0 {
            assert(b.contains(b[0]));
            assert(a.contains(b[0]));
        }
        assert(a =~= b);
    } else {
        assert(a.contains(a[a.len() - 1]));
        let n = choose|n: int| 0 <= n < b.len() && b[n] == a[a.len() - 1];
        assert(b.len() > 0);
        assert(b.contains(b[b.len() - 1]));
        assert(a.contains(b[b.len() - 1]));
        let k = choose|k: int| 0 <= k < a.len() && a[k] == b[b.len() - 1];
        assert(n == b.len() - 1 && k == a.len() - 1) by {
            if n < b.len() - 1 {
                assert(pair_before((b[n].0 as int, b[n].1 as int), (b[b.len() - 1].0 as int, b[b.len() - 1].1 as int)));
            }
            if k < a.len() - 1 {
                assert(pair_before((a[k].0 as int, a[k].1 as int), (a[a.len() - 1].0 as int, a[a.len() - 1].1 as int)));
            }
        }
        let (c, d) = (a.drop_last(), b.drop_last());
        assert forall|x: (usize, usize)| #[trigger] c.contains(x) <==> d.contains(x) by {
            if c.contains(x) {
                let i = choose|i: int| 0 <= i < c.len() && c[i] == x;
                assert(a[i] == x);
                assert(pair_before((a[i].0 as int, a[i].1 as int), (a[a.len() - 1].0 as int, a[a.len() - 1].1 as int)));
                assert(a.contains(x));
                let j = choose|j: int| 0 <= j < b.len() && b[j] == x;
                assert(j != b.len() - 1);
                assert(d[j] == x);
            }
            if d.contains(x) {
                let i = choose|i: int| 0 <= i < d.len() && d[i] == x;
                assert(b[i] == x);
                assert(pair_before((b[i].0 as int, b[i].1 as int), (b[b.len() - 1].0 as int, b[b.len() - 1].1 as int)));
                assert(b.contains(x));
                assert(a.contains(x));
                let j = choose|j: int| 0 <= j < a.len() && a[j] == x;
                assert(j != a.len() - 1);
                assert(c[j] == x);
            }
        }
        sorted_pairs_unique(c, d);
        assert(a =~= c.push(a[a.len() - 1]));
        assert(b =~= d.push(b[b.len() - 1]));
    }
}

/// Sorted lists with the same members are equal.
pub proof fn sorted_labels_unique(a: Seq<(usize, u32)>, b: Seq<(usize, u32)>)
    requires
        sorted_labels(a),
        sorted_labels(b),
        forall|x: (usize, u32)| #[trigger] a.contains(x) <==> b.contains(x),
    ensures
        a == b,
    decreases a.len(),
{
    if a.len() == 0 {
        if b.len() > 0 {
            assert(b.contains(b[0]));
            assert(a.contains(b[0]));
        }
        assert(a =~= b);
    } else {
        assert(a.contains(a[a.len() - 1]));
        let n = choose|n: int| 0 <= n < b.len() && b[n] == a[a.len() - 1];
        assert(b.len() > 0);
        assert(b.contains(b[b.len() - 1]));
        assert(a.contains(b[b.len() - 1]));
        let k = choose|k: int| 0 <= k < a.len() && a[k] == b[b.len() - 1];
        assert(n == b.len() - 1 && k == a.len() - 1) by {
            if n < b.len() - 1 {
                assert(pair_before((b[n].0 as int, b[n].1 as int), (b[b.len() - 1].0 as int, b[b.len() - 1].1 as int)));
            }
            if k < a.len() - 1 {
                assert(pair_before((a[k].0 as int, a[k].1 as int), (a[a.len() - 1].0 as int, a[a.len() - 1].1 as int)));
            }
        }
        let (c, d) = (a.drop_last(), b.drop_last());
        assert forall|x: (usize, u32)| #[trigger] c.contains(x) <==> d.contains(x) by {
            if c.contains(x) {
                let i = choose|i: int| 0 <= i < c.len() && c[i] == x;
                assert(a[i] == x);
                assert(pair_before((a[i].0 as int, a[i].1 as int), (a[a.len() - 1].0 as int, a[a.len() - 1].1 as int)));
                assert(a.contains(x));
                let j = choose|j: int| 0 <= j < b.len() && b[j] == x;
                assert(j != b.len() - 1);
                assert(d[j] == x);
            }
            if d.contains(x) {
                let i = choose|i: int| 0 <= i < d.len() && d[i] == x;
                assert(b[i] == x);
                assert(pair_before((b[i].0 as int, b[i].1 as int), (b[b.len() - 1].0 as int, b[b.len() - 1].1 as int)));
                assert(b.contains(x));
                assert(a.contains(x));
                let j = choose|j: int| 0 <= j < a.len() && a[j] == x;
                assert(j != a.len() - 1);
                assert(c[j] == x);
            }
        }
        sorted_labels_unique(c, d);
        assert(a =~= c.push(a[a.len() - 1]));
        assert(b =~= d.push(b[b.len() - 1]));
    }
}

/// Insert a pair where it belongs; whether it was new.
pub fn insert_pair(v: &mut Vec<(usize, usize)>, x: (usize, usize)) -> (new: bool)
    requires
        sorted_pairs(old(v)@),
    ensures
        sorted_pairs(final(v)@),
        new == !old(v)@.contains(x),
        final(v)@.len() == old(v)@.len() + if new { 1int } else { 0int },
        forall|y: (usize, usize)| #[trigger]
            final(v)@.contains(y) <==> old(v)@.contains(y) || y == x,
{
    let mut i: usize = 0;
    while i < v.len() && (v[i].0 < x.0 || (v[i].0 == x.0 && v[i].1 < x.1))
        invariant
            i <= v@.len(),
            v@ == old(v)@,
            forall|j: int|
                0 <= j < i ==> pair_before(
                    ((#[trigger] v@[j]).0 as int, v@[j].1 as int),
                    (x.0 as int, x.1 as int),
                ),
        decreases v@.len() - i,
    {
        i += 1;
    }
    if i < v.len() && v[i].0 == x.0 && v[i].1 == x.1 {
        assert(v@[i as int] == x);
        return false;
    }
    let ghost s = v@;
    v.insert(i, x);
    proof {
        assert(v@ == s.insert(i as int, x));
        assert(!s.contains(x)) by {
            if s.contains(x) {
                let k = choose|k: int| 0 <= k < s.len() && s[k] == x;
                if i < s.len() && k > i {
                    assert(pair_before(
                        (s[i as int].0 as int, s[i as int].1 as int),
                        (s[k].0 as int, s[k].1 as int),
                    ));
                }
            }
        }
        assert forall|y: (usize, usize)| #[trigger] v@.contains(y) <==> s.contains(y) || y == x by {
            if v@.contains(y) {
                let k = choose|k: int| 0 <= k < v@.len() && v@[k] == y;
                if k < i {
                    assert(s[k] == y);
                } else if k > i {
                    assert(s[k - 1] == y);
                }
            }
            if s.contains(y) {
                let k = choose|k: int| 0 <= k < s.len() && s[k] == y;
                if k < i {
                    assert(v@[k] == y);
                } else {
                    assert(v@[k + 1] == y);
                }
            }
            if y == x {
                assert(v@[i as int] == x);
            }
        }
        assert forall|a: int, b: int| 0 <= a < b < v@.len() implies pair_before(
            (v@[a].0 as int, v@[a].1 as int),
            (v@[b].0 as int, v@[b].1 as int),
        ) by {
            let sa = if a < i { a } else { a - 1 };
            let sb = if b < i { b } else { b - 1 };
            if a != i && b != i {
                assert(v@[a] == s[sa] && v@[b] == s[sb]);
            } else if a == i {
                assert(v@[b] == s[b - 1]);
                if b - 1 > i {
                    assert(pair_before(
                        (s[i as int].0 as int, s[i as int].1 as int),
                        (s[b - 1].0 as int, s[b - 1].1 as int),
                    ));
                }
            } else {
                assert(v@[a] == s[a]);
            }
        }
    }
    true
}

/// Insert a label where it belongs; whether it was new.
pub fn insert_label(v: &mut Vec<(usize, u32)>, x: (usize, u32)) -> (new: bool)
    requires
        sorted_labels(old(v)@),
    ensures
        sorted_labels(final(v)@),
        new == !old(v)@.contains(x),
        final(v)@.len() == old(v)@.len() + if new { 1int } else { 0int },
        forall|y: (usize, u32)| #[trigger]
            final(v)@.contains(y) <==> old(v)@.contains(y) || y == x,
{
    let mut i: usize = 0;
    while i < v.len() && (v[i].0 < x.0 || (v[i].0 == x.0 && v[i].1 < x.1))
        invariant
            i <= v@.len(),
            v@ == old(v)@,
            forall|j: int|
                0 <= j < i ==> pair_before(
                    ((#[trigger] v@[j]).0 as int, v@[j].1 as int),
                    (x.0 as int, x.1 as int),
                ),
        decreases v@.len() - i,
    {
        i += 1;
    }
    if i < v.len() && v[i].0 == x.0 && v[i].1 == x.1 {
        assert(v@[i as int] == x);
        return false;
    }
    let ghost s = v@;
    v.insert(i, x);
    proof {
        assert(v@ == s.insert(i as int, x));
        assert(!s.contains(x)) by {
            if s.contains(x) {
                let k = choose|k: int| 0 <= k < s.len() && s[k] == x;
                if i < s.len() && k > i {
                    assert(pair_before(
                        (s[i as int].0 as int, s[i as int].1 as int),
                        (s[k].0 as int, s[k].1 as int),
                    ));
                }
            }
        }
        assert forall|y: (usize, u32)| #[trigger] v@.contains(y) <==> s.contains(y) || y == x by {
            if v@.contains(y) {
                let k = choose|k: int| 0 <= k < v@.len() && v@[k] == y;
                if k < i {
                    assert(s[k] == y);
                } else if k > i {
                    assert(s[k - 1] == y);
                }
            }
            if s.contains(y) {
                let k = choose|k: int| 0 <= k < s.len() && s[k] == y;
                if k < i {
                    assert(v@[k] == y);
                } else {
                    assert(v@[k + 1] == y);
                }
            }
            if y == x {
                assert(v@[i as int] == x);
            }
        }
        assert forall|a: int, b: int| 0 <= a < b < v@.len() implies pair_before(
            (v@[a].0 as int, v@[a].1 as int),
            (v@[b].0 as int, v@[b].1 as int),
        ) by {
            let sa = if a < i { a } else { a - 1 };
            let sb = if b < i { b } else { b - 1 };
            if a != i && b != i {
                assert(v@[a] == s[sa] && v@[b] == s[sb]);
            } else if a == i {
                assert(v@[b] == s[b - 1]);
                if b - 1 > i {
                    assert(pair_before(
                        (s[i as int].0 as int, s[i as int].1 as int),
                        (s[b - 1].0 as int, s[b - 1].1 as int),
                    ));
                }
            } else {
                assert(v@[a] == s[a]);
            }
        }
    }
    true
}

// ---- counters ----

/// A 64-bit sum that wraps around.
pub open spec fn wrap64(x: int) -> i64 {
    if x > i64::MAX {
        (x - 0x1_0000_0000_0000_0000) as i64
    } else if x < i64::MIN {
        (x + 0x1_0000_0000_0000_0000) as i64
    } else {
        x as i64
    }
}

/// Counters in strictly increasing order of their keys.
pub open spec fn sorted_counts(s: Seq<(usize, u32, i64)>) -> bool {
    forall|i: int, j: int|
        0 <= i < j < s.len() ==> pair_before(
            (s[i].0 as int, s[i].1 as int),
            (s[j].0 as int, s[j].1 as int),
        )
}

/// The counter of key `(p, q)`; 0 where there is none.
pub open spec fn count_at(s: Seq<(usize, u32, i64)>, p: usize, q: u32) -> i64
    decreases s.len(),
{
    if s.len() == 0 {
        0
    } else if s.last().0 == p && s.last().1 == q {
        s.last().2
    } else {
        count_at(s.drop_last(), p, q)
    }
}

/// The counters are the nonzero values of `net`, in order of their keys.
pub open spec fn lists_counts(s: Seq<(usize, u32, i64)>, net: spec_fn(usize, u32) -> i64) -> bool {
    &&& sorted_counts(s)
    &&& forall|i: int| 0 <= i < s.len() ==> (#[trigger] s[i]).2 != 0
    &&& forall|p: usize, q: u32| #[trigger] count_at(s, p, q) == net(p, q)
}

pub proof fn lemma_count_at_index(s: Seq<(usize, u32, i64)>, i: int)
    requires
        sorted_counts(s),
        0 <= i < s.len(),
    ensures
        count_at(s, s[i].0, s[i].1) == s[i].2,
    decreases s.len(),
{
    if i < s.len() - 1 {
        assert(pair_before(
            (s[i].0 as int, s[i].1 as int),
            (s[s.len() - 1].0 as int, s[s.len() - 1].1 as int),
        ));
        lemma_count_at_index(s.drop_last(), i);
    }
}

pub proof fn lemma_count_at_absent(s: Seq<(usize, u32, i64)>, p: usize, q: u32)
    requires
        forall|i: int| 0 <= i < s.len() ==> !((#[trigger] s[i]).0 == p && s[i].1 == q),
    ensures
        count_at(s, p, q) == 0,
    decreases s.len(),
{
    if s.len() > 0 {
        lemma_count_at_absent(s.drop_last(), p, q);
    }
}

/// Lists of the same nonzero counters are equal.
pub proof fn counts_unique(
    a: Seq<(usize, u32, i64)>,
    b: Seq<(usize, u32, i64)>,
    net: spec_fn(usize, u32) -> i64,
)
    requires
        lists_counts(a, net),
        lists_counts(b, net),
    ensures
        a == b,
    decreases a.len(),
{
    if a.len() == 0 {
        if b.len() > 0 {
            lemma_count_at_index(b, 0);
            assert(count_at(a, b[0].0, b[0].1) == net(b[0].0, b[0].1));
        }
        assert(a =~= b);
    } else {
        let x = a[a.len() - 1];
        lemma_count_at_index(a, a.len() - 1);
        assert(count_at(b, x.0, x.1) == net(x.0, x.1));
        if forall|i: int| 0 <= i < b.len() ==> !((#[trigger] b[i]).0 == x.0 && b[i].1 == x.1) {
            lemma_count_at_absent(b, x.0, x.1);
        }
        let n = choose|n: int| 0 <= n < b.len() && (#[trigger] b[n]).0 == x.0 && b[n].1 == x.1;
        lemma_count_at_index(b, n);
        let y = b[b.len() - 1];
        lemma_count_at_index(b, b.len() - 1);
        assert(count_at(a, y.0, y.1) == net(y.0, y.1));
        if forall|i: int| 0 <= i < a.len() ==> !((#[trigger] a[i]).0 == y.0 && a[i].1 == y.1) {
            lemma_count_at_absent(a, y.0, y.1);
        }
        let k = choose|k: int| 0 <= k < a.len() && (#[trigger] a[k]).0 == y.0 && a[k].1 == y.1;
        lemma_count_at_index(a, k);
        assert(n == b.len() - 1) by {
            if n < b.len() - 1 {
                assert(pair_before(
                    (b[n].0 as int, b[n].1 as int),
                    (b[b.len() - 1].0 as int, b[b.len() - 1].1 as int),
                ));
                if k < a.len() - 1 {
                    assert(pair_before(
                        (a[k].0 as int, a[k].1 as int),
                        (a[a.len() - 1].0 as int, a[a.len() - 1].1 as int),
                    ));
                }
            }
        }
        assert(x == y);
        let (c, d) = (a.drop_last(), b.drop_last());
        let rest = |p: usize, q: u32|
            if p == x.0 && q == x.1 {
                0i64
            } else {
                net(p, q)
            };
        assert forall|p: usize, q: u32| #[trigger] count_at(c, p, q) == rest(p, q) by {
            assert(count_at(a, p, q) == net(p, q));
            if p == x.0 && q == x.1 {
                assert forall|i: int| 0 <= i < c.len() implies !((#[trigger] c[i]).0 == p && c[i].1
                    == q) by {
                    assert(pair_before(
                        (a[i].0 as int, a[i].1 as int),
                        (a[a.len() - 1].0 as int, a[a.len() - 1].1 as int),
                    ));
                }
                lemma_count_at_absent(c, p, q);
            }
        }
        assert forall|p: usize, q: u32| #[trigger] count_at(d, p, q) == rest(p, q) by {
            assert(count_at(b, p, q) == net(p, q));
            if p == x.0 && q == x.1 {
                assert forall|i: int| 0 <= i < d.len() implies !((#[trigger] d[i]).0 == p && d[i].1
                    == q) by {
                    assert(pair_before(
                        (b[i].0 as int, b[i].1 as int),
                        (b[b.len() - 1].0 as int, b[b.len() - 1].1 as int),
                    ));
                }
                lemma_count_at_absent(d, p, q);
            }
        }
        counts_unique(c, d, rest);
        assert(a =~= c.push(x));
        assert(b =~= d.push(x));
    }
}

/// Add `d` to the counter of `(p, q)`.
pub fn bump(acc: &mut Vec<(usize, u32, i64)>, p: usize, q: u32, d: i64)
    requires
        sorted_counts(old(acc)@),
    ensures
        sorted_counts(final(acc)@),
        forall|x: usize, y: u32| #[trigger]
            count_at(final(acc)@, x, y) == if x == p && y == q {
                wrap64(count_at(old(acc)@, p, q) + d)
            } else {
                count_at(old(acc)@, x, y)
            },
{
    let mut i: usize = 0;
    while i < acc.len() && (acc[i].0 < p || (acc[i].0 == p && acc[i].1 < q))
        invariant
            i <= acc@.len(),
            acc@ == old(acc)@,
            forall|j: int|
                0 <= j < i ==> pair_before(
                    ((#[trigger] acc@[j]).0 as int, acc@[j].1 as int),
                    (p as int, q as int),
                ),
        decreases acc@.len() - i,
    {
        i += 1;
    }
    let ghost s = acc@;
    if i < acc.len() && acc[i].0 == p && acc[i].1 == q {
        let sum: i64 = acc[i].2.wrapping_add(d);
        acc.set(i, (p, q, sum));
        proof {
            lemma_count_at_index(s, i as int);
            assert forall|x: usize, y: u32| #[trigger]
                count_at(acc@, x, y) == if x == p && y == q {
                    wrap64(count_at(s, p, q) + d)
                } else {
                    count_at(s, x, y)
                } by {
                if x == p && y == q {
                    lemma_count_at_index(acc@, i as int);
                } else {
                    lemma_count_at_update(s, acc@, i as int, x, y);
                }
            }
        }
        return ;
    }
    acc.insert(i, (p, q, d));
    proof {
        assert(acc@ == s.insert(i as int, (p, q, d)));
        assert forall|a: int, b: int| 0 <= a < b < acc@.len() implies pair_before(
            (acc@[a].0 as int, acc@[a].1 as int),
            (acc@[b].0 as int, acc@[b].1 as int),
        ) by {
            let sa = if a < i { a } else { a - 1 };
            let sb = if b < i { b } else { b - 1 };
            if a != i && b != i {
                assert(acc@[a] == s[sa] && acc@[b] == s[sb]);
            } else if a == i {
                assert(acc@[b] == s[b - 1]);
                if b - 1 > i {
                    assert(pair_before(
                        (s[i as int].0 as int, s[i as int].1 as int),
                        (s[b - 1].0 as int, s[b - 1].1 as int),
                    ));
                }
            } else {
                assert(acc@[a] == s[a]);
            }
        }
        assert forall|x: usize, y: u32| #[trigger]
            count_at(acc@, x, y) == if x == p && y == q {
                wrap64(count_at(s, p, q) + d)
            } else {
                count_at(s, x, y)
            } by {
            if x == p && y == q {
                assert forall|j: int| 0 <= j < s.len() implies !((#[trigger] s[j]).0 == p && s[j].1
                    == q) by {
                    if j > i {
                        assert(pair_before(
                            (s[i as int].0 as int, s[i as int].1 as int),
                            (s[j].0 as int, s[j].1 as int),
                        ));
                    }
                }
                lemma_count_at_absent(s, p, q);
                lemma_count_at_index(acc@, i as int);
            } else {
                lemma_count_at_insert(s, i as int, (p, q, d), x, y);
            }
        }
    }
}

proof fn lemma_count_at_update(
    s: Seq<(usize, u32, i64)>,
    t: Seq<(usize, u32, i64)>,
    i: int,
    x: usize,
    y: u32,
)
    requires
        0 <= i < s.len(),
        s.len() == t.len(),
        forall|j: int| 0 <= j < s.len() && j != i ==> #[trigger] t[j] == s[j],
        !(s[i].0 == x && s[i].1 == y),
        !(t[i].0 == x && t[i].1 == y),
    ensures
        count_at(s, x, y) == count_at(t, x, y),
    decreases s.len(),
{
    if i == s.len() - 1 {
        assert(s.drop_last() =~= t.drop_last());
    } else {
        assert(t[s.len() - 1] == s[s.len() - 1]);
        lemma_count_at_update(s.drop_last(), t.drop_last(), i, x, y);
    }
}

proof fn lemma_count_at_insert(
    s: Seq<(usize, u32, i64)>,
    i: int,
    e: (usize, u32, i64),
    x: usize,
    y: u32,
)
    requires
        0 <= i <= s.len(),
        !(e.0 == x && e.1 == y),
    ensures
        count_at(s.insert(i, e), x, y) == count_at(s, x, y),
    decreases s.len(),
{
    let t = s.insert(i, e);
    if i == s.len() {
        assert(t.drop_last() =~= s);
    } else {
        assert(t.drop_last() =~= s.drop_last().insert(i, e));
        assert(t.last() == s.last());
        lemma_count_at_insert(s.drop_last(), i, e, x, y);
    }
}

/// `e` stands before index `i`.
spec fn stands_before(acc: Seq<(usize, u32, i64)>, i: int, e: (usize, u32, i64)) -> bool {
    exists|j: int| 0 <= j < i && #[trigger] acc[j] == e
}

/// The counters that are not zero.
pub fn nonzero(acc: &Vec<(usize, u32, i64)>) -> (r: Vec<(usize, u32, i64)>)
    requires
        sorted_counts(acc@),
    ensures
        sorted_counts(r@),
        forall|i: int| 0 <= i < r@.len() ==> (#[trigger] r@[i]).2 != 0,
        forall|x: usize, y: u32| #[trigger] count_at(r@, x, y) == count_at(acc@, x, y),
{
    let mut r: Vec<(usize, u32, i64)> = Vec::new();
    let mut i: usize = 0;
    while i < acc.len()
        invariant
            i <= acc@.len(),
            sorted_counts(acc@),
            sorted_counts(r@),
            forall|k: int| 0 <= k < r@.len() ==> (#[trigger] r@[k]).2 != 0,
            forall|k: int| 0 <= k < r@.len() ==> stands_before(acc@, i as int, #[trigger] r@[k]),
            forall|x: usize, y: u32| #[trigger]
                count_at(r@, x, y) == count_at(acc@.take(i as int), x, y),
        decreases acc@.len() - i,
    {
        let ghost before = r@;
        let e = acc[i];
        proof {
            assert(acc@.take(i + 1).drop_last() =~= acc@.take(i as int));
            assert(acc@.take(i + 1).last() == e);
        }
        if e.2 != 0 {
            r.push(e);
            assert(r@.drop_last() =~= before);
        }
        proof {
            assert forall|x: usize, y: u32| #[trigger]
                count_at(r@, x, y) == count_at(acc@.take(i + 1), x, y) by {
                assert(count_at(before, x, y) == count_at(acc@.take(i as int), x, y));
                if e.2 == 0 && e.0 == x && e.1 == y {
                    assert forall|k: int| 0 <= k < before.len() implies !((
                    #[trigger] before[k]).0 == x && before[k].1 == y) by {
                        assert(stands_before(acc@, i as int, before[k]));
                        let j = choose|j: int| 0 <= j < i && #[trigger] acc@[j] == before[k];
                        assert(pair_before(
                            (acc@[j].0 as int, acc@[j].1 as int),
                            (acc@[i as int].0 as int, acc@[i as int].1 as int),
                        ));
                    }
                    lemma_count_at_absent(before, x, y);
                }
            }
            assert forall|k: int| 0 <= k < r@.len() implies stands_before(
                acc@,
                i + 1,
                #[trigger] r@[k],
            ) by {
                if k < before.len() {
                    assert(before[k] == r@[k]);
                    assert(stands_before(acc@, i as int, before[k]));
                    let j = choose|j: int| 0 <= j < i && #[trigger] acc@[j] == before[k];
                    assert(acc@[j] == r@[k]);
                } else {
                    assert(acc@[i as int] == r@[k]);
                }
            }
            assert forall|a: int, b: int| 0 <= a < b < r@.len() implies pair_before(
                (r@[a].0 as int, r@[a].1 as int),
                (r@[b].0 as int, r@[b].1 as int),
            ) by {
                if b < before.len() {
                    assert(r@[a] == before[a] && r@[b] == before[b]);
                } else {
                    assert(r@[a] == before[a]);
                    assert(stands_before(acc@, i as int, before[a]));
                    let j = choose|j: int| 0 <= j < i && #[trigger] acc@[j] == before[a];
                    assert(pair_before(
                        (acc@[j].0 as int, acc@[j].1 as int),
                        (acc@[i as int].0 as int, acc@[i as int].1 as int),
                    ));
                }
            }
        }
        i += 1;
    }
    assert(acc@.take(acc@.len() as int) =~= acc@);
    r
}

} // verus!
