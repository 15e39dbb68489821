//! How long a search takes: a bound by the number of variables, and what is spent of it.

use super::{low_bit, Pace};
use vstd::arithmetic::power2::{
    lemma2_to64, lemma_pow2_adds, lemma_pow2_pos, lemma_pow2_strictly_increases, lemma_pow2_unfold,
    pow2,
};
use vstd::prelude::*;

verus! {

// ---- the weight of a trail ----

/// A level opens at position `j` of the trail.
pub open spec fn opens(lim: Seq<usize>, j: int) -> bool {
    exists|a: int| 0 <= a < lim.len() && #[trigger] lim[a] == j
}

/// The weight of the first `len` positions of a trail over `n` variables: a position that
/// opens no level weighs as much as all later ones together, and one more.
pub open spec fn weight(n: int, lim: Seq<usize>, len: int) -> int
    decreases len,
{
    if len <= 0 {
        0
    } else {
        weight(n, lim, len - 1) + if opens(lim, len - 1) {
            0
        } else {
            pow2((n - len) as nat) as int
        }
    }
}

pub proof fn lemma_weight_grows(n: int, lim: Seq<usize>, a: int, b: int)
    requires
        0 <= a <= b <= n,
    ensures
        weight(n, lim, a) <= weight(n, lim, b),
        weight(n, lim, b) - weight(n, lim, a) <= pow2((n - a) as nat) - pow2((n - b) as nat),
    decreases b - a,
{
    if a < b {
        lemma_weight_grows(n, lim, a, b - 1);
        lemma_pow2_unfold((n - b + 1) as nat);
        lemma_pow2_pos((n - b) as nat);
    }
}

pub proof fn lemma_weight_bound(n: int, lim: Seq<usize>, len: int)
    requires
        0 <= len <= n,
    ensures
        0 <= weight(n, lim, len) <= pow2(n as nat) - 1,
{
    lemma_weight_grows(n, lim, 0, len);
    lemma_pow2_pos((n - len) as nat);
}

proof fn lemma_weight_alike(n: int, a: Seq<usize>, b: Seq<usize>, len: int)
    requires
        forall|j: int| 0 <= j < len ==> #[trigger] opens(a, j) == opens(b, j),
    ensures
        weight(n, a, len) == weight(n, b, len),
    decreases len,
{
    if len > 0 {
        lemma_weight_alike(n, a, b, len - 1);
        assert(opens(a, len - 1) == opens(b, len - 1));
    }
}

/// Opening a level leaves the weight as it is.
pub proof fn lemma_weight_opened(n: int, lim: Seq<usize>, len: usize)
    ensures
        weight(n, lim.push(len), len + 1) == weight(n, lim, len as int),
{
    let more = lim.push(len);
    assert(more[lim.len() as int] == len);
    assert(opens(more, len as int));
    assert forall|j: int| 0 <= j < len implies #[trigger] opens(more, j) == opens(lim, j) by {
        if opens(more, j) {
            let a = choose|a: int| 0 <= a < more.len() && #[trigger] more[a] == j;
            assert(lim[a] == j);
        }
        if opens(lim, j) {
            let a = choose|a: int| 0 <= a < lim.len() && #[trigger] lim[a] == j;
            assert(more[a] == j);
        }
    }
    lemma_weight_alike(n, more, lim, len as int);
}

/// Going back to a level and forcing a literal there adds to the weight.
pub proof fn lemma_weight_learnt(n: int, lim: Seq<usize>, len: int, b: int)
    requires
        0 <= b < lim.len(),
        forall|x: int, y: int| 0 <= x < y < lim.len() ==> lim[x] < lim[y],
        lim[b] < len <= n,
    ensures
        weight(n, lim.take(b), lim[b] + 1) > weight(n, lim, len),
{
    let p = lim[b] as int;
    let less = lim.take(b);
    assert forall|j: int| 0 <= j < p implies #[trigger] opens(less, j) == opens(lim, j) by {
        if opens(lim, j) {
            let a = choose|a: int| 0 <= a < lim.len() && #[trigger] lim[a] == j;
            assert(a < b) by {
                if a > b {
                    assert(lim[b] < lim[a]);
                }
            }
            assert(less[a] == j);
        }
        if opens(less, j) {
            let a = choose|a: int| 0 <= a < less.len() && #[trigger] less[a] == j;
            assert(lim[a] == j);
        }
    }
    lemma_weight_alike(n, less, lim, p);
    assert(!opens(less, p)) by {
        if opens(less, p) {
            let a = choose|a: int| 0 <= a < less.len() && #[trigger] less[a] == p;
            assert(lim[a] < lim[b]);
        }
    }
    assert(opens(lim, p)) by {
        assert(lim[b] == p);
    }
    lemma_weight_grows(n, lim, p + 1, len);
    lemma_pow2_pos((n - len) as nat);
}

// ---- restarts ----

/// A bound on the restarts of a search over `n` variables.
pub open spec fn restart_bound(n: nat) -> nat {
    if n < 5 {
        0
    } else {
        pow2((n - 5) as nat) * ((n - 4) as nat)
    }
}

/// A bound on the decisions and conflicts of a search over `n` variables.
pub open spec fn search_bound(n: nat) -> nat {
    (restart_bound(n) + 1) * ((n + 1) * pow2(n))
}

/// The place of the restart sequence after the restarts so far, where `e` doublings were
/// made of its last term.
pub(super) open spec fn placed(n: nat, p: Pace, e: nat) -> bool {
    &&& p.luby_v == pow2(e)
    &&& e <= n - 5
    &&& p.luby_u >= 1
    &&& p.luby_u <= pow2((n - 5) as nat)
    &&& p.restarts <= (p.luby_u - 1) * (n - 4) + e
}

/// The restarts so far are few for the number of variables.
pub(super) open spec fn few(n: nat, p: Pace) -> bool {
    if n < 5 {
        p.restarts == 0
    } else {
        exists|e: nat| placed(n, p, e)
    }
}

pub(super) proof fn lemma_few_start(n: nat, p: Pace)
    requires
        p.restarts == 0,
        p.luby_u == 1,
        p.luby_v == 1,
    ensures
        few(n, p),
{
    lemma2_to64();
    if n >= 5 {
        lemma_pow2_pos((n - 5) as nat);
        assert((p.luby_u - 1) * (n - 4) == 0) by (nonlinear_arith)
            requires
                p.luby_u == 1,
        ;
        assert(placed(n, p, 0));
    }
}

pub(super) proof fn lemma_few_alike(n: nat, p: Pace, q: Pace)
    requires
        few(n, p),
        q.restarts == p.restarts,
        q.luby_u == p.luby_u,
        q.luby_v == p.luby_v,
    ensures
        few(n, q),
{
    if n >= 5 {
        let e = choose|e: nat| placed(n, p, e);
        assert(placed(n, q, e));
    }
}

pub(super) proof fn lemma_few_bound(n: nat, p: Pace)
    requires
        few(n, p),
    ensures
        p.restarts <= restart_bound(n),
{
    if n >= 5 {
        let e = choose|e: nat| placed(n, p, e);
        let u = p.luby_u as int;
        let top = pow2((n - 5) as nat) as int;
        assert((u - 1) * (n - 4) + e <= top * (n - 4)) by (nonlinear_arith)
            requires
                1 <= u <= top,
                e <= n - 5,
                n >= 5,
        ;
    }
}

proof fn lemma_pow2_single_bit(k: nat)
    requires
        k < 64,
    ensures
        0 < pow2(k) <= 0x8000_0000_0000_0000,
        low_bit(pow2(k) as u64) == pow2(k),
    decreases k,
{
    lemma2_to64();
    if k == 0 {
        assert(1u64 & ((!1u64 + 1) as u64) == 1u64) by (bit_vector);
    } else {
        lemma_pow2_single_bit((k - 1) as nat);
        lemma_pow2_unfold(k);
        lemma_pow2_pos(k);
        lemma_pow2_unfold(64);
        if k < 63 {
            lemma_pow2_strictly_increases(k, 63);
        }
        let x = pow2((k - 1) as nat) as u64;
        let y = pow2(k) as u64;
        assert(y & ((!y + 1) as u64) == y) by (bit_vector)
            requires
                x & ((!x + 1) as u64) == x,
                x != 0,
                x <= 0x4000_0000_0000_0000,
                y == (x + x) as u64,
        ;
    }
}

/// A restart keeps the restarts few: it comes after more conflicts than the sequence asks
/// for, and there are at most `pow2(n) - 1` of them.
pub(super) proof fn lemma_few_kept(n: nat, p: Pace, q: Pace)
    requires
        few(n, p),
        p.luby_v >= 1,
        50 * p.luby_v <= pow2(n) - 1,
        p.luby_u < u64::MAX,
        q.restarts == p.restarts + 1,
        low_bit(p.luby_u) == p.luby_v ==> q.luby_u == p.luby_u + 1 && q.luby_v == 1,
        low_bit(p.luby_u) != p.luby_v ==> q.luby_u == p.luby_u && q.luby_v == 2 * p.luby_v,
    ensures
        few(n, q),
{
    lemma2_to64();
    if n < 5 {
        if n < 4 {
            lemma_pow2_strictly_increases(n, 4);
        }
        assert(pow2(4) == 16);
        assert(false);
    } else {
        let e = choose|e: nat| placed(n, p, e);
        let k = (n - 5) as nat;
        lemma_pow2_adds(k, 5);
        assert(pow2(5) == 32);
        assert(pow2(n) == pow2(k) * 32);
        assert(e < k) by {
            if e == k {
                lemma_pow2_pos(k);
                assert(50 * pow2(k) <= 32 * pow2(k) - 1);
            }
        }
        let u = p.luby_u as int;
        if low_bit(p.luby_u) == p.luby_v {
            assert(u + 1 <= pow2(k)) by {
                if u == pow2(k) {
                    assert(k < 64) by {
                        if k >= 64 {
                            if k > 64 {
                                lemma_pow2_strictly_increases(64, k);
                            }
                        }
                    }
                    lemma_pow2_single_bit(k);
                    lemma_pow2_strictly_increases(e, k);
                }
            }
            assert(p.restarts + 1 <= u * (n - 4)) by (nonlinear_arith)
                requires
                    p.restarts <= (u - 1) * (n - 4) + e,
                    e < n - 5,
            ;
            assert(placed(n, q, 0));
        } else {
            lemma_pow2_unfold(e + 1);
            assert(placed(n, q, e + 1));
        }
    }
}

// ---- the bound ----

/// What is spent stays below the bound.
pub(super) proof fn lemma_effort(
    n: nat,
    restarts: int,
    conflicts: int,
    since: int,
    decisions: int,
    level: int,
)
    requires
        0 <= restarts <= restart_bound(n),
        0 <= conflicts,
        0 <= decisions,
        since <= pow2(n) - 1,
        conflicts <= restarts * (pow2(n) - 1) + since,
        decisions <= n * (conflicts + restarts) + level,
        level <= n,
    ensures
        decisions + conflicts + 1 <= search_bound(n),
{
    let p = pow2(n) as int;
    let k = restarts + 1;
    let b = restart_bound(n) as int;
    lemma_pow2_pos(n);
    assert(conflicts <= k * (p - 1)) by (nonlinear_arith)
        requires
            conflicts <= restarts * (p - 1) + since,
            since <= p - 1,
            k == restarts + 1,
    ;
    assert(n * conflicts <= n * (k * (p - 1))) by (nonlinear_arith)
        requires
            0 <= n,
            conflicts <= k * (p - 1),
    ;
    assert(n * (conflicts + restarts) == n * conflicts + n * restarts) by (nonlinear_arith);
    assert(n * (k * (p - 1)) + n * restarts + n + k * (p - 1) + k == k * ((n + 1) * p))
        by (nonlinear_arith)
        requires
            k == restarts + 1,
    ;
    assert(decisions + conflicts + k <= k * ((n + 1) * p));
    assert(k * ((n + 1) * p) <= (b + 1) * ((n + 1) * p)) by (nonlinear_arith)
        requires
            k <= b + 1,
            0 <= (n + 1) * p,
            0 <= k,
    ;
}

/// A conflict adds at most as many decisions as there are variables.
pub(super) proof fn lemma_conflict_effort(
    n: int,
    conflicts: int,
    restarts: int,
    decisions: int,
    from: int,
    to: int,
)
    requires
        0 <= to,
        from <= n,
        decisions <= n * (conflicts + restarts) + from,
    ensures
        decisions <= n * (conflicts + 1 + restarts) + to,
{
    assert(n * (conflicts + 1 + restarts) == n * (conflicts + restarts) + n) by (nonlinear_arith);
}

} // verus!
