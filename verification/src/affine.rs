//! Affine forms over a function's parameters.

use std::collections::BTreeMap;
use crate::sorted::{ascending, increasing, insert, lemma_ascending, numbers};
use vstd::prelude::*;
use vstd::std_specs::iter::IteratorSpec;

verus! {

broadcast use {vstd::std_specs::btree::group_btree_axioms, vstd::laws_cmp::group_laws_cmp};

/// An affine form `constant + Σ coeff_k · param_k` over a function's parameters,
/// which are identified by position.
#[derive(Debug, Clone, PartialEq, Eq)]
pub struct Affine {
    /// The constant term.
    pub constant: i128,
    /// `param index -> coefficient` (zero coefficients omitted).
    pub terms: BTreeMap<usize, i128>,
}

/// An affine form as a mathematical value.
pub struct AffineView {
    pub constant: i128,
    pub terms: Map<usize, i128>,
}

impl View for Affine {
    type V = AffineView;

    open spec fn view(&self) -> AffineView {
        AffineView { constant: self.constant, terms: self.terms@ }
    }
}

impl AffineView {
    /// The coefficient of parameter `k`.
    pub open spec fn coeff(self, k: usize) -> int {
        if self.terms.contains_key(k) {
            self.terms[k] as int
        } else {
            0
        }
    }

    /// Only nonzero coefficients are stored.
    pub open spec fn normal(self) -> bool {
        &&& self.terms.dom().finite()
        &&& forall|k: usize| #[trigger] self.terms.contains_key(k) ==> self.terms[k] != 0
    }

    /// The sum over the parameters in `s` of coefficient times value.
    pub open spec fn weigh(self, s: Set<usize>, p: spec_fn(usize) -> int) -> int
        decreases s.len(),
    {
        if s.finite() && s.len() > 0 {
            let k = s.choose();
            self.coeff(k) * p(k) + self.weigh(s.remove(k), p)
        } else {
            0
        }
    }

    /// The value of the form where parameter `k` has value `p(k)`.
    pub open spec fn at(self, p: spec_fn(usize) -> int) -> int {
        self.constant + self.weigh(self.terms.dom(), p)
    }

    /// This form is the sum of `a` and `b`.
    pub open spec fn is_sum(self, a: AffineView, b: AffineView) -> bool {
        &&& self.normal()
        &&& self.constant == a.constant + b.constant
        &&& forall|k: usize| #[trigger] self.coeff(k) == a.coeff(k) + b.coeff(k)
    }

    /// This form is the difference of `a` and `b`.
    pub open spec fn is_difference(self, a: AffineView, b: AffineView) -> bool {
        &&& self.normal()
        &&& self.constant == a.constant - b.constant
        &&& forall|k: usize| #[trigger] self.coeff(k) == a.coeff(k) - b.coeff(k)
    }

    /// This form is `c` times `a`.
    pub open spec fn is_multiple(self, a: AffineView, c: i128) -> bool {
        &&& self.normal()
        &&& self.constant == a.constant * c
        &&& forall|k: usize| #[trigger] self.coeff(k) == a.coeff(k) * c
    }
}

/// `x` fits in 128 bits.
pub open spec fn fits(x: int) -> bool {
    i128::MIN <= x <= i128::MAX
}

/// Forms with equal constants and coefficients are equal where both are normal.
pub proof fn normal_forms_are_unique(a: AffineView, b: AffineView)
    requires
        a.normal(),
        b.normal(),
        a.constant == b.constant,
        forall|k: usize| #[trigger] a.coeff(k) == b.coeff(k),
    ensures
        a == b,
{
    assert forall|k: usize| a.terms.contains_key(k) <==> b.terms.contains_key(k) by {
        assert(a.coeff(k) == b.coeff(k));
    }
    assert(a.terms =~= b.terms) by {
        assert forall|k: usize| a.terms.contains_key(k) implies a.terms[k] == b.terms[k] by {
            assert(a.coeff(k) == b.coeff(k));
        }
    }
}

pub(crate) proof fn lemma_weigh_remove(a: AffineView, s: Set<usize>, p: spec_fn(usize) -> int, k: usize)
    requires
        s.finite(),
        s.contains(k),
    ensures
        a.weigh(s, p) == a.coeff(k) * p(k) + a.weigh(s.remove(k), p),
    decreases s.len(),
{
    let c = s.choose();
    if c != k {
        lemma_weigh_remove(a, s.remove(c), p, k);
        lemma_weigh_remove(a, s.remove(k), p, c);
        assert(s.remove(c).remove(k) =~= s.remove(k).remove(c));
    }
}

/// Parameters with coefficient 0 weigh nothing.
proof fn lemma_weigh_more(a: AffineView, s: Set<usize>, t: Set<usize>, p: spec_fn(usize) -> int)
    requires
        s.finite(),
        t.finite(),
        s.subset_of(t),
        forall|k: usize| t.contains(k) && !s.contains(k) ==> #[trigger] a.coeff(k) == 0,
    ensures
        a.weigh(s, p) == a.weigh(t, p),
    decreases t.len(),
{
    if s =~= t {
    } else {
        let k = choose|k: usize| t.contains(k) && !s.contains(k);
        lemma_weigh_more(a, s, t.remove(k), p);
        lemma_weigh_remove(a, t, p, k);
        assert(a.coeff(k) * p(k) == 0) by (nonlinear_arith)
            requires
                a.coeff(k) == 0,
        ;
    }
}

proof fn lemma_weigh_combine(
    r: AffineView,
    a: AffineView,
    b: AffineView,
    x: int,
    y: int,
    s: Set<usize>,
    p: spec_fn(usize) -> int,
)
    requires
        s.finite(),
        forall|k: usize| #[trigger] r.coeff(k) == x * a.coeff(k) + y * b.coeff(k),
    ensures
        r.weigh(s, p) == x * a.weigh(s, p) + y * b.weigh(s, p),
    decreases s.len(),
{
    if s.len() > 0 {
        let k = s.choose();
        lemma_weigh_combine(r, a, b, x, y, s.remove(k), p);
        let (ra, aa, ba) = (r.coeff(k), a.coeff(k), b.coeff(k));
        let (aw, bw) = (a.weigh(s.remove(k), p), b.weigh(s.remove(k), p));
        let q = p(k);
        assert(ra * q == (x * aa) * q + (y * ba) * q) by (nonlinear_arith)
            requires
                ra == x * aa + y * ba,
        ;
        assert((x * aa) * q == x * (aa * q)) by (nonlinear_arith);
        assert((y * ba) * q == y * (ba * q)) by (nonlinear_arith);
        assert(x * (aa * q + aw) == x * (aa * q) + x * aw) by (nonlinear_arith);
        assert(y * (ba * q + bw) == y * (ba * q) + y * bw) by (nonlinear_arith);
    } else {
        assert(x * 0 + y * 0 == 0);
    }
}

proof fn lemma_combination_at(
    r: AffineView,
    a: AffineView,
    b: AffineView,
    x: int,
    y: int,
    p: spec_fn(usize) -> int,
)
    requires
        a.terms.dom().finite(),
        b.terms.dom().finite(),
        r.terms.dom().finite(),
        r.constant == x * a.constant + y * b.constant,
        forall|k: usize| #[trigger] r.coeff(k) == x * a.coeff(k) + y * b.coeff(k),
    ensures
        r.at(p) == x * a.at(p) + y * b.at(p),
{
    let all = a.terms.dom().union(b.terms.dom()).union(r.terms.dom());
    lemma_weigh_more(a, a.terms.dom(), all, p);
    lemma_weigh_more(b, b.terms.dom(), all, p);
    lemma_weigh_more(r, r.terms.dom(), all, p);
    lemma_weigh_combine(r, a, b, x, y, all, p);
    let (aw, bw) = (a.weigh(all, p), b.weigh(all, p));
    assert(x * (a.constant + aw) + y * (b.constant + bw) == (x * a.constant + y * b.constant) + (x
        * aw + y * bw)) by (nonlinear_arith);
}

/// A sum evaluates to the sum of the values.
pub proof fn sum_evaluates(r: AffineView, a: AffineView, b: AffineView, p: spec_fn(usize) -> int)
    requires
        a.terms.dom().finite(),
        b.terms.dom().finite(),
        r.is_sum(a, b),
    ensures
        r.at(p) == a.at(p) + b.at(p),
{
    lemma_combination_at(r, a, b, 1, 1, p);
}

/// A difference evaluates to the difference of the values.
pub proof fn difference_evaluates(
    r: AffineView,
    a: AffineView,
    b: AffineView,
    p: spec_fn(usize) -> int,
)
    requires
        a.terms.dom().finite(),
        b.terms.dom().finite(),
        r.is_difference(a, b),
    ensures
        r.at(p) == a.at(p) - b.at(p),
{
    lemma_combination_at(r, a, b, 1, -1, p);
}

/// A multiple evaluates to the multiple of the value.
pub proof fn multiple_evaluates(r: AffineView, a: AffineView, c: i128, p: spec_fn(usize) -> int)
    requires
        a.terms.dom().finite(),
        r.is_multiple(a, c),
    ensures
        r.at(p) == a.at(p) * c,
{
    assert(r.constant == c as int * a.constant + 0 * a.constant) by (nonlinear_arith)
        requires
            r.constant == a.constant * c,
    ;
    assert forall|k: usize| #[trigger] r.coeff(k) == c as int * a.coeff(k) + 0 * a.coeff(k) by {
        assert(r.coeff(k) == a.coeff(k) * c);
        let x = a.coeff(k);
        assert(x * c == c as int * x + 0 * x) by (nonlinear_arith);
    }
    lemma_combination_at(r, a, a, c as int, 0, p);
    let v = a.at(p);
    assert(c as int * v + 0 * v == v * c) by (nonlinear_arith);
}

/// The entries of a map, in order of their keys.
fn entries(m: &BTreeMap<usize, i128>) -> (v: Vec<(usize, i128)>)
    ensures
        forall|i: int|
            0 <= i < v@.len() ==> m@.contains_key((#[trigger] v@[i]).0) && m@[v@[i].0] == v@[i].1,
        forall|k: usize| #[trigger]
            m@.contains_key(k) ==> exists|i: int| 0 <= i < v@.len() && (#[trigger] v@[i]).0 == k,
        forall|i: int, j: int| 0 <= i < j < v@.len() ==> v@[i].0 != v@[j].0,
        v@.len() == m@.dom().len(),
{
    let mut v: Vec<(usize, i128)> = Vec::new();
    for kv in it: m.iter()
        invariant
            v@.len() == it.index(),
            forall|i: int|
                0 <= i < v@.len() ==> (#[trigger] v@[i]).0 == *it.seq()[i].0 && v@[i].1
                    == *it.seq()[i].1,
            it.seq() == vstd::std_specs::btree::spec_btree_map_iter(m).remaining(),
            it.seq().no_duplicates(),
            forall|i: int, j: int| 0 <= i < j < v@.len() ==> v@[i].0 != v@[j].0,
    {
        proof {
            let s = it.seq();
            let n = it.index();
            assert forall|i: int| 0 <= i < n implies v@[i].0 != *kv.0 by {
                assert(m@[*s[i].0] == *s[i].1);
                assert(m@[*s[n].0] == *s[n].1);
                assert(s[i] != s[n]);
            }
        }
        v.push((*kv.0, *kv.1));
    }
    proof {
        let s = vstd::std_specs::btree::spec_btree_map_iter(m).remaining();
        assert forall|k: usize| #[trigger] m@.contains_key(k) implies exists|i: int|
            0 <= i < v@.len() && (#[trigger] v@[i]).0 == k by {
            assert(s.contains((&k, &m@[k])));
            let i = choose|i: int| 0 <= i < s.len() && s[i] == (&k, &m@[k]);
            assert(v@[i].0 == k);
        }
    }
    v
}

/// The parameters that occur, in ascending order.
pub open spec fn params_in(terms: Map<usize, i128>) -> Seq<int> {
    ascending(|k: int| terms.contains_key(k as usize), (usize::MAX + 1) as nat)
}

impl Affine {
    /// The coefficient of a parameter that occurs.
    pub fn coefficient(&self, k: usize) -> (c: i128)
        requires
            self@.terms.contains_key(k),
        ensures
            c == self@.terms[k],
    {
        match self.terms.get(&k) {
            Some(c) => *c,
            None => 0,
        }
    }

    /// The parameters that occur, in ascending order.
    pub fn params(&self) -> (v: Vec<usize>)
        ensures
            numbers(v@) == params_in(self@.terms),
            forall|i: int| 0 <= i < v@.len() ==> self@.terms.contains_key(#[trigger] v@[i]),
    {
        let es = entries(&self.terms);
        let mut v: Vec<usize> = Vec::new();
        let mut i: usize = 0;
        while i < es.len()
            invariant
                i <= es@.len(),
                increasing(numbers(v@)),
                forall|y: usize| #[trigger]
                    v@.contains(y) <==> exists|k: int| 0 <= k < i && (#[trigger] es@[k]).0 == y,
            decreases es@.len() - i,
        {
            let ghost before = v@;
            insert(&mut v, es[i].0);
            proof {
                assert forall|y: usize| #[trigger] v@.contains(y) <==> exists|k: int|
                    0 <= k < i + 1 && (#[trigger] es@[k]).0 == y by {
                    if before.contains(y) {
                        let k = choose|k: int| 0 <= k < i && (#[trigger] es@[k]).0 == y;
                        assert(es@[k].0 == y);
                    }
                    if y == es@[i as int].0 {
                        assert(es@[i as int].0 == y);
                    }
                }
            }
            i += 1;
        }
        proof {
            let s = numbers(v@);
            let p = |k: int| self@.terms.contains_key(k as usize);
            let n = (usize::MAX + 1) as nat;
            assert forall|x: int| #[trigger] s.contains(x) <==> 0 <= x < n && p(x) by {
                if s.contains(x) {
                    let j = choose|j: int| 0 <= j < s.len() && s[j] == x;
                    assert(v@.contains(v@[j]));
                }
                if 0 <= x < n && p(x) {
                    let y = x as usize;
                    assert(self.terms@.contains_key(y));
                    assert(v@.contains(y));
                    let j = choose|j: int| 0 <= j < v@.len() && v@[j] == y;
                    assert(s[j] == x);
                }
            }
            lemma_ascending(p, n, s);
            assert forall|i: int| 0 <= i < v@.len() implies self@.terms.contains_key(
                #[trigger] v@[i],
            ) by {
                assert(v@.contains(v@[i]));
            }
        }
        v
    }
}

impl Affine {
    /// The constant form.
    pub fn constant(c: i128) -> (a: Affine)
        ensures
            a@.normal(),
            a@.constant == c,
            forall|k: usize| #[trigger] a@.coeff(k) == 0,
            a@ == (AffineView { constant: c, terms: Map::empty() }),
    {
        Affine { constant: c, terms: BTreeMap::new() }
    }

    /// The bare parameter `k`.
    pub fn param(k: usize) -> (a: Affine)
        ensures
            a@.normal(),
            a@.constant == 0,
            forall|j: usize| #[trigger] a@.coeff(j) == if j == k { 1int } else { 0int },
            a@ == (AffineView { constant: 0, terms: Map::empty().insert(k, 1i128) }),
    {
        let mut terms: BTreeMap<usize, i128> = BTreeMap::new();
        terms.insert(k, 1);
        Affine { constant: 0, terms }
    }

    /// A copy of the form.
    pub fn copy(&self) -> (a: Affine)
        ensures
            a@ == self@,
    {
        Affine { constant: self.constant, terms: self.terms.clone() }
    }

    /// Whether two forms have the same constant and the same stored terms.
    pub fn same(&self, o: &Affine) -> (r: bool)
        ensures
            r == (self@ == o@),
    {
        if self.constant != o.constant || self.terms.len() != o.terms.len() {
            return false;
        }
        let v = entries(&self.terms);
        let mut i: usize = 0;
        while i < v.len()
            invariant
                i <= v@.len(),
                forall|j: int|
                    0 <= j < v@.len() ==> self.terms@.contains_key((#[trigger] v@[j]).0)
                        && self.terms@[v@[j].0] == v@[j].1,
                forall|j: int|
                    0 <= j < i ==> o.terms@.contains_key((#[trigger] v@[j]).0)
                        && o.terms@[v@[j].0] == v@[j].1,
            decreases v@.len() - i,
        {
            match o.terms.get(&v[i].0) {
                Some(c) => {
                    if *c != v[i].1 {
                        return false;
                    }
                },
                None => {
                    return false;
                },
            }
            i += 1;
        }
        proof {
            assert(self.terms@.dom().subset_of(o.terms@.dom())) by {
                assert forall|k: usize| self.terms@.contains_key(k) implies o.terms@.contains_key(
                    k,
                ) by {
                    let j = choose|j: int| 0 <= j < v@.len() && (#[trigger] v@[j]).0 == k;
                    assert(o.terms@.contains_key(v@[j].0));
                }
            }
            vstd::set_lib::lemma_subset_equality(self.terms@.dom(), o.terms@.dom());
            assert(self.terms@ =~= o.terms@) by {
                assert forall|k: usize| self.terms@.contains_key(k) implies self.terms@[k]
                    == o.terms@[k] by {
                    let j = choose|j: int| 0 <= j < v@.len() && (#[trigger] v@[j]).0 == k;
                    assert(o.terms@[v@[j].0] == v@[j].1);
                }
            }
        }
        true
    }

    /// The form without zero coefficients.
    pub fn normalized(self) -> (a: Affine)
        ensures
            a@.normal(),
            a@.constant == self@.constant,
            forall|k: usize| #[trigger] a@.coeff(k) == self@.coeff(k),
    {
        let v = entries(&self.terms);
        let mut terms: BTreeMap<usize, i128> = BTreeMap::new();
        let mut i: usize = 0;
        while i < v.len()
            invariant
                i <= v@.len(),
                forall|p: int, q: int| 0 <= p < q < v@.len() ==> v@[p].0 != v@[q].0,
                forall|k: usize| #[trigger]
                    terms@.contains_key(k) ==> terms@[k] != 0 && exists|j: int|
                        0 <= j < i && (#[trigger] v@[j]).0 == k && v@[j].1 == terms@[k],
                forall|j: int|
                    0 <= j < i && (#[trigger] v@[j]).1 != 0 ==> terms@.contains_key(v@[j].0)
                        && terms@[v@[j].0] == v@[j].1,
            decreases v@.len() - i,
        {
            let ghost before = terms@;
            if v[i].1 != 0 {
                terms.insert(v[i].0, v[i].1);
            }
            proof {
                assert forall|k: usize| #[trigger] terms@.contains_key(k) implies terms@[k] != 0
                    && exists|j: int|
                    0 <= j < i + 1 && (#[trigger] v@[j]).0 == k && v@[j].1 == terms@[k] by {
                    if v@[i as int].1 != 0 && k == v@[i as int].0 {
                        assert(v@[i as int].0 == k);
                    } else {
                        assert(before.contains_key(k));
                        let j = choose|j: int|
                            0 <= j < i && (#[trigger] v@[j]).0 == k && v@[j].1 == before[k];
                        assert(v@[j].0 == k);
                    }
                }
            }
            i += 1;
        }
        let a = Affine { constant: self.constant, terms };
        proof {
            assert forall|k: usize| #[trigger] a@.coeff(k) == self@.coeff(k) by {
                if self.terms@.contains_key(k) {
                    let j = choose|j: int| 0 <= j < v@.len() && (#[trigger] v@[j]).0 == k;
                    assert(self.terms@[v@[j].0] == v@[j].1);
                    if a@.terms.contains_key(k) {
                        let q = choose|q: int|
                            0 <= q < v@.len() && (#[trigger] v@[q]).0 == k && v@[q].1
                                == terms@[k];
                        assert(q == j);
                    }
                } else if a@.terms.contains_key(k) {
                    let q = choose|q: int|
                        0 <= q < v@.len() && (#[trigger] v@[q]).0 == k && v@[q].1 == terms@[k];
                    assert(self.terms@.contains_key(v@[q].0));
                }
            }
        }
        a
    }

    /// The sum, unless a constant or a coefficient overflows.
    pub fn add(&self, o: &Affine) -> (r: Option<Affine>)
        ensures
            match r {
                Some(s) => s@.is_sum(self@, o@),
                None => !fits(self@.constant + o@.constant) || exists|k: usize|
                    o@.terms.contains_key(k) && !fits(#[trigger] self@.coeff(k) + o@.coeff(k)),
            },
    {
        let constant: i128 = match self.constant.checked_add(o.constant) {
            Some(c) => c,
            None => {
                return None;
            },
        };
        let mut out = Affine { constant, terms: self.terms.clone() };
        let v = entries(&o.terms);
        let mut i: usize = 0;
        while i < v.len()
            invariant
                i <= v@.len(),
                out.constant == constant,
                forall|p: int, q: int| 0 <= p < q < v@.len() ==> v@[p].0 != v@[q].0,
                forall|j: int|
                    0 <= j < v@.len() ==> o.terms@.contains_key((#[trigger] v@[j]).0)
                        && o.terms@[v@[j].0] == v@[j].1,
                forall|k: usize|
                    (forall|j: int| 0 <= j < i ==> (#[trigger] v@[j]).0 != k) ==> #[trigger] out@.coeff(
                        k,
                    ) == self@.coeff(k),
                forall|j: int|
                    0 <= j < i ==> out@.coeff((#[trigger] v@[j]).0) == self@.coeff(v@[j].0)
                        + v@[j].1,
            decreases v@.len() - i,
        {
            let k: usize = v[i].0;
            let c: i128 = match out.terms.get(&k) {
                Some(c) => *c,
                None => 0,
            };
            let ghost before = out@;
            assert(before.coeff(k) == self@.coeff(k));
            assert(c == self@.coeff(k));
            let sum: i128 = match c.checked_add(v[i].1) {
                Some(s) => s,
                None => {
                    assert(o@.coeff(v@[i as int].0) == v@[i as int].1);
                    return None;
                },
            };
            out.terms.insert(k, sum);
            proof {
                assert forall|x: usize|
                    (forall|j: int| 0 <= j < i + 1 ==> (#[trigger] v@[j]).0 != x) implies #[trigger] out@.coeff(
                x) == self@.coeff(x) by {
                    assert(v@[i as int].0 != x);
                    assert(before.coeff(x) == self@.coeff(x));
                }
                assert forall|j: int| 0 <= j < i + 1 implies out@.coeff((#[trigger] v@[j]).0)
                    == self@.coeff(v@[j].0) + v@[j].1 by {
                    if j < i {
                        assert(v@[j].0 != k);
                        assert(before.coeff(v@[j].0) == self@.coeff(v@[j].0) + v@[j].1);
                    }
                }
            }
            i += 1;
        }
        proof {
            assert forall|k: usize| #[trigger] out@.coeff(k) == self@.coeff(k) + o@.coeff(k) by {
                if o.terms@.contains_key(k) {
                    let j = choose|j: int| 0 <= j < v@.len() && (#[trigger] v@[j]).0 == k;
                    assert(out@.coeff(v@[j].0) == self@.coeff(v@[j].0) + v@[j].1);
                    assert(o.terms@[v@[j].0] == v@[j].1);
                } else {
                    assert forall|j: int| 0 <= j < v@.len() implies (#[trigger] v@[j]).0 != k by {
                        assert(o.terms@.contains_key(v@[j].0));
                    }
                }
            }
        }
        let ghost raw = out@;
        let r = out.normalized();
        proof {
            assert forall|k: usize| #[trigger] r@.coeff(k) == self@.coeff(k) + o@.coeff(k) by {
                assert(raw.coeff(k) == self@.coeff(k) + o@.coeff(k));
            }
        }
        Some(r)
    }

    /// The form times `c`, unless the constant or a coefficient overflows.
    pub fn scale(&self, c: i128) -> (r: Option<Affine>)
        ensures
            match r {
                Some(s) => s@.is_multiple(self@, c),
                None => !fits(self@.constant * c) || exists|k: usize|
                    self@.terms.contains_key(k) && !fits(#[trigger] self@.coeff(k) * c),
            },
    {
        let constant: i128 = match self.constant.checked_mul(c) {
            Some(x) => x,
            None => {
                return None;
            },
        };
        let mut out = Affine::constant(constant);
        let v = entries(&self.terms);
        let mut i: usize = 0;
        while i < v.len()
            invariant
                i <= v@.len(),
                out.constant == constant,
                forall|p: int, q: int| 0 <= p < q < v@.len() ==> v@[p].0 != v@[q].0,
                forall|j: int|
                    0 <= j < v@.len() ==> self.terms@.contains_key((#[trigger] v@[j]).0)
                        && self.terms@[v@[j].0] == v@[j].1,
                forall|k: usize|
                    (forall|j: int| 0 <= j < i ==> (#[trigger] v@[j]).0 != k) ==> #[trigger] out@.coeff(
                        k,
                    ) == 0,
                forall|j: int|
                    0 <= j < i ==> out@.coeff((#[trigger] v@[j]).0) == v@[j].1 * c,
            decreases v@.len() - i,
        {
            let k: usize = v[i].0;
            let ghost before = out@;
            let x: i128 = match v[i].1.checked_mul(c) {
                Some(x) => x,
                None => {
                    assert(self@.coeff(v@[i as int].0) == v@[i as int].1);
                    return None;
                },
            };
            out.terms.insert(k, x);
            proof {
                assert forall|y: usize|
                    (forall|j: int| 0 <= j < i + 1 ==> (#[trigger] v@[j]).0 != y) implies #[trigger] out@.coeff(
                y) == 0 by {
                    assert(v@[i as int].0 != y);
                    assert(before.coeff(y) == 0);
                }
                assert forall|j: int| 0 <= j < i + 1 implies out@.coeff((#[trigger] v@[j]).0)
                    == v@[j].1 * c by {
                    if j < i {
                        assert(v@[j].0 != k);
                        assert(before.coeff(v@[j].0) == v@[j].1 * c);
                    }
                }
            }
            i += 1;
        }
        proof {
            assert forall|k: usize| #[trigger] out@.coeff(k) == self@.coeff(k) * c by {
                if self.terms@.contains_key(k) {
                    let j = choose|j: int| 0 <= j < v@.len() && (#[trigger] v@[j]).0 == k;
                    assert(out@.coeff(v@[j].0) == v@[j].1 * c);
                    assert(self.terms@[v@[j].0] == v@[j].1);
                } else {
                    assert forall|j: int| 0 <= j < v@.len() implies (#[trigger] v@[j]).0 != k by {
                        assert(self.terms@.contains_key(v@[j].0));
                    }
                    assert(0 * c == 0);
                }
            }
        }
        let ghost raw = out@;
        let r = out.normalized();
        proof {
            assert forall|k: usize| #[trigger] r@.coeff(k) == self@.coeff(k) * c by {
                assert(raw.coeff(k) == self@.coeff(k) * c);
            }
        }
        Some(r)
    }

    /// The difference, unless negating `o` or adding overflows.
    pub fn sub(&self, o: &Affine) -> (r: Option<Affine>)
        ensures
            match r {
                Some(d) => d@.is_difference(self@, o@),
                None => {
                    ||| !fits(-o@.constant)
                    ||| !fits(self@.constant - o@.constant)
                    ||| exists|k: usize|
                        o@.terms.contains_key(k) && (!fits(-#[trigger] o@.coeff(k)) || !fits(
                            self@.coeff(k) - o@.coeff(k),
                        ))
                },
            },
    {
        match o.scale(-1) {
            None => {
                proof {
                    if fits(-o@.constant) {
                        let k = choose|k: usize|
                            o@.terms.contains_key(k) && !fits(#[trigger] o@.coeff(k) * -1);
                        assert(!fits(-o@.coeff(k)));
                    }
                }
                None
            },
            Some(n) => {
                let r = self.add(&n);
                proof {
                    assert forall|k: usize| #[trigger] n@.coeff(k) == -o@.coeff(k) by {
                        assert(n@.coeff(k) == o@.coeff(k) * -1);
                    }
                    match &r {
                        Some(d) => {
                            assert forall|k: usize| #[trigger] d@.coeff(k) == self@.coeff(k)
                                - o@.coeff(k) by {
                                assert(n@.coeff(k) == -o@.coeff(k));
                            }
                        },
                        None => {
                            if fits(self@.constant + n@.constant) {
                                let k = choose|k: usize|
                                    n@.terms.contains_key(k) && !fits(
                                        #[trigger] self@.coeff(k) + n@.coeff(k),
                                    );
                                assert(n@.coeff(k) == -o@.coeff(k));
                                assert(o@.terms.contains_key(k));
                                assert(!fits(self@.coeff(k) - o@.coeff(k)));
                            }
                        },
                    }
                }
                r
            },
        }
    }

    /// The constant, where no parameter occurs.
    pub fn as_const(&self) -> (r: Option<i128>)
        ensures
            r == if self@.terms.dom().len() == 0 {
                Some(self@.constant)
            } else {
                None
            },
    {
        if self.terms.is_empty() {
            Some(self.constant)
        } else {
            None
        }
    }
}

impl Default for Affine {
    fn default() -> (a: Affine)
        ensures
            a@ == (AffineView { constant: 0, terms: Map::empty() }),
    {
        Affine { constant: 0, terms: BTreeMap::new() }
    }
}

} // verus!
