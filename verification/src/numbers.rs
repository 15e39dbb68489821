//! Tables by number.

use vstd::prelude::*;

verus! {

/// What stands last under each number.
pub open spec fn numbered<V>(s: Seq<(u32, V)>) -> Map<u32, V>
    decreases s.len(),
{
    if s.len() == 0 {
        Map::empty()
    } else {
        numbered(s.drop_last()).insert(s.last().0, s.last().1)
    }
}

/// What a table says of a number.
pub open spec fn at<V>(m: Map<u32, V>, n: u32) -> Option<V> {
    if m.contains_key(n) {
        Some(m[n])
    } else {
        None
    }
}

/// Adding an entry replaces what stood under its number.
pub proof fn lemma_numbered_push<V>(s: Seq<(u32, V)>, e: (u32, V))
    ensures
        numbered(s.push(e)) == numbered(s).insert(e.0, e.1),
{
    assert(s.push(e).drop_last() =~= s);
}

/// A table has the numbers of its entries.
pub proof fn lemma_numbered_has<V>(s: Seq<(u32, V)>, n: u32)
    ensures
        numbered(s).contains_key(n) <==> exists|i: int| 0 <= i < s.len() && (#[trigger] s[i]).0 == n,
    decreases s.len(),
{
    if s.len() > 0 {
        lemma_numbered_has(s.drop_last(), n);
        let t = s.drop_last();
        if s.last().0 == n {
            assert(s[s.len() - 1].0 == n);
        }
        if numbered(t).contains_key(n) {
            let i = choose|i: int| 0 <= i < t.len() && (#[trigger] t[i]).0 == n;
            assert(s[i].0 == n);
        }
        if exists|i: int| 0 <= i < s.len() && (#[trigger] s[i]).0 == n {
            let i = choose|i: int| 0 <= i < s.len() && (#[trigger] s[i]).0 == n;
            if i < t.len() {
                assert(t[i].0 == n);
            }
        }
    }
}

/// What stands last under a number.
pub fn find<'a, V>(s: &'a Vec<(u32, V)>, n: u32) -> (r: Option<&'a V>)
    ensures
        match r {
            Some(v) => at(numbered(s@), n) == Some(*v),
            None => at(numbered(s@), n) is None,
        },
{
    let mut k: usize = s.len();
    assert(s@.take(k as int) =~= s@);
    while k > 0
        invariant
            k <= s@.len(),
            at(numbered(s@), n) == at(numbered(s@.take(k as int)), n),
        decreases k,
    {
        k -= 1;
        assert(s@.take(k + 1).drop_last() =~= s@.take(k as int));
        if s[k].0 == n {
            return Some(&s[k].1);
        }
    }
    None
}

} // verus!
