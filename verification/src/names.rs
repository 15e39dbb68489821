//! Tables by name.

use crate::text::{chars_of, same_text};
use vstd::prelude::*;

verus! {

/// What stands last under each name.
pub open spec fn table<V>(s: Seq<(String, V)>) -> Map<Seq<char>, V>
    decreases s.len(),
{
    if s.len() == 0 {
        Map::empty()
    } else {
        table(s.drop_last()).insert(s.last().0@, s.last().1)
    }
}

/// What a table says of a name.
pub open spec fn entry<V>(m: Map<Seq<char>, V>, name: Seq<char>) -> Option<V> {
    if m.contains_key(name) {
        Some(m[name])
    } else {
        None
    }
}

/// Adding an entry replaces what stood under its name.
pub proof fn lemma_table_push<V>(s: Seq<(String, V)>, e: (String, V))
    ensures
        table(s.push(e)) == table(s).insert(e.0@, e.1),
{
    assert(s.push(e).drop_last() =~= s);
}

/// What stands last under a name.
pub fn lookup<'a, V>(s: &'a Vec<(String, V)>, name: &String) -> (r: Option<&'a V>)
    ensures
        match r {
            Some(v) => entry(table(s@), name@) == Some(*v),
            None => entry(table(s@), name@) is None,
        },
{
    let mut k: usize = s.len();
    assert(s@.take(k as int) =~= s@);
    while k > 0
        invariant
            k <= s@.len(),
            entry(table(s@), name@) == entry(table(s@.take(k as int)), name@),
        decreases k,
    {
        k -= 1;
        assert(s@.take(k + 1).drop_last() =~= s@.take(k as int));
        if s[k].0 == *name {
            return Some(&s[k].1);
        }
    }
    None
}

/// What stands last under a name given by its characters.
pub fn lookup_chars<'a, V>(s: &'a Vec<(String, V)>, name: &[char]) -> (r: Option<&'a V>)
    ensures
        match r {
            Some(v) => entry(table(s@), name@) == Some(*v),
            None => entry(table(s@), name@) is None,
        },
{
    let mut k: usize = s.len();
    assert(s@.take(k as int) =~= s@);
    while k > 0
        invariant
            k <= s@.len(),
            entry(table(s@), name@) == entry(table(s@.take(k as int)), name@),
        decreases k,
    {
        k -= 1;
        assert(s@.take(k + 1).drop_last() =~= s@.take(k as int));
        let text = chars_of(s[k].0.as_str());
        if same_text(text.as_slice(), name) {
            return Some(&s[k].1);
        }
    }
    None
}

/// Whether a string is the given text.
pub fn is_text(s: &String, text: &str) -> (r: bool)
    ensures
        r == (s@ == text@),
{
    let t = text.to_owned();
    *s == t
}

// ---- names in order ----

/// The texts of strings.
pub open spec fn name_texts(s: Seq<String>) -> Seq<Seq<char>> {
    Seq::new(s.len(), |i: int| s[i]@)
}

/// Whether a name stands before another in the dictionary: the first characters that differ
/// decide, and a name stands before its continuations.
pub open spec fn precedes(a: Seq<char>, b: Seq<char>) -> bool
    decreases a.len(),
{
    if b.len() == 0 {
        false
    } else if a.len() == 0 {
        true
    } else if a[0] != b[0] {
        a[0] < b[0]
    } else {
        precedes(a.skip(1), b.skip(1))
    }
}

/// Names with another one put behind those that stand before it, unless it is there.
pub open spec fn placed(s: Seq<Seq<char>>, name: Seq<char>) -> Seq<Seq<char>>
    decreases s.len(),
{
    if s.len() == 0 {
        seq![name]
    } else if s.last() == name {
        s
    } else if precedes(s.last(), name) {
        s.push(name)
    } else {
        placed(s.drop_last(), name).push(s.last())
    }
}

/// Names in the order of the dictionary, each once.
pub open spec fn in_order(s: Seq<Seq<char>>) -> Seq<Seq<char>>
    decreases s.len(),
{
    if s.len() == 0 {
        Seq::empty()
    } else {
        placed(in_order(s.drop_last()), s.last())
    }
}

/// Each name stands before those that follow it.
pub open spec fn ascending(s: Seq<Seq<char>>) -> bool {
    forall|i: int, j: int| 0 <= i < j < s.len() ==> precedes(#[trigger] s[i], #[trigger] s[j])
}

/// Of two different names one stands before the other, and not both.
pub proof fn lemma_precedes_total(a: Seq<char>, b: Seq<char>)
    ensures
        !(precedes(a, b) && precedes(b, a)),
        a != b ==> precedes(a, b) || precedes(b, a),
        !precedes(a, a),
    decreases a.len(),
{
    if a.len() > 0 && b.len() > 0 {
        lemma_precedes_total(a.skip(1), b.skip(1));
        if a[0] == b[0] && a.skip(1) == b.skip(1) {
            assert(a =~= seq![a[0]] + a.skip(1));
            assert(b =~= seq![b[0]] + b.skip(1));
        }
    } else {
        assert(a.len() == 0 && b.len() == 0 ==> a =~= b);
    }
    if a.len() > 0 {
        lemma_precedes_total(a.skip(1), a.skip(1));
    }
}

/// What stands before a name stands before all that it stands before.
pub proof fn lemma_precedes_chain(a: Seq<char>, b: Seq<char>, c: Seq<char>)
    requires
        precedes(a, b),
        precedes(b, c),
    ensures
        precedes(a, c),
    decreases a.len(),
{
    if a.len() > 0 && a[0] == b[0] && b[0] == c[0] {
        lemma_precedes_chain(a.skip(1), b.skip(1), c.skip(1));
    }
}

proof fn lemma_placed(s: Seq<Seq<char>>, name: Seq<char>)
    requires
        ascending(s),
    ensures
        ascending(placed(s, name)),
        forall|n: Seq<char>| #[trigger]
            placed(s, name).contains(n) <==> (s.contains(n) || n == name),
    decreases s.len(),
{
    let t = placed(s, name);
    if s.len() == 0 {
        assert(t[0] == name);
        assert(t.contains(name));
    } else if s.last() == name {
        assert(s.contains(name));
    } else if precedes(s.last(), name) {
        assert forall|i: int, j: int| 0 <= i < j < t.len() implies precedes(
            #[trigger] t[i],
            #[trigger] t[j],
        ) by {
            if j == s.len() && i < s.len() - 1 {
                lemma_precedes_chain(s[i], s.last(), name);
            }
        }
        assert forall|n: Seq<char>| #[trigger] t.contains(n) <==> (s.contains(n) || n
            == name) by {
            if s.contains(n) {
                let k = choose|k: int| 0 <= k < s.len() && s[k] == n;
                assert(t[k] == n);
            }
            assert(t[s.len() as int] == name);
        }
    } else {
        let u = placed(s.drop_last(), name);
        lemma_placed(s.drop_last(), name);
        lemma_precedes_total(s.last(), name);
        assert forall|i: int, j: int| 0 <= i < j < t.len() implies precedes(
            #[trigger] t[i],
            #[trigger] t[j],
        ) by {
            if j == u.len() {
                assert(u.contains(u[i]));
                if s.drop_last().contains(u[i]) {
                    let k = choose|k: int|
                        0 <= k < s.drop_last().len() && s.drop_last()[k] == u[i];
                    assert(precedes(s[k], s[s.len() - 1]));
                }
            }
        }
        assert forall|n: Seq<char>| #[trigger] t.contains(n) <==> (s.contains(n) || n
            == name) by {
            if s.contains(n) {
                let k = choose|k: int| 0 <= k < s.len() && s[k] == n;
                if k < s.len() - 1 {
                    assert(s.drop_last()[k] == n);
                }
            }
            if s.drop_last().contains(n) {
                let k = choose|k: int| 0 <= k < s.drop_last().len() && s.drop_last()[k] == n;
                assert(s[k] == n);
            }
            if u.contains(n) {
                let k = choose|k: int| 0 <= k < u.len() && u[k] == n;
                assert(t[k] == n);
            }
            if t.contains(n) {
                let k = choose|k: int| 0 <= k < t.len() && t[k] == n;
                if k < u.len() {
                    assert(u[k] == n);
                } else {
                    assert(s[s.len() - 1] == n);
                }
            }
            assert(t[u.len() as int] == s.last());
        }
    }
}

/// Names put in order ascend, none is there twice, and they are the names that were given.
pub proof fn in_order_ascends(s: Seq<Seq<char>>)
    ensures
        ascending(in_order(s)),
        in_order(s).no_duplicates(),
        forall|n: Seq<char>| #[trigger] in_order(s).contains(n) <==> s.contains(n),
    decreases s.len(),
{
    if s.len() > 0 {
        in_order_ascends(s.drop_last());
        lemma_placed(in_order(s.drop_last()), s.last());
        assert forall|n: Seq<char>| #[trigger] in_order(s).contains(n) <==> s.contains(n) by {
            if s.contains(n) {
                let k = choose|k: int| 0 <= k < s.len() && s[k] == n;
                if k < s.len() - 1 {
                    assert(s.drop_last()[k] == n);
                }
            }
            if s.drop_last().contains(n) {
                let k = choose|k: int| 0 <= k < s.drop_last().len() && s.drop_last()[k] == n;
                assert(s[k] == n);
            }
            assert(s[s.len() - 1] == s.last());
        }
    }
    let t = in_order(s);
    assert forall|i: int, j: int| 0 <= i < t.len() && 0 <= j < t.len() && i != j implies t[i]
        != t[j] by {
        lemma_precedes_total(t[i], t[i]);
        if i < j {
            assert(precedes(t[i], t[j]));
        } else {
            assert(precedes(t[j], t[i]));
        }
    }
}

/// Whether a name stands before another.
fn stands_before(a: &Vec<char>, b: &Vec<char>) -> (r: bool)
    ensures
        r == precedes(a@, b@),
{
    let mut i: usize = 0;
    assert(a@.skip(0) =~= a@);
    assert(b@.skip(0) =~= b@);
    while i < a.len() && i < b.len()
        invariant
            i <= a@.len(),
            i <= b@.len(),
            precedes(a@, b@) == precedes(a@.skip(i as int), b@.skip(i as int)),
        decreases a@.len() - i,
    {
        assert(a@.skip(i as int).skip(1) =~= a@.skip(i + 1));
        assert(b@.skip(i as int).skip(1) =~= b@.skip(i + 1));
        if a[i] != b[i] {
            return a[i] < b[i];
        }
        i += 1;
    }
    i < b.len()
}

fn place(names: &mut Vec<String>, name: &String)
    ensures
        name_texts(final(names)@) == placed(name_texts(old(names)@), name@),
{
    let text = chars_of(name.as_str());
    let ghost all = name_texts(names@);
    let mut k: usize = names.len();
    assert(all.take(k as int) =~= all);
    assert(all.skip(k as int) =~= Seq::empty());
    assert(placed(all, name@) =~= placed(all.take(k as int), name@) + all.skip(k as int));
    while k > 0
        invariant_except_break
            placed(all, name@) == placed(all.take(k as int), name@) + all.skip(k as int),
        invariant
            k <= names@.len(),
            names@ == old(names)@,
            all == name_texts(names@),
            text@ == name@,
        ensures
            k <= names@.len(),
            placed(all, name@) == all.take(k as int).push(name@) + all.skip(k as int),
        decreases k,
    {
        let ghost front = all.take(k as int);
        assert(front.last() == names@[k - 1]@);
        assert(front.drop_last() =~= all.take(k - 1));
        if names[k - 1] == *name {
            assert(placed(all, name@) =~= all);
            return;
        }
        let other = chars_of(names[k - 1].as_str());
        if stands_before(&other, &text) {
            break;
        }
        assert(placed(all, name@) =~= placed(all.take(k - 1), name@) + all.skip(k - 1));
        k -= 1;
    }
    proof {
        if k == 0 {
            assert(all.take(0).push(name@) =~= seq![name@]);
        }
    }
    names.insert(k, name.clone());
    assert(name_texts(names@) =~= all.take(k as int).push(name@) + all.skip(k as int));
}

/// The names in the order of the dictionary, each once.
pub fn ordered_names(names: &Vec<String>) -> (r: Vec<String>)
    ensures
        name_texts(r@) == in_order(name_texts(names@)),
{
    let mut r: Vec<String> = Vec::new();
    let ghost all = name_texts(names@);
    let mut i: usize = 0;
    assert(name_texts(r@) =~= Seq::empty());
    while i < names.len()
        invariant
            i <= names@.len(),
            all == name_texts(names@),
            name_texts(r@) == in_order(all.take(i as int)),
        decreases names@.len() - i,
    {
        assert(all.take(i + 1).drop_last() =~= all.take(i as int));
        place(&mut r, &names[i]);
        i += 1;
    }
    assert(all.take(all.len() as int) =~= all);
    r
}

} // verus!
