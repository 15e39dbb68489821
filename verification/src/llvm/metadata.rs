//! Metadata nodes that hold integers.

use crate::text::{
    after_prefix, before_suffix, chars_of, find_from, first_at, from, parse_i128, parse_u32,
    parse_u64, pieces, signed_wide, slice_views, split, split_words, strip_prefix, strip_suffix,
    trim, trimmed, unsigned, words,
};
use std::collections::HashMap;
use vstd::prelude::*;
use vstd::slice::slice_subrange;

verus! {

broadcast use vstd::std_specs::hash::group_hash_axioms;

/// The id and the inside of a node on a line, as in `!7 = !{..}`.
pub open spec fn node_on(line: Seq<char>) -> Option<(u32, Seq<char>)> {
    match after_prefix(trimmed(line), "!"@) {
        None => None,
        Some(r) => match first_at(r, " = "@, 0) {
            None => None,
            Some(i) => match (
                unsigned(trimmed(r.take(i)), u32::MAX as int),
                after_prefix(trimmed(from(r, i + 3)), "!{"@),
            ) {
                (Some(id), Some(body)) => match before_suffix(body, '}') {
                    Some(inner) => Some((id as u32, inner)),
                    None => None,
                },
                _ => None,
            },
        },
    }
}

/// Whether a word names an integer type, by its first letter.
pub open spec fn integer_type(word: Seq<char>) -> bool {
    word.len() > 0 && word[0] == 'i'
}

/// The text without commas at its end.
pub open spec fn without_commas(s: Seq<char>) -> Seq<char>
    decreases s.len(),
{
    if s.len() > 0 && s.last() == ',' {
        without_commas(s.drop_last())
    } else {
        s
    }
}

/// The value of a node with a single integer, as in `i64 8`.
pub open spec fn single_integer(inner: Seq<char>) -> Option<u64> {
    let w = words(inner);
    if w.len() == 2 && integer_type(w[0]) {
        match unsigned(without_commas(w[1]), u64::MAX as int) {
            Some(v) => Some(v as u64),
            None => None,
        }
    } else {
        None
    }
}

/// The value of one element of a node, as in `i8 2`.
pub open spec fn element_value(e: Seq<char>) -> Option<int> {
    let w = words(e);
    if w.len() == 2 && integer_type(w[0]) {
        signed_wide(w[1])
    } else {
        None
    }
}

/// The elements that are not blank, without white space around them.
pub open spec fn elements(parts: Seq<Seq<char>>) -> Seq<Seq<char>>
    decreases parts.len(),
{
    if parts.len() == 0 {
        Seq::empty()
    } else {
        let s = elements(parts.drop_last());
        if trimmed(parts.last()).len() > 0 {
            s.push(trimmed(parts.last()))
        } else {
            s
        }
    }
}

/// The bounds of a node with two integers that are a range of numbers from 0 on.
pub open spec fn range_of(inner: Seq<char>) -> Option<(i128, i128)> {
    let e = elements(pieces(inner, ','));
    if e.len() == 2 {
        match (element_value(e[0]), element_value(e[1])) {
            (Some(lo), Some(hi)) => if 0 <= lo < hi {
                Some((lo as i128, hi as i128))
            } else {
                None
            },
            _ => None,
        }
    } else {
        None
    }
}

/// The nodes with a single integer, the last of each id.
pub open spec fn integers_in(lines: Seq<Seq<char>>) -> Map<u32, u64>
    decreases lines.len(),
{
    if lines.len() == 0 {
        Map::empty()
    } else {
        let m = integers_in(lines.drop_last());
        match node_on(lines.last()) {
            Some((id, inner)) => match single_integer(inner) {
                Some(v) => m.insert(id, v),
                None => m,
            },
            None => m,
        }
    }
}

/// The nodes with a range, the last of each id.
pub open spec fn ranges_in(lines: Seq<Seq<char>>) -> Map<u32, (i128, i128)>
    decreases lines.len(),
{
    if lines.len() == 0 {
        Map::empty()
    } else {
        let m = ranges_in(lines.drop_last());
        match node_on(lines.last()) {
            Some((id, inner)) => match range_of(inner) {
                Some(v) => m.insert(id, v),
                None => m,
            },
            None => m,
        }
    }
}

fn node(line: &[char]) -> (r: Option<(u32, &[char])>)
    ensures
        match r {
            Some((id, inner)) => node_on(line@) == Some((id, inner@)),
            None => node_on(line@) is None,
        },
{
    proof {
        reveal_strlit("!");
        reveal_strlit(" = ");
        reveal_strlit("!{");
    }
    let bang = chars_of("!");
    let eq = chars_of(" = ");
    let open = chars_of("!{");
    let r = match strip_prefix(trim(line), bang.as_slice()) {
        Some(r) => r,
        None => {
            return None;
        },
    };
    let n: usize = r.len();
    let i: usize = match find_from(r, eq.as_slice(), 0) {
        Some(i) => i,
        None => {
            return None;
        },
    };
    let head = slice_subrange(r, 0, i);
    let tail = slice_subrange(r, i + 3, n);
    assert(head@ =~= r@.take(i as int));
    assert(tail@ =~= from(r@, i + 3));
    match parse_u32(trim(head)) {
        Some(id) => match strip_prefix(trim(tail), open.as_slice()) {
            Some(body) => match strip_suffix(body, '}') {
                Some(inner) => Some((id, inner)),
                None => None,
            },
            None => None,
        },
        None => None,
    }
}

fn strip_commas(s: &[char]) -> (r: &[char])
    ensures
        r@ == without_commas(s@),
{
    let mut n: usize = s.len();
    assert(s@.take(n as int) =~= s@);
    while n > 0 && s[n - 1] == ','
        invariant
            n <= s@.len(),
            without_commas(s@) == without_commas(s@.take(n as int)),
        decreases n,
    {
        assert(s@.take(n as int).drop_last() =~= s@.take(n - 1));
        n -= 1;
    }
    assert(s@.take(n as int) =~= s@.subrange(0, n as int));
    slice_subrange(s, 0, n)
}

fn read_integer(inner: &[char]) -> (r: Option<u64>)
    ensures
        r == single_integer(inner@),
{
    let w = split_words(inner);
    assert(words(inner@).len() == w@.len());
    if w.len() != 2 {
        return None;
    }
    assert(words(inner@)[0] == w@[0]@ && words(inner@)[1] == w@[1]@);
    if w[0].len() == 0 || w[0][0] != 'i' {
        return None;
    }
    parse_u64(strip_commas(w[1]))
}

fn read_element(e: &[char]) -> (r: Option<i128>)
    ensures
        match r {
            Some(v) => element_value(e@) == Some(v as int),
            None => element_value(e@) is None,
        },
{
    let w = split_words(e);
    assert(words(e@).len() == w@.len());
    if w.len() != 2 {
        return None;
    }
    assert(words(e@)[0] == w@[0]@ && words(e@)[1] == w@[1]@);
    if w[0].len() == 0 || w[0][0] != 'i' {
        return None;
    }
    parse_i128(w[1])
}

fn read_elements<'a>(inner: &'a [char]) -> (r: Vec<&'a [char]>)
    ensures
        slice_views(r@) == elements(pieces(inner@, ',')),
{
    let parts = split(inner, ',');
    let ghost all = pieces(inner@, ',');
    let mut out: Vec<&'a [char]> = Vec::new();
    let mut i: usize = 0;
    assert(all.take(0) =~= Seq::<Seq<char>>::empty());
    assert(slice_views(out@) =~= Seq::<Seq<char>>::empty());
    while i < parts.len()
        invariant
            i <= parts@.len(),
            slice_views(parts@) == all,
            slice_views(out@) == elements(all.take(i as int)),
        decreases parts@.len() - i,
    {
        assert(all[i as int] == parts@[i as int]@);
        assert(all.take(i + 1).drop_last() =~= all.take(i as int));
        assert(all.take(i + 1).last() == all[i as int]);
        let t = trim(parts[i]);
        if t.len() > 0 {
            let ghost before = out@;
            out.push(t);
            assert(slice_views(out@) =~= slice_views(before).push(t@));
        }
        i += 1;
    }
    assert(all.take(all.len() as int) =~= all);
    out
}

fn read_range(inner: &[char]) -> (r: Option<(i128, i128)>)
    ensures
        r == range_of(inner@),
{
    let e = read_elements(inner);
    let ghost es = elements(pieces(inner@, ','));
    assert(es.len() == e@.len());
    if e.len() != 2 {
        return None;
    }
    assert(es[0] == e@[0]@ && es[1] == e@[1]@);
    match (read_element(e[0]), read_element(e[1])) {
        (Some(lo), Some(hi)) => if 0 <= lo && lo < hi {
            Some((lo, hi))
        } else {
            None
        },
        _ => None,
    }
}

/// The metadata nodes of a module's text that hold a single integer, by id.
pub fn scan_meta_ints(src: &str) -> (m: HashMap<u32, u64>)
    ensures
        m@ == integers_in(pieces(src@, '\n')),
{
    let text = chars_of(src);
    let lines = split(text.as_slice(), '\n');
    let ghost all = pieces(src@, '\n');
    let mut m: HashMap<u32, u64> = HashMap::new();
    let mut i: usize = 0;
    assert(all.take(0) =~= Seq::<Seq<char>>::empty());
    while i < lines.len()
        invariant
            i <= lines@.len(),
            slice_views(lines@) == all,
            m@ == integers_in(all.take(i as int)),
        decreases lines@.len() - i,
    {
        assert(all[i as int] == lines@[i as int]@);
        assert(all.take(i + 1).drop_last() =~= all.take(i as int));
        assert(all.take(i + 1).last() == all[i as int]);
        if let Some((id, inner)) = node(lines[i]) {
            if let Some(v) = read_integer(inner) {
                m.insert(id, v);
            }
        }
        i += 1;
    }
    assert(all.take(all.len() as int) =~= all);
    m
}

/// The metadata nodes of a module's text that hold a range that does not wrap, by id.
pub fn scan_meta_ranges(src: &str) -> (m: HashMap<u32, (i128, i128)>)
    ensures
        m@ == ranges_in(pieces(src@, '\n')),
{
    let text = chars_of(src);
    let lines = split(text.as_slice(), '\n');
    let ghost all = pieces(src@, '\n');
    let mut m: HashMap<u32, (i128, i128)> = HashMap::new();
    let mut i: usize = 0;
    assert(all.take(0) =~= Seq::<Seq<char>>::empty());
    while i < lines.len()
        invariant
            i <= lines@.len(),
            slice_views(lines@) == all,
            m@ == ranges_in(all.take(i as int)),
        decreases lines@.len() - i,
    {
        assert(all[i as int] == lines@[i as int]@);
        assert(all.take(i + 1).drop_last() =~= all.take(i as int));
        assert(all.take(i + 1).last() == all[i as int]);
        if let Some((id, inner)) = node(lines[i]) {
            if let Some(v) = read_range(inner) {
                m.insert(id, v);
            }
        }
        i += 1;
    }
    assert(all.take(all.len() as int) =~= all);
    m
}

/// Every recorded range starts at 0 or above and is not empty.
pub proof fn ranges_do_not_wrap(lines: Seq<Seq<char>>, id: u32)
    requires
        ranges_in(lines).contains_key(id),
    ensures
        0 <= ranges_in(lines)[id].0 < ranges_in(lines)[id].1,
    decreases lines.len(),
{
    let before = ranges_in(lines.drop_last());
    if before.contains_key(id) {
        ranges_do_not_wrap(lines.drop_last(), id);
    }
    assert forall|inner: Seq<char>| range_of(inner) is Some implies 0 <= (#[trigger] range_of(
        inner,
    )->0).0 < (range_of(inner)->0).1 by {
        lemma_range_fits(inner);
    }
}

proof fn lemma_range_fits(inner: Seq<char>)
    requires
        range_of(inner) is Some,
    ensures
        0 <= (range_of(inner)->0).0 < (range_of(inner)->0).1,
{
    let e = elements(pieces(inner, ','));
    crate::text::signed_wide_fits(words(e[0])[1]);
    crate::text::signed_wide_fits(words(e[1])[1]);
}

} // verus!
