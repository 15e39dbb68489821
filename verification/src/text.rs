//! Reading text: prefixes, searches, trimming and numbers over sequences of characters.

use vstd::prelude::*;
use vstd::slice::slice_subrange;

verus! {

/// Unicode white space.
pub open spec fn is_space(c: char) -> bool {
    let n = c as u32;
    (9 <= n <= 13) || n == 0x20 || n == 0x85 || n == 0xa0 || n == 0x1680 || (0x2000 <= n <= 0x200a)
        || n == 0x2028 || n == 0x2029 || n == 0x202f || n == 0x205f || n == 0x3000
}

fn space(c: char) -> (r: bool)
    ensures
        r == is_space(c),
{
    let n: u32 = c as u32;
    (9 <= n && n <= 13) || n == 0x20 || n == 0x85 || n == 0xa0 || n == 0x1680 || (0x2000 <= n && n
        <= 0x200a) || n == 0x2028 || n == 0x2029 || n == 0x202f || n == 0x205f || n == 0x3000
}

/// The text from `i` on.
pub open spec fn from(s: Seq<char>, i: int) -> Seq<char> {
    s.subrange(i, s.len() as int)
}

/// The text without leading white space.
pub open spec fn trimmed_start(s: Seq<char>) -> Seq<char>
    decreases s.len(),
{
    if s.len() > 0 && is_space(s[0]) {
        trimmed_start(from(s, 1))
    } else {
        s
    }
}

/// The text without trailing white space.
pub open spec fn trimmed_end(s: Seq<char>) -> Seq<char>
    decreases s.len(),
{
    if s.len() > 0 && is_space(s.last()) {
        trimmed_end(s.drop_last())
    } else {
        s
    }
}

/// The text without white space at either end.
pub open spec fn trimmed(s: Seq<char>) -> Seq<char> {
    trimmed_end(trimmed_start(s))
}

/// The text without leading white space.
pub fn trim_start(s: &[char]) -> (r: &[char])
    ensures
        r@ == trimmed_start(s@),
{
    let mut i: usize = 0;
    assert(from(s@, 0) =~= s@);
    while i < s.len() && space(s[i])
        invariant
            i <= s@.len(),
            trimmed_start(s@) == trimmed_start(from(s@, i as int)),
        decreases s@.len() - i,
    {
        assert(from(from(s@, i as int), 1) =~= from(s@, i + 1));
        i += 1;
    }
    slice_subrange(s, i, s.len())
}

/// The text without trailing white space.
pub fn trim_end(s: &[char]) -> (r: &[char])
    ensures
        r@ == trimmed_end(s@),
{
    let mut n: usize = s.len();
    assert(s@.take(n as int) =~= s@);
    while n > 0 && space(s[n - 1])
        invariant
            n <= s@.len(),
            trimmed_end(s@) == trimmed_end(s@.take(n as int)),
        decreases n,
    {
        assert(s@.take(n as int).drop_last() =~= s@.take(n - 1));
        n -= 1;
    }
    assert(s@.take(n as int) =~= s@.subrange(0, n as int));
    slice_subrange(s, 0, n)
}

/// The text without white space at either end.
pub fn trim(s: &[char]) -> (r: &[char])
    ensures
        r@ == trimmed(s@),
{
    trim_end(trim_start(s))
}

/// `pat` stands in `s` at `i`.
pub open spec fn stands_at(s: Seq<char>, pat: Seq<char>, i: int) -> bool {
    0 <= i && i + pat.len() <= s.len() && s.subrange(i, i + pat.len()) == pat
}

/// Whether `pat` stands in `s` at `i`.
pub fn matches_at(s: &[char], pat: &[char], i: usize) -> (r: bool)
    ensures
        r == stands_at(s@, pat@, i as int),
{
    if i > s.len() || pat.len() > s.len() - i {
        return false;
    }
    let n: usize = s.len();
    let mut k: usize = 0;
    while k < pat.len()
        invariant
            k <= pat@.len(),
            n == s@.len(),
            i + pat@.len() <= n,
            forall|j: int| 0 <= j < k ==> s@[i + j] == #[trigger] pat@[j],
        decreases pat@.len() - k,
    {
        if s[i + k] != pat[k] {
            assert(s@.subrange(i as int, i + pat@.len())[k as int] != pat@[k as int]);
            return false;
        }
        k += 1;
    }
    assert(s@.subrange(i as int, i + pat@.len()) =~= pat@);
    true
}

/// What follows the prefix `pat`.
pub open spec fn after_prefix(s: Seq<char>, pat: Seq<char>) -> Option<Seq<char>> {
    if stands_at(s, pat, 0) {
        Some(from(s, pat.len() as int))
    } else {
        None
    }
}

/// The option of a slice as an option of its contents.
pub open spec fn opt_view(o: Option<&[char]>) -> Option<Seq<char>> {
    match o {
        Some(s) => Some(s@),
        None => None,
    }
}

/// What follows the prefix `pat`.
pub fn strip_prefix<'a>(s: &'a [char], pat: &[char]) -> (r: Option<&'a [char]>)
    ensures
        opt_view(r) == after_prefix(s@, pat@),
{
    if matches_at(s, pat, 0) {
        Some(slice_subrange(s, pat.len(), s.len()))
    } else {
        None
    }
}

/// What precedes the final character `c`.
pub open spec fn before_suffix(s: Seq<char>, c: char) -> Option<Seq<char>> {
    if s.len() > 0 && s.last() == c {
        Some(s.drop_last())
    } else {
        None
    }
}

/// What precedes the final character `c`.
pub fn strip_suffix(s: &[char], c: char) -> (r: Option<&[char]>)
    ensures
        opt_view(r) == before_suffix(s@, c),
{
    if s.len() > 0 && s[s.len() - 1] == c {
        assert(s@.drop_last() =~= s@.subrange(0, s@.len() - 1));
        Some(slice_subrange(s, 0, s.len() - 1))
    } else {
        None
    }
}

/// The first place from `i` on where `pat` stands.
pub open spec fn first_at(s: Seq<char>, pat: Seq<char>, i: int) -> Option<int>
    decreases s.len() - i + 1,
{
    if i < 0 || i + pat.len() > s.len() {
        None
    } else if stands_at(s, pat, i) {
        Some(i)
    } else {
        first_at(s, pat, i + 1)
    }
}

/// The first place from `i` on where `pat` stands.
pub fn find_from(s: &[char], pat: &[char], i: usize) -> (r: Option<usize>)
    ensures
        match r {
            Some(k) => first_at(s@, pat@, i as int) == Some(k as int) && i <= k && stands_at(
                s@,
                pat@,
                k as int,
            ),
            None => first_at(s@, pat@, i as int) is None,
        },
{
    let n: usize = s.len();
    let mut k: usize = i;
    while k <= n && pat.len() <= n - k
        invariant
            n == s@.len(),
            i <= k,
            k <= i || k <= n,
            first_at(s@, pat@, i as int) == first_at(s@, pat@, k as int),
        decreases n + 1 - k,
    {
        if matches_at(s, pat, k) {
            return Some(k);
        }
        if k == n {
            assert(first_at(s@, pat@, k + 1) is None);
            return None;
        }
        k += 1;
    }
    None
}

/// The first place of character `c`.
pub open spec fn first_char(s: Seq<char>, c: char) -> Option<int>
    decreases s.len(),
{
    if s.len() == 0 {
        None
    } else if s[0] == c {
        Some(0)
    } else {
        match first_char(from(s, 1), c) {
            Some(i) => Some(i + 1),
            None => None,
        }
    }
}

/// The first place of character `c`.
pub fn find_char(s: &[char], c: char) -> (r: Option<usize>)
    ensures
        match r {
            Some(k) => first_char(s@, c) == Some(k as int) && k < s@.len() && s@[k as int] == c,
            None => first_char(s@, c) is None,
        },
{
    let mut k: usize = 0;
    assert(from(s@, 0) =~= s@);
    while k < s.len()
        invariant
            k <= s@.len(),
            first_char(s@, c) == match first_char(from(s@, k as int), c) {
                Some(i) => Some(i + k),
                None => None,
            },
        decreases s@.len() - k,
    {
        if s[k] == c {
            assert(first_char(from(s@, k as int), c) == Some(0int));
            return Some(k);
        }
        assert(from(from(s@, k as int), 1) =~= from(s@, k + 1));
        k += 1;
    }
    None
}

/// The pieces of `s` between occurrences of `c`; one more than there are occurrences.
pub open spec fn pieces(s: Seq<char>, c: char) -> Seq<Seq<char>>
    decreases s.len(),
{
    match first_char(s, c) {
        Some(i) if 0 <= i < s.len() => seq![s.take(i)] + pieces(from(s, i + 1), c),
        _ => seq![s],
    }
}

/// The value of a decimal digit.
pub open spec fn digit(c: char) -> Option<int> {
    let n = c as u32;
    if 48 <= n <= 57 {
        Some(n - 48)
    } else {
        None
    }
}

/// The number that decimal digits spell; nothing for an empty or other text.
pub open spec fn decimal(s: Seq<char>) -> Option<int>
    decreases s.len(),
{
    if s.len() == 0 {
        None
    } else {
        match digit(s.last()) {
            None => None,
            Some(d) => if s.len() == 1 {
                Some(d)
            } else {
                match decimal(s.drop_last()) {
                    Some(v) => Some(10 * v + d),
                    None => None,
                }
            },
        }
    }
}

/// `v` where it is at most `max`.
pub open spec fn at_most(v: Option<int>, max: int) -> Option<int> {
    match v {
        Some(x) => if x <= max {
            Some(x)
        } else {
            None
        },
        None => None,
    }
}

proof fn lemma_decimal_prefix(s: Seq<char>, k: int)
    requires
        0 < k <= s.len(),
    ensures
        decimal(s) is Some ==> decimal(s.take(k)) is Some && decimal(s.take(k))->0
            <= decimal(s)->0 && 0 <= decimal(s.take(k))->0,
        digit(s[k - 1]) is None ==> decimal(s) is None,
    decreases s.len(),
{
    if k == s.len() {
        assert(s.take(k) =~= s);
        if s.len() > 1 {
            lemma_decimal_prefix(s.drop_last(), k - 1);
            assert(s.drop_last().take(k - 1) =~= s.drop_last());
        }
    } else {
        lemma_decimal_prefix(s.drop_last(), k);
        assert(s.drop_last().take(k) =~= s.take(k));
    }
}

/// The number that decimal digits spell, where it is at most `max`.
pub fn parse_decimal(s: &[char], max: u128) -> (r: Option<u128>)
    ensures
        match r {
            Some(v) => at_most(decimal(s@), max as int) == Some(v as int) && v <= max,
            None => at_most(decimal(s@), max as int) is None,
        },
{
    if s.len() == 0 {
        return None;
    }
    let mut v: u128 = 0;
    let mut k: usize = 0;
    while k < s.len()
        invariant
            k <= s@.len(),
            s@.len() > 0,
            v <= max,
            k == 0 ==> v == 0,
            k > 0 ==> decimal(s@.take(k as int)) == Some(v as int),
        decreases s@.len() - k,
    {
        let n: u32 = s[k] as u32;
        proof {
            lemma_decimal_prefix(s@, k + 1);
            assert(s@.take(k + 1).drop_last() =~= s@.take(k as int));
            assert(s@.take(k + 1).last() == s@[k as int]);
        }
        if n < 48 || n > 57 {
            return None;
        }
        let d: u128 = (n - 48) as u128;
        assert(decimal(s@.take(k + 1)) == Some(10 * v + d));
        if d > max || v > (max - d) / 10 {
            return None;
        }
        let next: u128 = 10 * v + d;
        v = next;
        k += 1;
    }
    assert(s@.take(s@.len() as int) =~= s@);
    Some(v)
}

/// The number that a text spells: digits, with an optional plus sign before them.
pub open spec fn unsigned(s: Seq<char>, max: int) -> Option<int> {
    if s.len() > 1 && s[0] == '+' {
        at_most(decimal(from(s, 1)), max)
    } else {
        at_most(decimal(s), max)
    }
}

/// The 32-bit number that a text spells.
pub fn parse_u32(s: &[char]) -> (r: Option<u32>)
    ensures
        match r {
            Some(v) => unsigned(s@, u32::MAX as int) == Some(v as int),
            None => unsigned(s@, u32::MAX as int) is None,
        },
{
    let digits = if s.len() > 1 && s[0] == '+' {
        slice_subrange(s, 1, s.len())
    } else {
        s
    };
    match parse_decimal(digits, 0xffff_ffff) {
        Some(v) => Some(v as u32),
        None => None,
    }
}

/// The 64-bit number that a text spells.
pub fn parse_u64(s: &[char]) -> (r: Option<u64>)
    ensures
        match r {
            Some(v) => unsigned(s@, u64::MAX as int) == Some(v as int),
            None => unsigned(s@, u64::MAX as int) is None,
        },
{
    let digits = if s.len() > 1 && s[0] == '+' {
        slice_subrange(s, 1, s.len())
    } else {
        s
    };
    match parse_decimal(digits, 0xffff_ffff_ffff_ffff) {
        Some(v) => Some(v as u64),
        None => None,
    }
}

/// The machine-sized number that a text spells.
pub fn parse_usize(s: &[char]) -> (r: Option<usize>)
    ensures
        match r {
            Some(v) => unsigned(s@, usize::MAX as int) == Some(v as int),
            None => unsigned(s@, usize::MAX as int) is None,
        },
{
    let digits = if s.len() > 1 && s[0] == '+' {
        slice_subrange(s, 1, s.len())
    } else {
        s
    };
    match parse_decimal(digits, usize::MAX as u128) {
        Some(v) => Some(v as usize),
        None => None,
    }
}

/// The signed 64-bit number that a text spells: digits, with an optional sign.
pub open spec fn signed(s: Seq<char>) -> Option<int> {
    if s.len() > 1 && s[0] == '-' {
        match at_most(decimal(from(s, 1)), 0x8000_0000_0000_0000) {
            Some(v) => Some(-v),
            None => None,
        }
    } else {
        unsigned(s, i64::MAX as int)
    }
}

/// The signed 64-bit number that a text spells.
pub fn parse_i64(s: &[char]) -> (r: Option<i64>)
    ensures
        match r {
            Some(v) => signed(s@) == Some(v as int),
            None => signed(s@) is None,
        },
{
    if s.len() > 1 && s[0] == '-' {
        return match parse_decimal(slice_subrange(s, 1, s.len()), 0x8000_0000_0000_0000) {
            Some(v) => Some((-(v as i128)) as i64),
            None => None,
        };
    }
    let digits = if s.len() > 1 && s[0] == '+' {
        slice_subrange(s, 1, s.len())
    } else {
        s
    };
    match parse_decimal(digits, 0x7fff_ffff_ffff_ffff) {
        Some(v) => Some(v as i64),
        None => None,
    }
}

/// Whether two texts are equal.
pub fn same_text(a: &[char], b: &[char]) -> (r: bool)
    ensures
        r == (a@ == b@),
{
    if a.len() != b.len() {
        return false;
    }
    let m = matches_at(a, b, 0);
    assert(a@.subrange(0, b@.len() as int) =~= a@);
    m
}

/// The characters of a string.
pub fn chars_of(s: &str) -> (r: Vec<char>)
    ensures
        r@ == s@,
{
    let mut r: Vec<char> = Vec::new();
    for c in it: s.chars()
        invariant
            r@ == it.seq().take(it.index()),
            it.seq() == s@,
    {
        assert(it.seq().take(it.index() + 1) =~= it.seq().take(it.index()).push(c));
        r.push(c);
    }
    assert(s@.take(s@.len() as int) =~= s@);
    r
}

/// `String::push`: the character is appended.
#[verifier::external_body]
fn append_char(text: &mut String, c: char)
    ensures
        final(text)@ == old(text)@.push(c),
{
    text.push(c)
}

/// `a` followed by the character `c`.
pub fn joined_char(a: &str, c: char) -> (text: String)
    ensures
        text@ == a@.push(c),
{
    let mut text = a.to_owned();
    append_char(&mut text, c);
    text
}

/// `a` followed by `b`.
pub fn joined(a: &str, b: &str) -> (text: String)
    ensures
        text@ == a@ + b@,
{
    a.to_owned().concat(b)
}

/// The contents of slices.
pub open spec fn slice_views(s: Seq<&[char]>) -> Seq<Seq<char>> {
    Seq::new(s.len(), |i: int| s[i]@)
}

/// The pieces of a text between separators.
pub fn split(s: &[char], c: char) -> (r: Vec<&[char]>)
    ensures
        slice_views(r@) == pieces(s@, c),
{
    let mut out: Vec<&[char]> = Vec::new();
    let mut rest: &[char] = s;
    assert(slice_views(out@) + pieces(rest@, c) =~= pieces(s@, c));
    loop
        invariant
            slice_views(out@) + pieces(rest@, c) == pieces(s@, c),
        decreases rest@.len(),
    {
        let n: usize = rest.len();
        match find_char(rest, c) {
            Some(i) => {
                let ghost before = out@;
                let ghost was = rest@;
                let piece = slice_subrange(rest, 0, i);
                out.push(piece);
                rest = slice_subrange(rest, i + 1, n);
                proof {
                    assert(piece@ =~= was.take(i as int));
                    assert(rest@ =~= from(was, i + 1));
                    assert(slice_views(out@) =~= slice_views(before).push(piece@));
                    assert(slice_views(out@) + pieces(rest@, c) =~= slice_views(before) + pieces(
                        was,
                        c,
                    ));
                }
            },
            None => {
                let ghost before = out@;
                out.push(rest);
                proof {
                    assert(pieces(rest@, c) == seq![rest@]);
                    assert(slice_views(out@) =~= slice_views(before) + pieces(rest@, c));
                }
                return out;
            },
        }
    }
}

/// The first word of a text that starts with no space.
pub open spec fn first_word(s: Seq<char>) -> Seq<char>
    decreases s.len(),
{
    if s.len() == 0 || is_space(s[0]) {
        Seq::empty()
    } else {
        seq![s[0]] + first_word(from(s, 1))
    }
}

/// The words of a text between spaces.
pub open spec fn words(s: Seq<char>) -> Seq<Seq<char>>
    decreases s.len(),
    via words_decreases
{
    let t = trimmed_start(s);
    if t.len() == 0 {
        Seq::empty()
    } else {
        seq![first_word(t)] + words(from(t, first_word(t).len() as int))
    }
}

#[via_fn]
proof fn words_decreases(s: Seq<char>) {
    lemma_trimmed_start(s);
    let t = trimmed_start(s);
    if t.len() > 0 {
        lemma_first_word(t);
        assert(first_word(t).len() > 0);
    }
}

proof fn lemma_trimmed_start(s: Seq<char>)
    ensures
        trimmed_start(s).len() <= s.len(),
        trimmed_start(s).len() > 0 ==> !is_space(trimmed_start(s)[0]),
    decreases s.len(),
{
    if s.len() > 0 && is_space(s[0]) {
        lemma_trimmed_start(from(s, 1));
    }
}

proof fn lemma_first_word(s: Seq<char>)
    ensures
        first_word(s).len() <= s.len(),
        first_word(s) =~= s.take(first_word(s).len() as int),
    decreases s.len(),
{
    if s.len() > 0 && !is_space(s[0]) {
        lemma_first_word(from(s, 1));
        let w = first_word(from(s, 1));
        assert(first_word(s) =~= s.take(first_word(s).len() as int)) by {
            assert forall|k: int| 0 <= k < first_word(s).len() implies first_word(s)[k] == s[k] by {
                if k > 0 {
                    assert(w[k - 1] == from(s, 1).take(w.len() as int)[k - 1]);
                }
            }
        }
    }
}

/// The length of the first word.
fn word_len(s: &[char]) -> (n: usize)
    ensures
        n == first_word(s@).len(),
        n <= s@.len(),
{
    let mut i: usize = 0;
    let n: usize = s.len();
    assert(from(s@, 0) =~= s@);
    while i < n && !space(s[i])
        invariant
            i <= n,
            n == s@.len(),
            first_word(s@).len() == i + first_word(from(s@, i as int)).len(),
        decreases n - i,
    {
        assert(from(from(s@, i as int), 1) =~= from(s@, i + 1));
        i += 1;
    }
    i
}

/// The words of a text between spaces.
pub fn split_words(s: &[char]) -> (r: Vec<&[char]>)
    ensures
        slice_views(r@) == words(s@),
{
    let mut out: Vec<&[char]> = Vec::new();
    let mut rest: &[char] = trim_start(s);
    proof {
        lemma_trimmed_start(s@);
        lemma_trimmed_again(s@);
    }
    assert(slice_views(out@) + words(rest@) =~= words(s@));
    while rest.len() > 0
        invariant
            slice_views(out@) + words(rest@) == words(s@),
            rest@ == trimmed_start(rest@),
            rest@.len() > 0 ==> !is_space(rest@[0]),
        decreases rest@.len(),
    {
        let ghost was = rest@;
        let ghost before = out@;
        let n: usize = rest.len();
        let k: usize = word_len(rest);
        proof {
            lemma_first_word(was);
        }
        let w = slice_subrange(rest, 0, k);
        out.push(w);
        let tail = slice_subrange(rest, k, n);
        rest = trim_start(tail);
        proof {
            assert(w@ =~= was.take(k as int));
            assert(tail@ =~= from(was, k as int));
            lemma_trimmed_start(tail@);
            lemma_trimmed_again(tail@);
            assert(slice_views(out@) =~= slice_views(before).push(w@));
            assert(words(was) == seq![w@] + words(tail@));
            assert(words(rest@) == words(tail@));
            assert(slice_views(out@) + words(rest@) =~= slice_views(before) + words(was));
        }
    }
    assert(words(rest@) =~= Seq::<Seq<char>>::empty());
    assert(slice_views(out@) =~= words(s@));
    out
}

proof fn lemma_trimmed_again(s: Seq<char>)
    ensures
        trimmed_start(trimmed_start(s)) == trimmed_start(s),
        words(trimmed_start(s)) == words(s),
    decreases s.len(),
{
    lemma_trimmed_start(s);
}

/// The value of a signed number that fits in 128 bits.
pub open spec fn signed_wide(s: Seq<char>) -> Option<int> {
    if s.len() > 1 && s[0] == '-' {
        match at_most(decimal(from(s, 1)), 0x8000_0000_0000_0000_0000_0000_0000_0000) {
            Some(v) => Some(-v),
            None => None,
        }
    } else {
        unsigned(s, i128::MAX as int)
    }
}

/// Read a signed number that fits in 128 bits.
pub fn parse_i128(s: &[char]) -> (r: Option<i128>)
    ensures
        match r {
            Some(v) => signed_wide(s@) == Some(v as int),
            None => signed_wide(s@) is None,
        },
{
    if s.len() > 1 && s[0] == '-' {
        return match parse_decimal(
            slice_subrange(s, 1, s.len()),
            0x8000_0000_0000_0000_0000_0000_0000_0000,
        ) {
            Some(v) => if v == 0 {
                Some(0)
            } else {
                Some(-((v - 1) as i128) - 1)
            },
            None => None,
        };
    }
    let digits = if s.len() > 1 && s[0] == '+' {
        slice_subrange(s, 1, s.len())
    } else {
        s
    };
    match parse_decimal(digits, 0x7fff_ffff_ffff_ffff_ffff_ffff_ffff_ffff) {
        Some(v) => Some(v as i128),
        None => None,
    }
}

proof fn lemma_decimal_natural(s: Seq<char>)
    ensures
        decimal(s) matches Some(v) ==> v >= 0,
    decreases s.len(),
{
    if s.len() > 1 {
        lemma_decimal_natural(s.drop_last());
    }
}

/// A signed number that was read fits in 128 bits.
pub proof fn signed_wide_fits(s: Seq<char>)
    ensures
        signed_wide(s) matches Some(v) ==> i128::MIN <= v <= i128::MAX,
{
    if s.len() > 1 {
        lemma_decimal_natural(from(s, 1));
    }
    lemma_decimal_natural(s);
}

/// The decimal digit of a number below 10.
pub open spec fn digit_text(d: nat) -> Seq<char> {
    if d == 0 {
        "0"@
    } else if d == 1 {
        "1"@
    } else if d == 2 {
        "2"@
    } else if d == 3 {
        "3"@
    } else if d == 4 {
        "4"@
    } else if d == 5 {
        "5"@
    } else if d == 6 {
        "6"@
    } else if d == 7 {
        "7"@
    } else if d == 8 {
        "8"@
    } else {
        "9"@
    }
}

/// A number in decimal digits.
pub open spec fn numeral(n: nat) -> Seq<char>
    decreases n,
{
    if n < 10 {
        digit_text(n)
    } else {
        numeral(n / 10) + digit_text(n % 10)
    }
}

/// A number in decimal digits.
pub fn number_text(n: u128) -> (s: String)
    ensures
        s@ == numeral(n as nat),
    decreases n,
{
    let d: u128 = n % 10;
    let t: &str = if d == 0 {
        "0"
    } else if d == 1 {
        "1"
    } else if d == 2 {
        "2"
    } else if d == 3 {
        "3"
    } else if d == 4 {
        "4"
    } else if d == 5 {
        "5"
    } else if d == 6 {
        "6"
    } else if d == 7 {
        "7"
    } else if d == 8 {
        "8"
    } else {
        "9"
    };
    if n < 10 {
        t.to_owned()
    } else {
        joined(number_text(n / 10).as_str(), t)
    }
}

} // verus!
