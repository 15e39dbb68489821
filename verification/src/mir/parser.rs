//! Reading MIR dumps, token by token.

use crate::mir::ast::{
    BinKind, CalleeSpec, MBlock, MConst, MOperand, MRvalue, MStmt, MTerm, MType, MirBody, Place,
};
use crate::error::Error;
use crate::mir::grammar;
use crate::mir::grammar::{at, BlockForm, Dump, Parsed, TermForm};
use crate::ir::span_texts;
use crate::mir::tokens::{tok_views, Tok, TokView};
use crate::names::is_text;
use crate::text::{
    after_prefix, chars_of, digit, joined, joined_char, parse_u32, parse_usize, strip_prefix,
};
use vstd::prelude::*;

verus! {

/// A reading of plain values, as a mathematical value.
pub open spec fn told<T>(r: (Result<T, String>, usize)) -> Parsed<T> {
    match r.0 {
        Ok(x) => (Ok(x), r.1 as int),
        Err(e) => (Err(e@), r.1 as int),
    }
}

/// A reading of values with views, as a mathematical value.
pub open spec fn told_view<T: View>(r: (Result<T, String>, usize)) -> Parsed<T::V> {
    match r.0 {
        Ok(x) => (Ok(x@), r.1 as int),
        Err(e) => (Err(e@), r.1 as int),
    }
}

fn low32(n: i128) -> (r: u32)
    ensures
        r == (n & 0xffff_ffff) as u32,
{
    assert(0 <= n & 0xffff_ffff <= 0xffff_ffff) by (bit_vector);
    (n & 0xffff_ffff) as u32
}

fn low64(n: i128) -> (r: u64)
    ensures
        r == (n & 0xffff_ffff_ffff_ffff) as u64,
{
    assert(0 <= n & 0xffff_ffff_ffff_ffff <= 0xffff_ffff_ffff_ffff) by (bit_vector);
    (n & 0xffff_ffff_ffff_ffff) as u64
}

/// The local that `_N` names.
pub fn local_number(w: &String) -> (r: Option<u32>)
    ensures
        r == grammar::local_number(w@),
{
    let text = chars_of(w.as_str());
    let prefix = chars_of("_");
    match strip_prefix(text.as_slice(), prefix.as_slice()) {
        Some(d) => parse_u32(d),
        None => None,
    }
}

/// Whether a word is `bb` and digits.
pub fn is_bb(w: &String) -> (r: bool)
    ensures
        r == grammar::is_bb(w@),
{
    let text = chars_of(w.as_str());
    let prefix = chars_of("bb");
    match strip_prefix(text.as_slice(), prefix.as_slice()) {
        Some(d) => {
            let mut k: usize = 0;
            while k < d.len()
                invariant
                    k <= d@.len(),
                    after_prefix(w@, "bb"@) == Some(d@),
                    forall|i: int| 0 <= i < k ==> digit(#[trigger] d@[i]) is Some,
                decreases d@.len() - k,
            {
                let n: u32 = d[k] as u32;
                if n < 48 || n > 57 {
                    assert(digit(d@[k as int]) is None);
                    return false;
                }
                k += 1;
            }
            d.len() > 0
        },
        None => false,
    }
}

/// The block that `bbN` names.
pub fn bb_index(w: &String) -> (r: Option<usize>)
    ensures
        r == grammar::bb_index(w@),
{
    let text = chars_of(w.as_str());
    let prefix = chars_of("bb");
    match strip_prefix(text.as_slice(), prefix.as_slice()) {
        Some(d) => parse_usize(d),
        None => None,
    }
}

/// The binary operator that a word names.
pub fn bin_kind(w: &String) -> (r: Option<BinKind>)
    ensures
        r == grammar::bin_kind(w@),
{
    if is_text(w, "Add") {
        Some(BinKind::Add)
    } else if is_text(w, "Sub") {
        Some(BinKind::Sub)
    } else if is_text(w, "Mul") {
        Some(BinKind::Mul)
    } else if is_text(w, "Lt") {
        Some(BinKind::Lt)
    } else if is_text(w, "Le") {
        Some(BinKind::Le)
    } else if is_text(w, "Gt") {
        Some(BinKind::Gt)
    } else if is_text(w, "Ge") {
        Some(BinKind::Ge)
    } else if is_text(w, "Eq") {
        Some(BinKind::Eq)
    } else if is_text(w, "Ne") {
        Some(BinKind::Ne)
    } else if is_text(w, "BitAnd") {
        Some(BinKind::BitAnd)
    } else if is_text(w, "BitOr") {
        Some(BinKind::BitOr)
    } else if is_text(w, "BitXor") {
        Some(BinKind::BitXor)
    } else if is_text(w, "Div") || is_text(w, "Rem") || is_text(w, "Shl") || is_text(w, "Shr") || is_text(w, "Offset") {
        Some(BinKind::Other)
    } else {
        None
    }
}

/// The integer type or `bool` that a word names.
pub fn int_type(w: &String) -> (r: Option<MType>)
    ensures
        r == grammar::int_type(w@),
{
    if is_text(w, "bool") {
        Some(MType::Bool)
    } else if is_text(w, "i8") {
        Some(MType::Int { width: 8, signed: true })
    } else if is_text(w, "i16") {
        Some(MType::Int { width: 16, signed: true })
    } else if is_text(w, "i32") {
        Some(MType::Int { width: 32, signed: true })
    } else if is_text(w, "i64") || is_text(w, "i128") || is_text(w, "isize") {
        Some(MType::Int { width: 64, signed: true })
    } else if is_text(w, "u8") {
        Some(MType::Int { width: 8, signed: false })
    } else if is_text(w, "u16") {
        Some(MType::Int { width: 16, signed: false })
    } else if is_text(w, "u32") {
        Some(MType::Int { width: 32, signed: false })
    } else if is_text(w, "u64") || is_text(w, "u128") || is_text(w, "usize") {
        Some(MType::Int { width: 64, signed: false })
    } else {
        None
    }
}

/// Whether a word starts a statement without an effect.
fn no_effect(w: &String) -> (r: bool)
    ensures
        r == grammar::no_effect(w@),
{
    is_text(w, "StorageLive") || is_text(w, "StorageDead") || is_text(w, "nop") || is_text(w, "FakeRead") || is_text(w, "AscribeUserType") || is_text(w, "Retag") || is_text(w, "PlaceMention") || is_text(w, "Coverage") || is_text(w, "ConstEvalCounter") || is_text(w, "Deinit") || is_text(w, "assume") || is_text(w, "BackwardIncompatibleDropHint")
}

/// The tokens of a dump.
pub struct Parser {
    toks: Vec<Tok>,
}

impl View for Parser {
    type V = Seq<TokView>;

    closed spec fn view(&self) -> Seq<TokView> {
        tok_views(self.toks@)
    }
}

impl Parser {
    /// Positions can be counted, and integers can be negated.
    pub open spec fn wf(&self) -> bool {
        &&& self@.len() < usize::MAX
        &&& forall|i: int| 0 <= i < self@.len() ==> (#[trigger] self@[i]) != TokView::Int(i128::MIN)
    }

    fn peek(&self, p: usize) -> (t: &Tok)
        ensures
            t@ == at(self@, p as int),
            !(t@ is Eof) ==> p < usize::MAX,
    {
        if p < self.toks.len() {
            &self.toks[p]
        } else {
            &Tok::Eof
        }
    }

    fn is_eof(&self, p: usize) -> (r: bool)
        ensures
            r == (at(self@, p as int) is Eof),
            !r ==> p < self@.len() && p < usize::MAX,
    {
        match self.peek(p) {
            Tok::Eof => true,
            _ => false,
        }
    }

    fn is_arrow(&self, p: usize) -> (r: bool)
        ensures
            r == (at(self@, p as int) is Arrow),
            r ==> p < self@.len() && p < usize::MAX,
    {
        match self.peek(p) {
            Tok::Arrow => true,
            _ => false,
        }
    }

    fn is_punct(&self, p: usize, c: char) -> (r: bool)
        ensures
            r == grammar::is_punct(self@, p as int, c),
            r ==> p < self@.len() && p < usize::MAX,
    {
        match self.peek(p) {
            Tok::Punct(d) => *d == c,
            _ => false,
        }
    }

    fn is_word(&self, p: usize, w: &str) -> (r: bool)
        ensures
            r == grammar::is_word(self@, p as int, w@),
            r ==> p < self@.len() && p < usize::MAX,
    {
        match self.peek(p) {
            Tok::Word(x) => is_text(x, w),
            _ => false,
        }
    }

    fn bumped(&self, p: usize) -> (q: usize)
        ensures
            q == grammar::bumped(self@, p as int),
    {
        if p < self.toks.len() {
            p + 1
        } else {
            p
        }
    }

    fn eat_punct(&self, p: usize, c: char) -> (q: usize)
        ensures
            q == grammar::eat(self@, p as int, c),
    {
        if self.is_punct(p, c) {
            p + 1
        } else {
            p
        }
    }

    fn eat_word(&self, p: usize, w: &str) -> (q: usize)
        ensures
            q == grammar::eat_word(self@, p as int, w@),
    {
        if self.is_word(p, w) {
            p + 1
        } else {
            p
        }
    }

    fn eat_arrow(&self, p: usize) -> (q: usize)
        ensures
            q == grammar::eat_arrow(self@, p as int),
    {
        if self.is_arrow(p) {
            p + 1
        } else {
            p
        }
    }

    fn expect_punct(&self, p: usize, c: char) -> (r: (Result<(), String>, usize))
        ensures
            told(r) == grammar::expect(self@, p as int, c),
    {
        if self.is_punct(p, c) {
            (Ok(()), p + 1)
        } else {
            let open = joined_char("expected `", c);
            let known = joined(open.as_str(), "`, found ");
            let text = joined(known.as_str(), self.peek(p).render().as_str());
            assert("expected `"@.push(c) =~= "expected `"@ + seq![c]);
            (Err(text), p)
        }
    }

    fn word(&self, p: usize) -> (r: (Result<String, String>, usize))
        ensures
            told_view(r) == grammar::word(self@, p as int),
    {
        match self.peek(p) {
            Tok::Word(w) => (Ok(w.clone()), p + 1),
            other => (
                Err(joined("expected a word, found ", other.render().as_str())),
                self.bumped(p),
            ),
        }
    }

    fn int_lit(&self, p: usize) -> (r: (Result<i128, String>, usize))
        ensures
            told(r) == grammar::int_lit(self@, p as int),
    {
        match self.peek(p) {
            Tok::Int(n) => (Ok(*n), p + 1),
            other => (
                Err(joined("expected an integer, found ", other.render().as_str())),
                self.bumped(p),
            ),
        }
    }

    fn skip_balanced_paren(&self, start: usize) -> (q: usize)
        requires
            self.wf(),
        ensures
            q == grammar::skip_paren(self@, start as int, 1),
    {
        let mut p: usize = start;
        let mut depth: usize = 1;
        while depth > 0 && !self.is_eof(p)
            invariant
                self.wf(),
                depth >= 1 ==> depth <= p - start + 1,
                start <= p,
                p <= self@.len() || p == start,
                grammar::skip_paren(self@, start as int, 1) == grammar::skip_paren(
                    self@,
                    p as int,
                    depth as int,
                ),
            decreases self@.len() - p,
        {
            if self.is_punct(p, '(') {
                depth += 1;
            } else if self.is_punct(p, ')') {
                depth -= 1;
            }
            p += 1;
        }
        p
    }

    fn skip_statement_inline(&self, start: usize) -> (q: usize)
        ensures
            q == grammar::skip_inline(self@, start as int),
    {
        let mut p: usize = start;
        while !self.is_eof(p) && !self.is_punct(p, ';')
            invariant
                grammar::skip_inline(self@, start as int) == grammar::skip_inline(self@, p as int),
            decreases self@.len() - p,
        {
            p += 1;
        }
        p
    }

    fn skip_past(&self, start: usize, c: char) -> (q: usize)
        ensures
            q == grammar::skip_past(self@, start as int, c),
    {
        let mut p: usize = start;
        while !self.is_eof(p)
            invariant
                grammar::skip_past(self@, start as int, c) == grammar::skip_past(self@, p as int, c),
            decreases self@.len() - p,
        {
            if self.is_punct(p, c) {
                return p + 1;
            }
            p += 1;
        }
        p
    }

    fn local(&self, p: usize) -> (r: (Result<u32, String>, usize))
        ensures
            told(r) == grammar::local(self@, p as int),
    {
        let (r, q) = self.word(p);
        match r {
            Err(e) => (Err(e), q),
            Ok(w) => match local_number(&w) {
                Some(n) => (Ok(n), q),
                None => {
                    let text = joined("expected a local `_N`, found `", w.as_str());
                    (Err(joined(text.as_str(), "`")), q)
                },
            },
        }
    }

    fn block_ref(&self, p: usize, complaint: &str) -> (r: (Result<usize, String>, usize))
        ensures
            told(r) == grammar::block_ref(self@, p as int, complaint@),
    {
        let (r, q) = self.word(p);
        match r {
            Err(e) => (Err(e), q),
            Ok(w) => match bb_index(&w) {
                Some(n) => (Ok(n), q),
                None => {
                    let text = joined(complaint, w.as_str());
                    (Err(joined(text.as_str(), "`")), q)
                },
            },
        }
    }

    fn bracket_end(&self, p: usize, elem: MType) -> (r: (Result<MType, String>, usize))
        ensures
            told(r) == grammar::bracket_end(self@, p as int, elem),
    {
        if self.is_punct(p, ';') {
            let (r, q) = self.int_lit(p + 1);
            match r {
                Err(e) => (Err(e), q),
                Ok(n) => {
                    let (r, z) = self.expect_punct(q, ']');
                    match r {
                        Err(e) => (Err(e), z),
                        Ok(_) => (Ok(MType::Array(Box::new(elem), low64(n))), z),
                    }
                },
            }
        } else {
            let (r, z) = self.expect_punct(p, ']');
            match r {
                Err(e) => (Err(e), z),
                Ok(_) => (Ok(MType::Slice(Box::new(elem))), z),
            }
        }
    }

    fn ty(&self, p: usize) -> (r: (Result<MType, String>, usize))
        requires
            self.wf(),
        ensures
            told(r) == grammar::ty(self@, p as int),
        decreases self@.len() - p,
    {
        if self.is_punct(p, '&') {
            let q = self.eat_word(p + 1, "mut");
            let (r, z) = self.ty(q);
            match r {
                Err(e) => (Err(e), z),
                Ok(x) => (Ok(MType::Ref(Box::new(x), q > p + 1)), z),
            }
        } else if self.is_punct(p, '*') {
            let q = self.eat_word(p + 1, "mut");
            let (r, z) = self.ty(self.eat_word(q, "const"));
            match r {
                Err(e) => (Err(e), z),
                Ok(x) => (Ok(MType::Ptr(Box::new(x), q > p + 1)), z),
            }
        } else if self.is_punct(p, '[') {
            let (r, z) = self.ty(p + 1);
            match r {
                Err(e) => (Err(e), z),
                Ok(x) => self.bracket_end(z, x),
            }
        } else if self.is_punct(p, '(') {
            if self.is_punct(p + 1, ')') {
                (Ok(MType::Unit), p + 2)
            } else {
                (Ok(MType::Other), self.skip_balanced_paren(p + 1))
            }
        } else {
            match self.peek(p) {
                Tok::Word(w) => match int_type(w) {
                    Some(x) => (Ok(x), p + 1),
                    None => (Ok(MType::Other), p + 1),
                },
                _ => (Ok(MType::Other), p),
            }
        }
    }

    fn field_index(&self, p: usize) -> (r: (Result<u32, String>, usize))
        ensures
            told(r) == grammar::field_index(self@, p as int),
    {
        match self.peek(p) {
            Tok::Int(n) => (Ok(low32(*n)), p + 1),
            Tok::Word(_) => (Ok(0), p + 1),
            other => (
                Err(joined("expected a field index, found ", other.render().as_str())),
                self.bumped(p),
            ),
        }
    }

    fn projections(&self, start: usize, base: Place) -> (r: (Result<Place, String>, usize))
        ensures
            told(r) == grammar::projections(self@, start as int, base),
    {
        let mut p: usize = start;
        let mut x: Place = base;
        loop
            invariant
                grammar::projections(self@, start as int, base) == grammar::projections(
                    self@,
                    p as int,
                    x,
                ),
            decreases self@.len() - p,
        {
            if self.is_punct(p, '[') {
                let (r, q) = self.local(p + 1);
                match r {
                    Err(e) => {
                        return (Err(e), q);
                    },
                    Ok(n) => {
                        let (r, z) = self.expect_punct(q, ']');
                        if let Err(e) = r {
                            return (Err(e), z);
                        }
                        x = Place::Index(Box::new(x), n);
                        p = z;
                    },
                }
            } else if self.is_punct(p, '.') {
                let (r, q) = self.field_index(p + 1);
                match r {
                    Err(e) => {
                        return (Err(e), q);
                    },
                    Ok(k) => {
                        x = Place::Field(Box::new(x), k, None);
                        p = q;
                    },
                }
            } else {
                return (Ok(x), p);
            }
        }
    }

    fn closing(&self, p: usize) -> (r: (Result<(), String>, usize))
        requires
            self.wf(),
        ensures
            told(r) == grammar::closing(self@, p as int),
    {
        let q: usize = if self.is_word(p, "as") {
            let (_, q) = self.word(p + 1);
            q
        } else {
            p
        };
        if self.is_punct(q, ':') {
            let (r, z) = self.ty(q + 1);
            match r {
                Err(e) => (Err(e), z),
                Ok(_) => self.expect_punct(z, ')'),
            }
        } else {
            self.expect_punct(q, ')')
        }
    }

    fn place(&self, p: usize) -> (r: (Result<Place, String>, usize))
        requires
            self.wf(),
        ensures
            told(r) == grammar::place(self@, p as int),
        decreases self@.len() - p,
    {
        if self.is_punct(p, '(') {
            let star = self.is_punct(p + 1, '*');
            let (r, q) = self.place(self.eat_punct(p + 1, '*'));
            match r {
                Err(e) => (Err(e), q),
                Ok(x) => {
                    let (r, z) = self.closing(q);
                    match r {
                        Err(e) => (Err(e), z),
                        Ok(_) => self.projections(
                            z,
                            if star {
                                Place::Deref(Box::new(x))
                            } else {
                                x
                            },
                        ),
                    }
                },
            }
        } else if self.is_punct(p, '*') {
            let (r, q) = self.place(p + 1);
            match r {
                Err(e) => (Err(e), q),
                Ok(x) => self.projections(q, Place::Deref(Box::new(x))),
            }
        } else {
            let (r, q) = self.local(p);
            match r {
                Err(e) => (Err(e), q),
                Ok(n) => self.projections(q, Place::Local(n)),
            }
        }
    }

    fn constant(&self, p: usize) -> (r: (MConst, usize))
        requires
            self.wf(),
            p <= self@.len(),
        ensures
            (r.0, r.1 as int) == grammar::constant(self@, p as int),
    {
        match self.peek(p) {
            Tok::Int(n) => (MConst::Int(*n), p + 1),
            Tok::Punct(c) => {
                if *c == '-' {
                    if let Tok::Int(n) = self.peek(p + 1) {
                        assert(at(self@, p + 1) == self@[p + 1]);
                        return (MConst::Int(-*n), p + 2);
                    }
                }
                (MConst::Int(0), p + 1)
            },
            Tok::Word(w) => if is_text(w, "true") {
                (MConst::Bool(true), p + 1)
            } else if is_text(w, "false") {
                proof {
                    reveal_strlit("true");
                    reveal_strlit("false");
                }
                (MConst::Bool(false), p + 1)
            } else {
                (MConst::Int(0), p + 1)
            },
            _ => (MConst::Int(0), p + 1),
        }
    }

    fn operand(&self, p: usize) -> (r: (Result<MOperand, String>, usize))
        requires
            self.wf(),
        ensures
            told(r) == grammar::operand(self@, p as int),
    {
        if self.is_word(p, "move") {
            let (r, q) = self.place(p + 1);
            match r {
                Err(e) => (Err(e), q),
                Ok(x) => (Ok(MOperand::Move(x)), q),
            }
        } else if self.is_word(p, "const") {
            let (c, q) = self.constant(p + 1);
            (Ok(MOperand::Const(c)), q)
        } else {
            let (r, q) = self.place(self.eat_word(p, "copy"));
            match r {
                Err(e) => (Err(e), q),
                Ok(x) => (Ok(MOperand::Copy(x)), q),
            }
        }
    }

    fn borrow_start(&self, p: usize) -> (q: usize)
        requires
            self.wf(),
        ensures
            q == grammar::borrow_start(self@, p as int),
    {
        let a = self.eat_word(p, "mut");
        let b: usize = if self.is_word(a, "raw") {
            if self.is_word(a + 1, "const") {
                a + 2
            } else {
                self.eat_word(a + 1, "mut")
            }
        } else {
            a
        };
        if self.is_punct(b, '(') {
            if let Tok::Word(w) = self.peek(b + 1) {
                if is_text(w, "fake") || is_text(w, "shallow") || is_text(w, "shared") || is_text(
                    w,
                    "two_phase",
                ) {
                    return self.skip_balanced_paren(b + 1);
                }
            }
        }
        b
    }

    fn operator(&self, p: usize, kind: BinKind) -> (r: (Result<MRvalue, String>, usize))
        requires
            self.wf(),
        ensures
            told(r) == grammar::operator(self@, p as int, kind),
    {
        let (r, q) = self.operand(p);
        match r {
            Err(e) => (Err(e), q),
            Ok(a) => {
                let (r, y) = self.operand(self.eat_punct(q, ','));
                match r {
                    Err(e) => (Err(e), y),
                    Ok(b) => {
                        let (r, z) = self.expect_punct(y, ')');
                        match r {
                            Err(e) => (Err(e), z),
                            Ok(_) => (Ok(MRvalue::Bin(kind, a, b)), z),
                        }
                    },
                }
            },
        }
    }

    fn len_of(&self, p: usize) -> (r: (Result<MRvalue, String>, usize))
        requires
            self.wf(),
        ensures
            told(r) == grammar::len_of(self@, p as int),
    {
        let (r, q) = self.place(p);
        match r {
            Err(e) => (Err(e), q),
            Ok(x) => {
                let (r, z) = self.expect_punct(q, ')');
                match r {
                    Err(e) => (Err(e), z),
                    Ok(_) => (Ok(MRvalue::Len(x)), z),
                }
            },
        }
    }

    fn metadata_of(&self, p: usize) -> (r: (Result<MRvalue, String>, usize))
        requires
            self.wf(),
        ensures
            told(r) == grammar::metadata_of(self@, p as int),
    {
        let (r, q) = self.operand(p);
        match r {
            Err(e) => (Err(e), q),
            Ok(x) => {
                let (r, z) = self.expect_punct(q, ')');
                match r {
                    Err(e) => (Err(e), z),
                    Ok(_) => match x {
                        MOperand::Copy(y) => (Ok(MRvalue::Len(y)), z),
                        MOperand::Move(y) => (Ok(MRvalue::Len(y)), z),
                        MOperand::Const(_) => (Ok(MRvalue::Other), z),
                    },
                }
            },
        }
    }

    fn use_or_cast(&self, p: usize) -> (r: (Result<MRvalue, String>, usize))
        requires
            self.wf(),
        ensures
            told(r) == grammar::use_or_cast(self@, p as int),
    {
        let (r, q) = self.operand(p);
        match r {
            Err(e) => (Err(e), q),
            Ok(x) => {
                if self.is_word(q, "as") {
                    let (r, z) = self.ty(q + 1);
                    match r {
                        Err(e) => (Err(e), z),
                        Ok(_) => {
                            let end: usize = if self.is_punct(z, '(') {
                                self.skip_balanced_paren(z + 1)
                            } else {
                                z
                            };
                            (Ok(MRvalue::Cast(x)), end)
                        },
                    }
                } else {
                    (Ok(MRvalue::Use(x)), q)
                }
            },
        }
    }

    fn rvalue(&self, p: usize) -> (r: (Result<MRvalue, String>, usize))
        requires
            self.wf(),
        ensures
            told(r) == grammar::rvalue(self@, p as int),
    {
        if self.is_punct(p, '&') {
            let (r, q) = self.place(self.borrow_start(p + 1));
            return match r {
                Err(e) => (Err(e), q),
                Ok(x) => (Ok(MRvalue::Ref(x)), q),
            };
        }
        if let Tok::Word(w) = self.peek(p) {
            if self.is_punct(p + 1, '(') && !is_text(w, "copy") && !is_text(w, "move") && !is_text(
                w,
                "const",
            ) {
                assert(grammar::applied(self@, p as int) == Some(w@));
                return if is_text(w, "Len") {
                    self.len_of(p + 2)
                } else if is_text(w, "PtrMetadata") {
                    self.metadata_of(p + 2)
                } else {
                    match bin_kind(w) {
                        Some(k) => self.operator(p + 2, k),
                        None => (Ok(MRvalue::Other), self.skip_statement_inline(p)),
                    }
                };
            }
        }
        assert(grammar::applied(self@, p as int) is None);
        self.use_or_cast(p)
    }

    fn statement(&self, p: usize) -> (r: (Result<MStmt, String>, usize))
        requires
            self.wf(),
        ensures
            told(r) == grammar::statement(self@, p as int),
    {
        if let Tok::Word(w) = self.peek(p) {
            if no_effect(w) {
                return (Ok(MStmt::Nop), self.skip_past(p, ';'));
            }
        }
        let (r, q) = self.place(p);
        match r {
            Err(e) => (Err(e), q),
            Ok(x) => {
                let (r, y) = self.expect_punct(q, '=');
                match r {
                    Err(e) => (Err(e), y),
                    Ok(_) => {
                        let (r, z) = self.rvalue(y);
                        match r {
                            Err(e) => (Err(e), z),
                            Ok(v) => (Ok(MStmt::Assign(x, v)), self.eat_punct(z, ';')),
                        }
                    },
                }
            },
        }
    }

    fn edge_list(&self, start: usize) -> (r: (Result<Option<usize>, String>, usize))
        requires
            self.wf(),
        ensures
            told(r) == grammar::edge_list(self@, start as int, None),
    {
        let mut p: usize = start;
        let mut found: Option<usize> = None;
        while !self.is_punct(p, ']')
            invariant
                self.wf(),
                grammar::edge_list(self@, start as int, None) == grammar::edge_list(
                    self@,
                    p as int,
                    found,
                ),
            decreases grammar::left(self@, p as int),
        {
            let (r, q) = self.word(p);
            match r {
                Err(e) => {
                    return (Err(e), q);
                },
                Ok(key) => {
                    if self.is_punct(q, ':') {
                        let (r, z) = self.block_ref(q + 1, "expected a block, found `");
                        match r {
                            Err(e) => {
                                return (Err(e), z);
                            },
                            Ok(b) => {
                                if is_text(&key, "return") || is_text(&key, "success") {
                                    found = Some(b);
                                }
                                p = self.eat_punct(z, ',');
                            },
                        }
                    } else {
                        proof {
                            grammar::lemma_skip_paren(self@, q + 2, 1);
                        }
                        let z = self.action_end(q);
                        p = self.eat_punct(z, ',');
                    }
                },
            }
        }
        (Ok(found), p + 1)
    }

    fn action_end(&self, p: usize) -> (q: usize)
        requires
            self.wf(),
        ensures
            q == grammar::action_end(self@, p as int),
    {
        match self.peek(p) {
            Tok::Word(_) => if self.is_punct(p + 1, '(') {
                self.skip_balanced_paren(p + 2)
            } else {
                p + 1
            },
            _ => p,
        }
    }

    fn return_edge(&self, p: usize) -> (r: (Result<Option<usize>, String>, usize))
        requires
            self.wf(),
        ensures
            told(r) == grammar::return_edge(self@, p as int),
    {
        let a = self.eat_arrow(p);
        if self.is_punct(a, '[') {
            self.edge_list(a + 1)
        } else {
            let (r, q) = self.word(a);
            match r {
                Err(e) => (Err(e), q),
                Ok(w) => (Ok(bb_index(&w)), q),
            }
        }
    }

    fn success_block(&self, p: usize) -> (r: (Result<usize, String>, usize))
        requires
            self.wf(),
        ensures
            told(r) == grammar::success_block(self@, p as int),
    {
        let a = self.eat_arrow(p);
        if self.is_punct(a, '[') {
            let (r, q) = self.edge_list(a + 1);
            match r {
                Err(e) => (Err(e), q),
                Ok(Some(b)) => (Ok(b), q),
                Ok(None) => (Err("assert without a success edge".to_owned()), q),
            }
        } else {
            self.block_ref(a, "bad assert target `")
        }
    }

    fn scrutinee(&self, p: usize) -> (r: (Result<MOperand, String>, usize))
        requires
            self.wf(),
        ensures
            told(r) == grammar::scrutinee(self@, p as int),
    {
        let (r, q) = self.expect_punct(p, '(');
        if let Err(e) = r {
            return (Err(e), q);
        }
        let (r, y) = self.operand(q);
        match r {
            Err(e) => (Err(e), y),
            Ok(x) => {
                let (r, z) = self.expect_punct(y, ')');
                if let Err(e) = r {
                    return (Err(e), z);
                }
                let (r, w) = self.expect_punct(self.eat_arrow(z), '[');
                match r {
                    Err(e) => (Err(e), w),
                    Ok(_) => (Ok(x), w),
                }
            },
        }
    }

    fn switch_int(&self, start: usize) -> (r: (Result<MTerm, String>, usize))
        requires
            self.wf(),
        ensures
            told_view(r) == grammar::switch_int(self@, start as int),
    {
        let (r, q) = self.scrutinee(start);
        let x = match r {
            Err(e) => {
                return (Err(e), q);
            },
            Ok(x) => x,
        };
        let mut p: usize = q;
        let mut list: Vec<(i128, usize)> = Vec::new();
        let mut other: Option<usize> = None;
        while !self.is_punct(p, ']')
            invariant
                self.wf(),
                grammar::scrutinee(self@, start as int) == (Ok::<MOperand, Seq<char>>(x), q as int),
                grammar::cases(self@, q as int, Seq::empty(), None) == grammar::cases(
                    self@,
                    p as int,
                    list@,
                    other,
                ),
            decreases grammar::left(self@, p as int),
        {
            if self.is_word(p, "otherwise") {
                let (r, y) = self.expect_punct(p + 1, ':');
                if let Err(e) = r {
                    return (Err(e), y);
                }
                let (r, z) = self.block_ref(y, "expected a block, found `");
                match r {
                    Err(e) => {
                        return (Err(e), z);
                    },
                    Ok(b) => {
                        other = Some(b);
                        p = self.eat_punct(z, ',');
                    },
                }
            } else {
                let (r, w) = self.int_lit(p);
                match r {
                    Err(e) => {
                        return (Err(e), w);
                    },
                    Ok(v) => {
                        let (r, y) = self.expect_punct(w, ':');
                        if let Err(e) = r {
                            return (Err(e), y);
                        }
                        let (r, z) = self.block_ref(y, "expected a block, found `");
                        match r {
                            Err(e) => {
                                return (Err(e), z);
                            },
                            Ok(b) => {
                                list.push((v, b));
                                p = self.eat_punct(z, ',');
                            },
                        }
                    },
                }
            }
        }
        match other {
            Some(b) => (Ok(MTerm::SwitchInt(x, list, b)), p + 1),
            None => (Err("switchInt without an `otherwise`".to_owned()), p + 1),
        }
    }

    fn message(&self, start: usize) -> (r: (Result<(), String>, usize))
        requires
            self.wf(),
        ensures
            told(r) == grammar::message(self@, start as int, 1),
    {
        let mut p: usize = start;
        let mut depth: usize = 1;
        while depth > 0
            invariant
                self.wf(),
                depth >= 1 ==> depth <= p - start + 1,
                start <= p,
                p <= self@.len() || p == start,
                grammar::message(self@, start as int, 1) == grammar::message(
                    self@,
                    p as int,
                    depth as int,
                ),
            decreases self@.len() - p,
        {
            if self.is_eof(p) {
                return (Err("unterminated assert(...)".to_owned()), self.bumped(p));
            }
            if self.is_punct(p, '(') {
                depth += 1;
            } else if self.is_punct(p, ')') {
                depth -= 1;
            }
            p += 1;
        }
        (Ok(()), p)
    }

    fn assert_term(&self, p: usize) -> (r: (Result<MTerm, String>, usize))
        requires
            self.wf(),
        ensures
            told_view(r) == grammar::assertion(self@, p as int),
    {
        let (r, q) = self.expect_punct(p, '(');
        if let Err(e) = r {
            return (Err(e), q);
        }
        let expected = !self.is_punct(q, '!');
        let (r, y) = self.operand(self.eat_punct(q, '!'));
        match r {
            Err(e) => (Err(e), y),
            Ok(cond) => {
                let (r, z) = self.message(y);
                if let Err(e) = r {
                    return (Err(e), z);
                }
                let (r, w) = self.success_block(z);
                match r {
                    Err(e) => (Err(e), w),
                    Ok(target) => (Ok(MTerm::Assert { cond, expected, target }), w),
                }
            },
        }
    }

    fn path_end(&self, start: usize) -> (r: (String, usize))
        requires
            self.wf(),
        ensures
            (r.0@, r.1 as int) == grammar::path_end(self@, start as int, 0, ""@),
    {
        let mut p: usize = start;
        let mut depth: i128 = 0;
        let mut last: String = "".to_owned();
        while !self.is_eof(p) && !(self.is_punct(p, '(') && depth == 0)
            invariant
                self.wf(),
                start <= p,
                p <= self@.len() || p == start,
                start - p <= depth <= p - start,
                grammar::path_end(self@, start as int, 0, ""@) == grammar::path_end(
                    self@,
                    p as int,
                    depth as int,
                    last@,
                ),
            decreases self@.len() - p,
        {
            if self.is_punct(p, '<') || self.is_punct(p, '[') {
                depth += 1;
            } else if self.is_punct(p, '>') || self.is_punct(p, ']') {
                depth -= 1;
            } else if let Tok::Word(w) = self.peek(p) {
                last = w.clone();
            }
            p += 1;
        }
        (last, p)
    }

    fn callee_spec(&self, p: usize) -> (r: (Result<CalleeSpec, String>, usize))
        requires
            self.wf(),
        ensures
            told_view(r) == grammar::callee_spec(self@, p as int),
    {
        if self.is_word(p, "move") || self.is_word(p, "copy") {
            let (r, q) = self.place(p + 1);
            match r {
                Err(e) => (Err(e), q),
                Ok(Place::Local(n)) => (Ok(CalleeSpec::Indirect(n)), q),
                Ok(_) => (Ok(CalleeSpec::Named("".to_owned())), q),
            }
        } else {
            let (last, q) = self.path_end(self.eat_word(p, "const"));
            (Ok(CalleeSpec::Named(last)), q)
        }
    }

    fn arguments(&self, start: usize) -> (r: (Result<Vec<MOperand>, String>, usize))
        requires
            self.wf(),
        ensures
            told_view(r) == grammar::arguments(self@, start as int, Seq::empty()),
    {
        let mut p: usize = start;
        let mut args: Vec<MOperand> = Vec::new();
        while !self.is_punct(p, ')')
            invariant
                self.wf(),
                grammar::arguments(self@, start as int, Seq::empty()) == grammar::arguments(
                    self@,
                    p as int,
                    args@,
                ),
            decreases grammar::left(self@, p as int),
        {
            proof {
                grammar::lemma_operand(self@, p as int);
            }
            let (r, q) = self.operand(p);
            match r {
                Err(e) => {
                    return (Err(e), q);
                },
                Ok(x) => {
                    args.push(x);
                    p = self.eat_punct(q, ',');
                },
            }
        }
        (Ok(args), p + 1)
    }

    fn call_terminator(&self, p: usize) -> (r: (Result<MTerm, String>, usize))
        requires
            self.wf(),
        ensures
            told_view(r) == grammar::call_terminator(self@, p as int),
    {
        let (r, q) = self.place(p);
        let dst = match r {
            Err(e) => {
                return (Err(e), q);
            },
            Ok(x) => x,
        };
        let (r, y) = self.expect_punct(q, '=');
        if let Err(e) = r {
            return (Err(e), y);
        }
        let (r, x) = self.callee_spec(y);
        let callee = match r {
            Err(e) => {
                return (Err(e), x);
            },
            Ok(c) => c,
        };
        let (r, w) = self.expect_punct(x, '(');
        if let Err(e) = r {
            return (Err(e), w);
        }
        let (r, v) = self.arguments(w);
        let args = match r {
            Err(e) => {
                return (Err(e), v);
            },
            Ok(a) => a,
        };
        let (r, z) = self.return_edge(v);
        match r {
            Err(e) => (Err(e), z),
            Ok(target) => (Ok(MTerm::Call { dst, callee, args, target, unwind: None }), z),
        }
    }

    fn stmt_is_terminator(&self, start: usize) -> (r: bool)
        requires
            self.wf(),
        ensures
            r == grammar::is_call(self@, start as int, 0),
    {
        let mut p: usize = start;
        let mut depth: i128 = 0;
        while !self.is_eof(p)
            invariant
                self.wf(),
                start <= p,
                p <= self@.len() || p == start,
                start - p <= depth <= p - start,
                grammar::is_call(self@, start as int, 0) == grammar::is_call(
                    self@,
                    p as int,
                    depth as int,
                ),
            decreases self@.len() - p,
        {
            if self.is_punct(p, '(') || self.is_punct(p, '[') {
                depth += 1;
            } else if self.is_punct(p, ')') || self.is_punct(p, ']') {
                depth -= 1;
            } else if self.is_arrow(p) && depth == 0 {
                return true;
            } else if self.is_punct(p, ';') && depth == 0 {
                return false;
            } else if self.is_punct(p, '}') && depth <= 0 {
                return false;
            }
            p += 1;
        }
        false
    }
}

/// A terminator that may be missing, as a mathematical value.
pub open spec fn told_term(r: (Result<Option<MTerm>, String>, usize)) -> Parsed<Option<TermForm>> {
    match r.0 {
        Ok(Some(x)) => (Ok(Some(x@)), r.1 as int),
        Ok(None) => (Ok(None), r.1 as int),
        Err(e) => (Err(e@), r.1 as int),
    }
}

impl Parser {
    fn keyword_term(&self, p: usize, w: &String) -> (r: (Result<Option<MTerm>, String>, usize))
        requires
            self.wf(),
            p < self@.len(),
        ensures
            told_term(r) == grammar::keyword_term(self@, p as int, w@),
    {
        if is_text(w, "return") {
            (Ok(Some(MTerm::Return)), p + 1)
        } else if is_text(w, "unreachable") {
            (Ok(Some(MTerm::Unreachable)), p + 1)
        } else if is_text(w, "goto") {
            let a = self.eat_arrow(p + 1);
            let (r, q) = self.block_ref(a, "expected a block after `->`, found `");
            match r {
                Err(e) => (Err(e), q),
                Ok(b) => (Ok(Some(MTerm::Goto(b))), q),
            }
        } else if is_text(w, "switchInt") {
            let (r, q) = self.switch_int(p + 1);
            match r {
                Err(e) => (Err(e), q),
                Ok(x) => (Ok(Some(x)), q),
            }
        } else if is_text(w, "assert") {
            let (r, q) = self.assert_term(p + 1);
            match r {
                Err(e) => (Err(e), q),
                Ok(x) => (Ok(Some(x)), q),
            }
        } else if is_text(w, "call") || is_text(w, "drop") || is_text(w, "yield") || is_text(
            w,
            "resume",
        ) || is_text(w, "abort") {
            (Ok(Some(MTerm::Unsupported)), self.skip_past(p, ';'))
        } else {
            (Ok(None), p)
        }
    }

    fn try_terminator(&self, p: usize) -> (r: (Result<Option<MTerm>, String>, usize))
        requires
            self.wf(),
        ensures
            told_term(r) == grammar::try_terminator(self@, p as int),
    {
        match self.peek(p) {
            Tok::Word(w) => {
                let (r, q) = self.keyword_term(p, w);
                match r {
                    Ok(Some(x)) => (Ok(Some(x)), self.eat_punct(q, ';')),
                    Ok(None) => (Ok(None), q),
                    Err(e) => (Err(e), q),
                }
            },
            Tok::Punct(c) => if *c == '}' {
                (Ok(Some(MTerm::Unreachable)), p)
            } else {
                (Ok(None), p)
            },
            _ => (Ok(None), p),
        }
    }

    fn block_start(&self, p: usize) -> (r: (Result<usize, String>, usize))
        ensures
            told(r) == grammar::block_start(self@, p as int),
    {
        let (r, q) = self.block_ref(p, "bad block label `");
        match r {
            Err(e) => (Err(e), q),
            Ok(id) => {
                let (r, y) = self.expect_punct(q, ':');
                if let Err(e) = r {
                    return (Err(e), y);
                }
                let (r, z) = self.expect_punct(y, '{');
                match r {
                    Err(e) => (Err(e), z),
                    Ok(_) => (Ok(id), z),
                }
            },
        }
    }

    fn block_rest(&self, start: usize) -> (r: (Result<(Vec<MStmt>, MTerm), String>, usize))
        requires
            self.wf(),
        ensures
            match r.0 {
                Ok((stmts, term)) => grammar::block_rest(self@, start as int, Seq::empty()) == (
                    Ok::<(Seq<MStmt>, TermForm), Seq<char>>((stmts@, term@)),
                    r.1 as int,
                ),
                Err(e) => grammar::block_rest(self@, start as int, Seq::empty()) == (
                    Err::<(Seq<MStmt>, TermForm), Seq<char>>(e@),
                    r.1 as int,
                ),
            },
    {
        let mut p: usize = start;
        let mut stmts: Vec<MStmt> = Vec::new();
        loop
            invariant
                self.wf(),
                grammar::block_rest(self@, start as int, Seq::empty()) == grammar::block_rest(
                    self@,
                    p as int,
                    stmts@,
                ),
            decreases grammar::left(self@, p as int),
        {
            proof {
                grammar::lemma_statement(self@, p as int);
            }
            let (r, q) = self.try_terminator(p);
            match r {
                Err(e) => {
                    return (Err(e), q);
                },
                Ok(Some(x)) => {
                    return (Ok((stmts, x)), q);
                },
                Ok(None) => {},
            }
            if self.stmt_is_terminator(p) {
                let (r, q) = self.call_terminator(p);
                return match r {
                    Err(e) => (Err(e), q),
                    Ok(x) => (Ok((stmts, x)), self.eat_punct(q, ';')),
                };
            }
            let (r, q) = self.statement(p);
            match r {
                Err(e) => {
                    return (Err(e), q);
                },
                Ok(x) => {
                    stmts.push(x);
                    p = q;
                },
            }
        }
    }

    fn block(&self, p: usize) -> (r: (Result<MBlock, String>, usize))
        requires
            self.wf(),
        ensures
            told_view(r) == grammar::block(self@, p as int),
    {
        let (r, q) = self.block_start(p);
        let id: usize = match r {
            Err(e) => {
                return (Err(e), q);
            },
            Ok(id) => id,
        };
        let (r, y) = self.block_rest(q);
        let (stmts, term) = match r {
            Err(e) => {
                return (Err(e), y);
            },
            Ok(x) => x,
        };
        let (r, z) = self.expect_punct(y, '}');
        match r {
            Err(e) => (Err(e), z),
            Ok(_) => {
                let stmt_spans: Vec<Option<String>> = vec![None; stmts.len()];
                assert(span_texts(stmt_spans@) =~= Seq::new(stmts@.len(), |i: int| None));
                (Ok(MBlock { id, stmts, stmt_spans, term, term_span: None }), z)
            },
        }
    }

    fn at_block_header(&self, p: usize) -> (r: bool)
        ensures
            r == grammar::at_header(self@, p as int),
    {
        match self.peek(p) {
            Tok::Word(w) => is_bb(w) && self.is_punct(p + 1, ':'),
            _ => false,
        }
    }

    fn skip_to_first_block(&self, start: usize) -> (q: usize)
        ensures
            q == grammar::next_header(self@, start as int),
    {
        let mut p: usize = start;
        while !self.is_eof(p) && !self.at_block_header(p)
            invariant
                grammar::next_header(self@, start as int) == grammar::next_header(self@, p as int),
            decreases self@.len() - p,
        {
            p += 1;
        }
        p
    }

    fn block_list(&self, start: usize) -> (r: (Result<Vec<MBlock>, String>, usize))
        requires
            self.wf(),
        ensures
            match r.0 {
                Ok(blocks) => grammar::block_list(self@, start as int, Seq::empty()) == (
                    Ok::<Seq<BlockForm>, Seq<char>>(block_forms(blocks@)),
                    r.1 as int,
                ),
                Err(e) => grammar::block_list(self@, start as int, Seq::empty()) == (
                    Err::<Seq<BlockForm>, Seq<char>>(e@),
                    r.1 as int,
                ),
            },
    {
        let mut p: usize = start;
        let mut blocks: Vec<MBlock> = Vec::new();
        assert(block_forms(blocks@) =~= Seq::empty());
        while self.at_block_header(p)
            invariant
                self.wf(),
                grammar::block_list(self@, start as int, Seq::empty()) == grammar::block_list(
                    self@,
                    p as int,
                    block_forms(blocks@),
                ),
            decreases grammar::left(self@, p as int),
        {
            proof {
                grammar::lemma_block(self@, p as int);
            }
            let ghost before = blocks@;
            let (r, q) = self.block(p);
            match r {
                Err(e) => {
                    return (Err(e), q);
                },
                Ok(b) => {
                    assert(block_forms(before.push(b)) =~= block_forms(before).push(b@));
                    blocks.push(b);
                    p = q;
                },
            }
        }
        (Ok(blocks), p)
    }

    fn parameters(&self, start: usize) -> (r: (Result<Vec<(u32, MType)>, String>, usize))
        requires
            self.wf(),
        ensures
            told_view(r) == grammar::parameters(self@, start as int, Seq::empty()),
    {
        let mut p: usize = start;
        let mut params: Vec<(u32, MType)> = Vec::new();
        while !self.is_punct(p, ')')
            invariant
                self.wf(),
                grammar::parameters(self@, start as int, Seq::empty()) == grammar::parameters(
                    self@,
                    p as int,
                    params@,
                ),
            decreases grammar::left(self@, p as int),
        {
            let (r, q) = self.local(p);
            let n: u32 = match r {
                Err(e) => {
                    return (Err(e), q);
                },
                Ok(n) => n,
            };
            let (r, y) = self.expect_punct(q, ':');
            if let Err(e) = r {
                return (Err(e), y);
            }
            proof {
                grammar::lemma_ty(self@, y as int);
            }
            let (r, z) = self.ty(y);
            match r {
                Err(e) => {
                    return (Err(e), z);
                },
                Ok(x) => {
                    params.push((n, x));
                    p = self.eat_punct(z, ',');
                },
            }
        }
        (Ok(params), p + 1)
    }

    fn next_paren(&self, start: usize) -> (q: usize)
        ensures
            q == grammar::next_paren(self@, start as int),
    {
        let mut p: usize = start;
        while !self.is_eof(p) && !self.is_punct(p, '(')
            invariant
                grammar::next_paren(self@, start as int) == grammar::next_paren(self@, p as int),
            decreases self@.len() - p,
        {
            p += 1;
        }
        p
    }

    fn return_type(&self, p: usize) -> (r: (Result<MType, String>, usize))
        requires
            self.wf(),
        ensures
            told(r) == grammar::return_type(self@, p as int),
    {
        let (r, q) = if self.is_arrow(p) {
            self.ty(p + 1)
        } else {
            (Ok(MType::Unit), p)
        };
        match r {
            Err(e) => (Err(e), q),
            Ok(x) => {
                let (r, z) = self.expect_punct(q, '{');
                match r {
                    Err(e) => (Err(e), z),
                    Ok(_) => (Ok(x), z),
                }
            },
        }
    }

    fn body(&self, p: usize) -> (r: (Result<MirBody, String>, usize))
        requires
            self.wf(),
        ensures
            told_view(r) == grammar::body(self@, p as int),
    {
        proof {
            reveal(grammar::body);
        }
        let (r, q) = self.word(p);
        let name = match r {
            Err(e) => {
                return (Err(e), q);
            },
            Ok(w) => w,
        };
        let (r, y) = self.expect_punct(self.next_paren(q), '(');
        if let Err(e) = r {
            return (Err(e), y);
        }
        let (r, x) = self.parameters(y);
        let params = match r {
            Err(e) => {
                return (Err(e), x);
            },
            Ok(v) => v,
        };
        let (r, w) = self.return_type(x);
        let ret = match r {
            Err(e) => {
                return (Err(e), w);
            },
            Ok(t) => t,
        };
        let (r, z) = self.block_list(self.skip_to_first_block(w));
        match r {
            Err(e) => (Err(e), z),
            Ok(blocks) => {
                let b = MirBody { name, params, locals: Vec::new(), ret, blocks };
                assert(b@.blocks =~= block_forms(blocks@));
                assert(b@.locals =~= Seq::empty());
                (Ok(b), self.skip_past(z, '}'))
            },
        }
    }

    fn skip_to_fn(&self, start: usize) -> (r: Option<usize>)
        ensures
            match r {
                Some(q) => grammar::next_fn(self@, start as int) == Some(q as int),
                None => grammar::next_fn(self@, start as int) is None,
            },
    {
        let mut p: usize = start;
        while !self.is_eof(p)
            invariant
                grammar::next_fn(self@, start as int) == grammar::next_fn(self@, p as int),
            decreases self@.len() - p,
        {
            if self.is_word(p, "fn") {
                return Some(p + 1);
            }
            p += 1;
        }
        None
    }
}

/// Blocks as mathematical values.
pub open spec fn block_forms(s: Seq<MBlock>) -> Seq<BlockForm> {
    Seq::new(s.len(), |i: int| s[i]@)
}

/// The functions that were read, and the names of the others with the reasons.
#[derive(Debug, PartialEq, Eq)]
pub struct ParsedModule {
    pub bodies: Vec<MirBody>,
    pub failed: Vec<(String, String)>,
}

impl View for ParsedModule {
    type V = Dump;

    open spec fn view(&self) -> Dump {
        Dump {
            bodies: Seq::new(self.bodies@.len(), |i: int| self.bodies@[i]@),
            failed: Seq::new(
                self.failed@.len(),
                |i: int| (self.failed@[i].0@, self.failed@[i].1@),
            ),
        }
    }
}

impl ParsedModule {
    fn add_body(&mut self, b: MirBody)
        ensures
            final(self)@ == (Dump { bodies: old(self)@.bodies.push(b@), failed: old(self)@.failed }),
    {
        let ghost before = self@;
        self.bodies.push(b);
        assert(self@.bodies =~= before.bodies.push(b@));
        assert(self@.failed =~= before.failed);
    }

    fn add_failed(&mut self, name: String, message: String)
        ensures
            final(self)@ == (Dump {
                bodies: old(self)@.bodies,
                failed: old(self)@.failed.push((name@, "parse error: "@ + message@)),
            }),
    {
        let ghost before = self@;
        let reason = Error::parse(message.as_str()).render();
        self.failed.push((name, reason));
        assert(self@.bodies =~= before.bodies);
        assert(self@.failed =~= before.failed.push((name@, reason@)));
    }
}

/// Read every function of a MIR dump. One that cannot be read is named with the reason,
/// and reading resumes at the next one.
pub fn parse_module(toks: Vec<Tok>) -> (m: ParsedModule)
    requires
        toks@.len() < usize::MAX,
        forall|i: int| 0 <= i < toks@.len() ==> (#[trigger] toks@[i]) != Tok::Int(i128::MIN),
    ensures
        m@ == grammar::dump(tok_views(toks@)),
{
    let parser = Parser { toks };
    let ghost t = parser@;
    proof {
        assert forall|i: int| 0 <= i < t.len() implies (#[trigger] t[i]) != TokView::Int(
            i128::MIN,
        ) by {
            assert(toks@[i] != Tok::Int(i128::MIN));
        }
    }
    let mut m = ParsedModule { bodies: Vec::new(), failed: Vec::new() };
    assert(m@.bodies =~= Seq::empty());
    assert(m@.failed =~= Seq::empty());
    let mut p: usize = 0;
    loop
        invariant
            parser.wf(),
            t == parser@,
            t == tok_views(toks@),
            grammar::dump(t) == grammar::functions(t, p as int, m@),
        decreases grammar::left(t, p as int),
    {
        proof {
            grammar::lemma_next_fn(t, p as int);
        }
        match parser.skip_to_fn(p) {
            None => {
                return m;
            },
            Some(start) => {
                proof {
                    grammar::lemma_body(t, start as int);
                }
                let name = match parser.peek(start) {
                    Tok::Word(w) => w.clone(),
                    _ => "".to_owned(),
                };
                let (r, q) = parser.body(start);
                match r {
                    Ok(b) => {
                        m.add_body(b);
                        p = q;
                    },
                    Err(e) => {
                        m.add_failed(name, e);
                        p = if q <= start {
                            start + 1
                        } else {
                            q
                        };
                    },
                }
            },
        }
    }
}

} // verus!
