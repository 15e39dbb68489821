//! What the tokens of a MIR dump mean.
//!
//! Each construct is read from a position on. The reading gives the construct or a
//! message, and the position that it stopped at.

use crate::mir::ast::{
    BinKind, CalleeSpec, MBlock, MConst, MOperand, MRvalue, MStmt, MTerm, MType, MirBody, Place,
};
use crate::ir::{span_text, span_texts};
use crate::mir::tokens::{shown, TokView};
use crate::text::{after_prefix, digit, unsigned};
use vstd::prelude::*;

verus! {

/// A construct or a message, and the position after it.
pub type Parsed<T> = (Result<T, Seq<char>>, int);

// ---- tokens ----

/// The token at a position; past the end, the end.
pub open spec fn at(t: Seq<TokView>, p: int) -> TokView {
    if 0 <= p < t.len() {
        t[p]
    } else {
        TokView::Eof
    }
}

/// The position after a token that is always taken.
pub open spec fn bumped(t: Seq<TokView>, p: int) -> int {
    if p < t.len() {
        p + 1
    } else {
        p
    }
}

/// A punctuation mark stands at a position.
pub open spec fn is_punct(t: Seq<TokView>, p: int, c: char) -> bool {
    at(t, p) == TokView::Punct(c)
}

/// A word stands at a position.
pub open spec fn is_word(t: Seq<TokView>, p: int, w: Seq<char>) -> bool {
    at(t, p) == TokView::Word(w)
}

/// The position after a punctuation mark, where it is there.
pub open spec fn eat(t: Seq<TokView>, p: int, c: char) -> int {
    if is_punct(t, p, c) {
        p + 1
    } else {
        p
    }
}

/// The position after a word, where it is there.
pub open spec fn eat_word(t: Seq<TokView>, p: int, w: Seq<char>) -> int {
    if is_word(t, p, w) {
        p + 1
    } else {
        p
    }
}

/// The position after an arrow, where one is there.
pub open spec fn eat_arrow(t: Seq<TokView>, p: int) -> int {
    if at(t, p) is Arrow {
        p + 1
    } else {
        p
    }
}

/// A punctuation mark that has to be there.
pub open spec fn expect(t: Seq<TokView>, p: int, c: char) -> Parsed<()> {
    if is_punct(t, p, c) {
        (Ok(()), p + 1)
    } else {
        (Err("expected `"@ + seq![c] + "`, found "@ + shown(at(t, p))), p)
    }
}

/// Any word.
pub open spec fn word(t: Seq<TokView>, p: int) -> Parsed<Seq<char>> {
    match at(t, p) {
        TokView::Word(w) => (Ok(w), p + 1),
        other => (Err("expected a word, found "@ + shown(other)), bumped(t, p)),
    }
}

/// An integer.
pub open spec fn int_lit(t: Seq<TokView>, p: int) -> Parsed<i128> {
    match at(t, p) {
        TokView::Int(n) => (Ok(n), p + 1),
        other => (Err("expected an integer, found "@ + shown(other)), bumped(t, p)),
    }
}

/// The position after the parenthesis that closes `depth` open ones.
pub open spec fn skip_paren(t: Seq<TokView>, p: int, depth: int) -> int
    decreases t.len() - p,
{
    if depth <= 0 || at(t, p) is Eof {
        p
    } else if is_punct(t, p, '(') {
        skip_paren(t, p + 1, depth + 1)
    } else if is_punct(t, p, ')') {
        skip_paren(t, p + 1, depth - 1)
    } else {
        skip_paren(t, p + 1, depth)
    }
}

/// The position of the next `;`.
pub open spec fn skip_inline(t: Seq<TokView>, p: int) -> int
    decreases t.len() - p,
{
    if at(t, p) is Eof || is_punct(t, p, ';') {
        p
    } else {
        skip_inline(t, p + 1)
    }
}

/// The position after the next `c`.
pub open spec fn skip_past(t: Seq<TokView>, p: int, c: char) -> int
    decreases t.len() - p,
{
    if at(t, p) is Eof {
        p
    } else if is_punct(t, p, c) {
        p + 1
    } else {
        skip_past(t, p + 1, c)
    }
}

// ---- names ----

/// The local that `_N` names.
pub open spec fn local_number(w: Seq<char>) -> Option<u32> {
    match after_prefix(w, "_"@) {
        Some(d) => match unsigned(d, u32::MAX as int) {
            Some(n) => Some(n as u32),
            None => None,
        },
        None => None,
    }
}

/// A local.
pub open spec fn local(t: Seq<TokView>, p: int) -> Parsed<u32> {
    match word(t, p) {
        (Err(e), q) => (Err(e), q),
        (Ok(w), q) => match local_number(w) {
            Some(n) => (Ok(n), q),
            None => (Err("expected a local `_N`, found `"@ + w + "`"@), q),
        },
    }
}

/// `bb` and digits.
pub open spec fn is_bb(w: Seq<char>) -> bool {
    match after_prefix(w, "bb"@) {
        Some(d) => d.len() > 0 && forall|i: int| 0 <= i < d.len() ==> digit(#[trigger] d[i]) is Some,
        None => false,
    }
}

/// The block that `bbN` names.
pub open spec fn bb_index(w: Seq<char>) -> Option<usize> {
    match after_prefix(w, "bb"@) {
        Some(d) => match unsigned(d, usize::MAX as int) {
            Some(n) => Some(n as usize),
            None => None,
        },
        None => None,
    }
}

/// A block's name; the message about another word starts with `complaint`.
pub open spec fn block_ref(t: Seq<TokView>, p: int, complaint: Seq<char>) -> Parsed<usize> {
    match word(t, p) {
        (Err(e), q) => (Err(e), q),
        (Ok(w), q) => match bb_index(w) {
            Some(n) => (Ok(n), q),
            None => (Err(complaint + w + "`"@), q),
        },
    }
}

// ---- types ----

/// The integer type or `bool` that a word names.
pub open spec fn int_type(w: Seq<char>) -> Option<MType> {
    if w == "bool"@ {
        Some(MType::Bool)
    } else if w == "i8"@ {
        Some(MType::Int { width: 8, signed: true })
    } else if w == "i16"@ {
        Some(MType::Int { width: 16, signed: true })
    } else if w == "i32"@ {
        Some(MType::Int { width: 32, signed: true })
    } else if w == "i64"@ || w == "i128"@ || w == "isize"@ {
        Some(MType::Int { width: 64, signed: true })
    } else if w == "u8"@ {
        Some(MType::Int { width: 8, signed: false })
    } else if w == "u16"@ {
        Some(MType::Int { width: 16, signed: false })
    } else if w == "u32"@ {
        Some(MType::Int { width: 32, signed: false })
    } else if w == "u64"@ || w == "u128"@ || w == "usize"@ {
        Some(MType::Int { width: 64, signed: false })
    } else {
        None
    }
}

/// What ends an array or slice type with this element type.
pub open spec fn bracket_end(t: Seq<TokView>, p: int, elem: MType) -> Parsed<MType> {
    if is_punct(t, p, ';') {
        match int_lit(t, p + 1) {
            (Err(e), q) => (Err(e), q),
            (Ok(n), q) => match expect(t, q, ']') {
                (Err(e), z) => (Err(e), z),
                (Ok(_), z) => (
                    Ok(MType::Array(Box::new(elem), (n & 0xffff_ffff_ffff_ffff) as u64)),
                    z,
                ),
            },
        }
    } else {
        match expect(t, p, ']') {
            (Err(e), z) => (Err(e), z),
            (Ok(_), z) => (Ok(MType::Slice(Box::new(elem))), z),
        }
    }
}

/// A type.
pub open spec fn ty(t: Seq<TokView>, p: int) -> Parsed<MType>
    decreases t.len() - p,
{
    if is_punct(t, p, '&') {
        let q = eat_word(t, p + 1, "mut"@);
        match ty(t, q) {
            (Err(e), z) => (Err(e), z),
            (Ok(x), z) => (Ok(MType::Ref(Box::new(x), q > p + 1)), z),
        }
    } else if is_punct(t, p, '*') {
        let q = eat_word(t, p + 1, "mut"@);
        match ty(t, eat_word(t, q, "const"@)) {
            (Err(e), z) => (Err(e), z),
            (Ok(x), z) => (Ok(MType::Ptr(Box::new(x), q > p + 1)), z),
        }
    } else if is_punct(t, p, '[') {
        match ty(t, p + 1) {
            (Err(e), z) => (Err(e), z),
            (Ok(x), z) => bracket_end(t, z, x),
        }
    } else if is_punct(t, p, '(') {
        if is_punct(t, p + 1, ')') {
            (Ok(MType::Unit), p + 2)
        } else {
            (Ok(MType::Other), skip_paren(t, p + 1, 1))
        }
    } else {
        match at(t, p) {
            TokView::Word(w) => match int_type(w) {
                Some(x) => (Ok(x), p + 1),
                None => (Ok(MType::Other), p + 1),
            },
            _ => (Ok(MType::Other), p),
        }
    }
}

// ---- places and operands ----

/// A field's number; a name counts as 0.
pub open spec fn field_index(t: Seq<TokView>, p: int) -> Parsed<u32> {
    match at(t, p) {
        TokView::Int(n) => (Ok((n & 0xffff_ffff) as u32), p + 1),
        TokView::Word(_) => (Ok(0), p + 1),
        other => (Err("expected a field index, found "@ + shown(other)), bumped(t, p)),
    }
}

/// The projections that follow a place.
pub open spec fn projections(t: Seq<TokView>, p: int, base: Place) -> Parsed<Place>
    decreases t.len() - p,
{
    if is_punct(t, p, '[') {
        match local(t, p + 1) {
            (Err(e), q) => (Err(e), q),
            (Ok(n), q) => match expect(t, q, ']') {
                (Err(e), z) => (Err(e), z),
                (Ok(_), z) => projections(t, z, Place::Index(Box::new(base), n)),
            },
        }
    } else if is_punct(t, p, '.') {
        match field_index(t, p + 1) {
            (Err(e), q) => (Err(e), q),
            (Ok(k), q) => projections(t, q, Place::Field(Box::new(base), k, None)),
        }
    } else {
        (Ok(base), p)
    }
}

/// The end of a parenthesised place: a variant, a type, both or neither.
pub open spec fn closing(t: Seq<TokView>, p: int) -> Parsed<()> {
    let q = if is_word(t, p, "as"@) {
        word(t, p + 1).1
    } else {
        p
    };
    if is_punct(t, q, ':') {
        match ty(t, q + 1) {
            (Err(e), z) => (Err(e), z),
            (Ok(_), z) => expect(t, z, ')'),
        }
    } else {
        expect(t, q, ')')
    }
}

/// A place.
pub open spec fn place(t: Seq<TokView>, p: int) -> Parsed<Place>
    decreases t.len() - p,
{
    if is_punct(t, p, '(') {
        let star = is_punct(t, p + 1, '*');
        match place(t, eat(t, p + 1, '*')) {
            (Err(e), q) => (Err(e), q),
            (Ok(x), q) => match closing(t, q) {
                (Err(e), z) => (Err(e), z),
                (Ok(_), z) => projections(
                    t,
                    z,
                    if star {
                        Place::Deref(Box::new(x))
                    } else {
                        x
                    },
                ),
            },
        }
    } else if is_punct(t, p, '*') {
        match place(t, p + 1) {
            (Err(e), q) => (Err(e), q),
            (Ok(x), q) => projections(t, q, Place::Deref(Box::new(x))),
        }
    } else {
        match local(t, p) {
            (Err(e), q) => (Err(e), q),
            (Ok(n), q) => projections(t, q, Place::Local(n)),
        }
    }
}

/// A constant; one that is not modelled counts as 0.
pub open spec fn constant(t: Seq<TokView>, p: int) -> (MConst, int) {
    match (at(t, p), at(t, p + 1)) {
        (TokView::Int(n), _) => (MConst::Int(n), p + 1),
        (TokView::Punct(c), TokView::Int(n)) => if c == '-' {
            (MConst::Int((-n) as i128), p + 2)
        } else {
            (MConst::Int(0), p + 1)
        },
        _ => if is_word(t, p, "true"@) {
            (MConst::Bool(true), p + 1)
        } else if is_word(t, p, "false"@) {
            (MConst::Bool(false), p + 1)
        } else {
            (MConst::Int(0), p + 1)
        },
    }
}

/// An operand.
pub open spec fn operand(t: Seq<TokView>, p: int) -> Parsed<MOperand> {
    if is_word(t, p, "move"@) {
        match place(t, p + 1) {
            (Err(e), q) => (Err(e), q),
            (Ok(x), q) => (Ok(MOperand::Move(x)), q),
        }
    } else if is_word(t, p, "const"@) {
        let (c, q) = constant(t, p + 1);
        (Ok(MOperand::Const(c)), q)
    } else {
        match place(t, eat_word(t, p, "copy"@)) {
            (Err(e), q) => (Err(e), q),
            (Ok(x), q) => (Ok(MOperand::Copy(x)), q),
        }
    }
}

// ---- right sides and statements ----

/// The binary operator that a word names.
pub open spec fn bin_kind(w: Seq<char>) -> Option<BinKind> {
    if w == "Add"@ {
        Some(BinKind::Add)
    } else if w == "Sub"@ {
        Some(BinKind::Sub)
    } else if w == "Mul"@ {
        Some(BinKind::Mul)
    } else if w == "Lt"@ {
        Some(BinKind::Lt)
    } else if w == "Le"@ {
        Some(BinKind::Le)
    } else if w == "Gt"@ {
        Some(BinKind::Gt)
    } else if w == "Ge"@ {
        Some(BinKind::Ge)
    } else if w == "Eq"@ {
        Some(BinKind::Eq)
    } else if w == "Ne"@ {
        Some(BinKind::Ne)
    } else if w == "BitAnd"@ {
        Some(BinKind::BitAnd)
    } else if w == "BitOr"@ {
        Some(BinKind::BitOr)
    } else if w == "BitXor"@ {
        Some(BinKind::BitXor)
    } else if w == "Div"@ || w == "Rem"@ || w == "Shl"@ || w == "Shr"@ || w == "Offset"@ {
        Some(BinKind::Other)
    } else {
        None
    }
}

/// A kind of borrow, as it stands in parentheses.
pub open spec fn borrow_kind(t: TokView) -> bool {
    match t {
        TokView::Word(w) => w == "fake"@ || w == "shallow"@ || w == "shared"@ || w == "two_phase"@,
        _ => false,
    }
}

/// What stands between `&` and the place that is borrowed.
pub open spec fn borrow_start(t: Seq<TokView>, p: int) -> int {
    let a = eat_word(t, p, "mut"@);
    let b = if is_word(t, a, "raw"@) {
        if is_word(t, a + 1, "const"@) {
            a + 2
        } else {
            eat_word(t, a + 1, "mut"@)
        }
    } else {
        a
    };
    if is_punct(t, b, '(') && borrow_kind(at(t, b + 1)) {
        skip_paren(t, b + 1, 1)
    } else {
        b
    }
}

/// The two operands of an operator, from behind its `(` on.
pub open spec fn operator(t: Seq<TokView>, p: int, kind: BinKind) -> Parsed<MRvalue> {
    match operand(t, p) {
        (Err(e), q) => (Err(e), q),
        (Ok(a), q) => match operand(t, eat(t, q, ',')) {
            (Err(e), y) => (Err(e), y),
            (Ok(b), y) => match expect(t, y, ')') {
                (Err(e), z) => (Err(e), z),
                (Ok(_), z) => (Ok(MRvalue::Bin(kind, a, b)), z),
            },
        },
    }
}

/// The place whose length is taken, from behind the `(` on.
pub open spec fn len_of(t: Seq<TokView>, p: int) -> Parsed<MRvalue> {
    match place(t, p) {
        (Err(e), q) => (Err(e), q),
        (Ok(x), q) => match expect(t, q, ')') {
            (Err(e), z) => (Err(e), z),
            (Ok(_), z) => (Ok(MRvalue::Len(x)), z),
        },
    }
}

/// The operand whose metadata is taken, from behind the `(` on: for a reference to a slice
/// it is the length.
pub open spec fn metadata_of(t: Seq<TokView>, p: int) -> Parsed<MRvalue> {
    match operand(t, p) {
        (Err(e), q) => (Err(e), q),
        (Ok(x), q) => match expect(t, q, ')') {
            (Err(e), z) => (Err(e), z),
            (Ok(_), z) => match x {
                MOperand::Copy(y) => (Ok(MRvalue::Len(y)), z),
                MOperand::Move(y) => (Ok(MRvalue::Len(y)), z),
                MOperand::Const(_) => (Ok(MRvalue::Other), z),
            },
        },
    }
}

/// An operand, possibly cast to a type.
pub open spec fn use_or_cast(t: Seq<TokView>, p: int) -> Parsed<MRvalue> {
    match operand(t, p) {
        (Err(e), q) => (Err(e), q),
        (Ok(x), q) => if is_word(t, q, "as"@) {
            match ty(t, q + 1) {
                (Err(e), z) => (Err(e), z),
                (Ok(_), z) => (
                    Ok(MRvalue::Cast(x)),
                    if is_punct(t, z, '(') {
                        skip_paren(t, z + 1, 1)
                    } else {
                        z
                    },
                ),
            }
        } else {
            (Ok(MRvalue::Use(x)), q)
        },
    }
}

/// The word at `p`, where a `(` follows it and it does not start an operand.
pub open spec fn applied(t: Seq<TokView>, p: int) -> Option<Seq<char>> {
    match at(t, p) {
        TokView::Word(w) => if is_punct(t, p + 1, '(') && w != "copy"@ && w != "move"@ && w
            != "const"@ {
            Some(w)
        } else {
            None
        },
        _ => None,
    }
}

/// The right side of an assignment.
pub open spec fn rvalue(t: Seq<TokView>, p: int) -> Parsed<MRvalue> {
    if is_punct(t, p, '&') {
        match place(t, borrow_start(t, p + 1)) {
            (Err(e), q) => (Err(e), q),
            (Ok(x), q) => (Ok(MRvalue::Ref(x)), q),
        }
    } else {
        match applied(t, p) {
            Some(w) => if w == "Len"@ {
                len_of(t, p + 2)
            } else if w == "PtrMetadata"@ {
                metadata_of(t, p + 2)
            } else {
                match bin_kind(w) {
                    Some(k) => operator(t, p + 2, k),
                    None => (Ok(MRvalue::Other), skip_inline(t, p)),
                }
            },
            None => use_or_cast(t, p),
        }
    }
}

/// The word starts a statement without an effect.
pub open spec fn no_effect(w: Seq<char>) -> bool {
    w == "StorageLive"@ || w == "StorageDead"@ || w == "nop"@ || w == "FakeRead"@ || w
        == "AscribeUserType"@ || w == "Retag"@ || w == "PlaceMention"@ || w == "Coverage"@ || w
        == "ConstEvalCounter"@ || w == "Deinit"@ || w == "assume"@ || w
        == "BackwardIncompatibleDropHint"@
}

/// A statement without an effect stands at a position.
pub open spec fn is_nop(t: Seq<TokView>, p: int) -> bool {
    match at(t, p) {
        TokView::Word(w) => no_effect(w),
        _ => false,
    }
}

/// A statement.
pub open spec fn statement(t: Seq<TokView>, p: int) -> Parsed<MStmt> {
    if is_nop(t, p) {
        (Ok(MStmt::Nop), skip_past(t, p, ';'))
    } else {
        match place(t, p) {
            (Err(e), q) => (Err(e), q),
            (Ok(x), q) => match expect(t, q, '=') {
                (Err(e), y) => (Err(e), y),
                (Ok(_), y) => match rvalue(t, y) {
                    (Err(e), z) => (Err(e), z),
                    (Ok(v), z) => (Ok(MStmt::Assign(x, v)), eat(t, z, ';')),
                },
            },
        }
    }
}

// ---- readings move forward ----

/// How many tokens are left at a position.
pub open spec fn left(t: Seq<TokView>, p: int) -> nat {
    if p < t.len() {
        (t.len() - p) as nat
    } else {
        0
    }
}

pub proof fn lemma_skip_paren(t: Seq<TokView>, p: int, depth: int)
    ensures
        skip_paren(t, p, depth) >= p,
    decreases t.len() - p,
{
    if depth > 0 && !(at(t, p) is Eof) {
        if is_punct(t, p, '(') {
            lemma_skip_paren(t, p + 1, depth + 1);
        } else if is_punct(t, p, ')') {
            lemma_skip_paren(t, p + 1, depth - 1);
        } else {
            lemma_skip_paren(t, p + 1, depth);
        }
    }
}

pub proof fn lemma_skip_inline(t: Seq<TokView>, p: int)
    ensures
        skip_inline(t, p) >= p,
    decreases t.len() - p,
{
    if !(at(t, p) is Eof || is_punct(t, p, ';')) {
        lemma_skip_inline(t, p + 1);
    }
}

pub proof fn lemma_skip_past(t: Seq<TokView>, p: int, c: char)
    ensures
        skip_past(t, p, c) >= p,
        !(at(t, p) is Eof) ==> skip_past(t, p, c) > p,
    decreases t.len() - p,
{
    if !(at(t, p) is Eof) && !is_punct(t, p, c) {
        lemma_skip_past(t, p + 1, c);
    }
}

pub proof fn lemma_ty(t: Seq<TokView>, p: int)
    ensures
        ty(t, p).1 >= p,
    decreases t.len() - p,
{
    if is_punct(t, p, '&') {
        lemma_ty(t, eat_word(t, p + 1, "mut"@));
    } else if is_punct(t, p, '*') {
        lemma_ty(t, eat_word(t, eat_word(t, p + 1, "mut"@), "const"@));
    } else if is_punct(t, p, '[') {
        lemma_ty(t, p + 1);
    } else if is_punct(t, p, '(') {
        lemma_skip_paren(t, p + 1, 1);
    }
}

pub proof fn lemma_projections(t: Seq<TokView>, p: int, base: Place)
    ensures
        projections(t, p, base).1 >= p,
    decreases t.len() - p,
{
    if is_punct(t, p, '[') {
        if let (Ok(n), q) = local(t, p + 1) {
            if let (Ok(_), z) = expect(t, q, ']') {
                lemma_projections(t, z, Place::Index(Box::new(base), n));
            }
        }
    } else if is_punct(t, p, '.') {
        if let (Ok(k), q) = field_index(t, p + 1) {
            lemma_projections(t, q, Place::Field(Box::new(base), k, None));
        }
    }
}

pub proof fn lemma_closing(t: Seq<TokView>, p: int)
    ensures
        closing(t, p).1 >= p,
{
    let q = if is_word(t, p, "as"@) {
        word(t, p + 1).1
    } else {
        p
    };
    lemma_ty(t, q + 1);
}

pub proof fn lemma_place(t: Seq<TokView>, p: int)
    ensures
        place(t, p).1 >= p,
        place(t, p).0 is Ok ==> 0 <= p < t.len() && place(t, p).1 > p,
    decreases t.len() - p,
{
    if is_punct(t, p, '(') {
        let star = is_punct(t, p + 1, '*');
        lemma_place(t, eat(t, p + 1, '*'));
        if let (Ok(x), q) = place(t, eat(t, p + 1, '*')) {
            lemma_closing(t, q);
            if let (Ok(_), z) = closing(t, q) {
                lemma_projections(
                    t,
                    z,
                    if star {
                        Place::Deref(Box::new(x))
                    } else {
                        x
                    },
                );
            }
        }
    } else if is_punct(t, p, '*') {
        lemma_place(t, p + 1);
        if let (Ok(x), q) = place(t, p + 1) {
            lemma_projections(t, q, Place::Deref(Box::new(x)));
        }
    } else {
        if let (Ok(n), q) = local(t, p) {
            lemma_projections(t, q, Place::Local(n));
        }
    }
}

pub proof fn lemma_operand(t: Seq<TokView>, p: int)
    ensures
        operand(t, p).1 >= p,
        operand(t, p).0 is Ok ==> 0 <= p < t.len() && operand(t, p).1 > p,
{
    lemma_place(t, p + 1);
    lemma_place(t, eat_word(t, p, "copy"@));
}

pub proof fn lemma_rvalue(t: Seq<TokView>, p: int)
    ensures
        rvalue(t, p).1 >= p,
{
    lemma_operand(t, p);
    lemma_operand(t, p + 2);
    lemma_place(t, p + 2);
    lemma_skip_inline(t, p);
    if let (Ok(a), q) = operand(t, p + 2) {
        lemma_operand(t, eat(t, q, ','));
    }
    if let (Ok(a), q) = operand(t, p) {
        lemma_ty(t, q + 1);
        lemma_skip_paren(t, ty(t, q + 1).1 + 1, 1);
    }
    if is_punct(t, p, '&') {
        let a = eat_word(t, p + 1, "mut"@);
        let b = if is_word(t, a, "raw"@) {
            if is_word(t, a + 1, "const"@) {
                a + 2
            } else {
                eat_word(t, a + 1, "mut"@)
            }
        } else {
            a
        };
        lemma_skip_paren(t, b + 1, 1);
        lemma_place(t, borrow_start(t, p + 1));
    }
}

pub proof fn lemma_statement(t: Seq<TokView>, p: int)
    ensures
        statement(t, p).1 >= p,
        statement(t, p).0 is Ok ==> 0 <= p < t.len() && statement(t, p).1 > p,
{
    if is_nop(t, p) {
        lemma_skip_past(t, p, ';');
    } else {
        lemma_place(t, p);
        if let (Ok(_), q) = place(t, p) {
            lemma_rvalue(t, expect(t, q, '=').1);
        }
    }
}

// ---- terminators ----

/// Who a call invokes, as a mathematical value.
pub enum CalleeForm {
    Named(Seq<char>),
    Indirect(u32),
}

impl View for CalleeSpec {
    type V = CalleeForm;

    open spec fn view(&self) -> CalleeForm {
        match self {
            CalleeSpec::Named(n) => CalleeForm::Named(n@),
            CalleeSpec::Indirect(l) => CalleeForm::Indirect(*l),
        }
    }
}

/// How a block ends, as a mathematical value.
pub enum TermForm {
    Goto(usize),
    Return,
    Switch(MOperand, Seq<(i128, usize)>, usize),
    Assert { cond: MOperand, expected: bool, target: usize },
    Call {
        dst: Place,
        callee: CalleeForm,
        args: Seq<MOperand>,
        target: Option<usize>,
        unwind: Option<usize>,
    },
    Drop { target: Option<usize>, unwind: Option<usize> },
    Unreachable,
    Unsupported,
}

impl View for MTerm {
    type V = TermForm;

    open spec fn view(&self) -> TermForm {
        match self {
            MTerm::Goto(b) => TermForm::Goto(*b),
            MTerm::Return => TermForm::Return,
            MTerm::SwitchInt(x, cases, other) => TermForm::Switch(*x, cases@, *other),
            MTerm::Assert { cond, expected, target } => TermForm::Assert {
                cond: *cond,
                expected: *expected,
                target: *target,
            },
            MTerm::Call { dst, callee, args, target, unwind } => TermForm::Call {
                dst: *dst,
                callee: callee@,
                args: args@,
                target: *target,
                unwind: *unwind,
            },
            MTerm::Drop { target, unwind } => TermForm::Drop { target: *target, unwind: *unwind },
            MTerm::Unreachable => TermForm::Unreachable,
            MTerm::Unsupported => TermForm::Unsupported,
        }
    }
}

/// The edges of a terminator, from behind `[` on: the block under `return` or `success`.
pub open spec fn edge_list(t: Seq<TokView>, p: int, found: Option<usize>) -> Parsed<Option<usize>>
    decreases left(t, p),
{
    if is_punct(t, p, ']') {
        (Ok(found), p + 1)
    } else {
        match word(t, p) {
            (Err(e), q) => (Err(e), q),
            (Ok(key), q) => if is_punct(t, q, ':') {
                match block_ref(t, q + 1, "expected a block, found `"@) {
                    (Err(e), z) => (Err(e), z),
                    (Ok(b), z) => edge_list(
                        t,
                        eat(t, z, ','),
                        if key == "return"@ || key == "success"@ {
                            Some(b)
                        } else {
                            found
                        },
                    ),
                }
            } else {
                let z = action_end(t, q);
                proof {
                    lemma_skip_paren(t, q + 2, 1);
                }
                edge_list(t, eat(t, z, ','), found)
            },
        }
    }
}

/// The end of an unwind action without a block.
pub open spec fn action_end(t: Seq<TokView>, p: int) -> int {
    if at(t, p) is Word {
        if is_punct(t, p + 1, '(') {
            skip_paren(t, p + 2, 1)
        } else {
            p + 1
        }
    } else {
        p
    }
}

/// Where a call returns to.
pub open spec fn return_edge(t: Seq<TokView>, p: int) -> Parsed<Option<usize>> {
    let a = eat_arrow(t, p);
    if is_punct(t, a, '[') {
        edge_list(t, a + 1, None)
    } else {
        match word(t, a) {
            (Err(e), q) => (Err(e), q),
            (Ok(w), q) => (Ok(bb_index(w)), q),
        }
    }
}

/// Where execution goes on after a check.
pub open spec fn success_block(t: Seq<TokView>, p: int) -> Parsed<usize> {
    let a = eat_arrow(t, p);
    if is_punct(t, a, '[') {
        match edge_list(t, a + 1, None) {
            (Err(e), q) => (Err(e), q),
            (Ok(Some(b)), q) => (Ok(b), q),
            (Ok(None), q) => (Err("assert without a success edge"@), q),
        }
    } else {
        block_ref(t, a, "bad assert target `"@)
    }
}

/// The cases of a switch, from behind `[` on, and the last block under `otherwise`.
pub open spec fn cases(
    t: Seq<TokView>,
    p: int,
    done: Seq<(i128, usize)>,
    other: Option<usize>,
) -> Parsed<(Seq<(i128, usize)>, Option<usize>)>
    decreases t.len() - p,
{
    if is_punct(t, p, ']') {
        (Ok((done, other)), p + 1)
    } else if is_word(t, p, "otherwise"@) {
        match expect(t, p + 1, ':') {
            (Err(e), q) => (Err(e), q),
            (Ok(_), q) => match block_ref(t, q, "expected a block, found `"@) {
                (Err(e), z) => (Err(e), z),
                (Ok(b), z) => cases(t, eat(t, z, ','), done, Some(b)),
            },
        }
    } else {
        match int_lit(t, p) {
            (Err(e), y) => (Err(e), y),
            (Ok(v), y) => match expect(t, y, ':') {
                (Err(e), q) => (Err(e), q),
                (Ok(_), q) => match block_ref(t, q, "expected a block, found `"@) {
                    (Err(e), z) => (Err(e), z),
                    (Ok(b), z) => cases(t, eat(t, z, ','), done.push((v, b)), other),
                },
            },
        }
    }
}

/// What stands in the parentheses of a switch, and the position after the `[` of its cases.
pub open spec fn scrutinee(t: Seq<TokView>, p: int) -> Parsed<MOperand> {
    match expect(t, p, '(') {
        (Err(e), q) => (Err(e), q),
        (Ok(_), q) => match operand(t, q) {
            (Err(e), y) => (Err(e), y),
            (Ok(x), y) => match expect(t, y, ')') {
                (Err(e), z) => (Err(e), z),
                (Ok(_), z) => match expect(t, eat_arrow(t, z), '[') {
                    (Err(e), w) => (Err(e), w),
                    (Ok(_), w) => (Ok(x), w),
                },
            },
        },
    }
}

/// A switch, from behind its keyword on.
pub open spec fn switch_int(t: Seq<TokView>, p: int) -> Parsed<TermForm> {
    match scrutinee(t, p) {
        (Err(e), q) => (Err(e), q),
        (Ok(x), q) => match cases(t, q, Seq::empty(), None) {
            (Err(e), z) => (Err(e), z),
            (Ok((list, Some(b))), z) => (Ok(TermForm::Switch(x, list, b)), z),
            (Ok((_, None)), z) => (Err("switchInt without an `otherwise`"@), z),
        },
    }
}

/// The rest of an assertion's parentheses, of which `depth` are open.
pub open spec fn message(t: Seq<TokView>, p: int, depth: int) -> Parsed<()>
    decreases t.len() - p,
{
    if depth <= 0 {
        (Ok(()), p)
    } else if at(t, p) is Eof {
        (Err("unterminated assert(...)"@), bumped(t, p))
    } else if is_punct(t, p, '(') {
        message(t, p + 1, depth + 1)
    } else if is_punct(t, p, ')') {
        message(t, p + 1, depth - 1)
    } else {
        message(t, p + 1, depth)
    }
}

/// An assertion, from behind its keyword on.
pub open spec fn assertion(t: Seq<TokView>, p: int) -> Parsed<TermForm> {
    match expect(t, p, '(') {
        (Err(e), q) => (Err(e), q),
        (Ok(_), q) => match operand(t, eat(t, q, '!')) {
            (Err(e), y) => (Err(e), y),
            (Ok(cond), y) => match message(t, y, 1) {
                (Err(e), z) => (Err(e), z),
                (Ok(_), z) => match success_block(t, z) {
                    (Err(e), w) => (Err(e), w),
                    (Ok(target), w) => (
                        Ok(
                            TermForm::Assert {
                                cond,
                                expected: !is_punct(t, q, '!'),
                                target,
                            },
                        ),
                        w,
                    ),
                },
            },
        },
    }
}

/// The end of a path, which is the `(` outside of brackets, and the last word before it.
pub open spec fn path_end(t: Seq<TokView>, p: int, depth: int, last: Seq<char>) -> (Seq<char>, int)
    decreases t.len() - p,
{
    if at(t, p) is Eof || (is_punct(t, p, '(') && depth == 0) {
        (last, p)
    } else if is_punct(t, p, '<') || is_punct(t, p, '[') {
        path_end(t, p + 1, depth + 1, last)
    } else if is_punct(t, p, '>') || is_punct(t, p, ']') {
        path_end(t, p + 1, depth - 1, last)
    } else {
        match at(t, p) {
            TokView::Word(w) => path_end(t, p + 1, depth, w),
            _ => path_end(t, p + 1, depth, last),
        }
    }
}

/// Who a call invokes.
pub open spec fn callee_spec(t: Seq<TokView>, p: int) -> Parsed<CalleeForm> {
    if is_word(t, p, "move"@) || is_word(t, p, "copy"@) {
        match place(t, p + 1) {
            (Err(e), q) => (Err(e), q),
            (Ok(Place::Local(n)), q) => (Ok(CalleeForm::Indirect(n)), q),
            (Ok(_), q) => (Ok(CalleeForm::Named(""@)), q),
        }
    } else {
        let (last, q) = path_end(t, eat_word(t, p, "const"@), 0, ""@);
        (Ok(CalleeForm::Named(last)), q)
    }
}

/// The arguments of a call, from behind `(` on.
pub open spec fn arguments(t: Seq<TokView>, p: int, done: Seq<MOperand>) -> Parsed<Seq<MOperand>>
    decreases left(t, p),
{
    if is_punct(t, p, ')') {
        (Ok(done), p + 1)
    } else {
        proof {
            lemma_operand(t, p);
        }
        match operand(t, p) {
            (Err(e), q) => (Err(e), q),
            (Ok(x), q) => arguments(t, eat(t, q, ','), done.push(x)),
        }
    }
}

/// A call.
pub open spec fn call_terminator(t: Seq<TokView>, p: int) -> Parsed<TermForm> {
    match place(t, p) {
        (Err(e), q) => (Err(e), q),
        (Ok(dst), q) => match expect(t, q, '=') {
            (Err(e), y) => (Err(e), y),
            (Ok(_), y) => match callee_spec(t, y) {
                (Err(e), x) => (Err(e), x),
                (Ok(callee), x) => match expect(t, x, '(') {
                    (Err(e), w) => (Err(e), w),
                    (Ok(_), w) => match arguments(t, w, Seq::empty()) {
                        (Err(e), v) => (Err(e), v),
                        (Ok(args), v) => match return_edge(t, v) {
                            (Err(e), z) => (Err(e), z),
                            (Ok(target), z) => (
                                Ok(
                                    TermForm::Call {
                                        dst,
                                        callee,
                                        args,
                                        target,
                                        unwind: None,
                                    },
                                ),
                                z,
                            ),
                        },
                    },
                },
            },
        },
    }
}

/// What stands at `p` is a call: an arrow outside of brackets comes before its `;`.
pub open spec fn is_call(t: Seq<TokView>, p: int, depth: int) -> bool
    decreases t.len() - p,
{
    if at(t, p) is Eof {
        false
    } else if is_punct(t, p, '(') || is_punct(t, p, '[') {
        is_call(t, p + 1, depth + 1)
    } else if is_punct(t, p, ')') || is_punct(t, p, ']') {
        is_call(t, p + 1, depth - 1)
    } else if at(t, p) is Arrow && depth == 0 {
        true
    } else if is_punct(t, p, ';') && depth == 0 {
        false
    } else if is_punct(t, p, '}') && depth <= 0 {
        false
    } else {
        is_call(t, p + 1, depth)
    }
}

/// The terminator that a keyword starts; none for another word.
pub open spec fn keyword_term(t: Seq<TokView>, p: int, w: Seq<char>) -> Parsed<Option<TermForm>> {
    if w == "return"@ {
        (Ok(Some(TermForm::Return)), p + 1)
    } else if w == "unreachable"@ {
        (Ok(Some(TermForm::Unreachable)), p + 1)
    } else if w == "goto"@ {
        match block_ref(t, eat_arrow(t, p + 1), "expected a block after `->`, found `"@) {
            (Err(e), q) => (Err(e), q),
            (Ok(b), q) => (Ok(Some(TermForm::Goto(b))), q),
        }
    } else if w == "switchInt"@ {
        match switch_int(t, p + 1) {
            (Err(e), q) => (Err(e), q),
            (Ok(x), q) => (Ok(Some(x)), q),
        }
    } else if w == "assert"@ {
        match assertion(t, p + 1) {
            (Err(e), q) => (Err(e), q),
            (Ok(x), q) => (Ok(Some(x)), q),
        }
    } else if w == "call"@ || w == "drop"@ || w == "yield"@ || w == "resume"@ || w == "abort"@ {
        (Ok(Some(TermForm::Unsupported)), skip_past(t, p, ';'))
    } else {
        (Ok(None), p)
    }
}

/// The terminator at a position, other than a call; none where a statement or a call
/// stands there.
pub open spec fn try_terminator(t: Seq<TokView>, p: int) -> Parsed<Option<TermForm>> {
    match at(t, p) {
        TokView::Word(w) => match keyword_term(t, p, w) {
            (Ok(Some(x)), q) => (Ok(Some(x)), eat(t, q, ';')),
            r => r,
        },
        TokView::Punct(c) => if c == '}' {
            (Ok(Some(TermForm::Unreachable)), p)
        } else {
            (Ok(None), p)
        },
        _ => (Ok(None), p),
    }
}

// ---- blocks and functions ----

/// A block as a mathematical value.
pub struct BlockForm {
    pub id: usize,
    pub stmts: Seq<MStmt>,
    pub spans: Seq<Option<Seq<char>>>,
    pub term: TermForm,
    pub term_span: Option<Seq<char>>,
}

impl View for MBlock {
    type V = BlockForm;

    open spec fn view(&self) -> BlockForm {
        BlockForm {
            id: self.id,
            stmts: self.stmts@,
            spans: span_texts(self.stmt_spans@),
            term: self.term@,
            term_span: span_text(self.term_span),
        }
    }
}

/// A function as a mathematical value.
pub struct BodyForm {
    pub name: Seq<char>,
    pub params: Seq<(u32, MType)>,
    pub locals: Seq<(u32, MType)>,
    pub ret: MType,
    pub blocks: Seq<BlockForm>,
}

impl View for MirBody {
    type V = BodyForm;

    open spec fn view(&self) -> BodyForm {
        BodyForm {
            name: self.name@,
            params: self.params@,
            locals: self.locals@,
            ret: self.ret,
            blocks: Seq::new(self.blocks@.len(), |i: int| self.blocks@[i]@),
        }
    }
}

/// The statements of a block after those that are `done`, and its terminator.
pub open spec fn block_rest(t: Seq<TokView>, p: int, done: Seq<MStmt>) -> Parsed<
    (Seq<MStmt>, TermForm),
>
    decreases left(t, p),
{
    proof {
        lemma_statement(t, p);
    }
    match try_terminator(t, p) {
        (Err(e), q) => (Err(e), q),
        (Ok(Some(x)), q) => (Ok((done, x)), q),
        (Ok(None), _) => if is_call(t, p, 0) {
            match call_terminator(t, p) {
                (Err(e), q) => (Err(e), q),
                (Ok(x), q) => (Ok((done, x)), eat(t, q, ';')),
            }
        } else {
            match statement(t, p) {
                (Err(e), q) => (Err(e), q),
                (Ok(s), q) => block_rest(t, q, done.push(s)),
            }
        },
    }
}

/// A block's label with the `{` that follows it.
pub open spec fn block_start(t: Seq<TokView>, p: int) -> Parsed<usize> {
    match block_ref(t, p, "bad block label `"@) {
        (Err(e), q) => (Err(e), q),
        (Ok(id), q) => match expect(t, q, ':') {
            (Err(e), y) => (Err(e), y),
            (Ok(_), y) => match expect(t, y, '{') {
                (Err(e), z) => (Err(e), z),
                (Ok(_), z) => (Ok(id), z),
            },
        },
    }
}

/// A block. Nothing is known of where its parts stand in a source file.
pub open spec fn block(t: Seq<TokView>, p: int) -> Parsed<BlockForm> {
    match block_start(t, p) {
        (Err(e), q) => (Err(e), q),
        (Ok(id), q) => match block_rest(t, q, Seq::empty()) {
            (Err(e), y) => (Err(e), y),
            (Ok((stmts, term)), y) => match expect(t, y, '}') {
                (Err(e), z) => (Err(e), z),
                (Ok(_), z) => (
                    Ok(
                        BlockForm {
                            id,
                            stmts,
                            spans: Seq::new(stmts.len(), |i: int| None),
                            term,
                            term_span: None,
                        },
                    ),
                    z,
                ),
            },
        },
    }
}

/// A block's label stands at a position.
pub open spec fn at_header(t: Seq<TokView>, p: int) -> bool {
    match at(t, p) {
        TokView::Word(w) => is_bb(w) && is_punct(t, p + 1, ':'),
        _ => false,
    }
}

/// The position of the next block's label.
pub open spec fn next_header(t: Seq<TokView>, p: int) -> int
    decreases left(t, p),
{
    if at(t, p) is Eof || at_header(t, p) {
        p
    } else {
        next_header(t, p + 1)
    }
}

pub proof fn lemma_edge_list(t: Seq<TokView>, p: int, found: Option<usize>)
    ensures
        edge_list(t, p, found).1 >= p,
    decreases left(t, p),
{
    if !is_punct(t, p, ']') {
        if let (Ok(key), q) = word(t, p) {
            if is_punct(t, q, ':') {
                if let (Ok(b), z) = block_ref(t, q + 1, "expected a block, found `"@) {
                    lemma_edge_list(
                        t,
                        eat(t, z, ','),
                        if key == "return"@ || key == "success"@ {
                            Some(b)
                        } else {
                            found
                        },
                    );
                }
            } else {
                lemma_skip_paren(t, q + 2, 1);
                lemma_edge_list(t, eat(t, action_end(t, q), ','), found);
            }
        }
    }
}

pub proof fn lemma_cases(
    t: Seq<TokView>,
    p: int,
    done: Seq<(i128, usize)>,
    other: Option<usize>,
)
    ensures
        cases(t, p, done, other).1 >= p,
    decreases left(t, p),
{
    if is_word(t, p, "otherwise"@) {
        if let (Ok(_), q) = expect(t, p + 1, ':') {
            if let (Ok(b), z) = block_ref(t, q, "expected a block, found `"@) {
                lemma_cases(t, eat(t, z, ','), done, Some(b));
            }
        }
    } else if let (Ok(v), y) = int_lit(t, p) {
        if let (Ok(_), q) = expect(t, y, ':') {
            if let (Ok(b), z) = block_ref(t, q, "expected a block, found `"@) {
                lemma_cases(t, eat(t, z, ','), done.push((v, b)), other);
            }
        }
    }
}

pub proof fn lemma_message(t: Seq<TokView>, p: int, depth: int)
    ensures
        message(t, p, depth).1 >= p,
    decreases left(t, p),
{
    if depth > 0 && !(at(t, p) is Eof) {
        if is_punct(t, p, '(') {
            lemma_message(t, p + 1, depth + 1);
        } else if is_punct(t, p, ')') {
            lemma_message(t, p + 1, depth - 1);
        } else {
            lemma_message(t, p + 1, depth);
        }
    }
}

pub proof fn lemma_path_end(t: Seq<TokView>, p: int, depth: int, last: Seq<char>)
    ensures
        path_end(t, p, depth, last).1 >= p,
    decreases left(t, p),
{
    if !(at(t, p) is Eof || (is_punct(t, p, '(') && depth == 0)) {
        if is_punct(t, p, '<') || is_punct(t, p, '[') {
            lemma_path_end(t, p + 1, depth + 1, last);
        } else if is_punct(t, p, '>') || is_punct(t, p, ']') {
            lemma_path_end(t, p + 1, depth - 1, last);
        } else {
            match at(t, p) {
                TokView::Word(w) => lemma_path_end(t, p + 1, depth, w),
                _ => lemma_path_end(t, p + 1, depth, last),
            }
        }
    }
}

pub proof fn lemma_arguments(t: Seq<TokView>, p: int, done: Seq<MOperand>)
    ensures
        arguments(t, p, done).1 >= p,
    decreases left(t, p),
{
    lemma_operand(t, p);
    if !is_punct(t, p, ')') {
        if let (Ok(x), q) = operand(t, p) {
            lemma_arguments(t, eat(t, q, ','), done.push(x));
        }
    }
}

pub proof fn lemma_try_terminator(t: Seq<TokView>, p: int)
    ensures
        try_terminator(t, p).1 >= p,
{
    lemma_skip_past(t, p, ';');
    let q = expect(t, p + 1, '(').1;
    lemma_operand(t, q);
    if let (Ok(_), y) = scrutinee(t, p + 1) {
        lemma_cases(t, y, Seq::empty(), None);
    }
    lemma_operand(t, eat(t, q, '!'));
    let y = operand(t, eat(t, q, '!')).1;
    lemma_message(t, y, 1);
    let z = message(t, y, 1).1;
    lemma_edge_list(t, eat_arrow(t, z) + 1, None);
}

pub proof fn lemma_call_terminator(t: Seq<TokView>, p: int)
    ensures
        call_terminator(t, p).1 >= p,
{
    lemma_place(t, p);
    if let (Ok(_), y) = expect(t, place(t, p).1, '=') {
        lemma_place(t, y + 1);
        lemma_path_end(t, eat_word(t, y, "const"@), 0, ""@);
        if let (Ok(_), w) = expect(t, callee_spec(t, y).1, '(') {
            lemma_arguments(t, w, Seq::empty());
            let v = arguments(t, w, Seq::empty()).1;
            lemma_edge_list(t, eat_arrow(t, v) + 1, None);
        }
    }
}

pub proof fn lemma_block_rest(t: Seq<TokView>, p: int, done: Seq<MStmt>)
    ensures
        block_rest(t, p, done).1 >= p,
    decreases left(t, p),
{
    lemma_try_terminator(t, p);
    lemma_call_terminator(t, p);
    lemma_statement(t, p);
    if let (Ok(None), _) = try_terminator(t, p) {
        if !is_call(t, p, 0) {
            if let (Ok(s), q) = statement(t, p) {
                lemma_block_rest(t, q, done.push(s));
            }
        }
    }
}

pub proof fn lemma_block(t: Seq<TokView>, p: int)
    ensures
        block(t, p).1 >= p,
        block(t, p).0 is Ok ==> 0 <= p < t.len() && block(t, p).1 > p,
{
    lemma_block_rest(t, block_start(t, p).1, Seq::empty());
}

/// The blocks of a function after those that are `done`.
pub open spec fn block_list(t: Seq<TokView>, p: int, done: Seq<BlockForm>) -> Parsed<Seq<BlockForm>>
    decreases left(t, p),
{
    proof {
        lemma_block(t, p);
    }
    if at_header(t, p) {
        match block(t, p) {
            (Err(e), q) => (Err(e), q),
            (Ok(b), q) => block_list(t, q, done.push(b)),
        }
    } else {
        (Ok(done), p)
    }
}

/// The parameters of a function, from behind `(` on.
pub open spec fn parameters(t: Seq<TokView>, p: int, done: Seq<(u32, MType)>) -> Parsed<
    Seq<(u32, MType)>,
>
    decreases left(t, p),
{
    if is_punct(t, p, ')') {
        (Ok(done), p + 1)
    } else {
        match local(t, p) {
            (Err(e), q) => (Err(e), q),
            (Ok(n), q) => match expect(t, q, ':') {
                (Err(e), y) => (Err(e), y),
                (Ok(_), y) => {
                    proof {
                        lemma_ty(t, y);
                    }
                    match ty(t, y) {
                        (Err(e), z) => (Err(e), z),
                        (Ok(x), z) => parameters(t, eat(t, z, ','), done.push((n, x))),
                    }
                },
            },
        }
    }
}

/// The position of the next `(`.
pub open spec fn next_paren(t: Seq<TokView>, p: int) -> int
    decreases left(t, p),
{
    if at(t, p) is Eof || is_punct(t, p, '(') {
        p
    } else {
        next_paren(t, p + 1)
    }
}

/// The return type of a function, with the `{` that follows it.
pub open spec fn return_type(t: Seq<TokView>, p: int) -> Parsed<MType> {
    let r = if at(t, p) is Arrow {
        ty(t, p + 1)
    } else {
        (Ok(MType::Unit), p)
    };
    match r {
        (Err(e), q) => (Err(e), q),
        (Ok(x), q) => match expect(t, q, '{') {
            (Err(e), z) => (Err(e), z),
            (Ok(_), z) => (Ok(x), z),
        },
    }
}

/// The name and the parameters of a function.
pub open spec fn header(t: Seq<TokView>, p: int) -> Parsed<(Seq<char>, Seq<(u32, MType)>)> {
    match word(t, p) {
        (Err(e), q) => (Err(e), q),
        (Ok(name), q) => match expect(t, next_paren(t, q), '(') {
            (Err(e), y) => (Err(e), y),
            (Ok(_), y) => match parameters(t, y, Seq::empty()) {
                (Err(e), z) => (Err(e), z),
                (Ok(params), z) => (Ok((name, params)), z),
            },
        },
    }
}

/// A function, from behind `fn` on. What precedes its first block is passed over.
#[verifier::opaque]
pub open spec fn body(t: Seq<TokView>, p: int) -> Parsed<BodyForm> {
    match header(t, p) {
        (Err(e), q) => (Err(e), q),
        (Ok((name, params)), q) => match return_type(t, q) {
            (Err(e), y) => (Err(e), y),
            (Ok(ret), y) => match block_list(t, next_header(t, y), Seq::empty()) {
                (Err(e), z) => (Err(e), z),
                (Ok(blocks), z) => (
                    Ok(BodyForm { name, params, locals: Seq::empty(), ret, blocks }),
                    skip_past(t, z, '}'),
                ),
            },
        },
    }
}

pub proof fn lemma_next_header(t: Seq<TokView>, p: int)
    ensures
        next_header(t, p) >= p,
    decreases left(t, p),
{
    if !(at(t, p) is Eof || at_header(t, p)) {
        lemma_next_header(t, p + 1);
    }
}

pub proof fn lemma_block_list(t: Seq<TokView>, p: int, done: Seq<BlockForm>)
    ensures
        block_list(t, p, done).1 >= p,
    decreases left(t, p),
{
    lemma_block(t, p);
    if at_header(t, p) {
        if let (Ok(b), q) = block(t, p) {
            lemma_block_list(t, q, done.push(b));
        }
    }
}

pub proof fn lemma_parameters(t: Seq<TokView>, p: int, done: Seq<(u32, MType)>)
    ensures
        parameters(t, p, done).1 >= p,
    decreases left(t, p),
{
    if !is_punct(t, p, ')') {
        if let (Ok(n), q) = local(t, p) {
            if let (Ok(_), y) = expect(t, q, ':') {
                lemma_ty(t, y);
                if let (Ok(x), z) = ty(t, y) {
                    lemma_parameters(t, eat(t, z, ','), done.push((n, x)));
                }
            }
        }
    }
}

pub proof fn lemma_next_paren(t: Seq<TokView>, p: int)
    ensures
        next_paren(t, p) >= p,
    decreases left(t, p),
{
    if !(at(t, p) is Eof || is_punct(t, p, '(')) {
        lemma_next_paren(t, p + 1);
    }
}

/// Reading a function moves forward.
pub proof fn lemma_body(t: Seq<TokView>, p: int)
    ensures
        body(t, p).1 >= p,
        body(t, p).0 is Ok ==> 0 <= p < t.len() && body(t, p).1 > p,
{
    reveal(body);
    let q = word(t, p).1;
    lemma_next_paren(t, q);
    lemma_parameters(t, expect(t, next_paren(t, q), '(').1, Seq::empty());
    let h = header(t, p).1;
    lemma_ty(t, h + 1);
    let y = return_type(t, h).1;
    lemma_next_header(t, y);
    lemma_block_list(t, next_header(t, y), Seq::empty());
    lemma_skip_past(t, block_list(t, next_header(t, y), Seq::empty()).1, '}');
}

// ---- dumps ----

/// The position after the next `fn`.
pub open spec fn next_fn(t: Seq<TokView>, p: int) -> Option<int>
    decreases left(t, p),
{
    if at(t, p) is Eof {
        None
    } else if is_word(t, p, "fn"@) {
        Some(p + 1)
    } else {
        next_fn(t, p + 1)
    }
}

/// The word at a position; no text where there is none.
pub open spec fn name_at(t: Seq<TokView>, p: int) -> Seq<char> {
    match at(t, p) {
        TokView::Word(w) => w,
        _ => ""@,
    }
}

/// The functions of a dump, and the names of those that could not be read with the reasons.
pub struct Dump {
    pub bodies: Seq<BodyForm>,
    pub failed: Seq<(Seq<char>, Seq<char>)>,
}

pub proof fn lemma_next_fn(t: Seq<TokView>, p: int)
    ensures
        next_fn(t, p) matches Some(s) ==> 0 <= p < s <= t.len(),
    decreases left(t, p),
{
    if !(at(t, p) is Eof) && !is_word(t, p, "fn"@) {
        lemma_next_fn(t, p + 1);
    }
}

/// The functions from a position on, after those that are `done`. After a function that
/// cannot be read, reading resumes at the next `fn`.
pub open spec fn functions(t: Seq<TokView>, p: int, done: Dump) -> Dump
    decreases left(t, p),
{
    proof {
        lemma_next_fn(t, p);
    }
    match next_fn(t, p) {
        None => done,
        Some(s) => {
            proof {
                lemma_body(t, s);
            }
            match body(t, s) {
                (Ok(b), q) => functions(
                    t,
                    q,
                    Dump { bodies: done.bodies.push(b), failed: done.failed },
                ),
                (Err(e), q) => functions(
                    t,
                    if q <= s {
                        s + 1
                    } else {
                        q
                    },
                    Dump {
                        bodies: done.bodies,
                        failed: done.failed.push((name_at(t, s), "parse error: "@ + e)),
                    },
                ),
            }
        },
    }
}

/// A dump without functions.
pub open spec fn no_functions() -> Dump {
    Dump { bodies: Seq::empty(), failed: Seq::empty() }
}

/// What a dump holds.
pub open spec fn dump(t: Seq<TokView>) -> Dump {
    functions(t, 0, no_functions())
}

/// One reading after another: functions that precede, readable or not, are kept and change
/// nothing of what is read after them.
pub proof fn readings_are_independent(t: Seq<TokView>, p: int, done: Dump)
    ensures
        functions(t, p, done).bodies == done.bodies + functions(t, p, no_functions()).bodies,
        functions(t, p, done).failed == done.failed + functions(t, p, no_functions()).failed,
    decreases left(t, p),
{
    lemma_next_fn(t, p);
    match next_fn(t, p) {
        None => {
            assert(done.bodies + Seq::empty() =~= done.bodies);
            assert(done.failed + Seq::empty() =~= done.failed);
        },
        Some(s) => {
            lemma_body(t, s);
            let none = no_functions();
            match body(t, s) {
                (Ok(b), q) => {
                    let one = Dump { bodies: none.bodies.push(b), failed: none.failed };
                    let more = Dump { bodies: done.bodies.push(b), failed: done.failed };
                    readings_are_independent(t, q, one);
                    readings_are_independent(t, q, more);
                    let rest = functions(t, q, none);
                    assert(done.bodies.push(b) + rest.bodies =~= done.bodies + (none.bodies.push(b)
                        + rest.bodies));
                    assert(done.failed + (none.failed + rest.failed) =~= done.failed + rest.failed);
                },
                (Err(e), q) => {
                    let z = if q <= s {
                        s + 1
                    } else {
                        q
                    };
                    let f = (name_at(t, s), "parse error: "@ + e);
                    let one = Dump { bodies: none.bodies, failed: none.failed.push(f) };
                    let more = Dump { bodies: done.bodies, failed: done.failed.push(f) };
                    readings_are_independent(t, z, one);
                    readings_are_independent(t, z, more);
                    let rest = functions(t, z, none);
                    assert(done.failed.push(f) + rest.failed =~= done.failed + (none.failed.push(f)
                        + rest.failed));
                    assert(done.bodies + (none.bodies + rest.bodies) =~= done.bodies + rest.bodies);
                },
            }
        },
    }
}

} // verus!
