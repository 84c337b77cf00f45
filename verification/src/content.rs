use vstd::prelude::*;

use crate::algebra::{numbers_view, Number, NumberV};
use crate::cmap::{cmap_codes, ToUnicodeCMap};
use crate::strings::push_char;
use crate::tokenizer::{latin1, lemma_lex_advances, lemma_lex_past_end, lex, Lexed, Token, TokenV, Tokenizer};
use std::collections::HashMap;

verus! {

broadcast use vstd::std_specs::hash::group_hash_axioms;

// ---------------------------------------------------------------------------
// Content stream instructions (PDF reference, section 4.1 and chapter 5)
// ---------------------------------------------------------------------------

/// An element of the array operand of `TJ`: a string to show, or a position
/// adjustment in thousandths of a text space unit.
#[derive(Debug, PartialEq)]
pub enum ArrayVal {
    Text(Vec<u8>),
    Pos(Number),
}

/// Mathematical model of an [`ArrayVal`].
pub enum ArrayValV {
    Text(Seq<u8>),
    Pos(NumberV),
}

impl View for ArrayVal {
    type V = ArrayValV;

    open spec fn view(&self) -> ArrayValV {
        match self {
            ArrayVal::Text(t) => ArrayValV::Text(t@),
            ArrayVal::Pos(n) => ArrayValV::Pos(n@),
        }
    }
}

/// One operator of a content stream with its operands.
#[derive(Debug, PartialEq)]
pub enum GraphicsInstruction {
    // Graphics state operators
    /// `q`: save the graphics state.
    LowerQ,
    /// `Q`: restore the graphics state.
    UpperQ,
    /// `BDC`: begin a marked-content sequence with a property list.
    BDC,
    /// `BMC`: begin a marked-content sequence.
    BMC,
    /// `EMC`: end a marked-content sequence.
    EMC,
    /// `cm`: modify the current transformation matrix.
    Cm(Number, Number, Number, Number, Number, Number),
    /// `w`: line width.
    LowerW(Number),
    /// `J`: line cap style.
    UpperJ(Number),
    /// `d`: dash array and dash phase.
    LowerD(Vec<Number>, Number),
    /// `i`: flatness tolerance.
    LowerI(Number),
    /// `gs`: parameters from a graphics state dictionary.
    Gs,
    // Path construction operators
    /// `m`: begin a subpath at (x, y).
    LowerM(Number, Number),
    /// `l`: line segment to (x, y).
    LowerL(Number, Number),
    /// `c`: cubic Bezier curve (x1, y1, x2, y2, x3, y3).
    LowerC(Number, Number, Number, Number, Number, Number),
    /// `h`: close the subpath.
    LowerH,
    /// `re`: rectangle (x, y, width, height).
    Re(Number, Number, Number, Number),
    // Clipping path operators
    /// `W`: nonzero winding clipping.
    W,
    /// `W*`: even-odd clipping.
    WStar,
    // Path painting operators
    /// `S`: stroke the path.
    S,
    /// `f`: fill the path (nonzero winding rule).
    LowerF,
    /// `f*`: fill the path (even-odd rule).
    LowerFStar,
    /// `n`: end the path without filling or stroking.
    N,
    // Colour operators
    /// `cs`: colour space for nonstroking operations.
    Cs(String),
    /// `sc`: colour for nonstroking operations.
    Sc(Number),
    /// `G`: stroking gray level, between 0.0 (black) and 1.0 (white).
    UpperG(Number),
    /// `g`: nonstroking gray level.
    LowerG(Number),
    /// `RG`: stroking RGB colour.
    RG(Number, Number, Number),
    /// `rg`: nonstroking RGB colour.
    Rg(Number, Number, Number),
    // Text positioning operators
    /// `Td`: move to the start of the next line, offset by (tx, ty).
    Td(Number, Number),
    /// `TD`: as `Td`, and set the leading to -ty.
    TD(Number, Number),
    /// `Tm`: set the text matrix and the text line matrix.
    Tm(Number, Number, Number, Number, Number, Number),
    /// `T*`: move to the start of the next line.
    TStar,
    // Text state operators
    /// `Tc`: character spacing.
    Tc(Number),
    /// `Tf`: font name and size.
    Tf(String, Number),
    /// `Tr`: text rendering mode.
    Tr(Number),
    // Text showing operators
    /// `Tj`: show a string.
    Tj(Vec<u8>),
    /// `TJ`: show strings with individual glyph positioning.
    TJ(Vec<ArrayVal>),
    // Text object operators
    /// `BT`: begin a text object.
    BeginText,
    /// `ET`: end a text object.
    EndText,
    // XObject operator
    /// `Do`: paint the named external object.
    Do(String),
}

/// Mathematical model of a [`GraphicsInstruction`].
pub enum InstructionV {
    LowerQ,
    UpperQ,
    BDC,
    BMC,
    EMC,
    Cm(NumberV, NumberV, NumberV, NumberV, NumberV, NumberV),
    LowerW(NumberV),
    UpperJ(NumberV),
    LowerD(Seq<NumberV>, NumberV),
    LowerI(NumberV),
    Gs,
    LowerM(NumberV, NumberV),
    LowerL(NumberV, NumberV),
    LowerC(NumberV, NumberV, NumberV, NumberV, NumberV, NumberV),
    LowerH,
    Re(NumberV, NumberV, NumberV, NumberV),
    W,
    WStar,
    S,
    LowerF,
    LowerFStar,
    N,
    Cs(Seq<char>),
    Sc(NumberV),
    UpperG(NumberV),
    LowerG(NumberV),
    RG(NumberV, NumberV, NumberV),
    Rg(NumberV, NumberV, NumberV),
    Td(NumberV, NumberV),
    TD(NumberV, NumberV),
    Tm(NumberV, NumberV, NumberV, NumberV, NumberV, NumberV),
    TStar,
    Tc(NumberV),
    Tf(Seq<char>, NumberV),
    Tr(NumberV),
    Tj(Seq<u8>),
    TJ(Seq<ArrayValV>),
    BeginText,
    EndText,
    Do(Seq<char>),
}

pub open spec fn array_vals_view(v: Seq<ArrayVal>) -> Seq<ArrayValV> {
    v.map_values(|a: ArrayVal| a@)
}

pub open spec fn tokens_view(v: Seq<Token>) -> Seq<TokenV> {
    v.map_values(|t: Token| t@)
}

impl View for GraphicsInstruction {
    type V = InstructionV;

    open spec fn view(&self) -> InstructionV {
        match self {
            GraphicsInstruction::LowerQ => InstructionV::LowerQ,
            GraphicsInstruction::UpperQ => InstructionV::UpperQ,
            GraphicsInstruction::BDC => InstructionV::BDC,
            GraphicsInstruction::BMC => InstructionV::BMC,
            GraphicsInstruction::EMC => InstructionV::EMC,
            GraphicsInstruction::Cm(a, b, c, d, e, f) => InstructionV::Cm(a@, b@, c@, d@, e@, f@),
            GraphicsInstruction::LowerW(x) => InstructionV::LowerW(x@),
            GraphicsInstruction::UpperJ(x) => InstructionV::UpperJ(x@),
            GraphicsInstruction::LowerD(a, p) => InstructionV::LowerD(numbers_view(a@), p@),
            GraphicsInstruction::LowerI(x) => InstructionV::LowerI(x@),
            GraphicsInstruction::Gs => InstructionV::Gs,
            GraphicsInstruction::LowerM(x, y) => InstructionV::LowerM(x@, y@),
            GraphicsInstruction::LowerL(x, y) => InstructionV::LowerL(x@, y@),
            GraphicsInstruction::LowerC(a, b, c, d, e, f) => InstructionV::LowerC(
                a@,
                b@,
                c@,
                d@,
                e@,
                f@,
            ),
            GraphicsInstruction::LowerH => InstructionV::LowerH,
            GraphicsInstruction::Re(x, y, w, h) => InstructionV::Re(x@, y@, w@, h@),
            GraphicsInstruction::W => InstructionV::W,
            GraphicsInstruction::WStar => InstructionV::WStar,
            GraphicsInstruction::S => InstructionV::S,
            GraphicsInstruction::LowerF => InstructionV::LowerF,
            GraphicsInstruction::LowerFStar => InstructionV::LowerFStar,
            GraphicsInstruction::N => InstructionV::N,
            GraphicsInstruction::Cs(s) => InstructionV::Cs(s@),
            GraphicsInstruction::Sc(x) => InstructionV::Sc(x@),
            GraphicsInstruction::UpperG(x) => InstructionV::UpperG(x@),
            GraphicsInstruction::LowerG(x) => InstructionV::LowerG(x@),
            GraphicsInstruction::RG(r, g, b) => InstructionV::RG(r@, g@, b@),
            GraphicsInstruction::Rg(r, g, b) => InstructionV::Rg(r@, g@, b@),
            GraphicsInstruction::Td(x, y) => InstructionV::Td(x@, y@),
            GraphicsInstruction::TD(x, y) => InstructionV::TD(x@, y@),
            GraphicsInstruction::Tm(a, b, c, d, e, f) => InstructionV::Tm(a@, b@, c@, d@, e@, f@),
            GraphicsInstruction::TStar => InstructionV::TStar,
            GraphicsInstruction::Tc(x) => InstructionV::Tc(x@),
            GraphicsInstruction::Tf(s, x) => InstructionV::Tf(s@, x@),
            GraphicsInstruction::Tr(x) => InstructionV::Tr(x@),
            GraphicsInstruction::Tj(t) => InstructionV::Tj(t@),
            GraphicsInstruction::TJ(a) => InstructionV::TJ(array_vals_view(a@)),
            GraphicsInstruction::BeginText => InstructionV::BeginText,
            GraphicsInstruction::EndText => InstructionV::EndText,
            GraphicsInstruction::Do(s) => InstructionV::Do(s@),
        }
    }
}

// ---------------------------------------------------------------------------
// Operands
// ---------------------------------------------------------------------------

/// The number at index `i` of the operands.
pub open spec fn num_at(buf: Seq<TokenV>, i: int) -> Option<NumberV> {
    if 0 <= i < buf.len() {
        match buf[i] {
            TokenV::Numeric(n) => Some(n),
            _ => None,
        }
    } else {
        None
    }
}

/// The name at index `i` of the operands.
pub open spec fn name_at(buf: Seq<TokenV>, i: int) -> Option<Seq<char>> {
    if 0 <= i < buf.len() {
        match buf[i] {
            TokenV::Name(s) => Some(s),
            _ => None,
        }
    } else {
        None
    }
}

/// The literal string at index `i` of the operands.
pub open spec fn literal_at(buf: Seq<TokenV>, i: int) -> Option<Seq<u8>> {
    if 0 <= i < buf.len() {
        match buf[i] {
            TokenV::LitteralString(s) => Some(s),
            _ => None,
        }
    } else {
        None
    }
}

/// The numbers of a dash array read from index `i` on, after those already
/// in `acc`, and the index after the closing bracket (or the end of the
/// operands where no bracket closes it). `None` where something else than
/// a number stands in the array.
pub open spec fn dash_entries(buf: Seq<TokenV>, i: int, acc: Seq<NumberV>) -> Option<(Seq<NumberV>, int)>
    decreases buf.len() - i,
{
    if i < 0 || i >= buf.len() {
        Some((acc, buf.len() as int))
    } else {
        match buf[i] {
            TokenV::Numeric(n) => dash_entries(buf, i + 1, acc.push(n)),
            TokenV::ArrayEnd => Some((acc, i + 1)),
            _ => None,
        }
    }
}

/// Operands of `d`: an array of numbers, then the dash phase.
pub open spec fn dash_operands(buf: Seq<TokenV>) -> Option<(Seq<NumberV>, NumberV)> {
    if buf.len() == 0 || !(buf[0] is ArrayBegin) {
        None
    } else {
        match dash_entries(buf, 1, seq![]) {
            Some((a, j)) => match num_at(buf, j) {
                Some(phase) => Some((a, phase)),
                None => None,
            },
            None => None,
        }
    }
}

/// Operands of `TJ`: its strings and numbers, in order, all other operands
/// left out.
pub open spec fn tj_items(buf: Seq<TokenV>) -> Seq<ArrayValV>
    decreases buf.len(),
{
    if buf.len() == 0 {
        seq![]
    } else {
        let rest = tj_items(buf.drop_last());
        match buf.last() {
            TokenV::LitteralString(s) => rest.push(ArrayValV::Text(s)),
            TokenV::HexString(s) => rest.push(ArrayValV::Text(s)),
            TokenV::Numeric(n) => rest.push(ArrayValV::Pos(n)),
            _ => rest,
        }
    }
}

// ---------------------------------------------------------------------------
// Operators
// ---------------------------------------------------------------------------

/// What an operator does with the operands gathered before it.
pub enum StepV {
    /// It forms this instruction.
    Emit(InstructionV),
    /// Reading starts over after it, with no operand gathered.
    Restart,
    /// It is not a known operator: reading goes on, the operands kept.
    Skip,
    /// Its operands are missing or of the wrong kind.
    Bad,
}

pub open spec fn one_number(buf: Seq<TokenV>, f: spec_fn(NumberV) -> InstructionV) -> StepV {
    match num_at(buf, 0) {
        Some(x) => StepV::Emit(f(x)),
        None => StepV::Bad,
    }
}

pub open spec fn two_numbers(buf: Seq<TokenV>, f: spec_fn(NumberV, NumberV) -> InstructionV) -> StepV {
    match (num_at(buf, 0), num_at(buf, 1)) {
        (Some(x), Some(y)) => StepV::Emit(f(x, y)),
        _ => StepV::Bad,
    }
}

pub open spec fn three_numbers(
    buf: Seq<TokenV>,
    f: spec_fn(NumberV, NumberV, NumberV) -> InstructionV,
) -> StepV {
    match (num_at(buf, 0), num_at(buf, 1), num_at(buf, 2)) {
        (Some(x), Some(y), Some(z)) => StepV::Emit(f(x, y, z)),
        _ => StepV::Bad,
    }
}

pub open spec fn four_numbers(
    buf: Seq<TokenV>,
    f: spec_fn(NumberV, NumberV, NumberV, NumberV) -> InstructionV,
) -> StepV {
    match (num_at(buf, 0), num_at(buf, 1), num_at(buf, 2), num_at(buf, 3)) {
        (Some(a), Some(b), Some(c), Some(d)) => StepV::Emit(f(a, b, c, d)),
        _ => StepV::Bad,
    }
}

pub open spec fn six_numbers(
    buf: Seq<TokenV>,
    f: spec_fn(NumberV, NumberV, NumberV, NumberV, NumberV, NumberV) -> InstructionV,
) -> StepV {
    match (
        num_at(buf, 0),
        num_at(buf, 1),
        num_at(buf, 2),
        num_at(buf, 3),
        num_at(buf, 4),
        num_at(buf, 5),
    ) {
        (Some(a), Some(b), Some(c), Some(d), Some(e), Some(f6)) => StepV::Emit(f(a, b, c, d, e, f6)),
        _ => StepV::Bad,
    }
}

/// A one-byte operator `c` applied to the operands `buf`.
pub open spec fn step1(c: u8, buf: Seq<TokenV>) -> StepV {
    match c {
        113 => StepV::Emit(InstructionV::LowerQ),
        81 => StepV::Emit(InstructionV::UpperQ),
        119 => one_number(buf, |x| InstructionV::LowerW(x)),
        74 => one_number(buf, |x| InstructionV::UpperJ(x)),
        100 => match dash_operands(buf) {
            Some((a, phase)) => StepV::Emit(InstructionV::LowerD(a, phase)),
            None => StepV::Bad,
        },
        105 => one_number(buf, |x| InstructionV::LowerI(x)),
        109 => two_numbers(buf, |x, y| InstructionV::LowerM(x, y)),
        108 => two_numbers(buf, |x, y| InstructionV::LowerL(x, y)),
        99 => six_numbers(buf, |a, b, c, d, e, f| InstructionV::LowerC(a, b, c, d, e, f)),
        104 => StepV::Emit(InstructionV::LowerH),
        87 => StepV::Emit(InstructionV::W),
        83 => StepV::Emit(InstructionV::S),
        102 => StepV::Emit(InstructionV::LowerF),
        110 => StepV::Emit(InstructionV::N),
        71 => one_number(buf, |x| InstructionV::UpperG(x)),
        103 => one_number(buf, |x| InstructionV::LowerG(x)),
        _ => StepV::Skip,
    }
}

/// A two-byte operator `a b` applied to the operands `buf`.
pub open spec fn step2(a: u8, b: u8, buf: Seq<TokenV>) -> StepV {
    match (a, b) {
        (99, 109) => six_numbers(buf, |a, b, c, d, e, f| InstructionV::Cm(a, b, c, d, e, f)),
        (103, 115) => match name_at(buf, 0) {
            Some(_) => StepV::Emit(InstructionV::Gs),
            None => StepV::Bad,
        },
        (114, 101) => four_numbers(buf, |x, y, w, h| InstructionV::Re(x, y, w, h)),
        (87, 42) => StepV::Emit(InstructionV::WStar),
        (102, 42) => StepV::Emit(InstructionV::LowerFStar),
        (99, 115) => match name_at(buf, 0) {
            Some(s) => StepV::Emit(InstructionV::Cs(s)),
            None => StepV::Bad,
        },
        (115, 99) => one_number(buf, |x| InstructionV::Sc(x)),
        (82, 71) => three_numbers(buf, |r, g, b| InstructionV::RG(r, g, b)),
        (114, 103) => three_numbers(buf, |r, g, b| InstructionV::Rg(r, g, b)),
        (66, 84) => StepV::Emit(InstructionV::BeginText),
        (69, 84) => StepV::Emit(InstructionV::EndText),
        (84, 68) => two_numbers(buf, |x, y| InstructionV::TD(x, y)),
        (84, 100) => if buf.len() != 2 {
            StepV::Restart
        } else {
            two_numbers(buf, |x, y| InstructionV::Td(x, y))
        },
        (84, 99) => one_number(buf, |x| InstructionV::Tc(x)),
        (84, 102) => match (name_at(buf, 0), num_at(buf, 1)) {
            (Some(font), Some(size)) => StepV::Emit(InstructionV::Tf(font, size)),
            _ => StepV::Bad,
        },
        (84, 114) => one_number(buf, |x| InstructionV::Tr(x)),
        (84, 109) => six_numbers(buf, |a, b, c, d, e, f| InstructionV::Tm(a, b, c, d, e, f)),
        (84, 42) => StepV::Emit(InstructionV::TStar),
        (84, 106) => match literal_at(buf, 0) {
            Some(t) => StepV::Emit(InstructionV::Tj(t)),
            None => StepV::Bad,
        },
        (84, 74) => StepV::Emit(InstructionV::TJ(tj_items(buf))),
        (68, 111) => match name_at(buf, 0) {
            Some(s) => StepV::Emit(InstructionV::Do(s)),
            None => StepV::Bad,
        },
        _ => StepV::Skip,
    }
}

/// A three-byte operator `a b c`.
pub open spec fn step3(a: u8, b: u8, c: u8) -> StepV {
    match (a, b, c) {
        (66, 68, 67) => StepV::Emit(InstructionV::BDC),
        (66, 77, 67) => StepV::Emit(InstructionV::BMC),
        (69, 77, 67) => StepV::Emit(InstructionV::EMC),
        _ => StepV::Skip,
    }
}

/// The operator spelled `op` applied to the operands `buf`.
pub open spec fn step_of(op: Seq<u8>, buf: Seq<TokenV>) -> StepV {
    if op.len() == 1 {
        step1(op[0], buf)
    } else if op.len() == 2 {
        step2(op[0], op[1], buf)
    } else if op.len() == 3 {
        step3(op[0], op[1], op[2])
    } else {
        StepV::Skip
    }
}

// ---------------------------------------------------------------------------
// Reading instructions
// ---------------------------------------------------------------------------

/// Every operator that takes numbers takes them in the order of its
/// operands: with numbers `n0, n1, ...` as its first operands, the fields of
/// its instruction are `n0, n1, ...` in that order.
pub proof fn law_numeric_operands_in_order(buf: Seq<TokenV>, ns: Seq<NumberV>)
    requires
        ns.len() == 6,
        buf.len() >= 6,
        forall|k: int| 0 <= k < 6 ==> buf[k] == TokenV::Numeric(#[trigger] ns[k]),
    ensures
        step_of(seq![99u8, 109], buf) == StepV::Emit(InstructionV::Cm(ns[0], ns[1], ns[2], ns[3], ns[4], ns[5])),
        step_of(seq![84u8, 109], buf) == StepV::Emit(InstructionV::Tm(ns[0], ns[1], ns[2], ns[3], ns[4], ns[5])),
        step_of(seq![99u8], buf) == StepV::Emit(InstructionV::LowerC(ns[0], ns[1], ns[2], ns[3], ns[4], ns[5])),
        step_of(seq![114u8, 101], buf) == StepV::Emit(InstructionV::Re(ns[0], ns[1], ns[2], ns[3])),
        step_of(seq![82u8, 71], buf) == StepV::Emit(InstructionV::RG(ns[0], ns[1], ns[2])),
        step_of(seq![114u8, 103], buf) == StepV::Emit(InstructionV::Rg(ns[0], ns[1], ns[2])),
        step_of(seq![109u8], buf) == StepV::Emit(InstructionV::LowerM(ns[0], ns[1])),
        step_of(seq![108u8], buf) == StepV::Emit(InstructionV::LowerL(ns[0], ns[1])),
        step_of(seq![84u8, 68], buf) == StepV::Emit(InstructionV::TD(ns[0], ns[1])),
        step_of(seq![119u8], buf) == StepV::Emit(InstructionV::LowerW(ns[0])),
        step_of(seq![74u8], buf) == StepV::Emit(InstructionV::UpperJ(ns[0])),
        step_of(seq![105u8], buf) == StepV::Emit(InstructionV::LowerI(ns[0])),
        step_of(seq![71u8], buf) == StepV::Emit(InstructionV::UpperG(ns[0])),
        step_of(seq![103u8], buf) == StepV::Emit(InstructionV::LowerG(ns[0])),
        step_of(seq![115u8, 99], buf) == StepV::Emit(InstructionV::Sc(ns[0])),
        step_of(seq![84u8, 99], buf) == StepV::Emit(InstructionV::Tc(ns[0])),
        step_of(seq![84u8, 114], buf) == StepV::Emit(InstructionV::Tr(ns[0])),
{
    assert(buf[0] == TokenV::Numeric(ns[0]));
    assert(buf[1] == TokenV::Numeric(ns[1]));
    assert(buf[2] == TokenV::Numeric(ns[2]));
    assert(buf[3] == TokenV::Numeric(ns[3]));
    assert(buf[4] == TokenV::Numeric(ns[4]));
    assert(buf[5] == TokenV::Numeric(ns[5]));
}

/// `Td` with its two numbers takes them in order.
pub proof fn law_td_operands_in_order(buf: Seq<TokenV>, x: NumberV, y: NumberV)
    requires
        buf == seq![TokenV::Numeric(x), TokenV::Numeric(y)],
    ensures
        step_of(seq![84u8, 100], buf) == StepV::Emit(InstructionV::Td(x, y)),
{
}

/// Operators with a name, a string or a name and a number take them in the
/// order of their operands.
pub proof fn law_other_operands_in_order(buf: Seq<TokenV>, name: Seq<char>, n: NumberV, t: Seq<u8>)
    ensures
        buf.len() >= 2 && buf[0] == TokenV::Name(name) && buf[1] == TokenV::Numeric(n) ==> step_of(
            seq![84u8, 102],
            buf,
        ) == StepV::Emit(InstructionV::Tf(name, n)),
        buf.len() >= 1 && buf[0] == TokenV::Name(name) ==> step_of(seq![99u8, 115], buf) == StepV::Emit(
            InstructionV::Cs(name),
        ) && step_of(seq![68u8, 111], buf) == StepV::Emit(InstructionV::Do(name)),
        buf.len() >= 1 && buf[0] == TokenV::LitteralString(t) ==> step_of(seq![84u8, 106], buf)
            == StepV::Emit(InstructionV::Tj(t)),
{
}

/// A run of operand tokens is gathered, in order, before what follows them.
proof fn lemma_scan_operands(s: Seq<u8>, ps: Seq<int>, toks: Seq<TokenV>, buf: Seq<TokenV>)
    requires
        ps.len() == toks.len() + 1,
        0 <= ps[0],
        forall|k: int| 0 <= k < toks.len() ==> lex(s, #[trigger] ps[k]) == Lexed::Tok(toks[k], ps[k + 1]),
        forall|k: int| 0 <= k < toks.len() ==> is_operand(#[trigger] toks[k]),
    ensures
        scan(s, ps[0], buf) == scan(s, ps.last(), buf + toks),
        ps[0] <= ps.last(),
    decreases toks.len(),
{
    if toks.len() == 0 {
        assert(buf + toks =~= buf);
    } else {
        lemma_lex_advances(s, ps[0]);
        assert(lex(s, ps[0]) == Lexed::Tok(toks[0], ps[1]));
        let ps1 = ps.drop_first();
        let toks1 = toks.drop_first();
        assert forall|k: int| 0 <= k < toks1.len() implies lex(s, #[trigger] ps1[k]) == Lexed::Tok(
            toks1[k],
            ps1[k + 1],
        ) by {
            assert(lex(s, ps[k + 1]) == Lexed::Tok(toks[k + 1], ps[k + 2]));
        }
        assert forall|k: int| 0 <= k < toks1.len() implies is_operand(#[trigger] toks1[k]) by {
            assert(is_operand(toks[k + 1]));
        }
        assert(is_operand(toks[0]));
        lemma_scan_operands(s, ps1, toks1, buf.push(toks[0]));
        assert(buf.push(toks[0]) + toks1 =~= buf + toks);
        assert(ps1.last() == ps.last());
    }
}

/// Six numbers followed by `Tm` in a content stream are read as the text
/// matrix with those numbers, in the order they stand in the stream.
pub proof fn law_tm_reads_numbers_in_order(s: Seq<u8>, ps: Seq<int>, ns: Seq<NumberV>, q: int)
    requires
        ps.len() == 7,
        ns.len() == 6,
        0 <= ps[0],
        forall|k: int| 0 <= k < 6 ==> lex(s, #[trigger] ps[k]) == Lexed::Tok(TokenV::Numeric(ns[k]), ps[k + 1]),
        lex(s, ps[6]) == Lexed::Tok(TokenV::String(seq![84u8, 109]), q),
    ensures
        scan(s, ps[0], seq![]) == Scanned::Instr(InstructionV::Tm(ns[0], ns[1], ns[2], ns[3], ns[4], ns[5]), q),
{
    let toks = ns.map_values(|n: NumberV| TokenV::Numeric(n));
    assert forall|k: int| 0 <= k < toks.len() implies lex(s, #[trigger] ps[k]) == Lexed::Tok(toks[k], ps[k + 1]) by {
        assert(lex(s, ps[k]) == Lexed::Tok(TokenV::Numeric(ns[k]), ps[k + 1]));
    }
    lemma_scan_operands(s, ps, toks, seq![]);
    let buf = seq![] + toks;
    assert forall|k: int| 0 <= k < 6 implies buf[k] == TokenV::Numeric(#[trigger] ns[k]) by {}
    law_numeric_operands_in_order(buf, ns);
    lemma_lex_advances(s, ps[6]);
    assert(ps.last() == ps[6]);
    assert(lex(s, ps[6]) matches Lexed::Tok(_, q2) && ps[6] < q2 <= s.len());
    assert(s.len() >= 0);
}

/// The tokens may stand as operands.
pub open spec fn is_operand(t: TokenV) -> bool {
    t is LitteralString || t is Name || t is ArrayBegin || t is ArrayEnd || t is HexString
        || t is Numeric
}

/// Position after the tokens of a dictionary that starts before `q`: after
/// the first `>>`, or the end of the input where none follows.
pub open spec fn dict_skip(s: Seq<u8>, q: int) -> Option<int>
    decreases s.len() - q,
{
    match lex(s, q) {
        Lexed::Tok(t, q2) => if q < q2 <= s.len() {
            if t is DictEnd {
                Some(q2)
            } else {
                dict_skip(s, q2)
            }
        } else {
            Some(s.len() as int)
        },
        Lexed::Fail => None,
        Lexed::End => Some(s.len() as int),
    }
}

/// Outcome of reading one instruction.
pub enum Scanned {
    /// An instruction and the position after its operator.
    Instr(InstructionV, int),
    /// The input ends before another instruction.
    End,
    /// An operator whose operands are missing or of the wrong kind; the
    /// position after it.
    BadOperands(int),
    /// A token that has no place in a content stream, the position after it;
    /// or bytes that form no token, the end of the input.
    BadToken(int),
}

/// The next instruction of the content stream `s` read from position `p`,
/// with the operands `buf` already gathered.
///
/// Operands are gathered until an operator comes. A dictionary is skipped.
/// An unknown operator is passed over with the operands kept; `Td` with other
/// than two operands starts over with none.
pub open spec fn scan(s: Seq<u8>, p: int, buf: Seq<TokenV>) -> Scanned
    decreases s.len() - p,
{
    match lex(s, p) {
        Lexed::Tok(t, q) => if p < q <= s.len() {
            if is_operand(t) {
                scan(s, q, buf.push(t))
            } else if t is DictBegin {
                match dict_skip(s, q) {
                    Some(d) => if q <= d <= s.len() {
                        scan(s, d, buf)
                    } else {
                        Scanned::End
                    },
                    None => Scanned::BadToken(s.len() as int),
                }
            } else {
                match t {
                    TokenV::String(op) => match step_of(op, buf) {
                        StepV::Emit(i) => Scanned::Instr(i, q),
                        StepV::Restart => scan(s, q, seq![]),
                        StepV::Skip => scan(s, q, buf),
                        StepV::Bad => Scanned::BadOperands(q),
                    },
                    _ => Scanned::BadToken(q),
                }
            }
        } else {
            Scanned::End
        },
        Lexed::Fail => Scanned::BadToken(s.len() as int),
        Lexed::End => Scanned::End,
    }
}

pub proof fn lemma_dict_skip(s: Seq<u8>, q: int)
    requires
        0 <= q <= s.len(),
    ensures
        dict_skip(s, q) matches Some(d) ==> q <= d <= s.len(),
    decreases s.len() - q,
{
    lemma_lex_advances(s, q);
    match lex(s, q) {
        Lexed::Tok(t, q2) => {
            if !(t is DictEnd) {
                lemma_dict_skip(s, q2);
            }
        },
        _ => {},
    }
}

// ---------------------------------------------------------------------------
// Executable operand access
// ---------------------------------------------------------------------------

fn number_operand(buf: &Vec<Token>, i: usize) -> (r: Option<Number>)
    ensures
        match num_at(tokens_view(buf@), i as int) {
            Some(n) => r matches Some(x) && x@ == n,
            None => r is None,
        },
{
    if i < buf.len() {
        assert(tokens_view(buf@)[i as int] == buf@[i as int]@);
        match &buf[i] {
            Token::Numeric(n) => Some(n.duplicate()),
            _ => None,
        }
    } else {
        None
    }
}

fn name_operand(buf: &Vec<Token>, i: usize) -> (r: Option<String>)
    ensures
        match name_at(tokens_view(buf@), i as int) {
            Some(n) => r matches Some(x) && x@ == n,
            None => r is None,
        },
{
    if i < buf.len() {
        assert(tokens_view(buf@)[i as int] == buf@[i as int]@);
        match &buf[i] {
            Token::Name(n) => Some(n.clone()),
            _ => None,
        }
    } else {
        None
    }
}

fn literal_operand(buf: &Vec<Token>, i: usize) -> (r: Option<Vec<u8>>)
    ensures
        match literal_at(tokens_view(buf@), i as int) {
            Some(n) => r matches Some(x) && x@ == n,
            None => r is None,
        },
{
    if i < buf.len() {
        assert(tokens_view(buf@)[i as int] == buf@[i as int]@);
        match &buf[i] {
            Token::LitteralString(t) => Some(t.clone()),
            _ => None,
        }
    } else {
        None
    }
}

fn dash_operands_of(buf: &Vec<Token>) -> (r: Option<(Vec<Number>, Number)>)
    ensures
        match dash_operands(tokens_view(buf@)) {
            Some((a, phase)) => r matches Some(x) && numbers_view(x.0@) == a && x.1@ == phase,
            None => r is None,
        },
{
    let ghost b = tokens_view(buf@);
    if buf.len() == 0 {
        return None;
    }
    assert(b[0] == buf@[0]@);
    match &buf[0] {
        Token::ArrayBegin => {},
        _ => {
            return None;
        },
    }
    let mut dash: Vec<Number> = Vec::new();
    let mut i: usize = 1;
    assert(numbers_view(dash@) =~= seq![]);
    while i < buf.len()
        invariant
            b == tokens_view(buf@),
            1 <= i <= buf@.len(),
            b[0] is ArrayBegin,
            dash_entries(b, 1, seq![]) == dash_entries(b, i as int, numbers_view(dash@)),
        decreases buf@.len() - i,
    {
        assert(b[i as int] == buf@[i as int]@);
        match &buf[i] {
            Token::Numeric(n) => {
                let ghost before = numbers_view(dash@);
                dash.push(n.duplicate());
                assert(numbers_view(dash@) =~= before.push(n@));
                i = i + 1;
            },
            Token::ArrayEnd => {
                assert(dash_entries(b, i as int, numbers_view(dash@)) == Some((numbers_view(dash@), i + 1)));
                return match number_operand(buf, i + 1) {
                    Some(phase) => Some((dash, phase)),
                    None => None,
                };
            },
            _ => {
                return None;
            },
        }
    }
    None
}

fn tj_items_of(buf: &Vec<Token>) -> (r: Vec<ArrayVal>)
    ensures
        array_vals_view(r@) == tj_items(tokens_view(buf@)),
{
    let ghost b = tokens_view(buf@);
    let mut out: Vec<ArrayVal> = Vec::new();
    let mut i: usize = 0;
    while i < buf.len()
        invariant
            b == tokens_view(buf@),
            i <= buf@.len(),
            array_vals_view(out@) == tj_items(b.subrange(0, i as int)),
        decreases buf@.len() - i,
    {
        let ghost before = array_vals_view(out@);
        assert(b.subrange(0, i + 1).drop_last() =~= b.subrange(0, i as int));
        assert(b.subrange(0, i + 1).last() == buf@[i as int]@);
        match &buf[i] {
            Token::LitteralString(t) => {
                out.push(ArrayVal::Text(t.clone()));
            },
            Token::HexString(t) => {
                out.push(ArrayVal::Text(t.clone()));
            },
            Token::Numeric(n) => {
                out.push(ArrayVal::Pos(n.duplicate()));
            },
            _ => {},
        }
        assert(array_vals_view(out@) =~= tj_items(b.subrange(0, i + 1)));
        i = i + 1;
    }
    assert(b.subrange(0, buf@.len() as int) =~= b);
    out
}

// ---------------------------------------------------------------------------
// Executable operators
// ---------------------------------------------------------------------------

enum Step {
    Emit(GraphicsInstruction),
    Restart,
    Skip,
    Bad,
}

impl View for Step {
    type V = StepV;

    closed spec fn view(&self) -> StepV {
        match self {
            Step::Emit(i) => StepV::Emit(i@),
            Step::Restart => StepV::Restart,
            Step::Skip => StepV::Skip,
            Step::Bad => StepV::Bad,
        }
    }
}

fn apply_one_byte(c: u8, buf: &Vec<Token>) -> (r: Step)
    ensures
        r@ == step1(c, tokens_view(buf@)),
{
    match c {
        113 => Step::Emit(GraphicsInstruction::LowerQ),
        81 => Step::Emit(GraphicsInstruction::UpperQ),
        119 => match number_operand(buf, 0) {
            Some(x) => Step::Emit(GraphicsInstruction::LowerW(x)),
            None => Step::Bad,
        },
        74 => match number_operand(buf, 0) {
            Some(x) => Step::Emit(GraphicsInstruction::UpperJ(x)),
            None => Step::Bad,
        },
        100 => match dash_operands_of(buf) {
            Some((a, phase)) => Step::Emit(GraphicsInstruction::LowerD(a, phase)),
            None => Step::Bad,
        },
        105 => match number_operand(buf, 0) {
            Some(x) => Step::Emit(GraphicsInstruction::LowerI(x)),
            None => Step::Bad,
        },
        109 => match (number_operand(buf, 0), number_operand(buf, 1)) {
            (Some(x), Some(y)) => Step::Emit(GraphicsInstruction::LowerM(x, y)),
            _ => Step::Bad,
        },
        108 => match (number_operand(buf, 0), number_operand(buf, 1)) {
            (Some(x), Some(y)) => Step::Emit(GraphicsInstruction::LowerL(x, y)),
            _ => Step::Bad,
        },
        99 => match six_operands(buf) {
            Some((a, b, c, d, e, f)) => Step::Emit(GraphicsInstruction::LowerC(a, b, c, d, e, f)),
            None => Step::Bad,
        },
        104 => Step::Emit(GraphicsInstruction::LowerH),
        87 => Step::Emit(GraphicsInstruction::W),
        83 => Step::Emit(GraphicsInstruction::S),
        102 => Step::Emit(GraphicsInstruction::LowerF),
        110 => Step::Emit(GraphicsInstruction::N),
        71 => match number_operand(buf, 0) {
            Some(x) => Step::Emit(GraphicsInstruction::UpperG(x)),
            None => Step::Bad,
        },
        103 => match number_operand(buf, 0) {
            Some(x) => Step::Emit(GraphicsInstruction::LowerG(x)),
            None => Step::Bad,
        },
        _ => Step::Skip,
    }
}

fn six_operands(buf: &Vec<Token>) -> (r: Option<(Number, Number, Number, Number, Number, Number)>)
    ensures
        match (
            num_at(tokens_view(buf@), 0),
            num_at(tokens_view(buf@), 1),
            num_at(tokens_view(buf@), 2),
            num_at(tokens_view(buf@), 3),
            num_at(tokens_view(buf@), 4),
            num_at(tokens_view(buf@), 5),
        ) {
            (Some(a), Some(b), Some(c), Some(d), Some(e), Some(f)) => r matches Some(x) && x.0@ == a
                && x.1@ == b && x.2@ == c && x.3@ == d && x.4@ == e && x.5@ == f,
            _ => r is None,
        },
{
    match (
        number_operand(buf, 0),
        number_operand(buf, 1),
        number_operand(buf, 2),
        number_operand(buf, 3),
        number_operand(buf, 4),
        number_operand(buf, 5),
    ) {
        (Some(a), Some(b), Some(c), Some(d), Some(e), Some(f)) => Some((a, b, c, d, e, f)),
        _ => None,
    }
}

fn apply_two_bytes(a: u8, b: u8, buf: &Vec<Token>) -> (r: Step)
    ensures
        r@ == step2(a, b, tokens_view(buf@)),
{
    match (a, b) {
        (99, 109) => match six_operands(buf) {
            Some((a, b, c, d, e, f)) => Step::Emit(GraphicsInstruction::Cm(a, b, c, d, e, f)),
            None => Step::Bad,
        },
        (103, 115) => match name_operand(buf, 0) {
            Some(_) => Step::Emit(GraphicsInstruction::Gs),
            None => Step::Bad,
        },
        (114, 101) => match (
            number_operand(buf, 0),
            number_operand(buf, 1),
            number_operand(buf, 2),
            number_operand(buf, 3),
        ) {
            (Some(x), Some(y), Some(w), Some(h)) => Step::Emit(GraphicsInstruction::Re(x, y, w, h)),
            _ => Step::Bad,
        },
        (87, 42) => Step::Emit(GraphicsInstruction::WStar),
        (102, 42) => Step::Emit(GraphicsInstruction::LowerFStar),
        (99, 115) => match name_operand(buf, 0) {
            Some(s) => Step::Emit(GraphicsInstruction::Cs(s)),
            None => Step::Bad,
        },
        (115, 99) => match number_operand(buf, 0) {
            Some(x) => Step::Emit(GraphicsInstruction::Sc(x)),
            None => Step::Bad,
        },
        (82, 71) => match (number_operand(buf, 0), number_operand(buf, 1), number_operand(buf, 2)) {
            (Some(r), Some(g), Some(b)) => Step::Emit(GraphicsInstruction::RG(r, g, b)),
            _ => Step::Bad,
        },
        (114, 103) => match (number_operand(buf, 0), number_operand(buf, 1), number_operand(buf, 2)) {
            (Some(r), Some(g), Some(b)) => Step::Emit(GraphicsInstruction::Rg(r, g, b)),
            _ => Step::Bad,
        },
        (66, 84) => Step::Emit(GraphicsInstruction::BeginText),
        (69, 84) => Step::Emit(GraphicsInstruction::EndText),
        (84, 68) => match (number_operand(buf, 0), number_operand(buf, 1)) {
            (Some(x), Some(y)) => Step::Emit(GraphicsInstruction::TD(x, y)),
            _ => Step::Bad,
        },
        (84, 100) => if buf.len() != 2 {
            Step::Restart
        } else {
            match (number_operand(buf, 0), number_operand(buf, 1)) {
                (Some(x), Some(y)) => Step::Emit(GraphicsInstruction::Td(x, y)),
                _ => Step::Bad,
            }
        },
        (84, 99) => match number_operand(buf, 0) {
            Some(x) => Step::Emit(GraphicsInstruction::Tc(x)),
            None => Step::Bad,
        },
        (84, 102) => match (name_operand(buf, 0), number_operand(buf, 1)) {
            (Some(font), Some(size)) => Step::Emit(GraphicsInstruction::Tf(font, size)),
            _ => Step::Bad,
        },
        (84, 114) => match number_operand(buf, 0) {
            Some(x) => Step::Emit(GraphicsInstruction::Tr(x)),
            None => Step::Bad,
        },
        (84, 109) => match six_operands(buf) {
            Some((a, b, c, d, e, f)) => Step::Emit(GraphicsInstruction::Tm(a, b, c, d, e, f)),
            None => Step::Bad,
        },
        (84, 42) => Step::Emit(GraphicsInstruction::TStar),
        (84, 106) => match literal_operand(buf, 0) {
            Some(t) => Step::Emit(GraphicsInstruction::Tj(t)),
            None => Step::Bad,
        },
        (84, 74) => Step::Emit(GraphicsInstruction::TJ(tj_items_of(buf))),
        (68, 111) => match name_operand(buf, 0) {
            Some(s) => Step::Emit(GraphicsInstruction::Do(s)),
            None => Step::Bad,
        },
        _ => Step::Skip,
    }
}

fn apply_three_bytes(a: u8, b: u8, c: u8) -> (r: Step)
    ensures
        r@ == step3(a, b, c),
{
    match (a, b, c) {
        (66, 68, 67) => Step::Emit(GraphicsInstruction::BDC),
        (66, 77, 67) => Step::Emit(GraphicsInstruction::BMC),
        (69, 77, 67) => Step::Emit(GraphicsInstruction::EMC),
        _ => Step::Skip,
    }
}

fn apply_operator(op: &[u8], buf: &Vec<Token>) -> (r: Step)
    ensures
        r@ == step_of(op@, tokens_view(buf@)),
{
    if op.len() == 1 {
        apply_one_byte(op[0], buf)
    } else if op.len() == 2 {
        apply_two_bytes(op[0], op[1], buf)
    } else if op.len() == 3 {
        apply_three_bytes(op[0], op[1], op[2])
    } else {
        Step::Skip
    }
}

// ---------------------------------------------------------------------------
// Content stream reader
// ---------------------------------------------------------------------------

/// Why a content stream cannot be read further.
#[derive(Debug, PartialEq)]
pub enum ContentError {
    /// An operator with operands missing or of the wrong kind.
    Operands,
    /// A token that has no place in a content stream, or bytes that form no
    /// token.
    UnexpectedToken,
    /// `Q` with no graphics state saved by an earlier `q`.
    EmptyStack,
}

/// Reads the instructions of a content stream, one at a time, and counts the
/// graphics states that `q` saves and `Q` restores.
pub struct Content<'a> {
    tokenizer: Tokenizer<'a>,
    saved: usize,
}

/// Number of saved graphics states after instruction `i`, with `n` saved
/// before it.
pub open spec fn saved_after(i: InstructionV, n: nat) -> nat {
    match i {
        InstructionV::LowerQ => n + 1,
        InstructionV::UpperQ => (n - 1) as nat,
        _ => n,
    }
}

impl<'a> Content<'a> {
    /// The whole content stream.
    pub closed spec fn input(&self) -> Seq<u8> {
        self.tokenizer.input()
    }

    /// Position of the next byte to read.
    pub closed spec fn position(&self) -> int {
        self.tokenizer.position()
    }

    /// Number of graphics states saved by `q` and not yet restored by `Q`.
    pub closed spec fn saved_states(&self) -> nat {
        self.saved as nat
    }

    pub closed spec fn wf(&self) -> bool {
        self.tokenizer.wf() && self.saved <= self.tokenizer.position()
    }

    /// A reader of the instructions that `tokenizer` reads from its position.
    pub fn from_tokenizer(tokenizer: Tokenizer<'a>) -> (r: Content<'a>)
        requires
            tokenizer.wf(),
        ensures
            r.wf(),
            r.input() == tokenizer.input(),
            r.position() == tokenizer.position(),
            r.saved_states() == 0,
    {
        Content { tokenizer, saved: 0 }
    }

    /// A reader of the instructions of `bytes`, from the first byte.
    pub fn from(bytes: &'a [u8]) -> (r: Content<'a>)
        ensures
            r.wf(),
            r.input() == bytes@,
            r.position() == 0,
            r.saved_states() == 0,
    {
        Content { tokenizer: Tokenizer::new(bytes, 0), saved: 0 }
    }

    /// Passes over the tokens of a dictionary, up to and with its `>>`.
    fn skip_dict(&mut self) -> (r: bool)
        requires
            old(self).tokenizer.wf(),
        ensures
            final(self).tokenizer.wf(),
            final(self).saved == old(self).saved,
            final(self).input() == old(self).input(),
            match dict_skip(old(self).input(), old(self).position()) {
                Some(d) => r && final(self).position() == d,
                None => !r && final(self).position() == final(self).input().len(),
            },
    {
        let ghost s = self.input();
        let ghost target = dict_skip(s, self.position());
        loop
            invariant
                self.tokenizer.wf(),
                self.saved == old(self).saved,
                self.input() == s,
                s == old(self).input(),
                target == dict_skip(old(self).input(), old(self).position()),
                dict_skip(s, self.position()) == target,
            decreases s.len() - self.position(),
        {
            proof {
                lemma_lex_advances(s, self.position());
            }
            match self.tokenizer.try_next() {
                Ok(None) => {
                    return true;
                },
                Ok(Some(Token::DictEnd)) => {
                    return true;
                },
                Ok(Some(_)) => {},
                Err(_) => {
                    return false;
                },
            }
        }
    }

    /// Reads the next instruction (see [`scan`]), leaving the count of saved
    /// states as it is.
    fn read_instruction(&mut self) -> (r: Result<Option<GraphicsInstruction>, ContentError>)
        requires
            old(self).tokenizer.wf(),
        ensures
            final(self).tokenizer.wf(),
            final(self).saved == old(self).saved,
            final(self).input() == old(self).input(),
            match scan(old(self).input(), old(self).position(), seq![]) {
                Scanned::Instr(i, q) => r matches Ok(Some(x)) && x@ == i && final(self).position()
                    == q,
                Scanned::End => r matches Ok(None) && final(self).position() == final(self).input().len(),
                Scanned::BadOperands(q) => r == Err::<Option<GraphicsInstruction>, ContentError>(
                    ContentError::Operands,
                ) && final(self).position() == q,
                Scanned::BadToken(q) => r == Err::<Option<GraphicsInstruction>, ContentError>(
                    ContentError::UnexpectedToken,
                ) && final(self).position() == q,
            },
    {
        let ghost s = self.input();
        let ghost target = scan(s, self.position(), seq![]);
        let mut buf: Vec<Token> = Vec::new();
        assert(tokens_view(buf@) =~= seq![]);
        loop
            invariant
                self.tokenizer.wf(),
                self.saved == old(self).saved,
                self.input() == s,
                s == old(self).input(),
                target == scan(old(self).input(), old(self).position(), seq![]),
                scan(s, self.position(), tokens_view(buf@)) == target,
            decreases s.len() - self.position(),
        {
            let ghost p = self.position();
            let ghost before = tokens_view(buf@);
            proof {
                lemma_lex_advances(s, p);
            }
            let t = match self.tokenizer.try_next() {
                Ok(Some(t)) => t,
                Ok(None) => {
                    return Ok(None);
                },
                Err(_) => {
                    return Err(ContentError::UnexpectedToken);
                },
            };
            let operand = match &t {
                Token::LitteralString(_) => true,
                Token::Name(_) => true,
                Token::ArrayBegin => true,
                Token::ArrayEnd => true,
                Token::HexString(_) => true,
                Token::Numeric(_) => true,
                _ => false,
            };
            if operand {
                buf.push(t);
                assert(tokens_view(buf@) =~= before.push(t@));
            } else {
                match t {
                    Token::DictBegin => {
                        proof {
                            lemma_dict_skip(s, self.position());
                        }
                        if !self.skip_dict() {
                            return Err(ContentError::UnexpectedToken);
                        }
                    },
                    Token::String(op) => {
                        match apply_operator(op.as_slice(), &buf) {
                            Step::Emit(i) => {
                                return Ok(Some(i));
                            },
                            Step::Restart => {
                                buf = Vec::new();
                                assert(tokens_view(buf@) =~= seq![]);
                            },
                            Step::Skip => {},
                            Step::Bad => {
                                return Err(ContentError::Operands);
                            },
                        }
                    },
                    _ => {
                        return Err(ContentError::UnexpectedToken);
                    },
                }
            }
        }
    }

    /// Reads the next instruction (see [`scan`]): `Ok(None)` where the stream
    /// ends first, an error where an operator has operands that do not fit
    /// it, a token has no place in a content stream, or `Q` comes with no
    /// graphics state saved.
    pub fn try_next(&mut self) -> (r: Result<Option<GraphicsInstruction>, ContentError>)
        requires
            old(self).wf(),
        ensures
            final(self).wf(),
            final(self).input() == old(self).input(),
            match scan(old(self).input(), old(self).position(), seq![]) {
                Scanned::Instr(i, q) => final(self).position() == q && if i is UpperQ
                    && old(self).saved_states() == 0 {
                    r == Err::<Option<GraphicsInstruction>, ContentError>(ContentError::EmptyStack)
                        && final(self).saved_states() == 0
                } else {
                    r matches Ok(Some(x)) && x@ == i && final(self).saved_states() == saved_after(
                        i,
                        old(self).saved_states(),
                    )
                },
                Scanned::End => r matches Ok(None) && final(self).position() == final(self).input().len()
                    && final(self).saved_states() == old(self).saved_states(),
                Scanned::BadOperands(q) => r == Err::<Option<GraphicsInstruction>, ContentError>(
                    ContentError::Operands,
                ) && final(self).position() == q,
                Scanned::BadToken(q) => r == Err::<Option<GraphicsInstruction>, ContentError>(
                    ContentError::UnexpectedToken,
                ) && final(self).position() == q,
            },
    {
        let ghost p = self.position();
        proof {
            lemma_scan_advances(self.input(), p, seq![]);
        }
        let r = self.read_instruction();
        match r {
            Ok(Some(GraphicsInstruction::UpperQ)) => {
                if self.saved == 0 {
                    return Err(ContentError::EmptyStack);
                }
                self.saved = self.saved - 1;
                Ok(Some(GraphicsInstruction::UpperQ))
            },
            Ok(Some(GraphicsInstruction::LowerQ)) => {
                self.saved = self.saved + 1;
                Ok(Some(GraphicsInstruction::LowerQ))
            },
            other => other,
        }
    }

    /// Reads the next instruction, `None` where the stream ends first. The
    /// stream must not hold, before that instruction, an operator whose
    /// operands do not fit it or a token that has no place in a content
    /// stream, and the instruction must not be a `Q` with no state saved.
    pub fn next(&mut self) -> (r: Option<GraphicsInstruction>)
        requires
            old(self).wf(),
            !(scan(old(self).input(), old(self).position(), seq![]) is BadOperands),
            !(scan(old(self).input(), old(self).position(), seq![]) is BadToken),
            scan(old(self).input(), old(self).position(), seq![]) matches Scanned::Instr(i, _)
                ==> !(i is UpperQ && old(self).saved_states() == 0),
        ensures
            final(self).wf(),
            final(self).input() == old(self).input(),
            match scan(old(self).input(), old(self).position(), seq![]) {
                Scanned::Instr(i, q) => r matches Some(x) && x@ == i && final(self).position() == q
                    && final(self).saved_states() == saved_after(i, old(self).saved_states()),
                _ => r is None && final(self).position() == final(self).input().len(),
            },
    {
        match self.try_next() {
            Ok(i) => i,
            Err(_) => None,
        }
    }
}

/// An instruction read by [`scan`] ends after the position it was read from.
pub proof fn lemma_scan_advances(s: Seq<u8>, p: int, buf: Seq<TokenV>)
    requires
        0 <= p <= s.len(),
    ensures
        scan(s, p, buf) matches Scanned::Instr(_, q) ==> p < q <= s.len(),
        scan(s, p, buf) matches Scanned::BadOperands(q) ==> p < q <= s.len(),
        scan(s, p, buf) matches Scanned::BadToken(q) ==> p < q <= s.len(),
    decreases s.len() - p,
{
    lemma_lex_advances(s, p);
    if p >= s.len() {
        lemma_lex_past_end(s, p);
    }
    match lex(s, p) {
        Lexed::Tok(t, q) => {
            if is_operand(t) {
                lemma_scan_advances(s, q, buf.push(t));
            } else if t is DictBegin {
                lemma_dict_skip(s, q);
                if let Some(d) = dict_skip(s, q) {
                    lemma_scan_advances(s, d, buf);
                }
            } else {
                match t {
                    TokenV::String(op) => match step_of(op, buf) {
                        StepV::Restart => lemma_scan_advances(s, q, seq![]),
                        StepV::Skip => lemma_scan_advances(s, q, buf),
                        _ => {},
                    },
                    _ => {},
                }
            }
        },
        _ => {},
    }
}

// ---------------------------------------------------------------------------
// Text of a content stream
// ---------------------------------------------------------------------------

/// Why the text of a content stream cannot be read.
#[derive(Debug, PartialEq)]
pub enum TextError {
    /// The content stream itself cannot be read.
    Content(ContentError),
    /// Text is shown before a font is set.
    NoFont,
    /// The font set is not among the fonts of the page.
    UnknownFont,
    /// `Q` with no graphics state saved.
    EmptyStack,
    /// A character code that the font's ToUnicode CMap does not map, or a
    /// two-byte code cut short.
    UnknownCode,
}

/// The fonts of a page by name, each with its CMap where it has one; a name
/// given twice maps to its last entry.
pub open spec fn fonts_view(fs: Seq<(String, Option<ToUnicodeCMap>)>) -> Map<Seq<char>, Option<(bool, Map<usize, char>)>>
    decreases fs.len(),
{
    if fs.len() == 0 {
        Map::empty()
    } else {
        fonts_view(fs.drop_last()).insert(
            fs.last().0@,
            match fs.last().1 {
                Some(c) => Some(cmap_codes(c)),
                None => None,
            },
        )
    }
}

/// `acc` followed by the characters that the CMap `m` gives for the codes of
/// `t` from index `i`: two bytes, high byte first, or one byte per code.
pub open spec fn cmap_text(t: Seq<u8>, i: int, two: bool, m: Map<usize, char>, acc: Seq<char>) -> Option<Seq<char>>
    decreases t.len() - i,
{
    if i < 0 || i >= t.len() {
        Some(acc)
    } else if two {
        if i + 1 < t.len() {
            let k = (t[i] * 256 + t[i + 1]) as usize;
            if m.contains_key(k) {
                cmap_text(t, i + 2, two, m, acc.push(m[k]))
            } else {
                None
            }
        } else {
            None
        }
    } else {
        let k = t[i] as usize;
        if m.contains_key(k) {
            cmap_text(t, i + 1, two, m, acc.push(m[k]))
        } else {
            None
        }
    }
}

/// `acc` followed by the text of the `TJ` operands `items` from index `j`:
/// strings read through the CMap `cm` where there is one, byte for byte
/// (ISO 8859-1) where there is none; positions add nothing.
pub open spec fn tj_text(
    items: Seq<ArrayValV>,
    j: int,
    cm: Option<(bool, Map<usize, char>)>,
    acc: Seq<char>,
) -> Option<Seq<char>>
    decreases items.len() - j,
{
    if j < 0 || j >= items.len() {
        Some(acc)
    } else {
        match items[j] {
            ArrayValV::Text(t) => match cm {
                Some((two, m)) => match cmap_text(t, 0, two, m, acc) {
                    Some(a) => tj_text(items, j + 1, cm, a),
                    None => None,
                },
                None => tj_text(items, j + 1, cm, acc + latin1(t)),
            },
            ArrayValV::Pos(_) => tj_text(items, j + 1, cm, acc),
        }
    }
}

/// The part of the graphics state that decides the text: the current font,
/// and the fonts of the states saved by `q`.
pub struct TextStateV {
    pub font: Option<Seq<char>>,
    pub stack: Seq<Option<Seq<char>>>,
    /// Some text has been shown already.
    pub shown: bool,
}

/// The CMap of the current font, which must be set and be a font of the page.
pub open spec fn current_cmap(st: TextStateV, fonts: Map<Seq<char>, Option<(bool, Map<usize, char>)>>) -> Result<
    Option<(bool, Map<usize, char>)>,
    TextError,
> {
    match st.font {
        None => Err(TextError::NoFont),
        Some(f) => if fonts.contains_key(f) {
            Ok(fonts[f])
        } else {
            Err(TextError::UnknownFont)
        },
    }
}

/// The text `acc`, with a new line after it where some text was shown.
pub open spec fn new_line(st: TextStateV, acc: Seq<char>) -> Seq<char> {
    if st.shown {
        acc.push('\n')
    } else {
        acc
    }
}

/// `st` once text has been shown.
pub open spec fn after_text(st: TextStateV) -> TextStateV {
    TextStateV { font: st.font, stack: st.stack, shown: true }
}

/// One instruction applied to the text state `st` and the text `acc` read so
/// far. `Tj` shows its bytes one for one; `TJ` reads its strings through the
/// font's CMap; each shows its text on a line of its own.
pub open spec fn text_step(
    i: InstructionV,
    st: TextStateV,
    fonts: Map<Seq<char>, Option<(bool, Map<usize, char>)>>,
    acc: Seq<char>,
) -> Result<(TextStateV, Seq<char>), TextError> {
    match i {
        InstructionV::LowerQ => Ok(
            (TextStateV { font: st.font, stack: st.stack.push(st.font), shown: st.shown }, acc),
        ),
        InstructionV::UpperQ => if st.stack.len() == 0 {
            Err(TextError::EmptyStack)
        } else {
            Ok((TextStateV { font: st.stack.last(), stack: st.stack.drop_last(), shown: st.shown }, acc))
        },
        InstructionV::Tf(name, _) => Ok(
            (TextStateV { font: Some(name), stack: st.stack, shown: st.shown }, acc),
        ),
        InstructionV::Tj(t) => match current_cmap(st, fonts) {
            Ok(_) => Ok((after_text(st), new_line(st, acc) + latin1(t))),
            Err(e) => Err(e),
        },
        InstructionV::TJ(items) => match current_cmap(st, fonts) {
            Ok(cm) => match tj_text(items, 0, cm, new_line(st, acc)) {
                Some(a) => Ok((after_text(st), a)),
                None => Err(TextError::UnknownCode),
            },
            Err(e) => Err(e),
        },
        _ => Ok((st, acc)),
    }
}

/// `acc` followed by the text of the content stream `s` read from position
/// `p` in the text state `st`.
pub open spec fn text_from(
    s: Seq<u8>,
    p: int,
    st: TextStateV,
    fonts: Map<Seq<char>, Option<(bool, Map<usize, char>)>>,
    acc: Seq<char>,
) -> Result<Seq<char>, TextError>
    decreases s.len() - p,
{
    match scan(s, p, seq![]) {
        Scanned::Instr(i, q) => if p < q <= s.len() {
            match text_step(i, st, fonts, acc) {
                Ok((st2, a2)) => text_from(s, q, st2, fonts, a2),
                Err(e) => Err(e),
            }
        } else {
            Ok(acc)
        },
        Scanned::End => Ok(acc),
        Scanned::BadOperands(_) => Err(TextError::Content(ContentError::Operands)),
        Scanned::BadToken(_) => Err(TextError::Content(ContentError::UnexpectedToken)),
    }
}

/// `Q` restores the text state that the `q` before it saved, and the text
/// is left as it was.
pub proof fn law_restore_undoes_save(
    st: TextStateV,
    fonts: Map<Seq<char>, Option<(bool, Map<usize, char>)>>,
    acc: Seq<char>,
)
    ensures
        text_step(InstructionV::LowerQ, st, fonts, acc) matches Ok((saved, a)) && a == acc
            && text_step(InstructionV::UpperQ, saved, fonts, acc) == Ok::<(TextStateV, Seq<char>), TextError>((st, acc)),
{
    let saved = TextStateV { font: st.font, stack: st.stack.push(st.font), shown: st.shown };
    assert(saved.stack.drop_last() =~= st.stack);
}

/// Text shown by `Tj` is its bytes, one character each, on a line of its
/// own: after a new line where text was shown before.
pub proof fn law_tj_shows_bytes(
    st: TextStateV,
    fonts: Map<Seq<char>, Option<(bool, Map<usize, char>)>>,
    acc: Seq<char>,
    t: Seq<u8>,
)
    requires
        st.font matches Some(f) && fonts.contains_key(f),
    ensures
        text_step(InstructionV::Tj(t), st, fonts, acc) == Ok::<(TextStateV, Seq<char>), TextError>(
            (
                TextStateV { font: st.font, stack: st.stack, shown: true },
                if st.shown {
                    acc + seq!['\n'] + latin1(t)
                } else {
                    acc + latin1(t)
                },
            ),
        ),
{
    assert(acc.push('\n') =~= acc + seq!['\n']);
}

/// The text read through a CMap extends the text before it.
proof fn lemma_cmap_text_extends(t: Seq<u8>, i: int, two: bool, m: Map<usize, char>, acc: Seq<char>)
    ensures
        cmap_text(t, i, two, m, acc) matches Some(a) ==> acc.len() <= a.len() && a.subrange(0, acc.len() as int)
            == acc,
    decreases t.len() - i,
{
    if 0 <= i < t.len() {
        if two {
            if i + 1 < t.len() {
                let k = (t[i] * 256 + t[i + 1]) as usize;
                if m.contains_key(k) {
                    lemma_cmap_text_extends(t, i + 2, two, m, acc.push(m[k]));
                    if let Some(a) = cmap_text(t, i, two, m, acc) {
                        assert(a.subrange(0, acc.len() as int) =~= a.subrange(0, acc.len() + 1 as int).subrange(0, acc.len() as int));
                        assert(acc.push(m[k]).subrange(0, acc.len() as int) =~= acc);
                    }
                }
            }
        } else {
            let k = t[i] as usize;
            if m.contains_key(k) {
                lemma_cmap_text_extends(t, i + 1, two, m, acc.push(m[k]));
                if let Some(a) = cmap_text(t, i, two, m, acc) {
                    assert(a.subrange(0, acc.len() as int) =~= a.subrange(0, acc.len() + 1 as int).subrange(0, acc.len() as int));
                    assert(acc.push(m[k]).subrange(0, acc.len() as int) =~= acc);
                }
            }
        }
    }
}

/// The text of `TJ` operands extends the text before it.
proof fn lemma_tj_text_extends(items: Seq<ArrayValV>, j: int, cm: Option<(bool, Map<usize, char>)>, acc: Seq<char>)
    ensures
        tj_text(items, j, cm, acc) matches Some(a) ==> acc.len() <= a.len() && a.subrange(0, acc.len() as int)
            == acc,
    decreases items.len() - j,
{
    if 0 <= j < items.len() {
        match items[j] {
            ArrayValV::Text(t) => match cm {
                Some((two, m)) => {
                    lemma_cmap_text_extends(t, 0, two, m, acc);
                    if let Some(a1) = cmap_text(t, 0, two, m, acc) {
                        lemma_tj_text_extends(items, j + 1, cm, a1);
                        if let Some(a) = tj_text(items, j, cm, acc) {
                            assert(a.subrange(0, acc.len() as int) =~= a.subrange(0, a1.len() as int).subrange(0, acc.len() as int));
                        }
                    }
                },
                None => {
                    let a1 = acc + latin1(t);
                    lemma_tj_text_extends(items, j + 1, cm, a1);
                    if let Some(a) = tj_text(items, j, cm, acc) {
                        assert(a.subrange(0, acc.len() as int) =~= a.subrange(0, a1.len() as int).subrange(0, acc.len() as int));
                        assert(a1.subrange(0, acc.len() as int) =~= acc);
                    }
                },
            },
            ArrayValV::Pos(_) => {
                lemma_tj_text_extends(items, j + 1, cm, acc);
            },
        }
    }
}

/// A CMap maps a two-byte code `h l` to the character it holds for
/// `256 h + l`, and a one-byte code `c` to the character it holds for `c`.
pub proof fn law_cmap_code_values(t: Seq<u8>, m: Map<usize, char>, acc: Seq<char>)
    ensures
        t.len() == 2 && m.contains_key((t[0] * 256 + t[1]) as usize) ==> cmap_text(t, 0, true, m, acc) == Some(
            acc.push(m[(t[0] * 256 + t[1]) as usize]),
        ),
        t.len() == 1 && m.contains_key(t[0] as usize) ==> cmap_text(t, 0, false, m, acc) == Some(
            acc.push(m[t[0] as usize]),
        ),
{
    if t.len() == 2 && m.contains_key((t[0] * 256 + t[1]) as usize) {
        let a = acc.push(m[(t[0] * 256 + t[1]) as usize]);
        assert(cmap_text(t, 2, true, m, a) == Some(a));
    }
    if t.len() == 1 && m.contains_key(t[0] as usize) {
        let a = acc.push(m[t[0] as usize]);
        assert(cmap_text(t, 1, false, m, a) == Some(a));
    }
}

/// The text of `TJ` operands is that of its first operands followed by that
/// of the rest; a string read without a CMap gives its bytes, one character
/// each.
pub proof fn law_tj_text_in_order(
    items1: Seq<ArrayValV>,
    items2: Seq<ArrayValV>,
    cm: Option<(bool, Map<usize, char>)>,
    acc: Seq<char>,
    t: Seq<u8>,
)
    ensures
        tj_text(items1 + items2, 0, cm, acc) == match tj_text(items1, 0, cm, acc) {
            Some(a) => tj_text(items2, 0, cm, a),
            None => None,
        },
        tj_text(seq![ArrayValV::Text(t)], 0, None, acc) == Some(acc + latin1(t)),
{
    lemma_tj_text_split(items1, items2, 0, cm, acc);
    let one = seq![ArrayValV::Text(t)];
    assert(tj_text(one, 1, None, acc + latin1(t)) == Some(acc + latin1(t)));
}

proof fn lemma_tj_text_split(
    items1: Seq<ArrayValV>,
    items2: Seq<ArrayValV>,
    j: int,
    cm: Option<(bool, Map<usize, char>)>,
    acc: Seq<char>,
)
    requires
        0 <= j <= items1.len(),
    ensures
        tj_text(items1 + items2, j, cm, acc) == match tj_text(items1, j, cm, acc) {
            Some(a) => tj_text(items2, 0, cm, a),
            None => None,
        },
    decreases items1.len() - j,
{
    let all = items1 + items2;
    if j == items1.len() {
        lemma_tj_text_shift(items1, items2, 0, cm, acc);
    } else {
        assert(all[j] == items1[j]);
        match items1[j] {
            ArrayValV::Text(t) => match cm {
                Some((two, m)) => {
                    if let Some(a1) = cmap_text(t, 0, two, m, acc) {
                        lemma_tj_text_split(items1, items2, j + 1, cm, a1);
                    }
                },
                None => {
                    lemma_tj_text_split(items1, items2, j + 1, cm, acc + latin1(t));
                },
            },
            ArrayValV::Pos(_) => {
                lemma_tj_text_split(items1, items2, j + 1, cm, acc);
            },
        }
    }
}

/// Reading the second part of joined operands from its start is reading
/// `items2` alone.
proof fn lemma_tj_text_shift(
    items1: Seq<ArrayValV>,
    items2: Seq<ArrayValV>,
    j: int,
    cm: Option<(bool, Map<usize, char>)>,
    acc: Seq<char>,
)
    requires
        0 <= j <= items2.len(),
    ensures
        tj_text(items1 + items2, items1.len() + j, cm, acc) == tj_text(items2, j, cm, acc),
    decreases items2.len() - j,
{
    let all = items1 + items2;
    if j < items2.len() {
        assert(all[items1.len() + j] == items2[j]);
        match items2[j] {
            ArrayValV::Text(t) => match cm {
                Some((two, m)) => {
                    if let Some(a1) = cmap_text(t, 0, two, m, acc) {
                        lemma_tj_text_shift(items1, items2, j + 1, cm, a1);
                    }
                },
                None => {
                    lemma_tj_text_shift(items1, items2, j + 1, cm, acc + latin1(t));
                },
            },
            ArrayValV::Pos(_) => {
                lemma_tj_text_shift(items1, items2, j + 1, cm, acc);
            },
        }
    }
}

/// The text of each `Tj` and `TJ` after another starts on a new line: after
/// a first text-showing instruction, the text of a second one is the text
/// so far, a line feed, then more.
pub proof fn law_texts_on_separate_lines(
    i1: InstructionV,
    i2: InstructionV,
    st: TextStateV,
    fonts: Map<Seq<char>, Option<(bool, Map<usize, char>)>>,
    acc: Seq<char>,
)
    requires
        i1 is Tj || i1 is TJ,
        i2 is Tj || i2 is TJ,
    ensures
        match text_step(i1, st, fonts, acc) {
            Ok((st1, a1)) => match text_step(i2, st1, fonts, a1) {
                Ok((_, a2)) => a1.len() < a2.len() && a2.subrange(0, a1.len() as int) == a1 && a2[a1.len() as int]
                    == '\n',
                Err(_) => true,
            },
            Err(_) => true,
        },
{
    match text_step(i1, st, fonts, acc) {
        Ok((st1, a1)) => {
            let nl = a1.push('\n');
            match i2 {
                InstructionV::Tj(t) => {
                    if let Ok((_, a2)) = text_step(i2, st1, fonts, a1) {
                        assert(a2 == nl + latin1(t));
                        assert(a2.subrange(0, a1.len() as int) =~= a1);
                        assert(a2[a1.len() as int] == nl[a1.len() as int]);
                    }
                },
                InstructionV::TJ(items) => {
                    if let Ok((_, a2)) = text_step(i2, st1, fonts, a1) {
                        match current_cmap(st1, fonts) {
                            Ok(cm) => {
                                lemma_tj_text_extends(items, 0, cm, nl);
                                assert(a2.subrange(0, a1.len() as int) =~= a2.subrange(0, nl.len() as int).subrange(0, a1.len() as int));
                                assert(nl.subrange(0, a1.len() as int) =~= a1);
                                assert(a2[a1.len() as int] == a2.subrange(0, nl.len() as int)[a1.len() as int]);
                            },
                            Err(_) => {},
                        }
                    }
                },
                _ => {},
            }
        },
        Err(_) => {},
    }
}

/// No font set and no state saved.
pub open spec fn initial_text_state() -> TextStateV {
    TextStateV { font: None, stack: seq![], shown: false }
}

/// Index of the last font named `name`.
fn find_font(fonts: &Vec<(String, Option<ToUnicodeCMap>)>, name: &String) -> (r: Option<usize>)
    ensures
        r matches Some(i) ==> i < fonts@.len() && fonts_view(fonts@).contains_key(name@) && fonts_view(
            fonts@,
        )[name@] == match fonts@[i as int].1 {
            Some(c) => Some(cmap_codes(c)),
            None => None,
        },
        r is None ==> !fonts_view(fonts@).contains_key(name@),
{
    let mut i = fonts.len();
    while i > 0
        invariant
            i <= fonts@.len(),
            forall|j: int| i <= j < fonts@.len() ==> #[trigger] fonts@[j].0@ != name@,
        decreases i,
    {
        if fonts[i - 1].0 == *name {
            proof {
                lemma_fonts_suffix(fonts@, i - 1, name@);
            }
            return Some(i - 1);
        }
        i = i - 1;
    }
    proof {
        lemma_fonts_suffix(fonts@, -1, name@);
    }
    None
}

/// What a name maps to is decided by its last entry.
proof fn lemma_fonts_suffix(fs: Seq<(String, Option<ToUnicodeCMap>)>, i: int, key: Seq<char>)
    requires
        -1 <= i < fs.len(),
        forall|j: int| i < j < fs.len() ==> #[trigger] fs[j].0@ != key,
    ensures
        i >= 0 && fs[i].0@ == key ==> fonts_view(fs).contains_key(key) && fonts_view(fs)[key]
            == match fs[i].1 {
            Some(c) => Some(cmap_codes(c)),
            None => None,
        },
        i == -1 ==> !fonts_view(fs).contains_key(key),
    decreases fs.len(),
{
    if fs.len() > 0 {
        let last = fs.len() - 1;
        if i < last {
            let pre = fs.drop_last();
            assert forall|j: int| i < j < pre.len() implies #[trigger] pre[j].0@ != key by {
                assert(pre[j] == fs[j]);
            }
            lemma_fonts_suffix(pre, i, key);
            if i >= 0 {
                assert(pre[i] == fs[i]);
            }
        }
    }
}

/// Appends the characters that `cm` gives for the codes of `t` (see
/// [`cmap_text`]); `false`, with `out` in an unspecified state, where a code
/// is not mapped.
fn push_cmap_text(t: &Vec<u8>, cm: &ToUnicodeCMap, out: &mut String) -> (r: bool)
    ensures
        r == cmap_text(t@, 0, cm.is_two_bytes, cm.cmap@, old(out)@) is Some,
        r ==> final(out)@ == cmap_text(t@, 0, cm.is_two_bytes, cm.cmap@, old(out)@).unwrap(),
{
    let ghost target = cmap_text(t@, 0, cm.is_two_bytes, cm.cmap@, out@);
    let mut i: usize = 0;
    while i < t.len()
        invariant
            i <= t@.len(),
            target == cmap_text(t@, 0, cm.is_two_bytes, cm.cmap@, old(out)@),
            cmap_text(t@, i as int, cm.is_two_bytes, cm.cmap@, out@) == target,
        decreases t@.len() - i,
    {
        let k: usize = if cm.is_two_bytes {
            if i + 1 >= t.len() {
                return false;
            }
            (t[i] as usize) * 256 + (t[i + 1] as usize)
        } else {
            t[i] as usize
        };
        match cm.cmap.get(&k) {
            Some(c) => {
                push_char(out, *c);
            },
            None => {
                return false;
            },
        }
        i = if cm.is_two_bytes {
            i + 2
        } else {
            i + 1
        };
    }
    true
}

/// Appends the bytes of `t`, one character each (ISO 8859-1).
fn push_latin1(t: &Vec<u8>, out: &mut String)
    ensures
        final(out)@ == old(out)@ + latin1(t@),
{
    let mut i: usize = 0;
    while i < t.len()
        invariant
            i <= t@.len(),
            out@ == old(out)@ + latin1(t@.subrange(0, i as int)),
        decreases t@.len() - i,
    {
        let ghost before = out@;
        push_char(out, t[i] as char);
        assert(latin1(t@.subrange(0, i + 1)) =~= latin1(t@.subrange(0, i as int)).push(t@[i as int] as char));
        assert(out@ =~= old(out)@ + latin1(t@.subrange(0, i + 1)));
        i = i + 1;
    }
    assert(t@.subrange(0, t@.len() as int) =~= t@);
}

/// Appends the text of the `TJ` operands `items` (see [`tj_text`]).
fn push_tj_text(items: &Vec<ArrayVal>, cm: Option<&ToUnicodeCMap>, out: &mut String) -> (r: bool)
    ensures
        ({
            let c = match cm {
                Some(c) => Some(cmap_codes(*c)),
                None => None,
            };
            &&& r == tj_text(array_vals_view(items@), 0, c, old(out)@) is Some
            &&& r ==> final(out)@ == tj_text(array_vals_view(items@), 0, c, old(out)@).unwrap()
        }),
{
    let ghost c = match cm {
        Some(c) => Some(cmap_codes(*c)),
        None => None,
    };
    let ghost v = array_vals_view(items@);
    let ghost target = tj_text(v, 0, c, out@);
    let mut j: usize = 0;
    while j < items.len()
        invariant
            j <= items@.len(),
            v == array_vals_view(items@),
            v.len() == items@.len(),
            c == match cm {
                Some(c) => Some(cmap_codes(*c)),
                None => None::<(bool, Map<usize, char>)>,
            },
            target == tj_text(v, 0, c, old(out)@),
            tj_text(v, j as int, c, out@) == target,
        decreases items@.len() - j,
    {
        assert(v[j as int] == items@[j as int]@);
        match &items[j] {
            ArrayVal::Text(t) => match cm {
                Some(m) => {
                    if !push_cmap_text(t, m, out) {
                        return false;
                    }
                },
                None => {
                    push_latin1(t, out);
                },
            },
            ArrayVal::Pos(_) => {},
        }
        j = j + 1;
    }
    true
}

/// The text of a content stream, shown with the fonts of its page.
pub struct TextContent<'a> {
    fonts: Vec<(String, Option<ToUnicodeCMap>)>,
    content: Content<'a>,
}

impl<'a> TextContent<'a> {
    /// The content stream being read.
    pub closed spec fn input(&self) -> Seq<u8> {
        self.content.input()
    }

    /// Position of the next byte to read.
    pub closed spec fn position(&self) -> int {
        self.content.position()
    }

    /// The fonts of the page by name.
    pub closed spec fn fonts(&self) -> Map<Seq<char>, Option<(bool, Map<usize, char>)>> {
        fonts_view(self.fonts@)
    }

    pub closed spec fn wf(&self) -> bool {
        self.content.wf()
    }

    /// Number of graphics states saved and not yet restored.
    pub closed spec fn saved_states(&self) -> nat {
        self.content.saved_states()
    }

    /// The text of `content_bytes`, shown with `fonts`: the fonts of the page
    /// by name, each with its ToUnicode CMap where it has one.
    pub fn new(content_bytes: &'a [u8], fonts: Vec<(String, Option<ToUnicodeCMap>)>) -> (r: TextContent<'a>)
        ensures
            r.wf(),
            r.input() == content_bytes@,
            r.position() == 0,
            r.saved_states() == 0,
            r.fonts() == fonts_view(fonts@),
    {
        TextContent { fonts, content: Content::from(content_bytes) }
    }

    /// The text that the rest of the content stream shows (see
    /// [`text_from`]): each `Tj` and `TJ` gives a line. The stream must show
    /// its text with fonts of the page and codes that their CMaps map, and
    /// must be readable to its end.
    pub fn get_text(&mut self) -> (r: String)
        requires
            old(self).wf(),
            old(self).saved_states() == 0,
            text_from(old(self).input(), old(self).position(), initial_text_state(), old(self).fonts(), seq![]) is Ok,
        ensures
            r@ == text_from(old(self).input(), old(self).position(), initial_text_state(), old(self).fonts(), seq![])->Ok_0,
    {
        match self.try_get_text() {
            Ok(t) => t,
            Err(_) => unreached(),
        }
    }

    /// The text that the rest of the content stream shows (see
    /// [`text_from`]), or why it cannot be read.
    pub fn try_get_text(&mut self) -> (r: Result<String, TextError>)
        requires
            old(self).wf(),
            old(self).saved_states() == 0,
        ensures
            match text_from(old(self).input(), old(self).position(), initial_text_state(), old(self).fonts(), seq![]) {
                Ok(t) => r is Ok && r.unwrap()@ == t,
                Err(e) => r == Err::<String, TextError>(e),
            },
    {
        let ghost s = self.input();
        let ghost fonts = self.fonts();
        let ghost target = text_from(s, self.position(), initial_text_state(), fonts, seq![]);
        let mut out = String::new();
        let mut font: Option<String> = None;
        let mut stack: Vec<Option<String>> = Vec::new();
        let mut shown = false;
        assert(stack@.map_values(|f: Option<String>| opt_text(f)) =~= seq![]);
        loop
            invariant
                self.wf(),
                self.input() == s,
                self.fonts() == fonts,
                fonts == fonts_view(self.fonts@),
                s == old(self).input(),
                stack@.len() == self.saved_states(),
                target == text_from(old(self).input(), old(self).position(), initial_text_state(), old(self).fonts(), seq![]),
                text_from(
                    s,
                    self.position(),
                    TextStateV {
                        font: opt_text(font),
                        stack: stack@.map_values(|f: Option<String>| opt_text(f)),
                        shown,
                    },
                    fonts,
                    out@,
                ) == target,
            decreases s.len() - self.position(),
        {
            let ghost p = self.position();
            let ghost st = TextStateV {
                font: opt_text(font),
                stack: stack@.map_values(|f: Option<String>| opt_text(f)),
                shown,
            };
            proof {
                lemma_scan_advances(s, p, seq![]);
            }
            let i = match self.content.try_next() {
                Ok(Some(i)) => i,
                Ok(None) => {
                    return Ok(out);
                },
                Err(ContentError::EmptyStack) => {
                    return Err(TextError::EmptyStack);
                },
                Err(e) => {
                    return Err(TextError::Content(e));
                },
            };
            match i {
                GraphicsInstruction::LowerQ => {
                    let saved = match &font {
                        Some(f) => Some(f.clone()),
                        None => None,
                    };
                    stack.push(saved);
                    assert(stack@.map_values(|f: Option<String>| opt_text(f)) =~= st.stack.push(st.font));
                },
                GraphicsInstruction::UpperQ => {
                    match stack.pop() {
                        Some(f) => {
                            font = f;
                            assert(stack@.map_values(|f: Option<String>| opt_text(f)) =~= st.stack.drop_last());
                        },
                        None => {
                            return Err(TextError::EmptyStack);
                        },
                    }
                },
                GraphicsInstruction::Tf(name, _) => {
                    font = Some(name);
                },
                GraphicsInstruction::Tj(t) => {
                    match &font {
                        None => {
                            return Err(TextError::NoFont);
                        },
                        Some(f) => {
                            if find_font(&self.fonts, f).is_none() {
                                return Err(TextError::UnknownFont);
                            }
                        },
                    }
                    if shown {
                        push_char(&mut out, '\n');
                    }
                    push_latin1(&t, &mut out);
                    shown = true;
                },
                GraphicsInstruction::TJ(items) => {
                    let idx = match &font {
                        None => {
                            return Err(TextError::NoFont);
                        },
                        Some(f) => match find_font(&self.fonts, f) {
                            Some(idx) => idx,
                            None => {
                                return Err(TextError::UnknownFont);
                            },
                        },
                    };
                    let cm = match &self.fonts[idx].1 {
                        Some(c) => Some(c),
                        None => None,
                    };
                    if shown {
                        push_char(&mut out, '\n');
                    }
                    if !push_tj_text(&items, cm, &mut out) {
                        return Err(TextError::UnknownCode);
                    }
                    shown = true;
                },
                _ => {},
            }
        }
    }
}

pub open spec fn opt_text(f: Option<String>) -> Option<Seq<char>> {
    match f {
        Some(s) => Some(s@),
        None => None,
    }
}

} // verus!
