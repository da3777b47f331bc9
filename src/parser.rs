//! Decoding of the token stream into a [`Program`], with labels resolved to
//! program counters in a fix-up pass once the input is exhausted.
use crate::label_map::LabelMap;
use crate::parse_error::{ErrorKind, InstType, ParseError};
use crate::program::{interned, unique, Instruction, Program};
use crate::token::{newline_count, tokens_of, Token, Tokens};
use vstd::prelude::*;
use vstd::string::StringSliceAdditionalSpecFns;

verus! {

/// A dummy jump target that will be resolved later
pub const UNINITIALIZED_JUMP_TARGET: usize = 0;

/// The line counter of the tokenizer once the parser has consumed `p` tokens
/// and holds the next one (if any) as its lookahead: errors report this line.
pub open spec fn err_line(ts: Seq<Token>, p: int) -> usize {
    let fetched = if p + 1 < ts.len() {
        p + 1
    } else {
        ts.len() as int
    };
    (1 + newline_count(ts.take(fetched))) as usize
}

/// The line on which token `p` stands.
pub open spec fn tok_line(ts: Seq<Token>, p: int) -> usize {
    (1 + newline_count(ts.take(p))) as usize
}

pub open spec fn perr<T>(kind: ErrorKind, line_no: usize) -> Result<T, ParseError> {
    Err(ParseError { line_no, kind })
}

/// Reads bits (`Space` = 0, `Tab` = 1), most significant first, from
/// position `p` up to a terminating `Newline`; `acc` holds the bits read so
/// far. Shifting a value above `max / 2` is the error `overflow`. Gives the
/// value and the position after the terminator.
pub open spec fn read_bits(ts: Seq<Token>, p: int, acc: int, max: int, overflow: ErrorKind) -> Result<
    (int, int),
    ParseError,
>
    decreases ts.len() - p,
{
    if p < 0 || p >= ts.len() {
        perr(ErrorKind::UnexpectedEof, err_line(ts, ts.len() as int))
    } else if ts[p] == Token::Newline {
        Ok((acc, p + 1))
    } else if acc * 2 > max {
        perr(overflow, err_line(ts, p + 1))
    } else {
        read_bits(ts, p + 1, acc * 2 + if ts[p] == Token::Tab { 1int } else { 0int }, max, overflow)
    }
}

/// A number literal at `p`: a sign (`Space` = non-negative, `Tab` =
/// negative), then bits up to a `Newline`. A `Newline` in place of the sign
/// is an invalid literal; input that ends there is an unexpected end.
pub open spec fn read_number(ts: Seq<Token>, p: int) -> Result<(int, int), ParseError> {
    if p < 0 || p >= ts.len() {
        perr(ErrorKind::UnexpectedEof, err_line(ts, ts.len() as int))
    } else if ts[p] != Token::Newline {
        match read_bits(ts, p + 1, 0, i64::MAX as int, ErrorKind::LiteralOverflow) {
            Ok((v, q)) => Ok((if ts[p] == Token::Tab { -v } else { v }, q)),
            Err(e) => Err(e),
        }
    } else {
        perr(ErrorKind::InvalidLiteral, err_line(ts, p))
    }
}

/// A label at `p`: unsigned bits up to a `Newline`.
pub open spec fn read_label(ts: Seq<Token>, p: int) -> Result<(int, int), ParseError> {
    read_bits(ts, p, 0, usize::MAX as int, ErrorKind::TooManyLabels)
}

/// One decoded source instruction, before constants are interned and labels
/// resolved.
#[derive(Copy, Clone, Debug, PartialEq, Eq, Structural)]
pub enum Decoded {
    /// An instruction taken as it is.
    Emit(Instruction),
    /// A push of this literal value.
    PushValue(i64),
    /// A jump or call (with a placeholder target) to this label.
    Refer(Instruction, usize),
    /// A declaration of this label at the current instruction count.
    Mark(usize),
}

/// Two tokens read at once, at `q`; `None` if the input ends first.
pub open spec fn two_at(ts: Seq<Token>, q: int) -> Option<(Token, Token)> {
    if 0 <= q && q + 1 < ts.len() {
        Some((ts[q], ts[q + 1]))
    } else {
        None
    }
}

/// The error for a missing pair of tokens at `q`.
pub open spec fn eof_pair<T>(ts: Seq<Token>) -> Result<T, ParseError> {
    perr(ErrorKind::UnexpectedEof, err_line(ts, ts.len() as int))
}

/// An instruction with an operand read as a number literal at `q`.
pub open spec fn with_number(ts: Seq<Token>, q: int, copy: bool) -> Result<(Decoded, int), ParseError> {
    match read_number(ts, q) {
        Ok((v, r)) => Ok(
            (
                Decoded::Emit(
                    if copy {
                        Instruction::Copy(v as i64)
                    } else {
                        Instruction::Slide(v as i64)
                    },
                ),
                r,
            ),
        ),
        Err(e) => Err(e),
    }
}

/// The stack-manipulation family, after its prefix `Space`.
pub open spec fn decode_stack(ts: Seq<Token>, q: int) -> Result<(Decoded, int), ParseError> {
    if 0 <= q < ts.len() && ts[q] == Token::Space {
        match read_number(ts, q + 1) {
            Ok((v, r)) => Ok((Decoded::PushValue(v as i64), r)),
            Err(e) => Err(e),
        }
    } else {
        match two_at(ts, q) {
            None => eof_pair(ts),
            Some((Token::Tab, Token::Space)) => with_number(ts, q + 2, true),
            Some((Token::Tab, Token::Newline)) => with_number(ts, q + 2, false),
            Some((Token::Newline, Token::Space)) => Ok((Decoded::Emit(Instruction::Dup), q + 2)),
            Some((Token::Newline, Token::Tab)) => Ok((Decoded::Emit(Instruction::Swap), q + 2)),
            Some((Token::Newline, Token::Newline)) => Ok((Decoded::Emit(Instruction::Pop), q + 2)),
            _ => perr(ErrorKind::InvalidInstruction(InstType::Stack), err_line(ts, q + 2)),
        }
    }
}

/// The arithmetic family, after its prefix `Tab Space`.
pub open spec fn decode_arith(ts: Seq<Token>, q: int) -> Result<(Decoded, int), ParseError> {
    match two_at(ts, q) {
        None => eof_pair(ts),
        Some((Token::Space, Token::Space)) => Ok((Decoded::Emit(Instruction::Add), q + 2)),
        Some((Token::Space, Token::Tab)) => Ok((Decoded::Emit(Instruction::Subtract), q + 2)),
        Some((Token::Space, Token::Newline)) => Ok((Decoded::Emit(Instruction::Multiply), q + 2)),
        Some((Token::Tab, Token::Space)) => Ok((Decoded::Emit(Instruction::Divide), q + 2)),
        Some((Token::Tab, Token::Tab)) => Ok((Decoded::Emit(Instruction::Modulo), q + 2)),
        _ => perr(ErrorKind::InvalidInstruction(InstType::Arithmetic), err_line(ts, q + 2)),
    }
}

/// The heap family, after its prefix `Tab Tab`.
pub open spec fn decode_heap(ts: Seq<Token>, q: int) -> Result<(Decoded, int), ParseError> {
    if 0 <= q < ts.len() && ts[q] == Token::Space {
        Ok((Decoded::Emit(Instruction::Store), q + 1))
    } else if 0 <= q < ts.len() && ts[q] == Token::Tab {
        Ok((Decoded::Emit(Instruction::Retrieve), q + 1))
    } else {
        perr(ErrorKind::InvalidInstruction(InstType::Heap), err_line(ts, q))
    }
}

/// The I/O family, after its prefix `Tab Newline`.
pub open spec fn decode_io(ts: Seq<Token>, q: int) -> Result<(Decoded, int), ParseError> {
    match two_at(ts, q) {
        None => eof_pair(ts),
        Some((Token::Space, Token::Space)) => Ok((Decoded::Emit(Instruction::OutputChar), q + 2)),
        Some((Token::Space, Token::Tab)) => Ok((Decoded::Emit(Instruction::OutputNum), q + 2)),
        Some((Token::Tab, Token::Space)) => Ok((Decoded::Emit(Instruction::ReadChar), q + 2)),
        Some((Token::Tab, Token::Tab)) => Ok((Decoded::Emit(Instruction::ReadNum), q + 2)),
        _ => perr(ErrorKind::InvalidInstruction(InstType::Io), err_line(ts, q + 2)),
    }
}

/// An item that carries a label read at `q`.
pub open spec fn with_label(ts: Seq<Token>, q: int, inst: Option<Instruction>) -> Result<
    (Decoded, int),
    ParseError,
> {
    match read_label(ts, q) {
        Ok((l, r)) => Ok(
            (
                match inst {
                    Some(i) => Decoded::Refer(i, l as usize),
                    None => Decoded::Mark(l as usize),
                },
                r,
            ),
        ),
        Err(e) => Err(e),
    }
}

/// The control-flow family, after its prefix `Newline`.
pub open spec fn decode_flow(ts: Seq<Token>, q: int) -> Result<(Decoded, int), ParseError> {
    let t = UNINITIALIZED_JUMP_TARGET;
    match two_at(ts, q) {
        None => eof_pair(ts),
        Some((Token::Space, Token::Space)) => with_label(ts, q + 2, None),
        Some((Token::Space, Token::Tab)) => with_label(ts, q + 2, Some(Instruction::Call(t))),
        Some((Token::Space, Token::Newline)) => with_label(ts, q + 2, Some(Instruction::Jump(t))),
        Some((Token::Tab, Token::Space)) => with_label(ts, q + 2, Some(Instruction::JumpIfZero(t))),
        Some((Token::Tab, Token::Tab)) => with_label(ts, q + 2, Some(Instruction::JumpIfNeg(t))),
        Some((Token::Tab, Token::Newline)) => Ok((Decoded::Emit(Instruction::Return), q + 2)),
        Some((Token::Newline, Token::Newline)) => Ok((Decoded::Emit(Instruction::End), q + 2)),
        _ => perr(ErrorKind::InvalidInstruction(InstType::ControlFlow), err_line(ts, q + 2)),
    }
}

/// The instruction whose first token is at `p`, and the position after it.
pub open spec fn decode_one(ts: Seq<Token>, p: int) -> Result<(Decoded, int), ParseError> {
    if ts[p] == Token::Space {
        decode_stack(ts, p + 1)
    } else if ts[p] == Token::Tab {
        if p + 1 < ts.len() {
            if ts[p + 1] == Token::Space {
                decode_arith(ts, p + 2)
            } else if ts[p + 1] == Token::Tab {
                decode_heap(ts, p + 2)
            } else {
                decode_io(ts, p + 2)
            }
        } else {
            perr(ErrorKind::InvalidInstruction(InstType::Unknown), err_line(ts, p + 1))
        }
    } else {
        decode_flow(ts, p + 1)
    }
}

/// What the parser has built so far.
pub struct ParseModel {
    pub insts: Seq<Instruction>,
    pub lines: Seq<usize>,
    pub consts: Seq<i64>,
    /// Call targets and the label each came from.
    pub subs: Map<usize, usize>,
    /// Declared labels and their program counters.
    pub marks: Map<usize, usize>,
    /// Unresolved references: (instruction index, label).
    pub refs: Seq<(usize, usize)>,
}

pub open spec fn empty_model() -> ParseModel {
    ParseModel {
        insts: Seq::empty(),
        lines: Seq::empty(),
        consts: Seq::empty(),
        subs: Map::empty(),
        marks: Map::empty(),
        refs: Seq::empty(),
    }
}

/// The index at which `v` stands in `s`.
pub open spec fn index_in(s: Seq<i64>, v: i64) -> usize {
    (choose|i: int| 0 <= i < s.len() && s[i] == v) as usize
}

/// The model after one decoded item whose first token is on `line`.
pub open spec fn apply(st: ParseModel, d: Decoded, line: usize) -> ParseModel {
    match d {
        Decoded::Emit(i) => ParseModel { insts: st.insts.push(i), lines: st.lines.push(line), ..st },
        Decoded::PushValue(v) => {
            let c = interned(st.consts, v);
            ParseModel {
                insts: st.insts.push(Instruction::Push(index_in(c, v))),
                lines: st.lines.push(line),
                consts: c,
                ..st
            }
        },
        Decoded::Refer(i, l) => ParseModel {
            insts: st.insts.push(i),
            lines: st.lines.push(line),
            refs: st.refs.push((st.insts.len() as usize, l)),
            ..st
        },
        Decoded::Mark(l) => ParseModel { marks: st.marks.insert(l, st.insts.len() as usize), ..st },
    }
}

/// Decodes the instructions from position `p` to the end of the input onto `st`.
pub open spec fn decode_from(ts: Seq<Token>, p: int, st: ParseModel) -> Result<ParseModel, ParseError>
    decreases ts.len() - p,
{
    if p < 0 || p >= ts.len() {
        Ok(st)
    } else {
        match decode_one(ts, p) {
            Err(e) => Err(e),
            Ok((d, q)) => if p < q <= ts.len() {
                decode_from(ts, q, apply(st, d, tok_line(ts, p)))
            } else {
                Ok(st)
            },
        }
    }
}

/// A jump or call instruction with its target replaced by `pc`.
pub open spec fn retarget(i: Instruction, pc: usize) -> Instruction {
    match i {
        Instruction::Call(_) => Instruction::Call(pc),
        Instruction::Jump(_) => Instruction::Jump(pc),
        Instruction::JumpIfZero(_) => Instruction::JumpIfZero(pc),
        Instruction::JumpIfNeg(_) => Instruction::JumpIfNeg(pc),
        _ => i,
    }
}

/// Resolves the references `st.refs[k..]` in order: the first whose label
/// was never declared fails with `InvalidLabel` on the line of the
/// referencing instruction; a resolved call also records its label.
pub open spec fn patch_from(st: ParseModel, k: int) -> Result<ParseModel, ParseError>
    decreases st.refs.len() - k,
{
    if k < 0 || k >= st.refs.len() {
        Ok(st)
    } else {
        let (i, l) = st.refs[k];
        if !st.marks.contains_key(l) {
            perr(ErrorKind::InvalidLabel, st.lines[i as int])
        } else {
            let pc = st.marks[l];
            let subs = if st.insts[i as int] matches Instruction::Call(_) {
                st.subs.insert(pc, l)
            } else {
                st.subs
            };
            patch_from(
                ParseModel { insts: st.insts.update(i as int, retarget(st.insts[i as int], pc)), subs, ..st },
                k + 1,
            )
        }
    }
}

/// The result of parsing the token sequence `ts`.
pub open spec fn parse_tokens(ts: Seq<Token>) -> Result<ParseModel, ParseError> {
    match decode_from(ts, 0, empty_model()) {
        Err(e) => Err(e),
        Ok(st) => patch_from(st, 0),
    }
}

/// The model is internally consistent: one line per instruction, a pool
/// without duplicates, every `Push` within the pool, and references at
/// strictly increasing indices of jump or call instructions.
pub open spec fn model_ok(st: ParseModel) -> bool {
    &&& st.insts.len() == st.lines.len()
    &&& unique(st.consts)
    &&& forall|i: int|
        0 <= i < st.insts.len() ==> (#[trigger] st.insts[i] matches Instruction::Push(k) ==> k
            < st.consts.len())
    &&& forall|k: int| 0 <= k < st.refs.len() ==> (#[trigger] st.refs[k]).0 < st.insts.len()
    &&& forall|k: int| 0 <= k < st.refs.len() ==> is_jump(st.insts[(#[trigger] st.refs[k]).0 as int])
    &&& forall|a: int, b: int|
        0 <= a < b < st.refs.len() ==> (#[trigger] st.refs[a]).0 < (#[trigger] st.refs[b]).0
}

/// A call or one of the jumps.
pub open spec fn is_jump(i: Instruction) -> bool {
    i matches Instruction::Call(_) || i matches Instruction::Jump(_) || i matches Instruction::JumpIfZero(_)
        || i matches Instruction::JumpIfNeg(_)
}

/// Consistency does not depend on the declared labels, and survives a pool
/// that grew without duplicates.
pub proof fn lemma_model_ok_frame(m0: ParseModel, m: ParseModel)
    requires
        model_ok(m0),
        m.insts == m0.insts,
        m.lines == m0.lines,
        m.refs == m0.refs,
        unique(m.consts),
        m.consts.len() >= m0.consts.len(),
    ensures
        model_ok(m),
{
    assert forall|i: int|
        0 <= i < m.insts.len() implies (#[trigger] m.insts[i] matches Instruction::Push(k) ==> k
        < m.consts.len()) by {
        assert(m.insts[i] == m0.insts[i]);
    }
    assert forall|k: int| 0 <= k < m.refs.len() implies is_jump(
        m.insts[(#[trigger] m.refs[k]).0 as int],
    ) by {
        assert(m.refs[k] == m0.refs[k]);
    }
    assert forall|k: int| 0 <= k < m.refs.len() implies (#[trigger] m.refs[k]).0 < m.insts.len() by {
        assert(m.refs[k] == m0.refs[k]);
    }
    assert forall|a: int, b: int|
        0 <= a < b < m.refs.len() implies (#[trigger] m.refs[a]).0 < (#[trigger] m.refs[b]).0 by {
        assert(m.refs[a] == m0.refs[a]);
        assert(m.refs[b] == m0.refs[b]);
    }
}

/// Consistency survives replacing a jump by another jump.
pub proof fn lemma_model_ok_patch(m0: ParseModel, i: int, inst: Instruction, subs: Map<usize, usize>)
    requires
        model_ok(m0),
        0 <= i < m0.insts.len(),
        is_jump(m0.insts[i]),
        is_jump(inst),
    ensures
        model_ok(ParseModel { insts: m0.insts.update(i, inst), subs, ..m0 }),
{
    let m = ParseModel { insts: m0.insts.update(i, inst), subs, ..m0 };
    assert forall|j: int|
        0 <= j < m.insts.len() implies (#[trigger] m.insts[j] matches Instruction::Push(k) ==> k
        < m.consts.len()) by {
        if j != i {
            assert(m.insts[j] == m0.insts[j]);
        }
    }
    assert forall|k: int| 0 <= k < m.refs.len() implies is_jump(
        m.insts[(#[trigger] m.refs[k]).0 as int],
    ) by {
        if m.refs[k].0 != i {
            assert(m.insts[m.refs[k].0 as int] == m0.insts[m0.refs[k].0 as int]);
        }
    }
}

/// With no value twice in `s`, the index of `v` is the one where it stands.
pub proof fn lemma_index_in(s: Seq<i64>, v: i64, k: usize)
    requires
        unique(s),
        k < s.len(),
        s[k as int] == v,
    ensures
        index_in(s, v) == k,
{
    assert(0 <= k < s.len() && s[k as int] == v);
    let i = choose|i: int| 0 <= i < s.len() && s[i] == v;
    assert(i == k);
}

/// An item decoded from the input that refers to a label is a jump or a
/// call, and pushes are only ever decoded as literal values.
proof fn lemma_decode_one_shape(ts: Seq<Token>, p: int)
    requires
        0 <= p < ts.len(),
    ensures
        decode_one(ts, p) matches Ok((Decoded::Refer(i, _), _)) ==> is_jump(i),
        !(decode_one(ts, p) matches Ok((Decoded::Emit(Instruction::Push(_)), _))),
{
}

/// Consistency survives one decoded item.
proof fn lemma_apply_ok(st: ParseModel, d: Decoded, line: usize)
    requires
        model_ok(st),
        st.insts.len() < usize::MAX,
        st.consts.len() < usize::MAX,
        d matches Decoded::Refer(i, _) ==> is_jump(i),
        !(d matches Decoded::Emit(Instruction::Push(_))),
    ensures
        model_ok(apply(st, d, line)),
        apply(st, d, line).insts.len() <= st.insts.len() + 1,
        apply(st, d, line).consts.len() <= st.consts.len() + 1,
{
    let m = apply(st, d, line);
    if let Decoded::PushValue(v) = d {
        let c = interned(st.consts, v);
        if !st.consts.contains(v) {
            assert(c[c.len() - 1] == v);
        }
        assert(c.contains(v));
        let k = choose|i: int| 0 <= i < c.len() && c[i] == v;
        assert(0 <= k < c.len());
        assert(index_in(c, v) < c.len());
        assert(m.insts.last() == Instruction::Push(index_in(c, v)));
    }
    assert forall|j: int|
        0 <= j < m.insts.len() implies (#[trigger] m.insts[j] matches Instruction::Push(k) ==> k
        < m.consts.len()) by {
        if j < st.insts.len() {
            assert(m.insts[j] == st.insts[j]);
        }
    }
    assert forall|k: int| 0 <= k < m.refs.len() implies is_jump(
        m.insts[(#[trigger] m.refs[k]).0 as int],
    ) && m.refs[k].0 < m.insts.len() by {
        if k < st.refs.len() {
            assert(m.refs[k] == st.refs[k]);
            assert(m.insts[m.refs[k].0 as int] == st.insts[st.refs[k].0 as int]);
        }
    }
    assert forall|a: int, b: int|
        0 <= a < b < m.refs.len() implies (#[trigger] m.refs[a]).0 < (#[trigger] m.refs[b]).0 by {
        assert(m.refs[a] == st.refs[a]);
        if b < st.refs.len() {
            assert(m.refs[b] == st.refs[b]);
        }
    }
}

/// Decoding keeps the model consistent.
proof fn lemma_decode_ok(ts: Seq<Token>, p: int, st: ParseModel)
    requires
        model_ok(st),
        0 <= p,
        st.insts.len() <= p,
        st.consts.len() <= p,
        ts.len() < usize::MAX,
    ensures
        decode_from(ts, p, st) matches Ok(m) ==> model_ok(m),
    decreases ts.len() - p,
{
    if p < ts.len() {
        lemma_decode_one_shape(ts, p);
        if let Ok((d, q)) = decode_one(ts, p) {
            if p < q <= ts.len() {
                lemma_apply_ok(st, d, tok_line(ts, p));
                lemma_decode_ok(ts, q, apply(st, d, tok_line(ts, p)));
            }
        }
    }
}

/// What resolving the references `st.refs[k..]` does: each is resolved to
/// the program counter of its label, instructions before the first of them
/// are untouched, and an undeclared label fails on the line of a referencing
/// instruction.
proof fn lemma_patch(st: ParseModel, k: int)
    requires
        model_ok(st),
        0 <= k <= st.refs.len(),
    ensures
        match patch_from(st, k) {
            Ok(m) => {
                &&& model_ok(m)
                &&& m.consts == st.consts
                &&& m.lines == st.lines
                &&& m.insts.len() == st.insts.len()
                &&& forall|j: int|
                    k <= j < st.refs.len() ==> st.marks.contains_key((#[trigger] st.refs[j]).1)
                        && m.insts[st.refs[j].0 as int] == retarget(
                        st.insts[st.refs[j].0 as int],
                        st.marks[st.refs[j].1],
                    )
                &&& forall|i: int|
                    0 <= i < st.insts.len() && (k == st.refs.len() || i < st.refs[k].0)
                        ==> #[trigger] m.insts[i] == st.insts[i]
                &&& forall|i: int|
                    0 <= i < st.insts.len() && !is_jump(st.insts[i]) ==> #[trigger] m.insts[i]
                        == st.insts[i]
            },
            Err(e) => {
                &&& e.kind == ErrorKind::InvalidLabel
                &&& exists|j: int|
                    k <= j < st.refs.len() && !st.marks.contains_key((#[trigger] st.refs[j]).1)
                        && e.line_no == st.lines[st.refs[j].0 as int]
            },
        },
    decreases st.refs.len() - k,
{
    if k < st.refs.len() {
        let (i, l) = st.refs[k];
        if st.marks.contains_key(l) {
            let pc = st.marks[l];
            let subs = if st.insts[i as int] matches Instruction::Call(_) {
                st.subs.insert(pc, l)
            } else {
                st.subs
            };
            let inst = retarget(st.insts[i as int], pc);
            let st2 = ParseModel { insts: st.insts.update(i as int, inst), subs, ..st };
            lemma_model_ok_patch(st, i as int, inst, subs);
            lemma_patch(st2, k + 1);
            if let Ok(m) = patch_from(st2, k + 1) {
                assert forall|j: int|
                    k <= j < st.refs.len() implies st.marks.contains_key((#[trigger] st.refs[j]).1)
                    && m.insts[st.refs[j].0 as int] == retarget(
                    st.insts[st.refs[j].0 as int],
                    st.marks[st.refs[j].1],
                ) by {
                    if j > k {
                        assert(st2.refs[j] == st.refs[j]);
                        assert(st.refs[k].0 < st.refs[j].0);
                    } else {
                        assert(k + 1 == st.refs.len() || st.refs[k].0 < st.refs[k + 1].0);
                    }
                }
                assert forall|i2: int|
                    0 <= i2 < st.insts.len() && (k == st.refs.len() || i2 < st.refs[k].0)
                    implies #[trigger] m.insts[i2] == st.insts[i2] by {
                    assert(k + 1 == st.refs.len() || st.refs[k].0 < st.refs[k + 1].0);
                }
                assert forall|i2: int|
                    0 <= i2 < st.insts.len() && !is_jump(st.insts[i2]) implies #[trigger] m.insts[i2]
                    == st.insts[i2] by {
                    assert(st2.insts[i2] == st.insts[i2]);
                }
            }
        }
    }
}

/// Labels are resolved ahead of time: in a program that parses, every jump
/// or call has as target the program counter recorded where its label was
/// declared; a reference to a label that is never declared makes parsing
/// fail with `InvalidLabel` on the line of the referencing instruction.
pub proof fn lemma_labels_resolved(ts: Seq<Token>)
    requires
        ts.len() < usize::MAX,
    ensures
        decode_from(ts, 0, empty_model()) matches Ok(st) ==> match parse_tokens(ts) {
            Ok(m) => forall|k: int|
                0 <= k < st.refs.len() ==> st.marks.contains_key((#[trigger] st.refs[k]).1)
                    && m.insts[st.refs[k].0 as int] == retarget(
                    st.insts[st.refs[k].0 as int],
                    st.marks[st.refs[k].1],
                ),
            Err(e) => {
                &&& e.kind == ErrorKind::InvalidLabel
                &&& exists|k: int|
                    0 <= k < st.refs.len() && !st.marks.contains_key((#[trigger] st.refs[k]).1)
                        && e.line_no == st.lines[st.refs[k].0 as int]
            },
        },
{
    lemma_decode_ok(ts, 0, empty_model());
    if let Ok(st) = decode_from(ts, 0, empty_model()) {
        lemma_patch(st, 0);
    }
}

/// A parsed program's constant pool holds no value twice, and every `Push`
/// reads an entry of it.
pub proof fn lemma_constant_pool(ts: Seq<Token>)
    requires
        ts.len() < usize::MAX,
    ensures
        parse_tokens(ts) matches Ok(m) ==> {
            &&& unique(m.consts)
            &&& forall|i: int|
                0 <= i < m.insts.len() ==> (#[trigger] m.insts[i] matches Instruction::Push(k) ==> k
                    < m.consts.len())
        },
{
    lemma_decode_ok(ts, 0, empty_model());
    if let Ok(st) = decode_from(ts, 0, empty_model()) {
        lemma_patch(st, 0);
    }
}

/// Folds decoded items, each with its line, onto a model in order.
pub open spec fn apply_all(st: ParseModel, ds: Seq<(Decoded, usize)>) -> ParseModel
    decreases ds.len(),
{
    if ds.len() == 0 {
        st
    } else {
        apply(apply_all(st, ds.drop_last()), ds.last().0, ds.last().1)
    }
}

/// When a label is declared more than once, the last declaration wins: the
/// label's program counter is the instruction count at that declaration.
pub proof fn lemma_last_declaration_wins(st: ParseModel, ds: Seq<(Decoded, usize)>, l: usize, j: int)
    requires
        0 <= j < ds.len(),
        ds[j].0 == Decoded::Mark(l),
        forall|k: int| j < k < ds.len() ==> (#[trigger] ds[k]).0 != Decoded::Mark(l),
    ensures
        apply_all(st, ds).marks.contains_key(l),
        apply_all(st, ds).marks[l] == apply_all(st, ds.take(j)).insts.len() as usize,
    decreases ds.len(),
{
    let prev = ds.drop_last();
    if j == ds.len() - 1 {
        assert(prev == ds.take(j));
    } else {
        assert forall|k: int| j < k < prev.len() implies (#[trigger] prev[k]).0 != Decoded::Mark(l) by {
            assert(prev[k] == ds[k]);
        }
        lemma_last_declaration_wins(st, prev, l, j);
        assert(prev.take(j) == ds.take(j));
        assert(ds.last().0 != Decoded::Mark(l));
    }
}

/// The items decoded from position `p` to the end of the input, each with
/// the line of its first token.
pub open spec fn decoded_items(ts: Seq<Token>, p: int) -> Result<Seq<(Decoded, usize)>, ParseError>
    decreases ts.len() - p,
{
    if p < 0 || p >= ts.len() {
        Ok(Seq::empty())
    } else {
        match decode_one(ts, p) {
            Err(e) => Err(e),
            Ok((d, q)) => if p < q <= ts.len() {
                match decoded_items(ts, q) {
                    Ok(ds) => Ok(seq![(d, tok_line(ts, p))] + ds),
                    Err(e) => Err(e),
                }
            } else {
                Ok(Seq::empty())
            },
        }
    }
}

/// Folding an item and then a sequence is folding the longer sequence.
proof fn lemma_apply_all_cons(st: ParseModel, x: (Decoded, usize), ds: Seq<(Decoded, usize)>)
    ensures
        apply_all(apply(st, x.0, x.1), ds) == apply_all(st, seq![x] + ds),
    decreases ds.len(),
{
    let c = seq![x] + ds;
    if ds.len() == 0 {
        assert(c.drop_last() =~= Seq::<(Decoded, usize)>::empty());
        assert(c.last() == x);
        assert(apply_all(st, c.drop_last()) == st);
        assert(apply_all(st, c) == apply(st, x.0, x.1));
    } else {
        lemma_apply_all_cons(st, x, ds.drop_last());
        assert(c.drop_last() =~= seq![x] + ds.drop_last());
        assert(c.last() == ds.last());
        assert(apply_all(st, c) == apply(apply_all(st, c.drop_last()), c.last().0, c.last().1));
    }
}

/// Decoding onto a model is folding the decoded items onto it.
pub proof fn lemma_decode_is_fold(ts: Seq<Token>, p: int, st: ParseModel)
    ensures
        decode_from(ts, p, st) == match decoded_items(ts, p) {
            Ok(ds) => Ok(apply_all(st, ds)),
            Err(e) => Err::<ParseModel, ParseError>(e),
        },
    decreases ts.len() - p,
{
    if 0 <= p < ts.len() {
        if let Ok((d, q)) = decode_one(ts, p) {
            if p < q <= ts.len() {
                let x = (d, tok_line(ts, p));
                lemma_decode_is_fold(ts, q, apply(st, d, tok_line(ts, p)));
                if let Ok(ds) = decoded_items(ts, q) {
                    lemma_apply_all_cons(st, x, ds);
                }
            }
        }
    }
}

/// A label declared more than once: in a program that parses, every jump or
/// call to it goes to the program counter of its last declaration, the
/// number of instructions emitted before that declaration.
pub proof fn lemma_last_declaration_resolves(ts: Seq<Token>, ds: Seq<(Decoded, usize)>, l: usize, j: int)
    requires
        ts.len() < usize::MAX,
        decoded_items(ts, 0) == Ok::<Seq<(Decoded, usize)>, ParseError>(ds),
        0 <= j < ds.len(),
        ds[j].0 == Decoded::Mark(l),
        forall|k: int| j < k < ds.len() ==> (#[trigger] ds[k]).0 != Decoded::Mark(l),
    ensures
        parse_tokens(ts) matches Ok(m) ==> {
            let st = apply_all(empty_model(), ds);
            forall|k: int|
                0 <= k < st.refs.len() && (#[trigger] st.refs[k]).1 == l ==> m.insts[st.refs[k].0 as int]
                    == retarget(
                    st.insts[st.refs[k].0 as int],
                    apply_all(empty_model(), ds.take(j)).insts.len() as usize,
                )
        },
{
    lemma_decode_is_fold(ts, 0, empty_model());
    lemma_labels_resolved(ts);
    lemma_last_declaration_wins(empty_model(), ds, l, j);
}

/// The constant pool after interning, in order, the literal of every push
/// among `ds`: each distinct value once, in order of first occurrence.
pub open spec fn pool_after(c: Seq<i64>, ds: Seq<(Decoded, usize)>) -> Seq<i64>
    decreases ds.len(),
{
    if ds.len() == 0 {
        c
    } else {
        let prev = pool_after(c, ds.drop_last());
        match ds.last().0 {
            Decoded::PushValue(v) => interned(prev, v),
            _ => prev,
        }
    }
}

/// Folding items builds the pool of their literals.
proof fn lemma_fold_pool(st: ParseModel, ds: Seq<(Decoded, usize)>)
    ensures
        apply_all(st, ds).consts == pool_after(st.consts, ds),
    decreases ds.len(),
{
    if ds.len() > 0 {
        lemma_fold_pool(st, ds.drop_last());
    }
}

/// The constant pool of a parsed program holds each literal value pushed in
/// the source exactly once, in order of first occurrence.
pub proof fn lemma_pool_order(ts: Seq<Token>, ds: Seq<(Decoded, usize)>)
    requires
        ts.len() < usize::MAX,
        decoded_items(ts, 0) == Ok::<Seq<(Decoded, usize)>, ParseError>(ds),
    ensures
        parse_tokens(ts) matches Ok(m) ==> m.consts == pool_after(Seq::empty(), ds),
{
    lemma_decode_is_fold(ts, 0, empty_model());
    lemma_decode_ok(ts, 0, empty_model());
    lemma_fold_pool(empty_model(), ds);
    lemma_patch(apply_all(empty_model(), ds), 0);
}

/// Each pushed literal is emitted, at the instruction count where it was
/// decoded, as a push of the pool entry that holds that literal.
proof fn lemma_fold_pushes(st: ParseModel, ds: Seq<(Decoded, usize)>)
    requires
        st.consts.len() + ds.len() < usize::MAX,
    ensures
        apply_all(st, ds).consts.len() <= st.consts.len() + ds.len(),
        apply_all(st, ds).consts.len() >= st.consts.len(),
        apply_all(st, ds).insts.len() >= st.insts.len(),
        forall|i: int| 0 <= i < st.insts.len() ==> #[trigger] apply_all(st, ds).insts[i] == st.insts[i],
        forall|i: int| 0 <= i < st.consts.len() ==> #[trigger] apply_all(st, ds).consts[i] == st.consts[i],
        forall|j: int|
            0 <= j < ds.len() && (#[trigger] ds[j]).0 is PushValue ==> {
                let i = apply_all(st, ds.take(j)).insts.len() as int;
                &&& i < apply_all(st, ds).insts.len()
                &&& apply_all(st, ds).insts[i] matches Instruction::Push(k) && k < apply_all(
                    st,
                    ds,
                ).consts.len() && apply_all(st, ds).consts[k as int] == ds[j].0->PushValue_0
            },
    decreases ds.len(),
{
    if ds.len() > 0 {
        let prev = ds.drop_last();
        lemma_fold_pushes(st, prev);
        let pm = apply_all(st, prev);
        let m = apply_all(st, ds);
        let (d, line) = ds.last();
        assert(m == apply(pm, d, line));
        if let Decoded::PushValue(v) = d {
            let c = interned(pm.consts, v);
            if !pm.consts.contains(v) {
                assert(c[c.len() - 1] == v);
            }
            assert(c.contains(v));
            let k = choose|i: int| 0 <= i < c.len() && c[i] == v;
            assert(0 <= k < c.len() && c[k] == v);
        }
        assert forall|i: int| 0 <= i < pm.consts.len() implies #[trigger] m.consts[i] == pm.consts[i] by {
        }
        assert forall|i: int| 0 <= i < st.consts.len() implies #[trigger] m.consts[i] == st.consts[i] by {
            assert(m.consts[i] == pm.consts[i]);
        }
        assert forall|j: int|
            0 <= j < ds.len() && (#[trigger] ds[j]).0 is PushValue implies {
                let i = apply_all(st, ds.take(j)).insts.len() as int;
                &&& i < m.insts.len()
                &&& m.insts[i] matches Instruction::Push(k) && k < m.consts.len() && m.consts[k as int]
                    == ds[j].0->PushValue_0
            } by {
            if j < ds.len() - 1 {
                assert(prev[j] == ds[j]);
                assert(prev.take(j) == ds.take(j));
                let i = apply_all(st, ds.take(j)).insts.len() as int;
                assert(m.insts[i] == pm.insts[i]);
            } else {
                assert(ds.take(j) == prev);
            }
        }
    }
}

/// In a parsed program, the push decoded as the `j`-th item, at instruction
/// count `i`, reads a pool entry holding exactly the literal of the source.
pub proof fn lemma_push_reads_literal(ts: Seq<Token>, ds: Seq<(Decoded, usize)>, j: int)
    requires
        ts.len() < usize::MAX,
        decoded_items(ts, 0) == Ok::<Seq<(Decoded, usize)>, ParseError>(ds),
        0 <= j < ds.len(),
        ds[j].0 is PushValue,
    ensures
        parse_tokens(ts) matches Ok(m) ==> {
            let i = apply_all(empty_model(), ds.take(j)).insts.len() as int;
            m.insts[i] matches Instruction::Push(k) && k < m.consts.len() && m.consts[k as int]
                == ds[j].0->PushValue_0
        },
{
    lemma_decoded_len(ts, 0);
    lemma_decode_is_fold(ts, 0, empty_model());
    lemma_decode_ok(ts, 0, empty_model());
    lemma_fold_pushes(empty_model(), ds);
    let st = apply_all(empty_model(), ds);
    lemma_patch(st, 0);
    let i = apply_all(empty_model(), ds.take(j)).insts.len() as int;
    assert(st.insts[i] matches Instruction::Push(_));
    assert(!is_jump(st.insts[i]));
}

/// Each decoded item takes at least one token.
proof fn lemma_decoded_len(ts: Seq<Token>, p: int)
    requires
        0 <= p,
    ensures
        decoded_items(ts, p) matches Ok(ds) ==> ds.len() <= ts.len() - p || ds.len() == 0,
    decreases ts.len() - p,
{
    if 0 <= p < ts.len() {
        if let Ok((d, q)) = decode_one(ts, p) {
            if p < q <= ts.len() {
                lemma_decoded_len(ts, q);
            }
        }
    }
}

type PResult<T> = Result<T, ParseError>;

/// Decodes source text into a [`Program`].
pub struct Parser {
    tokens: Tokens,
    /// The line number of the lookahead token
    prev_line_no: usize,
    /// The lookahead token
    curr: Option<Token>,
    labels: LabelMap,
    program: Program,
}

impl Parser {
    /// The tokens of the whole source.
    pub closed spec fn ts(&self) -> Seq<Token> {
        self.tokens.all()
    }

    /// The number of tokens consumed.
    pub closed spec fn pos(&self) -> int {
        if self.curr.is_some() {
            self.tokens.fetched().len() - 1
        } else {
            self.tokens.fetched().len() as int
        }
    }

    /// What has been built so far.
    pub closed spec fn model(&self) -> ParseModel {
        ParseModel {
            insts: self.program.insts(),
            lines: self.program.lines(),
            consts: self.program.consts(),
            subs: self.program.sub_labels(),
            marks: self.labels.pcs(),
            refs: self.labels.refs(),
        }
    }

    pub closed spec fn wf(&self) -> bool {
        &&& self.tokens.wf()
        &&& match self.curr {
            Some(t) => self.tokens.fetched().len() >= 1 && t == self.tokens.fetched().last(),
            None => self.tokens.fetched().len() == self.ts().len(),
        }
        &&& self.prev_line_no == tok_line(self.ts(), self.pos())
        &&& self.program.wf()
        &&& model_ok(self.model())
    }

    proof fn lemma_positions(&self)
        requires
            self.wf(),
        ensures
            0 <= self.pos() <= self.ts().len(),
            self.ts().len() < usize::MAX,
            self.curr.is_some() <==> self.pos() < self.ts().len(),
            self.curr.is_some() ==> self.curr == Some(self.ts()[self.pos()]),
            self.tokens.line() == err_line(self.ts(), self.pos()),
    {
        Tokens::lemma_wf(&self.tokens);
        let n = self.tokens.fetched().len() as int;
        assert(self.ts().take(n) == self.tokens.fetched());
    }

    /// Creates a parser positioned at the first token of `source`.
    pub fn new(source: &str) -> (r: Self)
        requires
            source.spec_bytes().len() < usize::MAX,
        ensures
            r.wf(),
            r.ts() == tokens_of(source.spec_bytes()),
            r.pos() == 0,
            r.model() == empty_model(),
    {
        let mut tokens = Tokens::new(source);
        let curr = tokens.next();
        let r = Self { tokens, prev_line_no: 1, curr, labels: LabelMap::new(), program: Program::new() };
        proof {
            Tokens::lemma_wf(&r.tokens);
            assert(r.ts().take(0) == Seq::<Token>::empty());
            assert(r.model() == empty_model());
        }
        r
    }

    fn error(&self, kind: ErrorKind) -> (r: ParseError)
        requires
            self.wf(),
        ensures
            r == (ParseError { kind, line_no: err_line(self.ts(), self.pos()) }),
    {
        proof {
            self.lemma_positions();
        }
        let line_no = self.tokens.line_no();
        ParseError::new(kind, line_no)
    }

    /// Returns an error indicating the parser has encountered an invalid
    /// instruction
    fn invalid_inst(&self, inst_type: InstType) -> (r: ParseError)
        requires
            self.wf(),
        ensures
            r == (ParseError {
                kind: ErrorKind::InvalidInstruction(inst_type),
                line_no: err_line(self.ts(), self.pos()),
            }),
    {
        self.error(ErrorKind::InvalidInstruction(inst_type))
    }

    /// Moves the lookahead one token on; at the end of input it stays there.
    fn get_next(&mut self)
        requires
            old(self).tokens.wf(),
            match old(self).curr {
                Some(t) => old(self).tokens.fetched().len() >= 1 && t == old(self).tokens.fetched().last(),
                None => old(self).tokens.fetched().len() == old(self).ts().len(),
            },
            old(self).program.wf(),
            model_ok(old(self).model()),
        ensures
            final(self).wf(),
            final(self).ts() == old(self).ts(),
            final(self).pos() == if old(self).pos() < old(self).ts().len() {
                old(self).pos() + 1
            } else {
                old(self).ts().len() as int
            },
            final(self).model() == old(self).model(),
            final(self).program == old(self).program,
    {
        proof {
            Tokens::lemma_wf(&self.tokens);
        }
        self.prev_line_no = self.tokens.line_no();
        self.curr = self.tokens.next();
        proof {
            Tokens::lemma_wf(&self.tokens);
        }
    }

    fn matches(&mut self, token: Token) -> (r: bool)
        requires
            old(self).wf(),
        ensures
            final(self).wf(),
            final(self).ts() == old(self).ts(),
            r == (old(self).pos() < old(self).ts().len() && old(self).ts()[old(self).pos()] == token),
            final(self).pos() == if r {
                old(self).pos() + 1
            } else {
                old(self).pos()
            },
            final(self).model() == old(self).model(),
            final(self).program == old(self).program,
    {
        proof {
            self.lemma_positions();
        }
        if self.curr == Some(token) {
            self.get_next();
            true
        } else {
            false
        }
    }

    /// Fetches the next two tokens from the token stream. Errors
    /// if there are not at least two more tokens available
    fn get_next_two(&mut self) -> (r: PResult<(Token, Token)>)
        requires
            old(self).wf(),
        ensures
            final(self).wf(),
            final(self).ts() == old(self).ts(),
            r == match two_at(old(self).ts(), old(self).pos()) {
                Some(p) => Ok(p),
                None => eof_pair::<(Token, Token)>(old(self).ts()),
            },
            final(self).pos() == if old(self).pos() + 2 <= old(self).ts().len() {
                old(self).pos() + 2
            } else {
                old(self).ts().len() as int
            },
            final(self).model() == old(self).model(),
            final(self).program == old(self).program,
    {
        proof {
            self.lemma_positions();
        }
        let first = self.curr;
        self.get_next();
        proof {
            self.lemma_positions();
        }
        let second = self.curr;
        self.get_next();
        proof {
            self.lemma_positions();
        }
        match (first, second) {
            (Some(first), Some(second)) => Ok((first, second)),
            _ => Err(self.error(ErrorKind::UnexpectedEof)),
        }
    }

    /// Reads a number literal from the source
    fn get_number(&mut self) -> (r: PResult<i64>)
        requires
            old(self).wf(),
        ensures
            final(self).wf(),
            final(self).ts() == old(self).ts(),
            final(self).model() == old(self).model(),
            final(self).pos() >= old(self).pos(),
            match read_number(old(self).ts(), old(self).pos()) {
                Ok((v, q)) => -i64::MAX <= v <= i64::MAX && r == Ok::<i64, ParseError>(v as i64)
                    && final(self).pos() == q,
                Err(e) => r == Err::<i64, ParseError>(e),
            },
    {
        let ghost ts = self.ts();
        let ghost p0 = self.pos();
        let ghost m0 = self.model();
        proof {
            self.lemma_positions();
        }
        let is_negative = if self.matches(Token::Space) {
            false
        } else if self.matches(Token::Tab) {
            true
        } else {
            proof {
                self.lemma_positions();
            }
            if self.curr.is_none() {
                return Err(self.error(ErrorKind::UnexpectedEof));
            }
            return Err(self.error(ErrorKind::InvalidLiteral));
        };
        let mut num: i64 = 0;
        loop
            invariant
                self.wf(),
                self.ts() == ts,
                self.model() == m0,
                ts == old(self).ts(),
                m0 == old(self).model(),
                p0 == old(self).pos(),
                p0 < self.pos() <= ts.len(),
                0 <= p0 < ts.len(),
                ts[p0] != Token::Newline,
                is_negative == (ts[p0] == Token::Tab),
                0 <= num <= i64::MAX,
                read_bits(ts, self.pos(), num as int, i64::MAX as int, ErrorKind::LiteralOverflow)
                    == read_bits(ts, p0 + 1, 0, i64::MAX as int, ErrorKind::LiteralOverflow),
            decreases ts.len() - self.pos(),
        {
            proof {
                self.lemma_positions();
            }
            if self.matches(Token::Space) {
                if num > i64::MAX / 2 {
                    return Err(self.error(ErrorKind::LiteralOverflow));
                }
                num = num * 2;
            } else if self.matches(Token::Tab) {
                if num > i64::MAX / 2 {
                    return Err(self.error(ErrorKind::LiteralOverflow));
                }
                num = num * 2 + 1;
            } else if self.matches(Token::Newline) {
                if is_negative {
                    num = -num;
                }
                return Ok(num);
            } else {
                return Err(self.error(ErrorKind::UnexpectedEof));
            }
        }
    }

    /// Reads a label from the source
    fn get_label(&mut self) -> (r: PResult<usize>)
        requires
            old(self).wf(),
        ensures
            final(self).wf(),
            final(self).ts() == old(self).ts(),
            final(self).model() == old(self).model(),
            final(self).pos() >= old(self).pos(),
            match read_label(old(self).ts(), old(self).pos()) {
                Ok((v, q)) => 0 <= v <= usize::MAX && r == Ok::<usize, ParseError>(v as usize)
                    && final(self).pos() == q,
                Err(e) => r == Err::<usize, ParseError>(e),
            },
    {
        let ghost ts = self.ts();
        let ghost p0 = self.pos();
        let ghost m0 = self.model();
        let mut label: usize = 0;
        proof {
            self.lemma_positions();
        }
        loop
            invariant
                self.wf(),
                self.ts() == ts,
                self.model() == m0,
                ts == old(self).ts(),
                m0 == old(self).model(),
                p0 == old(self).pos(),
                p0 <= self.pos() <= ts.len(),
                read_bits(ts, self.pos(), label as int, usize::MAX as int, ErrorKind::TooManyLabels)
                    == read_bits(ts, p0, 0, usize::MAX as int, ErrorKind::TooManyLabels),
            decreases ts.len() - self.pos(),
        {
            proof {
                self.lemma_positions();
            }
            if self.matches(Token::Space) {
                if label > usize::MAX / 2 {
                    return Err(self.error(ErrorKind::TooManyLabels));
                }
                label = label * 2;
            } else if self.matches(Token::Tab) {
                if label > usize::MAX / 2 {
                    return Err(self.error(ErrorKind::TooManyLabels));
                }
                label = label * 2 + 1;
            } else if self.matches(Token::Newline) {
                return Ok(label);
            } else {
                return Err(self.error(ErrorKind::UnexpectedEof));
            }
        }
    }

    /// Adds an instruction, tagged with `line_no`, to the current program
    fn emit(&mut self, inst: Instruction, line_no: usize)
        requires
            old(self).wf(),
            inst matches Instruction::Push(k) ==> k < old(self).model().consts.len(),
        ensures
            final(self).wf(),
            final(self).ts() == old(self).ts(),
            final(self).pos() == old(self).pos(),
            final(self).model() == (ParseModel {
                insts: old(self).model().insts.push(inst),
                lines: old(self).model().lines.push(line_no),
                ..old(self).model()
            }),
    {
        self.program.emit(inst, line_no);
        proof {
            let m0 = old(self).model();
            let m = self.model();
            assert forall|k: int| 0 <= k < m.refs.len() implies is_jump(
                m.insts[(#[trigger] m.refs[k]).0 as int],
            ) by {
                assert(m.insts[m.refs[k].0 as int] == m0.insts[m.refs[k].0 as int]);
            }
            assert forall|i: int|
                0 <= i < m.insts.len() implies (#[trigger] m.insts[i] matches Instruction::Push(k)
                ==> k < m.consts.len()) by {
                if i < m0.insts.len() {
                    assert(m.insts[i] == m0.insts[i]);
                }
            }
        }
    }

    /// Interns `value` and emits a push of it.
    fn emit_push(&mut self, value: i64, line_no: usize)
        requires
            old(self).wf(),
        ensures
            final(self).wf(),
            final(self).ts() == old(self).ts(),
            final(self).pos() == old(self).pos(),
            final(self).model() == apply(old(self).model(), Decoded::PushValue(value), line_no),
    {
        let idx = self.program.add_const(value);
        proof {
            lemma_index_in(self.program.consts(), value, idx);
            lemma_model_ok_frame(old(self).model(), self.model());
        }
        self.emit(Instruction::Push(idx), line_no);
    }

    /// Emits a jump or call with a placeholder target and records that it
    /// refers to `label`.
    fn emit_ref(&mut self, inst: Instruction, label: usize, line_no: usize)
        requires
            old(self).wf(),
            is_jump(inst),
        ensures
            final(self).wf(),
            final(self).ts() == old(self).ts(),
            final(self).pos() == old(self).pos(),
            final(self).model() == apply(old(self).model(), Decoded::Refer(inst, label), line_no),
    {
        let idx = self.program.inst_count();
        self.emit(inst, line_no);
        self.labels.add_inst(idx, label);
        proof {
            let m0 = old(self).model();
            let m = self.model();
            assert forall|k: int| 0 <= k < m.refs.len() implies is_jump(
                m.insts[(#[trigger] m.refs[k]).0 as int],
            ) by {
                if k < m0.refs.len() {
                    assert(m.refs[k] == m0.refs[k]);
                }
            }
            assert forall|a: int, b: int|
                0 <= a < b < m.refs.len() implies (#[trigger] m.refs[a]).0 < (
                #[trigger] m.refs[b]).0 by {
                assert(m.refs[a] == m0.refs[a]);
                if b < m0.refs.len() {
                    assert(m.refs[b] == m0.refs[b]);
                }
            }
            assert forall|k: int| 0 <= k < m.refs.len() implies (#[trigger] m.refs[k]).0
                < m.insts.len() by {
                if k < m0.refs.len() {
                    assert(m.refs[k] == m0.refs[k]);
                }
            }
        }
    }

    fn get_stack_inst(&mut self, line: usize) -> (r: PResult<()>)
        requires
            old(self).wf(),
        ensures
            final(self).ts() == old(self).ts(),
            r.is_ok() ==> final(self).pos() >= old(self).pos(),
            match decode_stack(old(self).ts(), old(self).pos()) {
                Ok((d, q)) => r == Ok::<(), ParseError>(()) && final(self).wf() && final(self).pos() == q
                    && final(self).model() == apply(old(self).model(), d, line),
                Err(e) => r == Err::<(), ParseError>(e) && final(self).model() == old(self).model(),
            },
    {
        proof {
            self.lemma_positions();
        }
        if self.matches(Token::Space) {
            let num = match self.get_number() {
                Ok(n) => n,
                Err(e) => return Err(e),
            };
            self.emit_push(num, line);
            return Ok(());
        }
        let next_two = match self.get_next_two() {
            Ok(p) => p,
            Err(e) => return Err(e),
        };
        match next_two {
            (Token::Tab, Token::Space) => {
                let num = match self.get_number() {
                    Ok(n) => n,
                    Err(e) => return Err(e),
                };
                self.emit(Instruction::Copy(num), line);
            },
            (Token::Tab, Token::Newline) => {
                let num = match self.get_number() {
                    Ok(n) => n,
                    Err(e) => return Err(e),
                };
                self.emit(Instruction::Slide(num), line);
            },
            (Token::Newline, Token::Space) => {
                self.emit(Instruction::Dup, line);
            },
            (Token::Newline, Token::Tab) => {
                self.emit(Instruction::Swap, line);
            },
            (Token::Newline, Token::Newline) => {
                self.emit(Instruction::Pop, line);
            },
            _ => return Err(self.invalid_inst(InstType::Stack)),
        }
        Ok(())
    }

    fn get_arith_inst(&mut self, line: usize) -> (r: PResult<()>)
        requires
            old(self).wf(),
        ensures
            final(self).ts() == old(self).ts(),
            r.is_ok() ==> final(self).pos() >= old(self).pos(),
            match decode_arith(old(self).ts(), old(self).pos()) {
                Ok((d, q)) => r == Ok::<(), ParseError>(()) && final(self).wf() && final(self).pos() == q
                    && final(self).model() == apply(old(self).model(), d, line),
                Err(e) => r == Err::<(), ParseError>(e) && final(self).model() == old(self).model(),
            },
    {
        let next_two = match self.get_next_two() {
            Ok(p) => p,
            Err(e) => return Err(e),
        };
        let inst = match next_two {
            (Token::Space, Token::Space) => Instruction::Add,
            (Token::Space, Token::Tab) => Instruction::Subtract,
            (Token::Space, Token::Newline) => Instruction::Multiply,
            (Token::Tab, Token::Space) => Instruction::Divide,
            (Token::Tab, Token::Tab) => Instruction::Modulo,
            _ => return Err(self.invalid_inst(InstType::Arithmetic)),
        };
        self.emit(inst, line);
        Ok(())
    }

    fn get_heap_inst(&mut self, line: usize) -> (r: PResult<()>)
        requires
            old(self).wf(),
        ensures
            final(self).ts() == old(self).ts(),
            r.is_ok() ==> final(self).pos() >= old(self).pos(),
            match decode_heap(old(self).ts(), old(self).pos()) {
                Ok((d, q)) => r == Ok::<(), ParseError>(()) && final(self).wf() && final(self).pos() == q
                    && final(self).model() == apply(old(self).model(), d, line),
                Err(e) => r == Err::<(), ParseError>(e) && final(self).model() == old(self).model(),
            },
    {
        proof {
            self.lemma_positions();
        }
        if self.matches(Token::Space) {
            self.emit(Instruction::Store, line);
        } else if self.matches(Token::Tab) {
            self.emit(Instruction::Retrieve, line);
        } else {
            return Err(self.invalid_inst(InstType::Heap));
        }
        Ok(())
    }

    fn get_io_inst(&mut self, line: usize) -> (r: PResult<()>)
        requires
            old(self).wf(),
        ensures
            final(self).ts() == old(self).ts(),
            r.is_ok() ==> final(self).pos() >= old(self).pos(),
            match decode_io(old(self).ts(), old(self).pos()) {
                Ok((d, q)) => r == Ok::<(), ParseError>(()) && final(self).wf() && final(self).pos() == q
                    && final(self).model() == apply(old(self).model(), d, line),
                Err(e) => r == Err::<(), ParseError>(e) && final(self).model() == old(self).model(),
            },
    {
        let next_two = match self.get_next_two() {
            Ok(p) => p,
            Err(e) => return Err(e),
        };
        let inst = match next_two {
            (Token::Space, Token::Space) => Instruction::OutputChar,
            (Token::Space, Token::Tab) => Instruction::OutputNum,
            (Token::Tab, Token::Space) => Instruction::ReadChar,
            (Token::Tab, Token::Tab) => Instruction::ReadNum,
            _ => return Err(self.invalid_inst(InstType::Io)),
        };
        self.emit(inst, line);
        Ok(())
    }

    fn get_flow_inst(&mut self, line: usize) -> (r: PResult<()>)
        requires
            old(self).wf(),
        ensures
            final(self).ts() == old(self).ts(),
            r.is_ok() ==> final(self).pos() >= old(self).pos(),
            match decode_flow(old(self).ts(), old(self).pos()) {
                Ok((d, q)) => r == Ok::<(), ParseError>(()) && final(self).wf() && final(self).pos() == q
                    && final(self).model() == apply(old(self).model(), d, line),
                Err(e) => r == Err::<(), ParseError>(e) && final(self).model() == old(self).model(),
            },
    {
        let next_two = match self.get_next_two() {
            Ok(p) => p,
            Err(e) => return Err(e),
        };
        let t = UNINITIALIZED_JUMP_TARGET;
        let target = match next_two {
            (Token::Space, Token::Space) => None,
            (Token::Space, Token::Tab) => Some(Instruction::Call(t)),
            (Token::Space, Token::Newline) => Some(Instruction::Jump(t)),
            (Token::Tab, Token::Space) => Some(Instruction::JumpIfZero(t)),
            (Token::Tab, Token::Tab) => Some(Instruction::JumpIfNeg(t)),
            (Token::Tab, Token::Newline) => {
                self.emit(Instruction::Return, line);
                return Ok(());
            },
            (Token::Newline, Token::Newline) => {
                self.emit(Instruction::End, line);
                return Ok(());
            },
            _ => return Err(self.invalid_inst(InstType::ControlFlow)),
        };
        let label = match self.get_label() {
            Ok(l) => l,
            Err(e) => return Err(e),
        };
        match target {
            Some(inst) => self.emit_ref(inst, label, line),
            None => {
                let pc = self.program.inst_count();
                let ghost m0 = self.model();
                self.labels.add_label(label, pc);
                proof {
                    lemma_model_ok_frame(m0, self.model());
                }
            },
        }
        Ok(())
    }

    /// Walk through the current program and resolve all the jump targets
    /// using the `LabelMap`
    fn patch_jumps(&mut self) -> (r: PResult<()>)
        requires
            old(self).wf(),
        ensures
            match patch_from(old(self).model(), 0) {
                Ok(m) => r == Ok::<(), ParseError>(()) && final(self).wf() && final(self).model() == m,
                Err(e) => r == Err::<(), ParseError>(e),
            },
    {
        let ghost m0 = self.model();
        let n = self.labels.iter_insts().len();
        let mut k: usize = 0;
        while k < n
            invariant
                self.wf(),
                m0 == old(self).model(),
                n == m0.refs.len(),
                k <= n,
                self.model().refs == m0.refs,
                self.model().marks == m0.marks,
                self.model().lines == m0.lines,
                patch_from(self.model(), k as int) == patch_from(m0, 0),
            decreases n - k,
        {
            let (idx, label) = self.labels.iter_insts()[k];
            let ghost m = self.model();
            let pc = match self.labels.get_pc(label) {
                Some(x) => x,
                None => {
                    let line_no = self.program.line_at(idx);
                    return Err(ParseError::new(ErrorKind::InvalidLabel, line_no));
                },
            };
            let inst = self.program.inst_at_mut(idx);
            let is_call = match *inst {
                Instruction::Call(_) => true,
                _ => false,
            };
            let new_inst = match *inst {
                Instruction::Call(_) => Instruction::Call(pc),
                Instruction::Jump(_) => Instruction::Jump(pc),
                Instruction::JumpIfZero(_) => Instruction::JumpIfZero(pc),
                Instruction::JumpIfNeg(_) => Instruction::JumpIfNeg(pc),
                other => other,
            };
            *inst = new_inst;
            if is_call {
                self.program.add_sub_label(pc, label);
            }
            proof {
                lemma_model_ok_patch(m, idx as int, new_inst, self.model().subs);
            }
            k = k + 1;
        }
        Ok(())
    }

    /// Decodes the instruction at the lookahead onto the program being built.
    fn get_inst(&mut self) -> (r: PResult<()>)
        requires
            old(self).wf(),
            old(self).pos() < old(self).ts().len(),
        ensures
            final(self).ts() == old(self).ts(),
            match decode_one(old(self).ts(), old(self).pos()) {
                Ok((d, q)) => {
                    &&& r == Ok::<(), ParseError>(())
                    &&& final(self).wf()
                    &&& final(self).pos() == q
                    &&& old(self).pos() < q <= old(self).ts().len()
                    &&& final(self).model() == apply(
                        old(self).model(),
                        d,
                        tok_line(old(self).ts(), old(self).pos()),
                    )
                },
                Err(e) => r == Err::<(), ParseError>(e),
            },
    {
        proof {
            self.lemma_positions();
        }
        let line = self.prev_line_no;
        let r = if self.matches(Token::Space) {
            self.get_stack_inst(line)
        } else if self.matches(Token::Tab) {
            if self.matches(Token::Space) {
                self.get_arith_inst(line)
            } else if self.matches(Token::Tab) {
                self.get_heap_inst(line)
            } else if self.matches(Token::Newline) {
                self.get_io_inst(line)
            } else {
                Err(self.invalid_inst(InstType::Unknown))
            }
        } else {
            // with input left, the only other token is a line feed
            let _ = self.matches(Token::Newline);
            self.get_flow_inst(line)
        };
        proof {
            if r.is_ok() {
                self.lemma_positions();
            }
        }
        r
    }

    /// Decodes every instruction up to the end of input, then resolves labels.
    fn parse_all(&mut self) -> (r: PResult<()>)
        requires
            old(self).wf(),
        ensures
            match decode_from(old(self).ts(), old(self).pos(), old(self).model()) {
                Ok(m) => match patch_from(m, 0) {
                    Ok(m2) => r == Ok::<(), ParseError>(()) && final(self).wf() && final(self).model() == m2,
                    Err(e) => r == Err::<(), ParseError>(e),
                },
                Err(e) => r == Err::<(), ParseError>(e),
            },
    {
        let ghost ts = self.ts();
        proof {
            self.lemma_positions();
        }
        while self.curr.is_some()
            invariant
                self.wf(),
                self.ts() == ts,
                ts == old(self).ts(),
                decode_from(ts, self.pos(), self.model()) == decode_from(
                    ts,
                    old(self).pos(),
                    old(self).model(),
                ),
            decreases ts.len() - self.pos(),
        {
            proof {
                self.lemma_positions();
            }
            match self.get_inst() {
                Ok(()) => {},
                Err(e) => return Err(e),
            }
            proof {
                self.lemma_positions();
            }
        }
        proof {
            self.lemma_positions();
        }
        self.patch_jumps()
    }

    /// Parses the input
    pub fn parse(self) -> (r: Result<Program, ParseError>)
        requires
            self.wf(),
            self.pos() == 0,
            self.model() == empty_model(),
        ensures
            match r {
                Ok(p) => {
                    &&& parse_tokens(self.ts()) matches Ok(m)
                    &&& p.insts() == m.insts
                    &&& p.lines() == m.lines
                    &&& p.consts() == m.consts
                    &&& p.sub_labels() == m.subs
                    &&& p.runnable()
                },
                Err(e) => parse_tokens(self.ts()) == Err::<ParseModel, ParseError>(e),
            },
    {
        let mut parser = self;
        match parser.parse_all() {
            Ok(()) => Ok(parser.program),
            Err(e) => Err(e),
        }
    }
}

} // verus!
