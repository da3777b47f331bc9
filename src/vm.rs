//! The stack machine that runs a [`Program`].
//!
//! Each call of [`Vm::step`] executes one instruction. Instructions that talk
//! to the outside world are not executed by `step`: it names the transfer in
//! a [`Request`], the caller performs it, and hands the outcome back through
//! [`Vm::finish_output`], [`Vm::finish_read_char`] or [`Vm::finish_read_num`].
//! A failing instruction leaves the machine as it was before it, and the
//! traceback shows that state.
use crate::decimal::{decimal_i64, parse_decimal_prefix, trim_end, trimmed_len};
use crate::frame::CallFrame;
use crate::program::{Instruction, Program};
use crate::vm_error::{RuntimeError, TraceEntry, Traceback};
use std::collections::HashMap;
use vstd::prelude::*;
use vstd::string::StringSliceAdditionalSpecFns;

verus! {

broadcast use vstd::std_specs::hash::group_hash_axioms;

/// What the machine asks of its caller after a step.
#[derive(Copy, Clone, Debug, PartialEq, Eq, Structural)]
pub enum Request {
    /// Nothing: the instruction is done.
    Nothing,
    /// The run is over.
    Halt,
    /// Write this byte, then call `finish_output`.
    WriteChar(u8),
    /// Write this number in decimal, then call `finish_output`.
    WriteNum(i64),
    /// Read one byte, then call `finish_read_char`.
    ReadChar,
    /// Read one line, then call `finish_read_num`.
    ReadNum,
}

/// The run-time state: operand stack, call frames (outermost first) and heap.
pub struct VmState {
    pub stack: Seq<i64>,
    pub frames: Seq<CallFrame>,
    pub heap: Map<i64, i64>,
}

/// The result of one step of the machine.
pub enum Outcome {
    Next(VmState, Request),
    Fail(RuntimeError),
}

/// The line shown for a frame: that of the instruction it will run next; a
/// frame that would resume past the last instruction shows the last one.
pub open spec fn frame_line(p: Program, f: CallFrame) -> usize {
    if f.pc < p.lines().len() {
        p.lines()[f.pc as int]
    } else if p.lines().len() > 0 {
        p.lines().last()
    } else {
        0
    }
}

/// The traceback entries for a call stack, outermost first.
pub open spec fn trace_of(p: Program, frames: Seq<CallFrame>) -> Seq<TraceEntry> {
    Seq::new(frames.len(), |i: int| TraceEntry { line_no: frame_line(p, frames[i]), label: frames[i].label })
}

/// The frames with the innermost moved to `pc`.
pub open spec fn goto(frames: Seq<CallFrame>, pc: usize) -> Seq<CallFrame> {
    frames.update(frames.len() - 1, CallFrame { pc, label: frames.last().label })
}

/// The next state with `stack` as the new operand stack.
pub open spec fn with_stack(st: VmState, stack: Seq<i64>, frames: Seq<CallFrame>) -> Outcome {
    Outcome::Next(VmState { stack, frames, ..st }, Request::Nothing)
}

/// Pops two operands and pushes `f(left, right)`.
pub open spec fn binary(st: VmState, frames: Seq<CallFrame>, v: i64) -> Outcome {
    let s = st.stack;
    with_stack(st, s.take(s.len() - 2).push(v), frames)
}

/// Truncating division, with `i64::MIN / -1` wrapping to `i64::MIN`.
pub open spec fn div_trunc(a: i64, b: i64) -> i64 {
    if a == i64::MIN && b == -1 {
        i64::MIN
    } else if a >= 0 {
        (a / b) as i64
    } else {
        (-((-a) / (b as int))) as i64
    }
}

/// The remainder of truncating division; its sign follows `a`.
pub open spec fn rem_trunc(a: i64, b: i64) -> i64 {
    if a == i64::MIN && b == -1 {
        0
    } else if a >= 0 {
        (a % b) as i64
    } else {
        (-((-a) % (b as int))) as i64
    }
}

/// The effect of the stack and arithmetic instructions.
pub open spec fn step_data(p: Program, inst: Instruction, st: VmState, next: Seq<CallFrame>) -> Outcome {
    let s = st.stack;
    let n = s.len();
    let under = Outcome::Fail(RuntimeError::StackUnderflow);
    match inst {
        Instruction::Push(k) => with_stack(st, s.push(p.consts()[k as int]), next),
        Instruction::Dup => if n >= 1 {
            with_stack(st, s.push(s[n - 1]), next)
        } else {
            under
        },
        Instruction::Copy(c) => if 0 <= c < n {
            with_stack(st, s.push(s[n - 1 - c]), next)
        } else {
            under
        },
        Instruction::Swap => if n >= 2 {
            with_stack(st, s.update(n - 1, s[n - 2]).update(n - 2, s[n - 1]), next)
        } else {
            under
        },
        Instruction::Pop => if n >= 1 {
            with_stack(st, s.drop_last(), next)
        } else {
            under
        },
        Instruction::Slide(c) => if 0 <= c < n {
            with_stack(st, s.take(n - 1 - c).push(s[n - 1]), next)
        } else {
            under
        },
        _ => if n < 2 {
            under
        } else {
            let (l, r) = (s[n - 2], s[n - 1]);
            match inst {
                Instruction::Add => binary(st, next, vstd::wrapping::i64_specs::wrapping_add(l, r)),
                Instruction::Subtract => binary(st, next, vstd::wrapping::i64_specs::wrapping_sub(l, r)),
                Instruction::Multiply => binary(st, next, vstd::wrapping::i64_specs::wrapping_mul(l, r)),
                Instruction::Divide => if r == 0 {
                    Outcome::Fail(RuntimeError::ZeroDivision)
                } else {
                    binary(st, next, div_trunc(l, r))
                },
                _ => if r == 0 {
                    Outcome::Fail(RuntimeError::ZeroDivision)
                } else {
                    binary(st, next, rem_trunc(l, r))
                },
            }
        },
    }
}

/// The effect of the heap, control-flow and I/O instructions. I/O
/// instructions only check their operand and leave the state as it is.
pub open spec fn step_other(p: Program, inst: Instruction, st: VmState, next: Seq<CallFrame>) -> Outcome {
    let s = st.stack;
    let n = s.len();
    let under = Outcome::Fail(RuntimeError::StackUnderflow);
    match inst {
        Instruction::Store => if n >= 2 {
            Outcome::Next(
                VmState { stack: s.take(n - 2), frames: next, heap: st.heap.insert(s[n - 2], s[n - 1]) },
                Request::Nothing,
            )
        } else {
            under
        },
        Instruction::Retrieve => if n < 1 {
            under
        } else if !st.heap.contains_key(s[n - 1]) {
            Outcome::Fail(RuntimeError::InvalidHeapEntry)
        } else {
            with_stack(st, s.drop_last().push(st.heap[s[n - 1]]), next)
        },
        Instruction::Call(pc) => {
            let label = if p.sub_labels().contains_key(pc) {
                Some(p.sub_labels()[pc])
            } else {
                None
            };
            with_stack(st, s, next.push(CallFrame { pc, label }))
        },
        Instruction::Jump(pc) => with_stack(st, s, goto(next, pc)),
        Instruction::JumpIfZero(pc) => if n >= 1 {
            with_stack(st, s.drop_last(), if s[n - 1] == 0 { goto(next, pc) } else { next })
        } else {
            under
        },
        Instruction::JumpIfNeg(pc) => if n >= 1 {
            with_stack(st, s.drop_last(), if s[n - 1] < 0 { goto(next, pc) } else { next })
        } else {
            under
        },
        Instruction::Return => if next.len() == 1 {
            Outcome::Next(VmState { frames: Seq::empty(), ..st }, Request::Halt)
        } else {
            with_stack(st, s, next.drop_last())
        },
        Instruction::End => Outcome::Next(VmState { frames: Seq::empty(), ..st }, Request::Halt),
        _ => if n < 1 {
            under
        } else {
            Outcome::Next(
                st,
                match inst {
                    Instruction::OutputChar => Request::WriteChar((s[n - 1] & 255) as u8),
                    Instruction::OutputNum => Request::WriteNum(s[n - 1]),
                    Instruction::ReadChar => Request::ReadChar,
                    _ => Request::ReadNum,
                },
            )
        },
    }
}

/// Whether an instruction is handled by `step_data`.
pub open spec fn is_data(inst: Instruction) -> bool {
    match inst {
        Instruction::Push(_) | Instruction::Dup | Instruction::Copy(_) | Instruction::Swap
        | Instruction::Pop | Instruction::Slide(_) | Instruction::Add | Instruction::Subtract
        | Instruction::Multiply | Instruction::Divide | Instruction::Modulo => true,
        _ => false,
    }
}

/// Whether an instruction transfers data to or from the outside.
pub open spec fn is_io(inst: Instruction) -> bool {
    match inst {
        Instruction::OutputChar | Instruction::OutputNum | Instruction::ReadChar
        | Instruction::ReadNum => true,
        _ => false,
    }
}

/// One step of the machine: fetch the instruction at the innermost frame's
/// counter, advance that counter, and execute it. With no frame left, or
/// with the counter past the last instruction, the run is over.
pub open spec fn step_spec(p: Program, st: VmState) -> Outcome {
    if st.frames.len() == 0 {
        Outcome::Next(st, Request::Halt)
    } else {
        let pc = st.frames.last().pc;
        if pc >= p.insts().len() {
            Outcome::Next(VmState { frames: Seq::empty(), ..st }, Request::Halt)
        } else {
            let inst = p.insts()[pc as int];
            let next = goto(st.frames, (pc + 1) as usize);
            if is_data(inst) {
                step_data(p, inst, st, next)
            } else {
                step_other(p, inst, st, next)
            }
        }
    }
}

/// How many operands an instruction takes from the stack.
pub open spec fn operands(inst: Instruction) -> int {
    match inst {
        Instruction::Copy(c) | Instruction::Slide(c) => c + 1,
        Instruction::Swap | Instruction::Add | Instruction::Subtract | Instruction::Multiply
        | Instruction::Divide | Instruction::Modulo | Instruction::Store => 2,
        Instruction::Dup | Instruction::Pop | Instruction::Retrieve | Instruction::JumpIfZero(_)
        | Instruction::JumpIfNeg(_) | Instruction::OutputChar | Instruction::OutputNum
        | Instruction::ReadChar | Instruction::ReadNum => 1,
        _ => 0,
    }
}

/// The instruction that the innermost frame is at, if any.
pub open spec fn current(p: Program, st: VmState) -> Option<Instruction> {
    if st.frames.len() > 0 && st.frames.last().pc < p.insts().len() {
        Some(p.insts()[st.frames.last().pc as int])
    } else {
        None
    }
}

/// An instruction that finds fewer values on the stack than it takes fails
/// with `StackUnderflow`; since a failing step leaves the machine unchanged
/// (see `Vm::step`), the stack is not touched.
pub proof fn lemma_underflow(p: Program, st: VmState)
    requires
        current(p, st) matches Some(inst) && st.stack.len() < operands(inst),
    ensures
        step_spec(p, st) == Outcome::Fail(RuntimeError::StackUnderflow),
{
}

/// Dividing or taking the remainder by zero fails with `ZeroDivision`.
pub proof fn lemma_zero_division(p: Program, st: VmState)
    requires
        current(p, st) == Some(Instruction::Divide) || current(p, st) == Some(Instruction::Modulo),
        st.stack.len() >= 2,
        st.stack.last() == 0,
    ensures
        step_spec(p, st) == Outcome::Fail(RuntimeError::ZeroDivision),
{
}

/// A value stored at an address is what a later retrieve from that address
/// pushes, provided that address was not written in between (other
/// addresses may have been).
pub proof fn lemma_store_retrieve(p: Program, st: VmState, later: VmState)
    requires
        current(p, st) == Some(Instruction::Store),
        st.stack.len() >= 2,
        step_spec(p, st) matches Outcome::Next(after, _) && later.heap.contains_key(
            st.stack[st.stack.len() - 2],
        ) == after.heap.contains_key(st.stack[st.stack.len() - 2]) && later.heap[st.stack[st.stack.len()
            - 2]] == after.heap[st.stack[st.stack.len() - 2]],
        current(p, later) == Some(Instruction::Retrieve),
        later.stack.len() >= 1,
        later.stack.last() == st.stack[st.stack.len() - 2],
    ensures
        step_spec(p, later) matches Outcome::Next(done, _) && done.stack.last() == st.stack.last(),
{
}

/// A step writes the heap only where a `Store` puts its value; a completed
/// read writes only at its address. Every other address keeps its entry, or
/// its absence.
pub proof fn lemma_heap_frame(p: Program, st: VmState, a: i64)
    requires
        !(current(p, st) == Some(Instruction::Store) && st.stack.len() >= 2 && st.stack[st.stack.len()
            - 2] == a),
    ensures
        step_spec(p, st) matches Outcome::Next(after, _) ==> after.heap.contains_key(a)
            == st.heap.contains_key(a) && after.heap[a] == st.heap[a],
        st.stack.len() > 0 && st.stack.last() != a ==> forall|v: Option<i64>|
            #![trigger completed(st, v)]
            completed(st, v).heap.contains_key(a) == st.heap.contains_key(a) && completed(st, v).heap[a]
                == st.heap[a],
{
}

/// The outcome of `n` steps, stopping early at a failure or at a step that
/// asks something of the caller.
pub open spec fn run_steps(p: Program, st: VmState, n: nat) -> Outcome
    decreases n,
{
    if n == 0 {
        Outcome::Next(st, Request::Nothing)
    } else {
        match run_steps(p, st, (n - 1) as nat) {
            Outcome::Next(s, Request::Nothing) => step_spec(p, s),
            o => o,
        }
    }
}

/// A subroutine that calls itself first thing never finishes: after `n`
/// steps the machine is at the same call with `n` more frames on the
/// explicit frame stack, each tagged with the label of the call target.
pub proof fn lemma_self_call_runs_on(p: Program, st: VmState, n: nat)
    requires
        st.frames.len() > 0,
        current(p, st) == Some(Instruction::Call(st.frames.last().pc)),
    ensures
        run_steps(p, st, n) matches Outcome::Next(s, Request::Nothing) && s.frames.len()
            == st.frames.len() + n && current(p, s) == Some(Instruction::Call(st.frames.last().pc))
            && s.frames.last().pc == st.frames.last().pc && forall|i: int|
            st.frames.len() <= i < s.frames.len() ==> (#[trigger] s.frames[i]).label == if p.sub_labels().contains_key(
            st.frames.last().pc,
        ) {
            Some(p.sub_labels()[st.frames.last().pc])
        } else {
            None
        },
    decreases n,
{
    if n > 0 {
        lemma_self_call_runs_on(p, st, (n - 1) as nat);
        if let Outcome::Next(s, _) = run_steps(p, st, (n - 1) as nat) {
            let next = goto(s.frames, (s.frames.last().pc + 1) as usize);
            assert forall|i: int| 0 <= i < s.frames.len() implies (#[trigger] next[i]).label
                == s.frames[i].label by {}
        }
    }
}

/// Over a run of steps in which no `Store` writes to address `a`, whether
/// `a` holds a value does not change: from a fresh machine's empty heap, an
/// address never stored to stays absent, and retrieving it fails.
pub proof fn lemma_unwritten_address(p: Program, st: VmState, n: nat, a: i64)
    requires
        forall|i: nat|
            i < n ==> (#[trigger] run_steps(p, st, i) matches Outcome::Next(si, Request::Nothing) ==> !(
            current(p, si) == Some(Instruction::Store) && si.stack.len() >= 2 && si.stack[si.stack.len()
                - 2] == a)),
    ensures
        run_steps(p, st, n) matches Outcome::Next(s, _) ==> s.heap.contains_key(a)
            == st.heap.contains_key(a),
    decreases n,
{
    if n > 0 {
        let m = (n - 1) as nat;
        lemma_unwritten_address(p, st, m, a);
        if let Outcome::Next(s, Request::Nothing) = run_steps(p, st, m) {
            assert(run_steps(p, st, m) matches Outcome::Next(si, Request::Nothing) ==> !(current(p, si)
                == Some(Instruction::Store) && si.stack.len() >= 2 && si.stack[si.stack.len() - 2] == a));
            lemma_heap_frame(p, s, a);
        }
    }
}

/// One move of the machine: a step, or the completion of the I/O
/// instruction it waits at (`finish_output` stores nothing; the two reads
/// store the value read).
pub open spec fn moves_to(p: Program, st: VmState, next: VmState) -> bool {
    ||| step_spec(p, st) matches Outcome::Next(s, _) && s == next
    ||| current(p, st) matches Some(i) && is_io(i) && st.stack.len() > 0 && exists|v: Option<i64>|
        completed(st, v) == next && (v is Some ==> i == Instruction::ReadChar || i
            == Instruction::ReadNum)
}

/// The move from `st` may write address `a`: a `Store` to it, or a read
/// into it.
pub open spec fn writes_at(p: Program, st: VmState, a: i64) -> bool {
    ||| current(p, st) == Some(Instruction::Store) && st.stack.len() >= 2 && st.stack[st.stack.len()
        - 2] == a
    ||| (current(p, st) == Some(Instruction::ReadChar) || current(p, st) == Some(
        Instruction::ReadNum)) && st.stack.len() >= 1 && st.stack.last() == a
}

/// Over a run of moves none of which writes address `a`, the entry at `a`
/// (or its absence) stays as it was; other addresses may change.
pub proof fn lemma_heap_kept(p: Program, run: Seq<VmState>, a: i64)
    requires
        run.len() >= 1,
        forall|i: int|
            0 <= i < run.len() - 1 ==> moves_to(p, #[trigger] run[i], run[i + 1]) && !writes_at(
                p,
                run[i],
                a,
            ),
    ensures
        run.last().heap.contains_key(a) == run[0].heap.contains_key(a),
        run.last().heap[a] == run[0].heap[a],
    decreases run.len(),
{
    if run.len() > 1 {
        let prev = run.drop_last();
        assert forall|i: int| 0 <= i < prev.len() - 1 implies moves_to(p, #[trigger] prev[i], prev[i + 1])
            && !writes_at(p, prev[i], a) by {
            assert(prev[i] == run[i] && prev[i + 1] == run[i + 1]);
        }
        lemma_heap_kept(p, prev, a);
        let s = run[run.len() - 2];
        assert(moves_to(p, s, run.last()) && !writes_at(p, s, a));
        lemma_heap_frame(p, s, a);
    }
}

/// Store, then any moves that leave the address alone (reads and writes of
/// other addresses included), then a retrieve from it: the stored value comes
/// back exactly.
pub proof fn lemma_store_retrieve_run(p: Program, st: VmState, run: Seq<VmState>)
    requires
        current(p, st) == Some(Instruction::Store),
        st.stack.len() >= 2,
        run.len() >= 1,
        step_spec(p, st) matches Outcome::Next(after, _) && after == run[0],
        forall|i: int|
            0 <= i < run.len() - 1 ==> moves_to(p, #[trigger] run[i], run[i + 1]) && !writes_at(
                p,
                run[i],
                st.stack[st.stack.len() - 2],
            ),
        current(p, run.last()) == Some(Instruction::Retrieve),
        run.last().stack.len() >= 1,
        run.last().stack.last() == st.stack[st.stack.len() - 2],
    ensures
        step_spec(p, run.last()) matches Outcome::Next(done, _) && done.stack == run.last().stack.drop_last().push(
            st.stack.last(),
        ),
{
    lemma_heap_kept(p, run, st.stack[st.stack.len() - 2]);
}

/// From a heap without an entry at `a` (as a new machine's empty heap),
/// moves that never write `a` lead to a retrieve from `a` that fails with
/// `InvalidHeapEntry`, leaving the machine as it was.
pub proof fn lemma_retrieve_unwritten_run(p: Program, run: Seq<VmState>, a: i64)
    requires
        run.len() >= 1,
        !run[0].heap.contains_key(a),
        forall|i: int|
            0 <= i < run.len() - 1 ==> moves_to(p, #[trigger] run[i], run[i + 1]) && !writes_at(
                p,
                run[i],
                a,
            ),
        current(p, run.last()) == Some(Instruction::Retrieve),
        run.last().stack.len() >= 1,
        run.last().stack.last() == a,
    ensures
        step_spec(p, run.last()) == Outcome::Fail(RuntimeError::InvalidHeapEntry),
{
    lemma_heap_kept(p, run, a);
}

/// Retrieving from an address that holds no value fails with
/// `InvalidHeapEntry`.
pub proof fn lemma_retrieve_missing(p: Program, st: VmState)
    requires
        current(p, st) == Some(Instruction::Retrieve),
        st.stack.len() >= 1,
        !st.heap.contains_key(st.stack.last()),
    ensures
        step_spec(p, st) == Outcome::Fail(RuntimeError::InvalidHeapEntry),
{
}

/// How an executable step relates to `Outcome`: on success the machine is in
/// the next state and hands out the request; on failure it is unchanged and
/// the traceback shows its call stack.
pub open spec fn matches_outcome(
    p: Program,
    before: VmState,
    after: VmState,
    r: Result<Request, Traceback>,
    o: Outcome,
) -> bool {
    match o {
        Outcome::Next(st, req) => r == Ok::<Request, Traceback>(req) && after == st,
        Outcome::Fail(reason) => {
            &&& r matches Err(tb)
            &&& tb.reason == reason
            &&& tb.stack@ == trace_of(p, before.frames)
            &&& after == before
        },
    }
}

/// The state once a pending I/O instruction is done: its operand (an
/// address, for reads) popped, `value` stored there if given, and the
/// innermost frame moved past the instruction.
pub open spec fn completed(st: VmState, value: Option<i64>) -> VmState {
    let addr = st.stack.last();
    VmState {
        stack: st.stack.drop_last(),
        frames: goto(st.frames, (st.frames.last().pc + 1) as usize),
        heap: match value {
            Some(v) => st.heap.insert(addr, v),
            None => st.heap,
        },
    }
}

/// A failure for `reason`: the machine is unchanged and the traceback shows
/// its call stack.
pub open spec fn failed(
    p: Program,
    before: VmState,
    after: VmState,
    r: Result<(), Traceback>,
    reason: RuntimeError,
) -> bool {
    &&& r matches Err(tb)
    &&& tb.reason == reason
    &&& tb.stack@ == trace_of(p, before.frames)
    &&& after == before
}

/// The virtual machine running the program
pub struct Vm<'a> {
    stack: Vec<i64>,
    call_stack: Vec<CallFrame>,
    heap: HashMap<i64, i64>,
    program: &'a Program,
}

impl<'a> Vm<'a> {
    pub closed spec fn state(&self) -> VmState {
        VmState { stack: self.stack@, frames: self.call_stack@, heap: self.heap@ }
    }

    pub closed spec fn program(&self) -> Program {
        *self.program
    }

    /// Constructs a new VM to run the given program: one top-level frame at
    /// the first instruction, an empty stack and an empty heap
    pub fn new(program: &'a Program) -> (r: Self)
        ensures
            r.program() == *program,
            r.state() == (VmState {
                stack: Seq::empty(),
                frames: seq![CallFrame { pc: 0, label: None }],
                heap: Map::empty(),
            }),
    {
        let mut call_stack: Vec<CallFrame> = Vec::new();
        call_stack.push(CallFrame::new_main());
        let r = Self { stack: Vec::new(), call_stack, heap: HashMap::new(), program };
        proof {
            assert(r.stack@ =~= Seq::empty());
            assert(r.call_stack@ =~= seq![CallFrame { pc: 0, label: None }]);
            assert(r.heap@ =~= Map::empty());
        }
        r
    }

    /// Builds the traceback of a failure from the current call stack
    fn runtime_error(&self, reason: RuntimeError) -> (r: Traceback)
        requires
            self.program.wf(),
        ensures
            r.reason == reason,
            r.stack@ == trace_of(self.program(), self.state().frames),
    {
        let mut stack: Vec<TraceEntry> = Vec::new();
        let count = self.program.inst_count();
        let mut i: usize = 0;
        while i < self.call_stack.len()
            invariant
                i <= self.call_stack@.len(),
                count == self.program.insts().len(),
                self.program.wf(),
                stack@ == trace_of(self.program(), self.call_stack@).take(i as int),
            decreases self.call_stack@.len() - i,
        {
            let frame = self.call_stack[i];
            let line_no = if frame.pc < count {
                self.program.line_at(frame.pc)
            } else if count > 0 {
                self.program.line_at(count - 1)
            } else {
                0
            };
            stack.push(TraceEntry::new(line_no, frame.label));
            i = i + 1;
            assert(stack@ =~= trace_of(self.program(), self.call_stack@).take(i as int));
        }
        assert(stack@ =~= trace_of(self.program(), self.call_stack@));
        Traceback { stack, reason }
    }

    fn push(&mut self, value: i64)
        ensures
            final(self).stack@ == old(self).stack@.push(value),
            final(self).call_stack == old(self).call_stack,
            final(self).heap == old(self).heap,
            final(self).program == old(self).program,
    {
        self.stack.push(value);
    }

    fn pop(&mut self) -> (r: Result<i64, Traceback>)
        requires
            old(self).program.wf(),
        ensures
            old(self).stack@.len() > 0 ==> r == Ok::<i64, Traceback>(old(self).stack@.last())
                && final(self).stack@ == old(self).stack@.drop_last(),
            old(self).stack@.len() == 0 ==> (r matches Err(tb) && tb.reason
                == RuntimeError::StackUnderflow && final(self).stack@ == old(self).stack@ && tb.stack@
                == trace_of(old(self).program(), old(self).state().frames)),
            final(self).call_stack == old(self).call_stack,
            final(self).heap == old(self).heap,
            final(self).program == old(self).program,
    {
        match self.stack.pop() {
            Some(x) => Ok(x),
            None => Err(self.runtime_error(RuntimeError::StackUnderflow)),
        }
    }

    fn peek(&self) -> (r: Result<i64, Traceback>)
        requires
            self.program.wf(),
        ensures
            self.stack@.len() > 0 ==> r == Ok::<i64, Traceback>(self.stack@.last()),
            self.stack@.len() == 0 ==> (r matches Err(tb) && tb.reason == RuntimeError::StackUnderflow
                && tb.stack@ == trace_of(self.program(), self.state().frames)),
    {
        let n = self.stack.len();
        if n > 0 {
            Ok(self.stack[n - 1])
        } else {
            Err(self.runtime_error(RuntimeError::StackUnderflow))
        }
    }

    /// Moves the innermost frame to `pc`
    fn current_frame_goto(&mut self, pc: usize)
        requires
            old(self).call_stack@.len() > 0,
        ensures
            final(self).call_stack@ == goto(old(self).call_stack@, pc),
            final(self).stack == old(self).stack,
            final(self).heap == old(self).heap,
            final(self).program == old(self).program,
    {
        let last = self.call_stack.len() - 1;
        let label = self.call_stack[last].label;
        self.call_stack[last] = CallFrame { pc, label };
    }

    /// Executes a stack or arithmetic instruction fetched at `pc`
    fn exec_data(&mut self, inst: Instruction, pc: usize) -> (r: Result<Request, Traceback>)
        requires
            old(self).program().runnable(),
            old(self).call_stack@.len() > 0,
            old(self).call_stack@.last().pc == pc,
            pc < old(self).program().insts().len() <= usize::MAX,
            old(self).program().insts()[pc as int] == inst,
            is_data(inst),
        ensures
            final(self).program == old(self).program,
            matches_outcome(
                old(self).program(),
                old(self).state(),
                final(self).state(),
                r,
                step_data(
                    old(self).program(),
                    inst,
                    old(self).state(),
                    goto(old(self).state().frames, (pc + 1) as usize),
                ),
            ),
    {
        let n = self.stack.len();
        let ghost s = self.stack@;
        let next = pc + 1;
        match inst {
            Instruction::Push(k) => {
                let c = self.program.get_const(k);
                self.current_frame_goto(next);
                self.push(c);
            },
            Instruction::Dup => {
                let v = match self.peek() {
                    Ok(v) => v,
                    Err(tb) => return Err(tb),
                };
                self.current_frame_goto(next);
                self.push(v);
            },
            Instruction::Copy(c) => {
                if c < 0 || c as i128 >= n as i128 {
                    return Err(self.runtime_error(RuntimeError::StackUnderflow));
                }
                let v = self.stack[n - 1 - c as usize];
                self.current_frame_goto(next);
                self.push(v);
            },
            Instruction::Swap => {
                if n < 2 {
                    return Err(self.runtime_error(RuntimeError::StackUnderflow));
                }
                let first = self.stack[n - 1];
                let second = self.stack[n - 2];
                self.stack[n - 1] = second;
                self.stack[n - 2] = first;
                self.current_frame_goto(next);
            },
            Instruction::Pop => {
                if n < 1 {
                    return Err(self.runtime_error(RuntimeError::StackUnderflow));
                }
                self.stack.pop();
                self.current_frame_goto(next);
            },
            Instruction::Slide(c) => {
                if c < 0 || c as i128 >= n as i128 {
                    return Err(self.runtime_error(RuntimeError::StackUnderflow));
                }
                let last = self.stack[n - 1];
                self.stack.truncate(n - 1 - c as usize);
                self.push(last);
                self.current_frame_goto(next);
            },
            _ => {
                if n < 2 {
                    return Err(self.runtime_error(RuntimeError::StackUnderflow));
                }
                let right = self.stack[n - 1];
                let left = self.stack[n - 2];
                let is_div = match inst {
                    Instruction::Divide | Instruction::Modulo => true,
                    _ => false,
                };
                if is_div && right == 0 {
                    return Err(self.runtime_error(RuntimeError::ZeroDivision));
                }
                let result = match inst {
                    Instruction::Add => left.wrapping_add(right),
                    Instruction::Subtract => left.wrapping_sub(right),
                    Instruction::Multiply => left.wrapping_mul(right),
                    Instruction::Divide => if left == i64::MIN && right == -1 {
                        i64::MIN
                    } else {
                        left / right
                    },
                    _ => if left == i64::MIN && right == -1 {
                        0
                    } else {
                        left % right
                    },
                };
                self.stack.truncate(n - 2);
                self.push(result);
                self.current_frame_goto(next);
            },
        }
        proof {
            assert(self.stack@ =~= match step_data(
                old(self).program(),
                inst,
                old(self).state(),
                goto(old(self).state().frames, (pc + 1) as usize),
            ) {
                Outcome::Next(st, _) => st.stack,
                _ => s,
            });
        }
        Ok(Request::Nothing)
    }

    /// Executes a heap, control-flow or I/O instruction fetched at `pc`
    fn exec_other(&mut self, inst: Instruction, pc: usize) -> (r: Result<Request, Traceback>)
        requires
            old(self).program().runnable(),
            old(self).call_stack@.len() > 0,
            old(self).call_stack@.last().pc == pc,
            pc < old(self).program().insts().len() <= usize::MAX,
            old(self).program().insts()[pc as int] == inst,
            !is_data(inst),
        ensures
            final(self).program == old(self).program,
            matches_outcome(
                old(self).program(),
                old(self).state(),
                final(self).state(),
                r,
                step_other(
                    old(self).program(),
                    inst,
                    old(self).state(),
                    goto(old(self).state().frames, (pc + 1) as usize),
                ),
            ),
    {
        let n = self.stack.len();
        let next = pc + 1;
        match inst {
            Instruction::Store => {
                if n < 2 {
                    return Err(self.runtime_error(RuntimeError::StackUnderflow));
                }
                let value = self.stack[n - 1];
                let addr = self.stack[n - 2];
                self.stack.truncate(n - 2);
                self.heap.insert(addr, value);
                self.current_frame_goto(next);
                assert(self.stack@ =~= old(self).stack@.take(n - 2));
                Ok(Request::Nothing)
            },
            Instruction::Retrieve => {
                let addr = match self.peek() {
                    Ok(a) => a,
                    Err(tb) => return Err(tb),
                };
                let value = match self.heap.get(&addr) {
                    Some(x) => *x,
                    None => return Err(self.runtime_error(RuntimeError::InvalidHeapEntry)),
                };
                let _ = self.pop();
                self.push(value);
                self.current_frame_goto(next);
                assert(self.stack@ =~= old(self).stack@.drop_last().push(value));
                Ok(Request::Nothing)
            },
            Instruction::Call(target) => {
                let label = self.program.get_label(target);
                self.current_frame_goto(next);
                self.call_stack.push(CallFrame { pc: target, label });
                Ok(Request::Nothing)
            },
            Instruction::Jump(target) => {
                self.current_frame_goto(target);
                assert(self.call_stack@ =~= goto(goto(old(self).call_stack@, next), target));
                Ok(Request::Nothing)
            },
            Instruction::JumpIfZero(target) | Instruction::JumpIfNeg(target) => {
                let cond = match self.pop() {
                    Ok(v) => v,
                    Err(tb) => return Err(tb),
                };
                let taken = match inst {
                    Instruction::JumpIfZero(_) => cond == 0,
                    _ => cond < 0,
                };
                self.current_frame_goto(if taken {
                    target
                } else {
                    next
                });
                assert(self.call_stack@ =~= goto(goto(old(self).call_stack@, next), target) || !taken);
                Ok(Request::Nothing)
            },
            Instruction::Return => {
                self.call_stack.pop();
                if self.call_stack.len() == 0 {
                    assert(self.call_stack@ =~= Seq::empty());
                    return Ok(Request::Halt);
                }
                assert(self.call_stack@ =~= goto(old(self).call_stack@, next).drop_last());
                Ok(Request::Nothing)
            },
            Instruction::End => {
                self.call_stack.clear();
                assert(self.call_stack@ =~= Seq::empty());
                Ok(Request::Halt)
            },
            _ => {
                let top = match self.peek() {
                    Ok(v) => v,
                    Err(tb) => return Err(tb),
                };
                assert(0 <= (top & 255) <= 255) by (bit_vector);
                let req = match inst {
                    Instruction::OutputChar => Request::WriteChar((top & 255) as u8),
                    Instruction::OutputNum => Request::WriteNum(top),
                    Instruction::ReadChar => Request::ReadChar,
                    _ => Request::ReadNum,
                };
                Ok(req)
            },
        }
    }

    /// Executes one instruction. See the module documentation for the
    /// instructions that hand a [`Request`] to the caller.
    pub fn step(&mut self) -> (r: Result<Request, Traceback>)
        requires
            old(self).program().runnable(),
        ensures
            final(self).program() == old(self).program(),
            matches_outcome(
                old(self).program(),
                old(self).state(),
                final(self).state(),
                r,
                step_spec(old(self).program(), old(self).state()),
            ),
    {
        let frames = self.call_stack.len();
        if frames == 0 {
            return Ok(Request::Halt);
        }
        let pc = self.call_stack[frames - 1].pc;
        if pc >= self.program.inst_count() {
            self.call_stack.clear();
            return Ok(Request::Halt);
        }
        let inst = *self.program.inst_at(pc);
        let data = match inst {
            Instruction::Push(_) | Instruction::Dup | Instruction::Copy(_) | Instruction::Swap
            | Instruction::Pop | Instruction::Slide(_) | Instruction::Add | Instruction::Subtract
            | Instruction::Multiply | Instruction::Divide | Instruction::Modulo => true,
            _ => false,
        };
        if data {
            self.exec_data(inst, pc)
        } else {
            self.exec_other(inst, pc)
        }
    }

    /// The machine stopped at an instruction `inst` whose operand is on the stack.
    pub open spec fn awaiting(&self, inst: Instruction) -> bool {
        let st = self.state();
        &&& st.frames.len() > 0
        &&& st.frames.last().pc < self.program().insts().len()
        &&& self.program().insts()[st.frames.last().pc as int] == inst
        &&& st.stack.len() > 0
    }

    /// Completes the pending instruction: pops its operand, stores `value` (if
    /// any) at that address, and moves on
    fn complete(&mut self, value: Option<i64>)
        requires
            old(self).program().runnable(),
            old(self).state().frames.len() > 0,
            old(self).state().frames.last().pc < old(self).program().insts().len(),
            old(self).state().stack.len() > 0,
        ensures
            final(self).program == old(self).program,
            final(self).state() == completed(old(self).state(), value),
    {
        let count = self.program.inst_count();
        let frames = self.call_stack.len();
        let pc = self.call_stack[frames - 1].pc;
        let n = self.stack.len();
        let addr = self.stack[n - 1];
        self.stack.pop();
        if let Some(v) = value {
            self.heap.insert(addr, v);
        }
        // the pending instruction is at `pc`, so `pc + 1` fits
        assert(pc < count);
        self.current_frame_goto(pc + 1);
    }

    /// Hands back whether the byte or number that the last step asked to
    /// write was written
    pub fn finish_output(&mut self, written: bool) -> (r: Result<(), Traceback>)
        requires
            old(self).program().runnable(),
            old(self).awaiting(Instruction::OutputChar) || old(self).awaiting(Instruction::OutputNum),
        ensures
            final(self).program() == old(self).program(),
            written ==> r is Ok && final(self).state() == completed(old(self).state(), None),
            !written ==> failed(old(self).program(), old(self).state(), final(self).state(), r, RuntimeError::IoError),
    {
        if !written {
            return Err(self.runtime_error(RuntimeError::IoError));
        }
        self.complete(None);
        Ok(())
    }

    /// Hands back the byte that the last step asked to read, or `None` if
    /// reading failed
    pub fn finish_read_char(&mut self, byte: Option<u8>) -> (r: Result<(), Traceback>)
        requires
            old(self).program().runnable(),
            old(self).awaiting(Instruction::ReadChar),
        ensures
            final(self).program() == old(self).program(),
            match byte {
                Some(b) => r is Ok && final(self).state() == completed(old(self).state(), Some(b as i64)),
                None => failed(old(self).program(), old(self).state(), final(self).state(), r, RuntimeError::IoError),
            },
    {
        match byte {
            Some(b) => {
                self.complete(Some(b as i64));
                Ok(())
            },
            None => Err(self.runtime_error(RuntimeError::IoError)),
        }
    }

    /// Hands back the line that the last step asked to read, as read (its
    /// line terminator included), or `None` if reading failed. The line
    /// terminator and trailing white space are removed before the rest is
    /// read as a decimal integer
    pub fn finish_read_num(&mut self, line: Option<&str>) -> (r: Result<(), Traceback>)
        requires
            old(self).program().runnable(),
            old(self).awaiting(Instruction::ReadNum),
        ensures
            final(self).program() == old(self).program(),
            match line {
                Some(t) => match decimal_i64(trim_end(t.spec_bytes())) {
                    Some(v) => r is Ok && final(self).state() == completed(old(self).state(), Some(v)),
                    None => failed(
                        old(self).program(),
                        old(self).state(),
                        final(self).state(),
                        r,
                        RuntimeError::NumParseError,
                    ),
                },
                None => failed(old(self).program(), old(self).state(), final(self).state(), r, RuntimeError::IoError),
            },
    {
        match line {
            Some(t) => match parse_decimal_prefix(t.as_bytes(), trimmed_len(t)) {
                Some(v) => {
                    self.complete(Some(v));
                    Ok(())
                },
                None => Err(self.runtime_error(RuntimeError::NumParseError)),
            },
            None => Err(self.runtime_error(RuntimeError::IoError)),
        }
    }
}

} // verus!
