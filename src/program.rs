//! The bytecode container produced by the parser and run by the VM.
use std::collections::HashMap;
use vstd::prelude::*;

verus! {

broadcast use vstd::std_specs::hash::group_hash_axioms;

/// One bytecode instruction. Jump and call targets are program counters.
#[derive(Copy, Clone, Debug, PartialEq, Eq, Structural)]
pub enum Instruction {
    /// Pushes the constant at this index of the constant pool.
    Push(usize),
    Dup,
    /// Pushes a copy of the value this many positions below the top.
    Copy(i64),
    Swap,
    Pop,
    /// Removes this many values directly below the top.
    Slide(i64),
    Add,
    Subtract,
    Multiply,
    Divide,
    Modulo,
    Store,
    Retrieve,
    Call(usize),
    Jump(usize),
    JumpIfZero(usize),
    JumpIfNeg(usize),
    Return,
    End,
    OutputChar,
    OutputNum,
    ReadChar,
    ReadNum,
}

/// The sequence has no value twice.
pub open spec fn unique(s: Seq<i64>) -> bool {
    forall|i: int, j: int| 0 <= i < s.len() && 0 <= j < s.len() && i != j ==> s[i] != s[j]
}

/// The pool after interning `c`: unchanged if `c` is present, else `c` appended.
pub open spec fn interned(s: Seq<i64>, c: i64) -> Seq<i64> {
    if s.contains(c) {
        s
    } else {
        s.push(c)
    }
}

/// A bytecode program: instructions with their source lines, a constant pool
/// without duplicates, and the label that each call target came from.
#[derive(Debug)]
pub struct Program {
    instructions: Vec<Instruction>,
    line_nos: Vec<usize>,
    constants: Vec<i64>,
    /// A mapping between subroutine program counters and their labels
    sub_labels: HashMap<usize, usize>,
}

impl Program {
    pub closed spec fn insts(&self) -> Seq<Instruction> {
        self.instructions@
    }

    pub closed spec fn lines(&self) -> Seq<usize> {
        self.line_nos@
    }

    pub closed spec fn consts(&self) -> Seq<i64> {
        self.constants@
    }

    pub closed spec fn sub_labels(&self) -> Map<usize, usize> {
        self.sub_labels@
    }

    /// One line per instruction and a pool without duplicates.
    pub open spec fn wf(&self) -> bool {
        &&& self.insts().len() == self.lines().len()
        &&& unique(self.consts())
    }

    /// Well formed, and every `Push` names an entry of the pool.
    pub open spec fn runnable(&self) -> bool {
        &&& self.wf()
        &&& forall|i: int|
            0 <= i < self.insts().len() ==> (#[trigger] self.insts()[i] matches Instruction::Push(k)
                ==> k < self.consts().len())
    }

    /// An empty program.
    pub fn new() -> (r: Self)
        ensures
            r.wf(),
            r.insts() == Seq::<Instruction>::empty(),
            r.lines() == Seq::<usize>::empty(),
            r.consts() == Seq::<i64>::empty(),
            r.sub_labels() == Map::<usize, usize>::empty(),
    {
        let r = Self {
            instructions: Vec::new(),
            line_nos: Vec::new(),
            constants: Vec::new(),
            sub_labels: HashMap::new(),
        };
        assert(r.sub_labels@ =~= Map::empty());
        assert(r.instructions@ =~= Seq::empty());
        assert(r.line_nos@ =~= Seq::empty());
        assert(r.constants@ =~= Seq::empty());
        r
    }

    /// Adds a new constant to the constant pool if it is not in the pool
    /// already and returns the index of the constant in the pool
    pub fn add_const(&mut self, constant: i64) -> (r: usize)
        requires
            old(self).wf(),
        ensures
            final(self).wf(),
            final(self).consts() == interned(old(self).consts(), constant),
            r < final(self).consts().len(),
            final(self).consts()[r as int] == constant,
            final(self).insts() == old(self).insts(),
            final(self).lines() == old(self).lines(),
            final(self).sub_labels() == old(self).sub_labels(),
    {
        let mut i: usize = 0;
        while i < self.constants.len()
            invariant
                i <= self.constants@.len(),
                self.constants@ == old(self).constants@,
                self.instructions@ == old(self).instructions@,
                self.line_nos@ == old(self).line_nos@,
                self.sub_labels@ == old(self).sub_labels@,
                old(self).wf(),
                forall|j: int| 0 <= j < i ==> self.constants@[j] != constant,
            decreases self.constants@.len() - i,
        {
            if self.constants[i] == constant {
                assert(self.consts().contains(constant));
                return i;
            }
            i = i + 1;
        }
        assert(!self.consts().contains(constant));
        self.constants.push(constant);
        self.constants.len() - 1
    }

    /// Fetches the constant at the given index
    pub fn get_const(&self, idx: usize) -> (r: i64)
        requires
            idx < self.consts().len(),
        ensures
            r == self.consts()[idx as int],
    {
        self.constants[idx]
    }

    /// Fetches the subroutine label for the given program counter if
    /// it exists
    pub fn get_label(&self, pc: usize) -> (r: Option<usize>)
        ensures
            r == (if self.sub_labels().contains_key(pc) {
                Some(self.sub_labels()[pc])
            } else {
                None
            }),
    {
        match self.sub_labels.get(&pc) {
            Some(l) => Some(*l),
            None => None,
        }
    }

    /// Adds a subroutine label
    pub fn add_sub_label(&mut self, pc: usize, label: usize)
        ensures
            final(self).sub_labels() == old(self).sub_labels().insert(pc, label),
            final(self).insts() == old(self).insts(),
            final(self).lines() == old(self).lines(),
            final(self).consts() == old(self).consts(),
    {
        self.sub_labels.insert(pc, label);
    }

    /// Returns a reference to the instruction at `idx`
    pub fn inst_at(&self, idx: usize) -> (r: &Instruction)
        requires
            idx < self.insts().len(),
        ensures
            *r == self.insts()[idx as int],
    {
        &self.instructions[idx]
    }

    /// Returns a mutable reference to the instruction at `idx`
    pub fn inst_at_mut(&mut self, idx: usize) -> (r: &mut Instruction)
        requires
            idx < old(self).insts().len(),
        ensures
            *r == old(self).insts()[idx as int],
            final(self).insts() == old(self).insts().update(idx as int, *final(r)),
            final(self).lines() == old(self).lines(),
            final(self).consts() == old(self).consts(),
            final(self).sub_labels() == old(self).sub_labels(),
    {
        &mut self.instructions[idx]
    }

    /// Returns the source line number of the instruction at `idx`
    pub fn line_at(&self, idx: usize) -> (r: usize)
        requires
            idx < self.lines().len(),
        ensures
            r == self.lines()[idx as int],
    {
        self.line_nos[idx]
    }

    /// Gets the number of instructions currently added to the program
    pub fn inst_count(&self) -> (r: usize)
        ensures
            r == self.insts().len(),
    {
        self.instructions.len()
    }

    /// Adds a new instruction to the program with its corresponding line
    /// number in the source
    pub fn emit(&mut self, inst: Instruction, line_no: usize)
        ensures
            final(self).insts() == old(self).insts().push(inst),
            final(self).lines() == old(self).lines().push(line_no),
            final(self).consts() == old(self).consts(),
            final(self).sub_labels() == old(self).sub_labels(),
    {
        self.line_nos.push(line_no);
        self.instructions.push(inst);
    }
}

} // verus!
