//! Parse-time bookkeeping of label declarations and unresolved references.
use std::collections::HashMap;
use vstd::prelude::*;

verus! {

broadcast use vstd::std_specs::hash::group_hash_axioms;

/// No two references share an instruction index.
pub open spec fn distinct_indices(refs: Seq<(usize, usize)>) -> bool {
    forall|a: int, b: int|
        0 <= a < refs.len() && 0 <= b < refs.len() && a != b ==> (#[trigger] refs[a]).0 != (
        #[trigger] refs[b]).0
}

/// The position of the reference from instruction `idx`, if there is one.
pub open spec fn index_of_ref(refs: Seq<(usize, usize)>, idx: usize) -> Option<int> {
    if exists|j: int| 0 <= j < refs.len() && (#[trigger] refs[j]).0 == idx {
        Some(choose|j: int| 0 <= j < refs.len() && (#[trigger] refs[j]).0 == idx)
    } else {
        None
    }
}

/// With distinct indices, the reference from `idx` is the one found at `j`.
pub proof fn lemma_index_of_ref(refs: Seq<(usize, usize)>, idx: usize, j: int)
    requires
        distinct_indices(refs),
        0 <= j < refs.len(),
        refs[j].0 == idx,
    ensures
        index_of_ref(refs, idx) == Some(j),
{
    let k = choose|k: int| 0 <= k < refs.len() && (#[trigger] refs[k]).0 == idx;
    assert(refs[k].0 == refs[j].0);
}

/// No reference from `idx` is recorded.
pub proof fn lemma_index_of_ref_none(refs: Seq<(usize, usize)>, idx: usize)
    requires
        forall|k: int| 0 <= k < refs.len() ==> (#[trigger] refs[k]).0 != idx,
    ensures
        index_of_ref(refs, idx) == None::<int>,
{
}

/// Represents a mapping between program labels, their
/// associated program counters, and the program instructions
/// containing jump targets
pub struct LabelMap {
    pc_map: HashMap<usize, usize>,
    inst_list: Vec<(usize, usize)>,
}

impl LabelMap {
    /// The declared labels and their program counters.
    pub closed spec fn pcs(&self) -> Map<usize, usize> {
        self.pc_map@
    }

    /// The references recorded so far, as `(instruction index, label)` in
    /// the order they were added.
    pub closed spec fn refs(&self) -> Seq<(usize, usize)> {
        self.inst_list@
    }

    /// No instruction index is recorded twice.
    pub open spec fn wf(&self) -> bool {
        distinct_indices(self.refs())
    }

    /// Creates a new `LabelMap`
    pub fn new() -> (r: Self)
        ensures
            r.wf(),
            r.pcs() == Map::<usize, usize>::empty(),
            r.refs() == Seq::<(usize, usize)>::empty(),
    {
        let r = Self { pc_map: HashMap::new(), inst_list: Vec::new() };
        assert(r.pc_map@ =~= Map::empty());
        assert(r.inst_list@ =~= Seq::empty());
        r
    }

    /// Gets the corresponding program counter for a given label
    /// Returns `None` if the given label was never marked in the
    /// program
    pub fn get_pc(&self, label: usize) -> (r: Option<usize>)
        ensures
            r == (if self.pcs().contains_key(label) {
                Some(self.pcs()[label])
            } else {
                None
            }),
    {
        match self.pc_map.get(&label) {
            Some(pc) => Some(*pc),
            None => None,
        }
    }

    /// The recorded references `(idx, label)`, where `idx` is the index of
    /// a jump instruction in the current program and `label` the label it
    /// refers to, in the order they were added
    pub fn iter_insts(&self) -> (r: &Vec<(usize, usize)>)
        ensures
            r@ == self.refs(),
    {
        &self.inst_list
    }

    /// Adds a mapping from the index of a given jump instruction in the
    /// current program to its corresponding label that eventually needs
    /// to be resolved to a particular program counter; a later reference
    /// from the same index replaces the earlier one, in its place
    pub fn add_inst(&mut self, idx: usize, label: usize)
        requires
            old(self).wf(),
        ensures
            final(self).wf(),
            final(self).refs() == match index_of_ref(old(self).refs(), idx) {
                Some(j) => old(self).refs().update(j, (idx, label)),
                None => old(self).refs().push((idx, label)),
            },
            final(self).pcs() == old(self).pcs(),
    {
        let mut j: usize = 0;
        while j < self.inst_list.len()
            invariant
                j <= self.inst_list@.len(),
                self.inst_list@ == old(self).inst_list@,
                self.pc_map@ == old(self).pc_map@,
                distinct_indices(self.inst_list@),
                forall|k: int| 0 <= k < j ==> (#[trigger] self.inst_list@[k]).0 != idx,
            decreases self.inst_list@.len() - j,
        {
            if self.inst_list[j].0 == idx {
                proof {
                    lemma_index_of_ref(self.inst_list@, idx, j as int);
                }
                self.inst_list.set(j, (idx, label));
                proof {
                    let r = self.inst_list@;
                    assert forall|a: int, b: int|
                        0 <= a < r.len() && 0 <= b < r.len() && a != b implies (#[trigger] r[a]).0
                        != (#[trigger] r[b]).0 by {
                        assert(old(self).inst_list@[a].0 == r[a].0);
                        assert(old(self).inst_list@[b].0 == r[b].0);
                    }
                }
                return;
            }
            j = j + 1;
        }
        proof {
            lemma_index_of_ref_none(self.inst_list@, idx);
        }
        self.inst_list.push((idx, label));
        proof {
            let r = self.inst_list@;
            assert forall|a: int, b: int|
                0 <= a < r.len() && 0 <= b < r.len() && a != b implies (#[trigger] r[a]).0 != (
                #[trigger] r[b]).0 by {
                if a < r.len() - 1 && b < r.len() - 1 {
                    assert(r[a] == old(self).inst_list@[a]);
                    assert(r[b] == old(self).inst_list@[b]);
                } else if a < r.len() - 1 {
                    assert(r[a] == old(self).inst_list@[a]);
                } else {
                    assert(r[b] == old(self).inst_list@[b]);
                }
            }
        }
    }

    /// Adds a mapping from a given label to its corresponding program counter;
    /// a later declaration of the same label replaces an earlier one
    pub fn add_label(&mut self, label: usize, pc: usize)
        ensures
            final(self).pcs() == old(self).pcs().insert(label, pc),
            final(self).refs() == old(self).refs(),
            final(self).wf() == old(self).wf(),
    {
        self.pc_map.insert(label, pc);
    }
}

} // verus!
