//! Chains: named sequences of residues.
use vstd::prelude::*;

use crate::atom::{Atom, AtomView};
use crate::error::IndexOutOfRange;
use crate::residue::{Residue, ResidueView};
use crate::slots::{
    absent_slots, clear_slots, find_present, lemma_slots_view, lists_present, next_present,
    present_indices, slots_view,
};

verus! {

/// What a chain holds: its identifier and its residue slots.
pub struct ChainView {
    pub name: char,
    pub residues: Seq<Option<ResidueView>>,
}

impl ChainView {
    /// The same container with every slot released.
    pub open spec fn cleared(self) -> ChainView {
        ChainView { residues: absent_slots(self.residues), ..self }
    }

    /// The chain with `r` appended to its residues.
    pub open spec fn push_residue(self, r: ResidueView) -> ChainView {
        ChainView { residues: self.residues.push(Some(r)), ..self }
    }

    /// The last residue slot is there and holds a residue.
    pub open spec fn has_open_residue(self) -> bool {
        self.residues.len() > 0 && self.residues.last() is Some
    }

    /// The chain with `a` appended to the atoms of its last residue.
    pub open spec fn push_atom(self, a: AtomView) -> ChainView
        recommends
            self.has_open_residue(),
    {
        ChainView {
            residues: self.residues.update(
                self.residues.len() - 1,
                Some(self.residues.last()->0.push_atom(a)),
            ),
            ..self
        }
    }
}

/// One chain of a structure: an ordered sequence of residue slots.
#[derive(Debug, Clone)]
pub struct Chain {
    name: char,
    residues: Vec<Option<Residue>>,
    cursor: usize,
}

impl View for Chain {
    type V = ChainView;

    closed spec fn view(&self) -> ChainView {
        ChainView { name: self.name, residues: slots_view(self.residues@) }
    }
}

impl Chain {
    /// Where iteration stands.
    pub closed spec fn cursor(&self) -> usize {
        self.cursor
    }

    pub fn new(name: char) -> (r: Chain)
        ensures
            r@ == (ChainView { name, residues: Seq::empty() }),
            r.cursor() == 0,
    {
        let r = Chain { name, residues: Vec::new(), cursor: 0 };
        assert(r@.residues =~= Seq::<Option<ResidueView>>::empty());
        r
    }

    pub fn name(&self) -> (r: char)
        ensures
            r == self@.name,
    {
        self.name
    }

    /// Appends an atom to the last residue.
    pub fn add_atom(&mut self, atom: Atom)
        requires
            old(self)@.has_open_residue(),
        ensures
            final(self)@ == old(self)@.push_atom(atom@),
            final(self).cursor() == old(self).cursor(),
    {
        proof {
            lemma_slots_view(self.residues@);
        }
        let n = self.residues.len();
        match &mut self.residues[n - 1] {
            Some(r) => r.add_atom(atom),
            None => {},
        }
        proof {
            lemma_slots_view(self.residues@);
            assert(slots_view(self.residues@) =~= old(self)@.push_atom(atom@).residues);
        }
    }

    /// Appends a residue.
    pub fn add_residue(&mut self, residue: Residue)
        ensures
            final(self)@ == old(self)@.push_residue(residue@),
            final(self).cursor() == old(self).cursor(),
    {
        self.residues.push(Some(residue));
        assert(slots_view(self.residues@) =~= slots_view(old(self).residues@).push(
            Some(residue@),
        ));
    }

    /// The number of residue slots, cleared ones included.
    pub fn len(&self) -> (r: usize)
        ensures
            r == self@.residues.len(),
    {
        self.residues.len()
    }

    /// The residue at `index`; an error past the end or at a cleared slot.
    pub fn get(&self, index: usize) -> (r: Result<&Residue, IndexOutOfRange>)
        ensures
            match r {
                Ok(x) => index < self@.residues.len() && self@.residues[index as int] == Some(x@),
                Err(e) => e == IndexOutOfRange { index } && (index >= self@.residues.len()
                    || self@.residues[index as int] is None),
            },
    {
        proof {
            lemma_slots_view(self.residues@);
        }
        if index < self.residues.len() {
            match &self.residues[index] {
                Some(x) => Ok(x),
                None => Err(IndexOutOfRange { index }),
            }
        } else {
            Err(IndexOutOfRange { index })
        }
    }

    /// Releases every residue, keeping the slots.
    pub fn clear(&mut self)
        ensures
            final(self)@ == old(self)@.cleared(),
            final(self).cursor() == old(self).cursor(),
    {
        clear_slots(&mut self.residues);
        proof {
            lemma_slots_view(self.residues@);
            assert(slots_view(self.residues@) =~= absent_slots(old(self)@.residues));
        }
    }

    /// The indices of the residues still held, in order.
    pub fn traverse(&self) -> (r: Vec<usize>)
        ensures
            lists_present(self@.residues, r@),
    {
        proof {
            lemma_slots_view(self.residues@);
        }
        present_indices(&self.residues)
    }

    /// Starts a new pass of iteration.
    pub fn rewind(&mut self)
        ensures
            final(self)@ == old(self)@,
            final(self).cursor() == 0,
    {
        self.cursor = 0;
    }

    /// The next residue held after the cursor, moving the cursor past it; `None` at the end.
    pub fn advance(&mut self) -> (r: Option<&Residue>)
        ensures
            final(self)@ == old(self)@,
            match r {
                Some(x) => exists|j: int|
                    next_present(old(self)@.residues, old(self).cursor() as int, j)
                        && old(self)@.residues[j] == Some(x@) && final(self).cursor() == j + 1,
                None => (forall|k: int|
                    old(self).cursor() <= k < old(self)@.residues.len() ==> (#[trigger] old(
                        self,
                    )@.residues[k]) is None) && final(self).cursor() == (if old(self).cursor()
                    < old(self)@.residues.len() {
                    old(self)@.residues.len() as usize
                } else {
                    old(self).cursor()
                }),
            },
    {
        proof {
            lemma_slots_view(self.residues@);
        }
        let n = self.residues.len();
        match find_present(&self.residues, self.cursor) {
            Some(j) => {
                self.cursor = j + 1;
                match &self.residues[j] {
                    Some(x) => Some(x),
                    None => None,
                }
            },
            None => {
                if self.cursor < n {
                    self.cursor = n;
                }
                None
            },
        }
    }
}

/// Releasing the children twice leaves the container as releasing them once does: every
/// slot absent, the length unchanged.
pub proof fn lemma_chain_clear_twice(x: ChainView)
    ensures
        x.cleared().cleared() == x.cleared(),
        x.cleared().residues.len() == x.residues.len(),
{
    assert(x.cleared().cleared().residues =~= x.cleared().residues);
}

} // verus!
