//! Structures: the root of the tree, with header data, a unit cell and chains.
use vstd::prelude::*;
use vstd::string::StringExecFns;

use crate::atom::{Atom, AtomView};
use crate::chain::{Chain, ChainView};
use crate::error::IndexOutOfRange;
use crate::residue::{Residue, ResidueView};
use crate::slots::{
    absent_slots, clear_slots, find_present, lemma_slots_view, lists_present, next_present,
    present_indices, slots_view,
};
use crate::unit_cell::UnitCell;

verus! {

/// What a structure holds: header fields, an optional unit cell and its chain slots.
pub struct StructureView {
    pub pdbid: Seq<char>,
    pub classification: Seq<char>,
    pub date: Seq<char>,
    pub unit_cell: Option<UnitCell>,
    pub chains: Seq<Option<ChainView>>,
}

impl StructureView {
    /// The same container with every slot released.
    pub open spec fn cleared(self) -> StructureView {
        StructureView { unit_cell: None, chains: absent_slots(self.chains), ..self }
    }

    /// A structure with empty header fields, no unit cell and no chains.
    pub open spec fn empty() -> StructureView {
        StructureView {
            pdbid: Seq::empty(),
            classification: Seq::empty(),
            date: Seq::empty(),
            unit_cell: None,
            chains: Seq::empty(),
        }
    }

    pub open spec fn push_chain(self, c: ChainView) -> StructureView {
        StructureView { chains: self.chains.push(Some(c)), ..self }
    }

    /// The last chain slot is there and holds a chain.
    pub open spec fn has_open_chain(self) -> bool {
        self.chains.len() > 0 && self.chains.last() is Some
    }

    /// The last chain is there and so is its last residue.
    pub open spec fn has_open_residue(self) -> bool {
        self.has_open_chain() && self.chains.last()->0.has_open_residue()
    }

    /// The structure with `r` appended to the residues of its last chain.
    pub open spec fn push_residue(self, r: ResidueView) -> StructureView
        recommends
            self.has_open_chain(),
    {
        StructureView {
            chains: self.chains.update(
                self.chains.len() - 1,
                Some(self.chains.last()->0.push_residue(r)),
            ),
            ..self
        }
    }

    /// The structure with `a` appended to the last residue of its last chain.
    pub open spec fn push_atom(self, a: AtomView) -> StructureView
        recommends
            self.has_open_residue(),
    {
        StructureView {
            chains: self.chains.update(
                self.chains.len() - 1,
                Some(self.chains.last()->0.push_atom(a)),
            ),
            ..self
        }
    }
}

/// A parsed structure: the root of the `Structure -> Chain -> Residue -> Atom` tree.
#[derive(Debug, Clone)]
pub struct Structure {
    pdbid: String,
    classification: String,
    date: String,
    unit_cell: Option<UnitCell>,
    chains: Vec<Option<Chain>>,
    cursor: usize,
}

impl View for Structure {
    type V = StructureView;

    closed spec fn view(&self) -> StructureView {
        StructureView {
            pdbid: self.pdbid@,
            classification: self.classification@,
            date: self.date@,
            unit_cell: self.unit_cell,
            chains: slots_view(self.chains@),
        }
    }
}

impl Structure {
    /// Where iteration stands.
    pub closed spec fn cursor(&self) -> usize {
        self.cursor
    }

    pub fn new() -> (r: Structure)
        ensures
            r@ == StructureView::empty(),
            r.cursor() == 0,
    {
        let r = Structure {
            pdbid: String::new(),
            classification: String::new(),
            date: String::new(),
            unit_cell: None,
            chains: Vec::new(),
            cursor: 0,
        };
        assert(r@.chains =~= Seq::<Option<ChainView>>::empty());
        r
    }

    pub fn pdbid(&self) -> (r: &String)
        ensures
            r@ == self@.pdbid,
    {
        &self.pdbid
    }

    pub fn classification(&self) -> (r: &String)
        ensures
            r@ == self@.classification,
    {
        &self.classification
    }

    pub fn date(&self) -> (r: &String)
        ensures
            r@ == self@.date,
    {
        &self.date
    }

    /// The unit cell, if one was set.
    pub fn unit_cell(&self) -> (r: Option<UnitCell>)
        ensures
            r == self@.unit_cell,
    {
        self.unit_cell
    }

    /// Replaces the three header fields.
    pub fn set_header(&mut self, pdbid: &str, classification: &str, date: &str)
        ensures
            final(self)@ == (StructureView {
                pdbid: pdbid@,
                classification: classification@,
                date: date@,
                ..old(self)@
            }),
            final(self).cursor() == old(self).cursor(),
    {
        self.pdbid = String::from_str(pdbid);
        self.classification = String::from_str(classification);
        self.date = String::from_str(date);
    }

    /// Replaces the unit cell.
    pub fn set_unit_cell(&mut self, unit_cell: UnitCell)
        ensures
            final(self)@ == (StructureView { unit_cell: Some(unit_cell), ..old(self)@ }),
            final(self).cursor() == old(self).cursor(),
    {
        self.unit_cell = Some(unit_cell);
    }

    /// Appends an atom to the last residue of the last chain.
    pub fn add_atom(&mut self, atom: Atom)
        requires
            old(self)@.has_open_residue(),
        ensures
            final(self)@ == old(self)@.push_atom(atom@),
            final(self).cursor() == old(self).cursor(),
    {
        proof {
            lemma_slots_view(self.chains@);
        }
        let n = self.chains.len();
        match &mut self.chains[n - 1] {
            Some(c) => c.add_atom(atom),
            None => {},
        }
        proof {
            lemma_slots_view(self.chains@);
            assert(slots_view(self.chains@) =~= old(self)@.push_atom(atom@).chains);
        }
    }

    /// Appends a residue to the last chain.
    pub fn add_residue(&mut self, residue: Residue)
        requires
            old(self)@.has_open_chain(),
        ensures
            final(self)@ == old(self)@.push_residue(residue@),
            final(self).cursor() == old(self).cursor(),
    {
        proof {
            lemma_slots_view(self.chains@);
        }
        let n = self.chains.len();
        match &mut self.chains[n - 1] {
            Some(c) => c.add_residue(residue),
            None => {},
        }
        proof {
            lemma_slots_view(self.chains@);
            assert(slots_view(self.chains@) =~= old(self)@.push_residue(residue@).chains);
        }
    }

    /// Appends a chain.
    pub fn add_chain(&mut self, chain: Chain)
        ensures
            final(self)@ == old(self)@.push_chain(chain@),
            final(self).cursor() == old(self).cursor(),
    {
        self.chains.push(Some(chain));
        assert(slots_view(self.chains@) =~= slots_view(old(self).chains@).push(Some(chain@)));
    }

    /// The number of chain slots, cleared ones included.
    pub fn len(&self) -> (r: usize)
        ensures
            r == self@.chains.len(),
    {
        self.chains.len()
    }

    /// The chain at `index`; an error past the end or at a cleared slot.
    pub fn get(&self, index: usize) -> (r: Result<&Chain, IndexOutOfRange>)
        ensures
            match r {
                Ok(x) => index < self@.chains.len() && self@.chains[index as int] == Some(x@),
                Err(e) => e == IndexOutOfRange { index } && (index >= self@.chains.len()
                    || self@.chains[index as int] is None),
            },
    {
        proof {
            lemma_slots_view(self.chains@);
        }
        if index < self.chains.len() {
            match &self.chains[index] {
                Some(x) => Ok(x),
                None => Err(IndexOutOfRange { index }),
            }
        } else {
            Err(IndexOutOfRange { index })
        }
    }

    /// Releases the unit cell and every chain, keeping the chain slots.
    pub fn clear(&mut self)
        ensures
            final(self)@ == old(self)@.cleared(),
            final(self).cursor() == old(self).cursor(),
    {
        self.unit_cell = None;
        clear_slots(&mut self.chains);
        proof {
            lemma_slots_view(self.chains@);
            assert(slots_view(self.chains@) =~= absent_slots(old(self)@.chains));
        }
    }

    /// Whether a unit cell is held, and the indices of the chains still held, in order.
    pub fn traverse(&self) -> (r: (bool, Vec<usize>))
        ensures
            r.0 == self@.unit_cell is Some,
            lists_present(self@.chains, r.1@),
    {
        proof {
            lemma_slots_view(self.chains@);
        }
        (self.unit_cell.is_some(), present_indices(&self.chains))
    }

    /// Starts a new pass of iteration.
    pub fn rewind(&mut self)
        ensures
            final(self)@ == old(self)@,
            final(self).cursor() == 0,
    {
        self.cursor = 0;
    }

    /// The next chain held after the cursor, moving the cursor past it; `None` at the end.
    pub fn advance(&mut self) -> (r: Option<&Chain>)
        ensures
            final(self)@ == old(self)@,
            match r {
                Some(x) => exists|j: int|
                    next_present(old(self)@.chains, old(self).cursor() as int, j)
                        && old(self)@.chains[j] == Some(x@) && final(self).cursor() == j + 1,
                None => (forall|k: int|
                    old(self).cursor() <= k < old(self)@.chains.len() ==> (#[trigger] old(
                        self,
                    )@.chains[k]) is None) && final(self).cursor() == (if old(self).cursor()
                    < old(self)@.chains.len() {
                    old(self)@.chains.len() as usize
                } else {
                    old(self).cursor()
                }),
            },
    {
        proof {
            lemma_slots_view(self.chains@);
        }
        let n = self.chains.len();
        match find_present(&self.chains, self.cursor) {
            Some(j) => {
                self.cursor = j + 1;
                match &self.chains[j] {
                    Some(x) => Some(x),
                    None => None,
                }
            },
            None => {
                if self.cursor < n {
                    self.cursor = n;
                }
                None
            },
        }
    }
}

/// Releasing the children twice leaves the container as releasing them once does: every
/// slot absent, the length unchanged.
pub proof fn lemma_structure_clear_twice(x: StructureView)
    ensures
        x.cleared().cleared() == x.cleared(),
        x.cleared().chains.len() == x.chains.len(),
{
    assert(x.cleared().cleared().chains =~= x.cleared().chains);
}

} // verus!
