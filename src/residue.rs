//! Residues: numbered groups of atoms.
use vstd::prelude::*;
use vstd::string::StringExecFns;

use crate::atom::{Atom, AtomView};
use crate::error::IndexOutOfRange;
use crate::slots::{
    absent_slots, clear_slots, find_present, lemma_slots_view, lists_present, next_present,
    present_indices, slots_view,
};

verus! {

/// What a residue holds: its number, its name, and its atom slots.
pub struct ResidueView {
    pub number: isize,
    pub name: Seq<char>,
    pub atoms: Seq<Option<AtomView>>,
}

impl ResidueView {
    /// The same container with every slot released.
    pub open spec fn cleared(self) -> ResidueView {
        ResidueView { atoms: absent_slots(self.atoms), ..self }
    }

    /// The residue with `a` appended to its atoms.
    pub open spec fn push_atom(self, a: AtomView) -> ResidueView {
        ResidueView { atoms: self.atoms.push(Some(a)), ..self }
    }
}

/// One residue of a chain: an ordered sequence of atom slots.
#[derive(Debug, Clone)]
pub struct Residue {
    number: isize,
    name: String,
    atoms: Vec<Option<Atom>>,
    cursor: usize,
}

impl View for Residue {
    type V = ResidueView;

    closed spec fn view(&self) -> ResidueView {
        ResidueView { number: self.number, name: self.name@, atoms: slots_view(self.atoms@) }
    }
}

impl Residue {
    /// Where iteration stands.
    pub closed spec fn cursor(&self) -> usize {
        self.cursor
    }

    pub fn new(number: isize, name: &str) -> (r: Residue)
        ensures
            r@ == (ResidueView { number, name: name@, atoms: Seq::empty() }),
            r.cursor() == 0,
    {
        let r = Residue { number, name: String::from_str(name), atoms: Vec::new(), cursor: 0 };
        assert(r@.atoms =~= Seq::<Option<AtomView>>::empty());
        r
    }

    pub fn number(&self) -> (r: isize)
        ensures
            r == self@.number,
    {
        self.number
    }

    pub fn name(&self) -> (r: &String)
        ensures
            r@ == self@.name,
    {
        &self.name
    }

    /// Appends an atom.
    pub fn add_atom(&mut self, atom: Atom)
        ensures
            final(self)@ == old(self)@.push_atom(atom@),
            final(self).cursor() == old(self).cursor(),
    {
        self.atoms.push(Some(atom));
        assert(slots_view(self.atoms@) =~= slots_view(old(self).atoms@).push(Some(atom@)));
    }

    /// The number of atom slots, cleared ones included.
    pub fn len(&self) -> (r: usize)
        ensures
            r == self@.atoms.len(),
    {
        self.atoms.len()
    }

    /// The atom at `index`; an error past the end or at a cleared slot.
    pub fn get(&self, index: usize) -> (r: Result<&Atom, IndexOutOfRange>)
        ensures
            match r {
                Ok(a) => index < self@.atoms.len() && self@.atoms[index as int] == Some(a@),
                Err(e) => e == IndexOutOfRange { index } && (index >= self@.atoms.len()
                    || self@.atoms[index as int] is None),
            },
    {
        proof {
            lemma_slots_view(self.atoms@);
        }
        if index < self.atoms.len() {
            match &self.atoms[index] {
                Some(a) => Ok(a),
                None => Err(IndexOutOfRange { index }),
            }
        } else {
            Err(IndexOutOfRange { index })
        }
    }

    /// Releases every atom, keeping the slots.
    pub fn clear(&mut self)
        ensures
            final(self)@ == old(self)@.cleared(),
            final(self).cursor() == old(self).cursor(),
    {
        clear_slots(&mut self.atoms);
        proof {
            lemma_slots_view(self.atoms@);
            assert(slots_view(self.atoms@) =~= absent_slots(old(self)@.atoms));
        }
    }

    /// The indices of the atoms still held, in order.
    pub fn traverse(&self) -> (r: Vec<usize>)
        ensures
            lists_present(self@.atoms, r@),
    {
        proof {
            lemma_slots_view(self.atoms@);
        }
        present_indices(&self.atoms)
    }

    /// Starts a new pass of iteration.
    pub fn rewind(&mut self)
        ensures
            final(self)@ == old(self)@,
            final(self).cursor() == 0,
    {
        self.cursor = 0;
    }

    /// The next atom held after the cursor, moving the cursor past it; `None` at the end.
    pub fn advance(&mut self) -> (r: Option<&Atom>)
        ensures
            final(self)@ == old(self)@,
            match r {
                Some(a) => exists|j: int|
                    next_present(old(self)@.atoms, old(self).cursor() as int, j)
                        && old(self)@.atoms[j] == Some(a@) && final(self).cursor() == j + 1,
                None => (forall|k: int|
                    old(self).cursor() <= k < old(self)@.atoms.len() ==> (#[trigger] old(
                        self,
                    )@.atoms[k]) is None) && final(self).cursor() == (if old(self).cursor()
                    < old(self)@.atoms.len() {
                    old(self)@.atoms.len() as usize
                } else {
                    old(self).cursor()
                }),
            },
    {
        proof {
            lemma_slots_view(self.atoms@);
        }
        let n = self.atoms.len();
        match find_present(&self.atoms, self.cursor) {
            Some(j) => {
                self.cursor = j + 1;
                match &self.atoms[j] {
                    Some(a) => Some(a),
                    None => None,
                }
            },
            None => {
                if self.cursor < n {
                    self.cursor = n;
                }
                None
            },
        }
    }
}

/// Releasing the children twice leaves the container as releasing them once does: every
/// slot absent, the length unchanged.
pub proof fn lemma_residue_clear_twice(x: ResidueView)
    ensures
        x.cleared().cleared() == x.cleared(),
        x.cleared().atoms.len() == x.atoms.len(),
{
    assert(x.cleared().cleared().atoms =~= x.cleared().atoms);
}

} // verus!
