//! The hierarchy builder: places each decoded atom record in the tree.
use vstd::prelude::*;

use crate::atom::{Atom, AtomView};
use crate::chain::{Chain, ChainView};
use crate::residue::{Residue, ResidueView};
use crate::structure::{Structure, StructureView};

verus! {

/// What an `ATOM`/`HETATM` line says: the atom, and where it belongs.
pub struct AtomRecordView {
    pub atom: AtomView,
    pub chain_id: char,
    pub residue_number: isize,
    pub residue_name: Seq<char>,
}

/// A decoded `ATOM`/`HETATM` line.
#[derive(Debug)]
pub struct AtomRecord {
    pub atom: Atom,
    pub chain_id: char,
    pub residue_number: isize,
    pub residue_name: String,
}

impl View for AtomRecord {
    type V = AtomRecordView;

    open spec fn view(&self) -> AtomRecordView {
        AtomRecordView {
            atom: self.atom@,
            chain_id: self.chain_id,
            residue_number: self.residue_number,
            residue_name: self.residue_name@,
        }
    }
}

/// What the builder remembers between records: the chain identifier and the residue
/// number of the last atom placed, `None` before the first.
#[derive(Debug, Clone, Copy, PartialEq, Eq, Structural)]
pub struct BuildState {
    pub last_chain: Option<char>,
    pub last_residue: Option<isize>,
}

impl BuildState {
    pub open spec fn initial() -> BuildState {
        BuildState { last_chain: None, last_residue: None }
    }

    pub fn new() -> (r: BuildState)
        ensures
            r == BuildState::initial(),
    {
        BuildState { last_chain: None, last_residue: None }
    }

    /// The structure has the chain and the residue that the state refers to: the last ones.
    pub open spec fn fits(self, s: StructureView) -> bool {
        &&& self.last_chain is Some ==> s.has_open_chain()
        &&& self.last_residue is Some ==> s.has_open_residue()
    }
}

/// The residue that a record opens.
pub open spec fn opened_residue(rec: AtomRecordView) -> ResidueView {
    ResidueView { number: rec.residue_number, name: rec.residue_name, atoms: Seq::empty() }
}

/// One step of the builder.
///
/// An atom whose chain identifier differs from the last one opens a new chain, holding a
/// new residue, whatever its residue number. Otherwise an atom whose residue number equals
/// the last one joins the last residue, and any other opens a new residue in the last chain.
pub open spec fn build_step(s: StructureView, st: BuildState, rec: AtomRecordView) -> (
    StructureView,
    BuildState,
) {
    if st.last_chain != Some(rec.chain_id) {
        (
            s.push_chain(ChainView { name: rec.chain_id, residues: Seq::empty() }).push_residue(
                opened_residue(rec),
            ).push_atom(rec.atom),
            BuildState { last_chain: Some(rec.chain_id), last_residue: Some(rec.residue_number) },
        )
    } else if st.last_residue == Some(rec.residue_number) {
        (s.push_atom(rec.atom), st)
    } else {
        (
            s.push_residue(opened_residue(rec)).push_atom(rec.atom),
            BuildState { last_residue: Some(rec.residue_number), ..st },
        )
    }
}

/// Places one record in the structure, as `build_step` says.
pub fn add_atom_record(structure: &mut Structure, state: &mut BuildState, record: AtomRecord)
    requires
        old(state).fits(old(structure)@),
    ensures
        (final(structure)@, *final(state)) == build_step(old(structure)@, *old(state), record@),
        final(state).fits(final(structure)@),
        final(structure).cursor() == old(structure).cursor(),
{
    let ghost rec = record@;
    let AtomRecord { atom, chain_id, residue_number, residue_name } = record;
    if state.last_chain != Some(chain_id) {
        structure.add_chain(Chain::new(chain_id));
        structure.add_residue(Residue::new(residue_number, residue_name.as_str()));
        structure.add_atom(atom);
        state.last_chain = Some(chain_id);
        state.last_residue = Some(residue_number);
    } else if state.last_residue == Some(residue_number) {
        structure.add_atom(atom);
    } else {
        structure.add_residue(Residue::new(residue_number, residue_name.as_str()));
        structure.add_atom(atom);
        state.last_residue = Some(residue_number);
    }
}

/// A record whose chain identifier differs from the last one opens a new chain, holding one
/// new residue with the record's atom, whatever its residue number.
pub proof fn lemma_new_chain(s: StructureView, st: BuildState, rec: AtomRecordView)
    requires
        st.last_chain != Some(rec.chain_id),
    ensures
        build_step(s, st, rec).0.chains == s.chains.push(
            Some(
                ChainView {
                    name: rec.chain_id,
                    residues: seq![
                        Some(
                            ResidueView {
                                number: rec.residue_number,
                                name: rec.residue_name,
                                atoms: seq![Some(rec.atom)],
                            },
                        ),
                    ],
                },
            ),
        ),
        build_step(s, st, rec).1 == (BuildState {
            last_chain: Some(rec.chain_id),
            last_residue: Some(rec.residue_number),
        }),
{
    let s1 = s.push_chain(ChainView { name: rec.chain_id, residues: Seq::empty() });
    let s2 = s1.push_residue(opened_residue(rec));
    let c2 = s2.chains.last()->0;
    assert(c2.residues =~= seq![Some(opened_residue(rec))]);
    assert(c2.push_atom(rec.atom).residues =~= seq![
        Some(
            ResidueView {
                number: rec.residue_number,
                name: rec.residue_name,
                atoms: seq![Some(rec.atom)],
            },
        ),
    ]) by {
        assert(opened_residue(rec).push_atom(rec.atom).atoms =~= seq![Some(rec.atom)]);
    }
    assert(build_step(s, st, rec).0.chains =~= s.chains.push(
        Some(c2.push_atom(rec.atom)),
    ));
}

} // verus!
