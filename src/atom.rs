//! Leaf records: atoms and their kind.
use vstd::prelude::*;
use vstd::string::StringExecFns;

use crate::decode::Decimal;

verus! {

/// Whether an atom came from an `ATOM` or a `HETATM` record.
#[derive(Debug, Clone, Copy, PartialEq, Eq, Structural)]
pub enum AtomType {
    ATOM,
    HETATM,
}

impl AtomType {
    /// The record label of this kind.
    pub open spec fn text(self) -> Seq<char> {
        match self {
            AtomType::ATOM => "ATOM"@,
            AtomType::HETATM => "HETATM"@,
        }
    }

    pub fn to_text(&self) -> (r: String)
        ensures
            r@ == self.text(),
    {
        match self {
            AtomType::ATOM => String::from_str("ATOM"),
            AtomType::HETATM => String::from_str("HETATM"),
        }
    }
}

/// What an atom holds, with its strings as character sequences.
pub struct AtomView {
    pub label: AtomType,
    pub number: usize,
    pub name: Seq<char>,
    pub element: Seq<char>,
    pub position: (Decimal, Decimal, Decimal),
    pub occupancy: Decimal,
}

/// One atom of a structure.
#[derive(Debug)]
pub struct Atom {
    pub label: AtomType,
    /// Atom serial number.
    pub number: usize,
    /// Atom name.
    pub name: String,
    /// Chemical element symbol.
    pub element: String,
    /// Position in space.
    pub position: (Decimal, Decimal, Decimal),
    pub occupancy: Decimal,
}

impl View for Atom {
    type V = AtomView;

    open spec fn view(&self) -> AtomView {
        AtomView {
            label: self.label,
            number: self.number,
            name: self.name@,
            element: self.element@,
            position: self.position,
            occupancy: self.occupancy,
        }
    }
}

impl Atom {
    /// The label of the record the atom came from, `"ATOM"` or `"HETATM"`.
    pub fn label(&self) -> (r: String)
        ensures
            r@ == self.label.text(),
    {
        self.label.to_text()
    }

    pub fn new(
        label: AtomType,
        number: usize,
        name: &str,
        element: &str,
        position: (Decimal, Decimal, Decimal),
        occupancy: Decimal,
    ) -> (r: Atom)
        ensures
            r@ == (AtomView { label, number, name: name@, element: element@, position, occupancy }),
    {
        Atom {
            label,
            number,
            name: String::from_str(name),
            element: String::from_str(element),
            position,
            occupancy,
        }
    }
}

impl Clone for Atom {
    fn clone(&self) -> (r: Atom)
        ensures
            r@ == self@,
    {
        Atom {
            label: self.label,
            number: self.number,
            name: self.name.clone(),
            element: self.element.clone(),
            position: self.position,
            occupancy: self.occupancy,
        }
    }
}

} // verus!
