use nanopdb::atom::{Atom, AtomType};
use nanopdb::builder::{add_atom_record, AtomRecord, BuildState};
use nanopdb::chain::Chain;
use nanopdb::decode::Decimal;
use nanopdb::error::IndexOutOfRange;
use nanopdb::residue::Residue;
use nanopdb::structure::Structure;
use nanopdb::unit_cell::UnitCell;

fn zero() -> Decimal {
    Decimal { negative: false, magnitude: 0, scale: 0 }
}

fn atom(number: usize) -> Atom {
    Atom::new(AtomType::ATOM, number, "CA", "C", (zero(), zero(), zero()), zero())
}

fn record(number: usize, chain_id: char, residue_number: isize) -> AtomRecord {
    AtomRecord {
        atom: atom(number),
        chain_id,
        residue_number,
        residue_name: "GLY".to_string(),
    }
}

#[test]
fn residue_slots() {
    let mut r = Residue::new(-3, "ALA");
    assert_eq!(r.number(), -3);
    assert_eq!(r.name().as_str(), "ALA");
    r.add_atom(atom(1));
    r.add_atom(atom(2));
    r.add_atom(atom(3));
    assert_eq!(r.len(), 3);
    assert_eq!(r.traverse(), vec![0, 1, 2]);
    r.rewind();
    assert_eq!(r.advance().unwrap().number, 1);
    assert_eq!(r.advance().unwrap().number, 2);
    r.rewind();
    assert_eq!(r.advance().unwrap().number, 1);
    r.clear();
    assert_eq!(r.len(), 3);
    assert_eq!(r.traverse(), Vec::<usize>::new());
    assert_eq!(r.get(0).unwrap_err(), IndexOutOfRange { index: 0 });
    r.clear();
    assert_eq!(r.len(), 3);
    assert!(r.advance().is_none());
}

#[test]
fn chain_slots() {
    let mut c = Chain::new('H');
    assert_eq!(c.name(), 'H');
    c.add_residue(Residue::new(1, "GLY"));
    c.add_atom(atom(1));
    c.add_residue(Residue::new(2, "SER"));
    c.add_atom(atom(2));
    c.add_atom(atom(3));
    assert_eq!(c.len(), 2);
    assert_eq!(c.get(1).unwrap().len(), 2);
    assert_eq!(c.get(5).unwrap_err(), IndexOutOfRange { index: 5 });
    c.rewind();
    assert_eq!(c.advance().unwrap().number(), 1);
    assert_eq!(c.advance().unwrap().number(), 2);
    assert!(c.advance().is_none());
    c.clear();
    c.clear();
    assert_eq!(c.len(), 2);
    assert_eq!(c.traverse(), Vec::<usize>::new());
}

#[test]
fn structure_building_by_hand() {
    let mut s = Structure::new();
    s.set_header("1ABC", "HYDROLASE", "01-JAN-99");
    assert_eq!(s.pdbid().as_str(), "1ABC");
    assert_eq!(s.classification().as_str(), "HYDROLASE");
    assert_eq!(s.date().as_str(), "01-JAN-99");
    let d = Decimal { negative: false, magnitude: 9000, scale: 2 };
    s.set_unit_cell(UnitCell::new(d, d, d, d, d, d));
    assert_eq!(s.unit_cell().unwrap().gamma, d);
    s.add_chain(Chain::new('A'));
    s.add_residue(Residue::new(1, "GLY"));
    s.add_atom(atom(1));
    assert_eq!(s.get(0).unwrap().get(0).unwrap().get(0).unwrap().number, 1);
}

#[test]
fn builder_steps() {
    let mut s = Structure::new();
    let mut st = BuildState::new();
    assert_eq!(st, BuildState { last_chain: None, last_residue: None });
    add_atom_record(&mut s, &mut st, record(1, 'A', 10));
    add_atom_record(&mut s, &mut st, record(2, 'A', 10));
    add_atom_record(&mut s, &mut st, record(3, 'A', 11));
    add_atom_record(&mut s, &mut st, record(4, 'B', 10));
    assert_eq!(st, BuildState { last_chain: Some('B'), last_residue: Some(10) });
    assert_eq!(s.len(), 2);
    let a = s.get(0).unwrap();
    assert_eq!(a.len(), 2);
    assert_eq!(a.get(0).unwrap().len(), 2);
    assert_eq!(a.get(1).unwrap().number(), 11);
    let b = s.get(1).unwrap();
    assert_eq!(b.name(), 'B');
    assert_eq!(b.get(0).unwrap().number(), 10);
    assert_eq!(b.get(0).unwrap().get(0).unwrap().number, 4);
}

#[test]
fn atom_label_text() {
    assert_eq!(atom(1).label(), "ATOM");
    let het = Atom::new(AtomType::HETATM, 9, "O", "O", (zero(), zero(), zero()), zero());
    assert_eq!(het.label(), "HETATM");
    assert_eq!(het.clone().number, 9);
}

#[test]
fn cursor_stays_at_end_after_exhaustion() {
    let mut r = Residue::new(1, "GLY");
    r.add_atom(atom(1));
    r.rewind();
    assert_eq!(r.advance().unwrap().number, 1);
    assert!(r.advance().is_none());
    r.add_atom(atom(2));
    assert_eq!(r.advance().unwrap().number, 2);
    assert!(r.advance().is_none());
    assert!(r.advance().is_none());
}
