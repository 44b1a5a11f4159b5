use nanopdb::atom::AtomType;
use nanopdb::decode::Decimal;
use nanopdb::error::{IndexOutOfRange, ParseError, RecordKind};
use nanopdb::parser::{parse_pdb, Parser};
use nanopdb::structure::Structure;

const HEADER_1ZHY: &str =
    "HEADER    LIPID BINDING PROTEIN                   26-APR-05   1ZHY";

fn atom_line(label: &str, serial: usize, name: &str, chain: char, residue: &str) -> String {
    format!(
        "{:<6}{:>5} {:<4} {:>3} {}{:>4}    {:>8}{:>8}{:>8}{:>6}{:>6}          {:>2}  ",
        label, serial, name, "MET", chain, residue, "38.198", "19.582", "-28.222", "1.00", "38.18", "N"
    )
}

fn parse(text: &str) -> Result<Structure, ParseError> {
    Parser::__new__().parse(text)
}

fn dec(value: i64, scale: usize) -> Decimal {
    Decimal { negative: value < 0, magnitude: value.unsigned_abs(), scale }
}

#[test]
fn header_fields() {
    assert_eq!(HEADER_1ZHY.len(), 66);
    let s = parse(HEADER_1ZHY).unwrap();
    assert_eq!(s.pdbid().as_str(), "1ZHY");
    assert_eq!(s.classification().as_str(), "LIPID BINDING PROTEIN");
    assert_eq!(s.date().as_str(), "26-APR-05");
    assert_eq!(s.len(), 0);
    assert!(s.unit_cell().is_none());
}

#[test]
fn empty_text_gives_empty_structure() {
    let s = parse("").unwrap();
    assert_eq!(s.pdbid().as_str(), "");
    assert_eq!(s.classification().as_str(), "");
    assert_eq!(s.date().as_str(), "");
    assert_eq!(s.len(), 0);
}

#[test]
fn last_header_wins() {
    let second = HEADER_1ZHY.replace("1ZHY", "2ABC");
    let s = parse(&format!("{}\n{}\n", HEADER_1ZHY, second)).unwrap();
    assert_eq!(s.pdbid().as_str(), "2ABC");
}

#[test]
fn two_atoms_one_residue() {
    let text = format!(
        "{}\n{}\n",
        atom_line("ATOM", 1, "N", 'A', "10"),
        atom_line("ATOM", 2, "CA", 'A', "10")
    );
    let s = parse(&text).unwrap();
    assert_eq!(s.len(), 1);
    let chain = s.get(0).unwrap();
    assert_eq!(chain.name(), 'A');
    assert_eq!(chain.len(), 1);
    let residue = chain.get(0).unwrap();
    assert_eq!(residue.number(), 10);
    assert_eq!(residue.name().as_str(), "MET");
    assert_eq!(residue.len(), 2);
    let first = residue.get(0).unwrap();
    let second = residue.get(1).unwrap();
    assert_eq!(first.number, 1);
    assert_eq!(first.name.as_str(), "N");
    assert_eq!(second.number, 2);
    assert_eq!(second.name.as_str(), "CA");
    assert_eq!(first.label, AtomType::ATOM);
    assert_eq!(first.label().as_str(), "ATOM");
    assert_eq!(first.element.as_str(), "N");
    assert_eq!(first.position, (dec(38198, 3), dec(19582, 3), dec(-28222, 3)));
    assert_eq!(first.occupancy, dec(100, 2));
}

#[test]
fn repeated_atoms_stay_in_one_residue() {
    let n = 25;
    let mut text = String::new();
    for i in 1..=n {
        text.push_str(&atom_line("ATOM", i, "C", 'B', "7"));
        text.push('\n');
    }
    let s = parse(&text).unwrap();
    assert_eq!(s.len(), 1);
    let chain = s.get(0).unwrap();
    assert_eq!(chain.len(), 1);
    let residue = chain.get(0).unwrap();
    assert_eq!(residue.len(), n);
    for i in 0..n {
        assert_eq!(residue.get(i).unwrap().number, i + 1);
    }
}

#[test]
fn chain_change_opens_new_chain() {
    let text = [
        atom_line("ATOM", 1, "N", 'A', "1"),
        atom_line("ATOM", 2, "N", 'A', "2"),
        atom_line("ATOM", 3, "N", 'B', "1"),
    ]
    .join("\n");
    let s = parse(&text).unwrap();
    assert_eq!(s.len(), 2);
    assert_eq!(s.get(0).unwrap().len(), 2);
    let b = s.get(1).unwrap();
    assert_eq!(b.name(), 'B');
    assert_eq!(b.len(), 1);
    assert_eq!(b.get(0).unwrap().number(), 1);
    assert_eq!(b.get(0).unwrap().get(0).unwrap().number, 3);
}

#[test]
fn chain_change_with_repeated_residue_number_opens_new_chain() {
    let text = [
        atom_line("ATOM", 1, "N", 'A', "10"),
        atom_line("ATOM", 2, "CA", 'B', "10"),
    ]
    .join("\n");
    let s = parse(&text).unwrap();
    assert_eq!(s.len(), 2);
    let a = s.get(0).unwrap();
    let b = s.get(1).unwrap();
    assert_eq!((a.name(), b.name()), ('A', 'B'));
    assert_eq!(a.len(), 1);
    assert_eq!(b.len(), 1);
    assert_eq!(a.get(0).unwrap().number(), 10);
    assert_eq!(b.get(0).unwrap().number(), 10);
    assert_eq!(a.get(0).unwrap().get(0).unwrap().number, 1);
    assert_eq!(b.get(0).unwrap().get(0).unwrap().number, 2);
}

#[test]
fn new_residue_in_same_chain() {
    let text = [
        atom_line("ATOM", 1, "N", 'A', "1"),
        atom_line("HETATM", 2, "O", 'A', "2"),
    ]
    .join("\r\n");
    let s = parse(&text).unwrap();
    assert_eq!(s.len(), 1);
    let chain = s.get(0).unwrap();
    assert_eq!(chain.len(), 2);
    let het = chain.get(1).unwrap().get(0).unwrap();
    assert_eq!(het.label, AtomType::HETATM);
    assert_eq!(het.label().as_str(), "HETATM");
    assert_eq!(het.name.as_str(), "O");
}

#[test]
fn blank_chain_id_first_atom() {
    let s = parse(&atom_line("ATOM", 1, "N", ' ', "1")).unwrap();
    assert_eq!(s.len(), 1);
    assert_eq!(s.get(0).unwrap().name(), ' ');
}

#[test]
fn non_numeric_residue_number() {
    let text = format!("{}\n{}\n", HEADER_1ZHY, atom_line("ATOM", 1, "N", 'A', "1X"));
    assert_eq!(parse(&text).unwrap_err(), ParseError::FieldParse { line: 2 });
}

#[test]
fn non_numeric_serial() {
    let line = atom_line("ATOM", 1, "N", 'A', "1").replacen("    1", "  1.5", 1);
    assert_eq!(parse(&line).unwrap_err(), ParseError::FieldParse { line: 1 });
}

#[test]
fn label_too_short() {
    let text = format!("{}\nEND\n", HEADER_1ZHY);
    assert_eq!(parse(&text).unwrap_err(), ParseError::LabelTooShort { line: 2 });
}

#[test]
fn unknown_records_are_ignored() {
    let text = format!("REMARK   1 something\n{}\nMASTER    0\nEND   ", HEADER_1ZHY);
    let s = parse(&text).unwrap();
    assert_eq!(s.pdbid().as_str(), "1ZHY");
}

#[test]
fn header_boundary() {
    assert!(parse(HEADER_1ZHY).is_ok());
    let short = &HEADER_1ZHY[..65];
    assert_eq!(
        parse(short).unwrap_err(),
        ParseError::RecordTooShort { line: 1, kind: RecordKind::Header }
    );
}

#[test]
fn atom_boundary() {
    let full = atom_line("ATOM", 1, "N", 'A', "1");
    let exact = &full[..78];
    assert!(parse(exact).is_ok());
    let text = format!("{}\n{}", exact, &full[..77]);
    assert_eq!(
        parse(&text).unwrap_err(),
        ParseError::RecordTooShort { line: 2, kind: RecordKind::Atom }
    );
}

const CRYST1: &str = "CRYST1   52.000   58.600   61.900  90.00  90.00  90.00 P 21 21 21    8";

#[test]
fn cryst1_unit_cell() {
    let s = parse(CRYST1).unwrap();
    let cell = s.unit_cell().unwrap();
    assert_eq!(cell.a, dec(52000, 3));
    assert_eq!(cell.b, dec(58600, 3));
    assert_eq!(cell.c, dec(61900, 3));
    assert_eq!(cell.alpha, dec(9000, 2));
    assert_eq!(cell.beta, dec(9000, 2));
    assert_eq!(cell.gamma, dec(9000, 2));
}

#[test]
fn cryst1_boundary() {
    assert!(parse(&CRYST1[..54]).is_ok());
    assert_eq!(
        parse(&CRYST1[..53]).unwrap_err(),
        ParseError::RecordTooShort { line: 1, kind: RecordKind::Cryst1 }
    );
}

#[test]
fn second_cryst1_replaces_first() {
    let other = CRYST1.replace("52.000", "10.500");
    let s = parse(&format!("{}\n{}", CRYST1, other)).unwrap();
    assert_eq!(s.unit_cell().unwrap().a, dec(10500, 3));
}

#[test]
fn cryst1_bad_number() {
    let bad = CRYST1.replace("58.600", "58.6.0");
    assert_eq!(parse(&bad).unwrap_err(), ParseError::FieldParse { line: 1 });
}

#[test]
fn first_error_wins() {
    let text = format!("{}\nEND\n{}", &CRYST1[..53], HEADER_1ZHY);
    assert_eq!(
        parse_pdb(&text).unwrap_err(),
        ParseError::RecordTooShort { line: 1, kind: RecordKind::Cryst1 }
    );
}

fn sample() -> Structure {
    let text = [
        atom_line("ATOM", 1, "N", 'A', "1"),
        atom_line("ATOM", 2, "N", 'A', "2"),
        atom_line("ATOM", 3, "N", 'B', "1"),
        atom_line("ATOM", 4, "N", 'C', "9"),
        CRYST1.to_string(),
    ]
    .join("\n");
    parse(&text).unwrap()
}

#[test]
fn index_out_of_range() {
    let s = sample();
    assert_eq!(s.get(3).unwrap_err(), IndexOutOfRange { index: 3 });
    let a = s.get(0).unwrap();
    assert_eq!(a.get(2).unwrap_err(), IndexOutOfRange { index: 2 });
    assert_eq!(a.get(0).unwrap().get(1).unwrap_err(), IndexOutOfRange { index: 1 });
}

#[test]
fn iteration_visits_children_in_order() {
    let mut s = sample();
    s.rewind();
    let mut names = Vec::new();
    while let Some(chain) = s.advance() {
        names.push(chain.name());
    }
    assert_eq!(names, vec!['A', 'B', 'C']);
    assert!(s.advance().is_none());
    s.rewind();
    assert_eq!(s.advance().unwrap().name(), 'A');
}

#[test]
fn clear_releases_children_and_keeps_length() {
    let mut s = sample();
    assert_eq!(s.traverse(), (true, vec![0, 1, 2]));
    s.clear();
    assert_eq!(s.len(), 3);
    assert!(s.unit_cell().is_none());
    assert_eq!(s.get(1).unwrap_err(), IndexOutOfRange { index: 1 });
    assert_eq!(s.traverse(), (false, vec![]));
    s.rewind();
    assert!(s.advance().is_none());
}

#[test]
fn clear_twice_is_clear_once() {
    let mut once = sample();
    once.clear();
    let mut twice = sample();
    twice.clear();
    twice.clear();
    assert_eq!(once.len(), twice.len());
    assert_eq!(once.traverse(), twice.traverse());
    assert_eq!(twice.len(), 3);
    assert_eq!(twice.pdbid(), once.pdbid());
}
