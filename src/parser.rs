//! Line classifiers and the driver that turns PDB text into a `Structure`.
use vstd::prelude::*;
use vstd::std_specs::iter::IteratorSpec;
use vstd::string::StringExecFns;

use crate::atom::{Atom, AtomType, AtomView};
use crate::builder::{
    add_atom_record, build_step, opened_residue, AtomRecord, AtomRecordView, BuildState,
};
use crate::chain::ChainView;
use crate::residue::ResidueView;
use crate::decode::{
    decimal_value, field, isize_of, parse_decimal, parse_signed, parse_unsigned, raw_text,
    text_field, usize_of,
};
use crate::error::{FetchError, ParseError, RecordKind};
use crate::structure::{Structure, StructureView};
use crate::unit_cell::UnitCell;

verus! {

broadcast use vstd::string::group_string_axioms;

/// Characters needed to read a record label.
pub const LABEL_LEN: usize = 6;

/// Shortest `HEADER` line.
pub const HEADER_LEN: usize = 66;

/// Shortest `CRYST1` line.
pub const CRYST1_LEN: usize = 54;

/// Shortest `ATOM`/`HETATM` line.
pub const ATOM_LEN: usize = 78;

/// What an `ATOM`/`HETATM` line with 1-based number `n` decodes to.
pub open spec fn atom_record_of(line: Seq<char>, n: usize, label: AtomType) -> Result<
    AtomRecordView,
    ParseError,
> {
    if line.len() < ATOM_LEN {
        Err(ParseError::RecordTooShort { line: n, kind: RecordKind::Atom })
    } else {
        let serial = usize_of(field(line, 6, 11));
        let residue_number = isize_of(field(line, 22, 26));
        let x = decimal_value(field(line, 30, 38));
        let y = decimal_value(field(line, 38, 46));
        let z = decimal_value(field(line, 46, 54));
        let occupancy = decimal_value(field(line, 54, 60));
        if serial is Some && residue_number is Some && x is Some && y is Some && z is Some
            && occupancy is Some {
            Ok(
                AtomRecordView {
                    atom: AtomView {
                        label,
                        number: serial->0,
                        name: field(line, 12, 16),
                        element: field(line, 76, 78),
                        position: (x->0, y->0, z->0),
                        occupancy: occupancy->0,
                    },
                    chain_id: line[21],
                    residue_number: residue_number->0,
                    residue_name: line.subrange(17, 20),
                },
            )
        } else {
            Err(ParseError::FieldParse { line: n })
        }
    }
}

/// What a `HEADER` line does to the structure.
pub open spec fn header_step(line: Seq<char>, n: usize, s: StructureView) -> Result<
    StructureView,
    ParseError,
> {
    if line.len() < HEADER_LEN {
        Err(ParseError::RecordTooShort { line: n, kind: RecordKind::Header })
    } else {
        Ok(
            StructureView {
                pdbid: field(line, 62, 66),
                classification: field(line, 10, 50),
                date: field(line, 50, 59),
                ..s
            },
        )
    }
}

/// What a `CRYST1` line does to the structure.
pub open spec fn cryst1_step(line: Seq<char>, n: usize, s: StructureView) -> Result<
    StructureView,
    ParseError,
> {
    if line.len() < CRYST1_LEN {
        Err(ParseError::RecordTooShort { line: n, kind: RecordKind::Cryst1 })
    } else {
        let a = decimal_value(field(line, 6, 15));
        let b = decimal_value(field(line, 15, 24));
        let c = decimal_value(field(line, 24, 33));
        let alpha = decimal_value(field(line, 33, 40));
        let beta = decimal_value(field(line, 40, 47));
        let gamma = decimal_value(field(line, 47, 54));
        if a is Some && b is Some && c is Some && alpha is Some && beta is Some && gamma is Some {
            Ok(
                StructureView {
                    unit_cell: Some(
                        UnitCell {
                            a: a->0,
                            b: b->0,
                            c: c->0,
                            alpha: alpha->0,
                            beta: beta->0,
                            gamma: gamma->0,
                        },
                    ),
                    ..s
                },
            )
        } else {
            Err(ParseError::FieldParse { line: n })
        }
    }
}

/// What an `ATOM`/`HETATM` line does to the structure and the builder's state.
pub open spec fn atom_step(
    line: Seq<char>,
    n: usize,
    label: AtomType,
    s: StructureView,
    st: BuildState,
) -> Result<(StructureView, BuildState), ParseError> {
    match atom_record_of(line, n, label) {
        Ok(rec) => Ok(build_step(s, st, rec)),
        Err(e) => Err(e),
    }
}

pub open spec fn atom_label() -> Seq<char> {
    seq!['A', 'T', 'O', 'M']
}

pub open spec fn hetatm_label() -> Seq<char> {
    seq!['H', 'E', 'T', 'A', 'T', 'M']
}

pub open spec fn header_label() -> Seq<char> {
    seq!['H', 'E', 'A', 'D', 'E', 'R']
}

pub open spec fn cryst1_label() -> Seq<char> {
    seq!['C', 'R', 'Y', 'S', 'T', '1']
}

/// What line `n` does: dispatch on its label; other labels change nothing.
pub open spec fn line_step(line: Seq<char>, n: usize, s: StructureView, st: BuildState) -> Result<
    (StructureView, BuildState),
    ParseError,
> {
    if line.len() < LABEL_LEN {
        Err(ParseError::LabelTooShort { line: n })
    } else if line.take(4) == atom_label() {
        atom_step(line, n, AtomType::ATOM, s, st)
    } else if line.take(6) == hetatm_label() {
        atom_step(line, n, AtomType::HETATM, s, st)
    } else if line.take(6) == header_label() {
        match header_step(line, n, s) {
            Ok(s2) => Ok((s2, st)),
            Err(e) => Err(e),
        }
    } else if line.take(6) == cryst1_label() {
        match cryst1_step(line, n, s) {
            Ok(s2) => Ok((s2, st)),
            Err(e) => Err(e),
        }
    } else {
        Ok((s, st))
    }
}

/// Runs the lines in order, the first having number `first`; stops at the first error.
pub open spec fn run_lines(
    lines: Seq<Seq<char>>,
    first: nat,
    s: StructureView,
    st: BuildState,
) -> Result<StructureView, ParseError>
    decreases lines.len(),
{
    if lines.len() == 0 {
        Ok(s)
    } else {
        match line_step(lines[0], first as usize, s, st) {
            Ok((s2, st2)) => run_lines(lines.drop_first(), first + 1, s2, st2),
            Err(e) => Err(e),
        }
    }
}

/// The structure that a sequence of lines describes, or the first error in them.
pub open spec fn parse_lines(lines: Seq<Seq<char>>) -> Result<StructureView, ParseError> {
    run_lines(lines, 1, StructureView::empty(), BuildState::initial())
}

/// Index of the first newline in `s`, or `s.len()` if there is none.
pub open spec fn newline_index(s: Seq<char>) -> nat
    decreases s.len(),
{
    if s.len() == 0 || s[0] == '\n' {
        0
    } else {
        1 + newline_index(s.drop_first())
    }
}

/// `l` without a final carriage return.
pub open spec fn strip_cr(l: Seq<char>) -> Seq<char> {
    if l.len() > 0 && l.last() == '\r' {
        l.drop_last()
    } else {
        l
    }
}

/// The lines of `s`: split at `\n` or `\r\n`; a final line ending is optional.
pub open spec fn lines_of(s: Seq<char>) -> Seq<Seq<char>>
    decreases s.len(),
{
    if s.len() == 0 {
        Seq::empty()
    } else {
        let k = newline_index(s);
        if k >= s.len() {
            seq![s]
        } else {
            seq![strip_cr(s.take(k as int))] + lines_of(s.skip(k + 1 as int))
        }
    }
}

/// The structure that a text describes, or the first error in it.
pub open spec fn parse_text(text: Seq<char>) -> Result<StructureView, ParseError> {
    parse_lines(lines_of(text))
}

/// Decodes an `ATOM`/`HETATM` line with 1-based number `n`.
pub fn decode_atom_record(line: &[char], n: usize, label: AtomType) -> (r: Result<
    AtomRecord,
    ParseError,
>)
    ensures
        match r {
            Ok(rec) => atom_record_of(line@, n, label) == Ok::<AtomRecordView, ParseError>(rec@),
            Err(e) => atom_record_of(line@, n, label) == Err::<AtomRecordView, ParseError>(e),
        },
{
    if line.len() < ATOM_LEN {
        return Err(ParseError::RecordTooShort { line: n, kind: RecordKind::Atom });
    }
    let number = match parse_unsigned(line, n, 6, 11) {
        Ok(v) => v,
        Err(e) => return Err(e),
    };
    let name = text_field(line, 12, 16);
    let residue_name = raw_text(line, 17, 20);
    let chain_id = line[21];
    let residue_number = match parse_signed(line, n, 22, 26) {
        Ok(v) => v,
        Err(e) => return Err(e),
    };
    let x = match parse_decimal(line, n, 30, 38) {
        Ok(v) => v,
        Err(e) => return Err(e),
    };
    let y = match parse_decimal(line, n, 38, 46) {
        Ok(v) => v,
        Err(e) => return Err(e),
    };
    let z = match parse_decimal(line, n, 46, 54) {
        Ok(v) => v,
        Err(e) => return Err(e),
    };
    let occupancy = match parse_decimal(line, n, 54, 60) {
        Ok(v) => v,
        Err(e) => return Err(e),
    };
    let element = text_field(line, 76, 78);
    let atom = Atom::new(label, number, name.as_str(), element.as_str(), (x, y, z), occupancy);
    Ok(AtomRecord { atom, chain_id, residue_number, residue_name })
}

/// Applies the `HEADER` line `line`, numbered `n`, to the structure.
pub fn parse_header_into(line: &[char], n: usize, structure: &mut Structure) -> (r: Result<
    (),
    ParseError,
>)
    ensures
        match header_step(line@, n, old(structure)@) {
            Ok(s2) => r is Ok && final(structure)@ == s2,
            Err(e) => r == Err::<(), ParseError>(e) && final(structure)@ == old(structure)@,
        },
        final(structure).cursor() == old(structure).cursor(),
{
    if line.len() < HEADER_LEN {
        return Err(ParseError::RecordTooShort { line: n, kind: RecordKind::Header });
    }
    let pdbid = text_field(line, 62, 66);
    let classification = text_field(line, 10, 50);
    let date = text_field(line, 50, 59);
    structure.set_header(pdbid.as_str(), classification.as_str(), date.as_str());
    Ok(())
}

/// Applies the `CRYST1` line `line`, numbered `n`, to the structure.
pub fn parse_cryst1_into(line: &[char], n: usize, structure: &mut Structure) -> (r: Result<
    (),
    ParseError,
>)
    ensures
        match cryst1_step(line@, n, old(structure)@) {
            Ok(s2) => r is Ok && final(structure)@ == s2,
            Err(e) => r == Err::<(), ParseError>(e) && final(structure)@ == old(structure)@,
        },
        final(structure).cursor() == old(structure).cursor(),
{
    if line.len() < CRYST1_LEN {
        return Err(ParseError::RecordTooShort { line: n, kind: RecordKind::Cryst1 });
    }
    let a = match parse_decimal(line, n, 6, 15) {
        Ok(v) => v,
        Err(e) => return Err(e),
    };
    let b = match parse_decimal(line, n, 15, 24) {
        Ok(v) => v,
        Err(e) => return Err(e),
    };
    let c = match parse_decimal(line, n, 24, 33) {
        Ok(v) => v,
        Err(e) => return Err(e),
    };
    let alpha = match parse_decimal(line, n, 33, 40) {
        Ok(v) => v,
        Err(e) => return Err(e),
    };
    let beta = match parse_decimal(line, n, 40, 47) {
        Ok(v) => v,
        Err(e) => return Err(e),
    };
    let gamma = match parse_decimal(line, n, 47, 54) {
        Ok(v) => v,
        Err(e) => return Err(e),
    };
    structure.set_unit_cell(UnitCell::new(a, b, c, alpha, beta, gamma));
    Ok(())
}

/// Applies the `ATOM`/`HETATM` line `line`, numbered `n`, to the structure.
pub fn parse_atom_into(
    line: &[char],
    n: usize,
    label: AtomType,
    structure: &mut Structure,
    state: &mut BuildState,
) -> (r: Result<(), ParseError>)
    requires
        old(state).fits(old(structure)@),
    ensures
        match atom_step(line@, n, label, old(structure)@, *old(state)) {
            Ok((s2, st2)) => r is Ok && final(structure)@ == s2 && *final(state) == st2,
            Err(e) => r == Err::<(), ParseError>(e) && final(structure)@ == old(structure)@
                && *final(state) == *old(state),
        },
        final(state).fits(final(structure)@),
        final(structure).cursor() == old(structure).cursor(),
{
    match decode_atom_record(line, n, label) {
        Ok(record) => {
            add_atom_record(structure, state, record);
            Ok(())
        },
        Err(e) => Err(e),
    }
}

/// Applies line `line`, numbered `n`, to the structure and the builder's state.
pub fn parse_line(line: &[char], n: usize, structure: &mut Structure, state: &mut BuildState) -> (r:
    Result<(), ParseError>)
    requires
        old(state).fits(old(structure)@),
    ensures
        match line_step(line@, n, old(structure)@, *old(state)) {
            Ok((s2, st2)) => r is Ok && final(structure)@ == s2 && *final(state) == st2,
            Err(e) => r == Err::<(), ParseError>(e),
        },
        final(state).fits(final(structure)@),
        final(structure).cursor() == old(structure).cursor(),
{
    if line.len() < LABEL_LEN {
        return Err(ParseError::LabelTooShort { line: n });
    }
    let is_atom = line[0] == 'A' && line[1] == 'T' && line[2] == 'O' && line[3] == 'M';
    let is_hetatm = line[0] == 'H' && line[1] == 'E' && line[2] == 'T' && line[3] == 'A'
        && line[4] == 'T' && line[5] == 'M';
    let is_header = line[0] == 'H' && line[1] == 'E' && line[2] == 'A' && line[3] == 'D'
        && line[4] == 'E' && line[5] == 'R';
    let is_cryst1 = line[0] == 'C' && line[1] == 'R' && line[2] == 'Y' && line[3] == 'S'
        && line[4] == 'T' && line[5] == '1';
    proof {
        assert(is_atom == (line@.take(4) =~= atom_label()));
        assert(is_hetatm == (line@.take(6) =~= hetatm_label()));
        assert(is_header == (line@.take(6) =~= header_label()));
        assert(is_cryst1 == (line@.take(6) =~= cryst1_label()));
    }
    if is_atom {
        parse_atom_into(line, n, AtomType::ATOM, structure, state)
    } else if is_hetatm {
        parse_atom_into(line, n, AtomType::HETATM, structure, state)
    } else if is_header {
        parse_header_into(line, n, structure)
    } else if is_cryst1 {
        parse_cryst1_into(line, n, structure)
    } else {
        Ok(())
    }
}

/// The characters of `text`, in order.
fn chars_of(text: &str) -> (r: Vec<char>)
    ensures
        r@ == text@,
{
    let mut it = text.chars();
    let mut out: Vec<char> = Vec::new();
    loop
        invariant
            out@ + it.remaining() == text@,
            it.decrease() is Some,
        ensures
            out@ == text@,
        decreases it.decrease()->0,
    {
        match it.next() {
            Some(c) => {
                out.push(c);
            },
            None => {
                assert(out@ + it.remaining() =~= out@);
                break ;
            },
        }
    }
    out
}

/// The index of the first newline at or after `start`, or the length if there is none.
fn find_newline(chars: &Vec<char>, start: usize) -> (k: usize)
    requires
        start <= chars@.len(),
    ensures
        start <= k <= chars@.len(),
        k < chars@.len() ==> chars@[k as int] == '\n',
        newline_index(chars@.skip(start as int)) == k - start,
{
    let mut k: usize = start;
    assert(chars@.skip(start as int).skip(0) =~= chars@.skip(start as int));
    while k < chars.len() && chars[k] != '\n'
        invariant
            start <= k <= chars@.len(),
            newline_index(chars@.skip(start as int)) == (k - start) + newline_index(
                chars@.skip(k as int),
            ),
        decreases chars@.len() - k,
    {
        assert(chars@.skip(k as int).drop_first() =~= chars@.skip(k + 1));
        k = k + 1;
    }
    k
}

/// The line that starts at `start` and ends before `k`, the first newline at or after it
/// (or the end): without its carriage return when a newline follows.
pub open spec fn line_at(chars: Seq<char>, start: int, k: int) -> Seq<char> {
    if k < chars.len() {
        strip_cr(chars.subrange(start, k))
    } else {
        chars.subrange(start, k)
    }
}

/// Where the line after the one ending at `k` starts.
pub open spec fn after_line(chars: Seq<char>, k: int) -> int {
    if k < chars.len() {
        k + 1
    } else {
        k
    }
}

proof fn lemma_next_line(chars: Seq<char>, start: int, k: int)
    requires
        0 <= start < chars.len(),
        start <= k <= chars.len(),
        newline_index(chars.skip(start)) == k - start,
    ensures
        lines_of(chars.skip(start)) == seq![line_at(chars, start, k)] + lines_of(
            chars.skip(after_line(chars, k)),
        ),
{
    let rest = chars.skip(start);
    if k < chars.len() {
        assert(rest.take(k - start) =~= chars.subrange(start, k));
        assert(rest.skip(k - start + 1) =~= chars.skip(k + 1));
    } else {
        assert(rest =~= chars.subrange(start, k));
        assert(chars.skip(k) =~= Seq::<char>::empty());
        assert(seq![rest] =~= seq![rest] + Seq::<Seq<char>>::empty());
    }
}

proof fn lemma_run_cons(
    l: Seq<char>,
    rest: Seq<Seq<char>>,
    n: nat,
    s: StructureView,
    st: BuildState,
)
    ensures
        run_lines(seq![l] + rest, n, s, st) == match line_step(l, n as usize, s, st) {
            Ok((s2, st2)) => run_lines(rest, n + 1, s2, st2),
            Err(e) => Err(e),
        },
{
    assert((seq![l] + rest)[0] == l);
    assert((seq![l] + rest).drop_first() =~= rest);
}

/// Parses PDB text into a structure; fails with the first error, line by line.
pub fn parse_pdb(text: &str) -> (r: Result<Structure, ParseError>)
    ensures
        match parse_text(text@) {
            Ok(v) => r is Ok && r->Ok_0@ == v && r->Ok_0.cursor() == 0,
            Err(e) => r is Err && r->Err_0 == e,
        },
{
    let chars = chars_of(text);
    let total = chars.len();
    let mut structure = Structure::new();
    let mut state = BuildState::new();
    let mut start: usize = 0;
    let mut number: usize = 1;
    assert(chars@.skip(0) =~= chars@);
    while start < total
        invariant
            start <= total == chars@.len(),
            1 <= number <= start + 1,
            chars@ == text@,
            state.fits(structure@),
            structure.cursor() == 0,
            parse_text(text@) == run_lines(
                lines_of(chars@.skip(start as int)),
                number as nat,
                structure@,
                state,
            ),
        decreases total - start,
    {
        let k = find_newline(&chars, start);
        let end: usize = if k < total && k > start && chars[k - 1] == '\r' {
            k - 1
        } else {
            k
        };
        let line = vstd::slice::slice_subrange(chars.as_slice(), start, end);
        proof {
            lemma_next_line(chars@, start as int, k as int);
            assert(line@ =~= line_at(chars@, start as int, k as int));
            lemma_run_cons(
                line@,
                lines_of(chars@.skip(after_line(chars@, k as int))),
                number as nat,
                structure@,
                state,
            );
        }
        match parse_line(line, number, &mut structure, &mut state) {
            Ok(()) => {},
            Err(e) => {
                return Err(e);
            },
        }
        number = number + 1;
        start = if k < total {
            k + 1
        } else {
            total
        };
    }
    assert(chars@.skip(start as int) =~= Seq::<char>::empty());
    Ok(structure)
}

/// What `str::to_lowercase` makes of a text.
pub uninterp spec fn lowercase_of(s: Seq<char>) -> Seq<char>;

/// Relies on `str::to_lowercase`, whose result depends on the characters alone.
#[verifier::external_body]
fn lowercase(s: &str) -> (r: String)
    ensures
        r@ == lowercase_of(s@),
{
    s.to_lowercase()
}

/// Where the text of the structure `pdbid` can be downloaded from.
pub fn download_url(pdbid: &str) -> (r: String)
    ensures
        r@ == "https://files.rcsb.org/download/"@ + lowercase_of(pdbid@) + ".pdb"@,
{
    let mut url = String::from_str("https://files.rcsb.org/download/");
    let id = lowercase(pdbid);
    url.append(id.as_str());
    url.append(".pdb");
    url
}

/// The HTTP status of a successful download.
pub const STATUS_OK: u16 = 200;

/// Parser for structures in PDB format.
#[derive(Debug)]
pub struct Parser;

impl Parser {
    #[allow(non_snake_case)]
    pub fn __new__() -> (r: Parser)
        ensures
            r == Parser,
    {
        Parser
    }

    /// Parses PDB text into a structure.
    pub fn parse(&self, text: &str) -> (r: Result<Structure, ParseError>)
        ensures
            match parse_text(text@) {
                Ok(v) => r is Ok && r->Ok_0@ == v && r->Ok_0.cursor() == 0,
                Err(e) => r is Err && r->Err_0 == e,
            },
    {
        parse_pdb(text)
    }

    /// Turns the answer to a download from `download_url` into a structure: a status other
    /// than 200 is an error; otherwise the body is parsed.
    pub fn fetch(&self, status: u16, body: &str) -> (r: Result<Structure, FetchError>)
        ensures
            status != STATUS_OK ==> r is Err && r->Err_0 == (FetchError::Status { status }),
            status == STATUS_OK ==> match parse_text(body@) {
                Ok(v) => r is Ok && r->Ok_0@ == v && r->Ok_0.cursor() == 0,
                Err(e) => r is Err && r->Err_0 == (FetchError::Parse { error: e }),
            },
    {
        if status != STATUS_OK {
            return Err(FetchError::Status { status });
        }
        match parse_pdb(body) {
            Ok(s) => Ok(s),
            Err(error) => Err(FetchError::Parse { error }),
        }
    }
}

/// A structure of one chain `c` holding one residue: number `r`, name `name`, and `atoms`.
pub open spec fn single_residue(
    c: char,
    r: isize,
    name: Seq<char>,
    atoms: Seq<Option<AtomView>>,
) -> StructureView {
    StructureView {
        chains: seq![
            Some(
                ChainView {
                    name: c,
                    residues: seq![Some(ResidueView { number: r, name, atoms })],
                },
            ),
        ],
        ..StructureView::empty()
    }
}

/// The atoms of the first `i` records, each in a slot.
pub open spec fn atoms_of(recs: Seq<AtomRecordView>, i: int) -> Seq<Option<AtomView>> {
    recs.take(i).map_values(|x: AtomRecordView| Some(x.atom))
}

/// `ATOM` line `i` (1-based number `i + 1`) decodes to `recs[i]`.
pub open spec fn atom_lines(lines: Seq<Seq<char>>, recs: Seq<AtomRecordView>) -> bool {
    &&& lines.len() == recs.len()
    &&& forall|i: int|
        0 <= i < lines.len() ==> (#[trigger] lines[i]).take(4) == atom_label() && atom_record_of(
            lines[i],
            (i + 1) as usize,
            AtomType::ATOM,
        ) == Ok::<AtomRecordView, ParseError>(recs[i])
}

proof fn lemma_run_same_residue(
    lines: Seq<Seq<char>>,
    recs: Seq<AtomRecordView>,
    i: int,
    c: char,
    r: isize,
)
    requires
        atom_lines(lines, recs),
        1 <= i <= lines.len(),
        forall|j: int| 0 <= j < recs.len() ==> (#[trigger] recs[j]).chain_id == c
            && recs[j].residue_number == r,
    ensures
        run_lines(
            lines.skip(i),
            (i + 1) as nat,
            single_residue(c, r, recs[0].residue_name, atoms_of(recs, i)),
            BuildState { last_chain: Some(c), last_residue: Some(r) },
        ) == Ok::<StructureView, ParseError>(
            single_residue(c, r, recs[0].residue_name, atoms_of(recs, recs.len() as int)),
        ),
    decreases lines.len() - i,
{
    let st = BuildState { last_chain: Some(c), last_residue: Some(r) };
    let s = single_residue(c, r, recs[0].residue_name, atoms_of(recs, i));
    if i == lines.len() {
        assert(lines.skip(i) =~= Seq::<Seq<char>>::empty());
    } else {
        let l = lines[i];
        assert(lines.skip(i)[0] == l);
        assert(lines.skip(i).drop_first() =~= lines.skip(i + 1));
        assert(l.take(4) == atom_label());
        assert(l.len() >= LABEL_LEN) by {
            assert(atom_record_of(l, (i + 1) as usize, AtomType::ATOM) is Ok);
        }
        let s2 = single_residue(c, r, recs[0].residue_name, atoms_of(recs, i + 1));
        assert(atoms_of(recs, i + 1) =~= atoms_of(recs, i).push(Some(recs[i].atom)));
        assert(s.push_atom(recs[i].atom).chains =~= s2.chains) by {
            assert(s.chains.last()->0.push_atom(recs[i].atom).residues =~= s2.chains[0]->0.residues);
        }
        assert(line_step(l, (i + 1) as usize, s, st) == Ok::<(StructureView, BuildState), ParseError>((s2, st)));
        lemma_run_same_residue(lines, recs, i + 1, c, r);
    }
}

/// `ATOM` lines that all name chain `c` and residue number `r` build one chain holding one
/// residue, whose atoms are those of the lines, in the order of the lines.
pub proof fn lemma_one_residue(
    lines: Seq<Seq<char>>,
    recs: Seq<AtomRecordView>,
    c: char,
    r: isize,
)
    requires
        atom_lines(lines, recs),
        lines.len() >= 1,
        forall|j: int| 0 <= j < recs.len() ==> (#[trigger] recs[j]).chain_id == c
            && recs[j].residue_number == r,
    ensures
        parse_lines(lines) == Ok::<StructureView, ParseError>(
            single_residue(
                c,
                r,
                recs[0].residue_name,
                recs.map_values(|x: AtomRecordView| Some(x.atom)),
            ),
        ),
{
    let l = lines[0];
    assert(l.take(4) == atom_label());
    assert(l.len() >= LABEL_LEN) by {
        assert(atom_record_of(l, 1, AtomType::ATOM) is Ok);
    }
    let s1 = single_residue(c, r, recs[0].residue_name, atoms_of(recs, 1));
    let st1 = BuildState { last_chain: Some(c), last_residue: Some(r) };
    assert(atoms_of(recs, 1) =~= seq![Some(recs[0].atom)]);
    let e = StructureView::empty().push_chain(ChainView { name: c, residues: Seq::empty() });
    let e2 = e.push_residue(opened_residue(recs[0]));
    assert(e2.chains.last()->0.push_atom(recs[0].atom).residues =~= s1.chains[0]->0.residues) by {
        assert(opened_residue(recs[0]).push_atom(recs[0].atom).atoms =~= atoms_of(recs, 1));
    }
    assert(e2.push_atom(recs[0].atom).chains =~= s1.chains);
    assert(build_step(StructureView::empty(), BuildState::initial(), recs[0]) == (s1, st1));
    assert(lines.drop_first() =~= lines.skip(1));
    lemma_run_same_residue(lines, recs, 1, c, r);
    assert(atoms_of(recs, recs.len() as int) =~= recs.map_values(|x: AtomRecordView| Some(x.atom)));
}

/// A `HEADER` line of exactly the shortest length is accepted; one character shorter fails
/// with `RecordTooShort` naming that line.
pub proof fn lemma_header_length(line: Seq<char>, n: usize, s: StructureView, st: BuildState)
    requires
        line.take(6) == header_label(),
        line.len() == HEADER_LEN || line.len() == HEADER_LEN - 1,
    ensures
        line.len() == HEADER_LEN ==> line_step(line, n, s, st) is Ok,
        line.len() == HEADER_LEN - 1 ==> line_step(line, n, s, st) == Err::<
            (StructureView, BuildState),
            ParseError,
        >(ParseError::RecordTooShort { line: n, kind: RecordKind::Header }),
{
    assert(line[0] == line.take(6)[0]);
    assert(line[2] == line.take(6)[2]);
    assert(line.take(4) != atom_label()) by {
        assert(line.take(4)[0] == line[0]);
    }
    assert(line.take(6) != hetatm_label()) by {
        assert(hetatm_label()[2] == 'T');
    }
}

/// A `CRYST1` line of exactly the shortest length gets past the length check, failing at
/// most on a field; one character shorter fails with `RecordTooShort` naming that line.
pub proof fn lemma_cryst1_length(line: Seq<char>, n: usize, s: StructureView, st: BuildState)
    requires
        line.take(6) == cryst1_label(),
        line.len() == CRYST1_LEN || line.len() == CRYST1_LEN - 1,
    ensures
        line.len() == CRYST1_LEN ==> line_step(line, n, s, st) is Ok || line_step(
            line,
            n,
            s,
            st,
        ) == Err::<(StructureView, BuildState), ParseError>(ParseError::FieldParse { line: n }),
        line.len() == CRYST1_LEN - 1 ==> line_step(line, n, s, st) == Err::<
            (StructureView, BuildState),
            ParseError,
        >(ParseError::RecordTooShort { line: n, kind: RecordKind::Cryst1 }),
{
    assert(line[0] == line.take(6)[0]);
    assert(line.take(4) != atom_label()) by {
        assert(line.take(4)[0] == line[0]);
    }
    assert(line.take(6) != hetatm_label()) by {
        assert(hetatm_label()[0] == 'H');
    }
    assert(line.take(6) != header_label()) by {
        assert(header_label()[0] == 'H');
    }
}

/// An `ATOM` or `HETATM` line of exactly the shortest length gets past the length check,
/// failing at most on a field; one character shorter fails with `RecordTooShort` naming
/// that line.
pub proof fn lemma_atom_length(line: Seq<char>, n: usize, s: StructureView, st: BuildState)
    requires
        line.take(4) == atom_label() || line.take(6) == hetatm_label(),
        line.len() == ATOM_LEN || line.len() == ATOM_LEN - 1,
    ensures
        line.len() == ATOM_LEN ==> line_step(line, n, s, st) is Ok || line_step(
            line,
            n,
            s,
            st,
        ) == Err::<(StructureView, BuildState), ParseError>(ParseError::FieldParse { line: n }),
        line.len() == ATOM_LEN - 1 ==> line_step(line, n, s, st) == Err::<
            (StructureView, BuildState),
            ParseError,
        >(ParseError::RecordTooShort { line: n, kind: RecordKind::Atom }),
{
}

/// The lines joined by `\n`, with no final line ending.
pub open spec fn join_lines(lines: Seq<Seq<char>>) -> Seq<char>
    decreases lines.len(),
{
    if lines.len() == 0 {
        Seq::empty()
    } else if lines.len() == 1 {
        lines[0]
    } else {
        lines[0] + seq!['\n'] + join_lines(lines.drop_first())
    }
}

/// `l` can stand as one line of a text: it is not empty, holds no newline, and does not
/// end with a carriage return.
pub open spec fn is_line(l: Seq<char>) -> bool {
    &&& l.len() > 0
    &&& forall|i: int| 0 <= i < l.len() ==> (#[trigger] l[i]) != '\n'
    &&& l.last() != '\r'
}

proof fn lemma_newline_index(a: Seq<char>, b: Seq<char>)
    requires
        forall|i: int| 0 <= i < a.len() ==> (#[trigger] a[i]) != '\n',
    ensures
        newline_index(a + b) == a.len() + newline_index(b),
    decreases a.len(),
{
    if a.len() > 0 {
        assert((a + b)[0] == a[0]);
        assert((a + b).drop_first() =~= a.drop_first() + b);
        assert forall|i: int| 0 <= i < a.drop_first().len() implies (
        #[trigger] a.drop_first()[i]) != '\n' by {
            assert(a.drop_first()[i] == a[i + 1]);
        }
        lemma_newline_index(a.drop_first(), b);
    } else {
        assert(a + b =~= b);
    }
}

/// Splitting lines joined by `\n` gives the lines back.
pub proof fn lemma_lines_of_join(lines: Seq<Seq<char>>)
    requires
        forall|i: int| 0 <= i < lines.len() ==> is_line(#[trigger] lines[i]),
    ensures
        lines_of(join_lines(lines)) == lines,
    decreases lines.len(),
{
    if lines.len() == 0 {
        assert(lines =~= Seq::<Seq<char>>::empty());
    } else {
        let l = lines[0];
        assert(is_line(l));
        if lines.len() == 1 {
            lemma_newline_index(l, Seq::empty());
            assert(l + Seq::<char>::empty() =~= l);
            assert(lines =~= seq![l]);
        } else {
            let rest = lines.drop_first();
            assert forall|i: int| 0 <= i < rest.len() implies is_line(#[trigger] rest[i]) by {
                assert(rest[i] == lines[i + 1]);
            }
            lemma_lines_of_join(rest);
            let t = join_lines(lines);
            assert(t =~= l + (seq!['\n'] + join_lines(rest)));
            lemma_newline_index(l, seq!['\n'] + join_lines(rest));
            assert((seq!['\n'] + join_lines(rest))[0] == '\n');
            assert(t.take(l.len() as int) =~= l);
            assert(t.skip(l.len() + 1 as int) =~= join_lines(rest));
            assert(lines =~= seq![l] + rest);
        }
    }
}

/// The text of `ATOM` lines that all name chain `c` and residue number `r`, joined by
/// newlines, parses to one chain holding one residue, whose atoms are those of the lines,
/// in the order of the lines.
pub proof fn lemma_one_residue_text(
    lines: Seq<Seq<char>>,
    recs: Seq<AtomRecordView>,
    c: char,
    r: isize,
)
    requires
        atom_lines(lines, recs),
        forall|i: int| 0 <= i < lines.len() ==> is_line(#[trigger] lines[i]),
        lines.len() >= 1,
        forall|j: int| 0 <= j < recs.len() ==> (#[trigger] recs[j]).chain_id == c
            && recs[j].residue_number == r,
    ensures
        parse_text(join_lines(lines)) == Ok::<StructureView, ParseError>(
            single_residue(
                c,
                r,
                recs[0].residue_name,
                recs.map_values(|x: AtomRecordView| Some(x.atom)),
            ),
        ),
{
    lemma_lines_of_join(lines);
    lemma_one_residue(lines, recs, c, r);
}

} // verus!
