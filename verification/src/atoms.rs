use vstd::prelude::*;

use crate::text::{
    chars_of, lines, parse_decimal, parse_usize, seqs_of, split_lines, split_words,
    string_from_chars, words,
};

verus! {

/// The name of a chemical element, as it is written in the input files.
#[derive(Eq, PartialEq, Ord, PartialOrd, Hash, Clone, Debug)]
pub struct Element(String);

impl View for Element {
    type V = Seq<char>;

    closed spec fn view(&self) -> Seq<char> {
        self.0@
    }
}

impl Element {
    /// The element's name.
    pub fn name(&self) -> (r: &str)
        ensures
            r@ == self@,
    {
        self.0.as_str()
    }

    fn from_chars(cs: &[char]) -> (e: Self)
        ensures
            e@ == cs@,
    {
        Element(string_from_chars(cs))
    }

    /// Whether `self` and `other` name the same element.
    fn same_as(&self, other: &Element) -> (r: bool)
        ensures
            r == (self@ == other@),
    {
        self.0 == other.0
    }
}

impl From<String> for Element {
    fn from(value: String) -> (e: Self) {
        Self(value)
    }
}

impl vstd::std_specs::convert::FromSpecImpl<String> for Element {
    open spec fn obeys_from_spec() -> bool {
        true
    }

    closed spec fn from_spec(v: String) -> Self {
        Element(v)
    }
}

/// The number of an atom type: atoms of one element share one atom type.
#[derive(Copy, Clone, Eq, PartialEq, Ord, PartialOrd, Hash, Debug)]
pub struct AtomType(u8);

impl AtomType {
    pub closed spec fn id(self) -> nat {
        self.0 as nat
    }

    /// The number of the atom type.
    pub fn index(self) -> (r: u8)
        ensures
            r == self.id(),
    {
        self.0
    }
}

/// One atom of an XYZ file: its element, the atom type given to that element, and the
/// three coordinates as they are written.
pub struct XyzAtom {
    pub element: Element,
    pub atom_type: AtomType,
    pub x: String,
    pub y: String,
    pub z: String,
}

/// Why the contents of an XYZ file cannot be read. Line numbers count from 0.
#[derive(Copy, Clone, PartialEq, Eq, Debug)]
pub enum XyzError {
    /// Fewer than two lines: the atom count and the comment line are missing.
    MissingHeader,
    /// The first line is not a number of atoms.
    InvalidAtomCount,
    /// The entry on this line does not have exactly four fields.
    InvalidEntry { line: usize },
    /// The entry on this line brings a 256th distinct element; at most 255 atom types are
    /// handed out, numbered by a byte counter.
    TooManyElements { line: usize },
    /// The number of entries differs from the number of atoms on the first line.
    CountMismatch { expected: usize, found: usize },
}

/// What was read from an XYZ file: the atoms in order, the distinct elements in the
/// order in which they first occur, and the outcome.
pub struct XyzRecords {
    pub atoms: Vec<XyzAtom>,
    pub elements: Vec<Element>,
    pub outcome: Result<usize, XyzError>,
}

/// The element of an entry: its first field.
pub open spec fn entry_element(line: Seq<char>) -> Seq<char> {
    words(line)[0]
}

/// The distinct elements of the first `j` entries of `body`, in the order in which
/// they first occur.
pub open spec fn elements_upto(body: Seq<Seq<char>>, j: nat) -> Seq<Seq<char>>
    decreases j,
{
    if j == 0 {
        Seq::empty()
    } else {
        let prev = elements_upto(body, (j - 1) as nat);
        let e = entry_element(body[j - 1]);
        if prev.contains(e) {
            prev
        } else {
            prev.push(e)
        }
    }
}

/// Entry `j` of `body` can be read: it has four fields, and its element is one seen
/// before or fewer than 255 distinct elements came before it.
pub open spec fn entry_usable(body: Seq<Seq<char>>, j: nat) -> bool {
    &&& words(body[j as int]).len() == 4
    &&& (elements_upto(body, j).contains(entry_element(body[j as int])) || elements_upto(
        body,
        j,
    ).len() < 255)
}

/// The index of the first entry of `body`, from `j` on, that cannot be read; the length
/// of `body` when there is none.
pub open spec fn usable_until(body: Seq<Seq<char>>, j: nat) -> nat
    decreases body.len() - j,
{
    if j >= body.len() || !entry_usable(body, j) {
        j
    } else {
        usable_until(body, j + 1)
    }
}

/// The entries of an XYZ file: every line after the two header lines.
pub open spec fn xyz_body(s: Seq<char>) -> Seq<Seq<char>> {
    lines(s).skip(2)
}

/// The header of `s` can be read: there are two lines and the first is a number.
pub open spec fn xyz_header_ok(s: Seq<char>) -> bool {
    lines(s).len() >= 2 && parse_usize(lines(s)[0]) is Some
}

/// The number of entries read before the reading stops.
pub open spec fn xyz_read(s: Seq<char>) -> nat {
    if xyz_header_ok(s) {
        usable_until(xyz_body(s), 0)
    } else {
        0
    }
}

/// The outcome of reading `s`: the number of atoms, or the first error met.
pub open spec fn xyz_outcome(s: Seq<char>) -> Result<usize, XyzError> {
    let l = lines(s);
    if l.len() < 2 {
        Err(XyzError::MissingHeader)
    } else if parse_usize(l[0]) is None {
        Err(XyzError::InvalidAtomCount)
    } else {
        let body = xyz_body(s);
        let k = usable_until(body, 0);
        if k < body.len() {
            if words(body[k as int]).len() != 4 {
                Err(XyzError::InvalidEntry { line: (k + 2) as usize })
            } else {
                Err(XyzError::TooManyElements { line: (k + 2) as usize })
            }
        } else if k != parse_usize(l[0]).unwrap() {
            Err(XyzError::CountMismatch { expected: parse_usize(l[0]).unwrap(), found: k as usize })
        } else {
            Ok(k as usize)
        }
    }
}

/// `a` holds the entry `line`, with the atom type that is the position of its element
/// in `names`.
pub open spec fn atom_matches(a: XyzAtom, line: Seq<char>, names: Seq<Seq<char>>) -> bool {
    &&& a.element@ == entry_element(line)
    &&& a.atom_type.id() < names.len()
    &&& names[a.atom_type.id() as int] == entry_element(line)
    &&& a.x@ == words(line)[1]
    &&& a.y@ == words(line)[2]
    &&& a.z@ == words(line)[3]
}

/// The names of a sequence of elements.
pub open spec fn element_names(es: Seq<Element>) -> Seq<Seq<char>> {
    es.map_values(|e: Element| e@)
}

/// Two atoms share an atom type exactly when they are of the same element.
pub open spec fn same_type_same_element(atoms: Seq<XyzAtom>) -> bool {
    forall|i: int, k: int|
        0 <= i < atoms.len() && 0 <= k < atoms.len() ==> ((#[trigger] atoms[i]).atom_type
            == (#[trigger] atoms[k]).atom_type <==> atoms[i].element@ == atoms[k].element@)
}

/// No element occurs twice among the distinct elements.
proof fn lemma_elements_distinct(body: Seq<Seq<char>>, j: nat)
    ensures
        elements_upto(body, j).no_duplicates(),
    decreases j,
{
    if j > 0 {
        lemma_elements_distinct(body, (j - 1) as nat);
        let prev = elements_upto(body, (j - 1) as nat);
        let e = entry_element(body[j - 1]);
        if !prev.contains(e) {
            let next = prev.push(e);
            assert forall|a: int, b: int| 0 <= a < next.len() && 0 <= b < next.len() && a != b
                implies next[a] != next[b] by {
                if a < prev.len() && b < prev.len() {
                    assert(next[a] == prev[a] && next[b] == prev[b]);
                } else if a < prev.len() {
                    assert(next[a] == prev[a]);
                } else if b < prev.len() {
                    assert(next[b] == prev[b]);
                }
            }
        }
    }
}

/// Atoms that hold their entries with positions in a list of distinct names share an
/// atom type exactly when they share an element.
proof fn lemma_types_follow_elements(
    atoms: Seq<XyzAtom>,
    body: Seq<Seq<char>>,
    names: Seq<Seq<char>>,
)
    requires
        names.no_duplicates(),
        forall|i: int| 0 <= i < atoms.len() ==> atom_matches(#[trigger] atoms[i], body[i], names),
    ensures
        same_type_same_element(atoms),
{
    assert forall|i: int, k: int| 0 <= i < atoms.len() && 0 <= k < atoms.len() implies ((
    #[trigger] atoms[i]).atom_type == (#[trigger] atoms[k]).atom_type <==> atoms[i].element@
        == atoms[k].element@) by {
        assert(atom_matches(atoms[i], body[i], names));
        assert(atom_matches(atoms[k], body[k], names));
        if atoms[i].element@ == atoms[k].element@ {
            assert(atoms[i].atom_type.0 == atoms[k].atom_type.0);
        }
    }
}

/// The position of `e` among `es`, if it is there.
fn position(es: &Vec<Element>, e: &Element) -> (r: Option<usize>)
    ensures
        match r {
            Some(p) => p < es@.len() && element_names(es@)[p as int] == e@,
            None => !element_names(es@).contains(e@),
        },
{
    for i in 0..es.len()
        invariant
            forall|k: int| 0 <= k < i ==> element_names(es@)[k] != e@,
    {
        if es[i].same_as(e) {
            return Some(i);
        }
    }
    None
}

/// Reads the contents of an XYZ file: a line with the number of atoms, a comment line,
/// and one line per atom with its element and its three coordinates, separated by
/// whitespace. The first element met gets atom type 0, the next new one 1, and so on.
/// Reading stops at the first entry that cannot be read.
pub fn parse_xyz(contents: &str) -> (r: XyzRecords)
    ensures
        r.outcome == xyz_outcome(contents@),
        r.atoms.len() == xyz_read(contents@),
        element_names(r.elements@) == elements_upto(xyz_body(contents@), xyz_read(contents@)),
        forall|i: int|
            0 <= i < r.atoms.len() ==> atom_matches(
                #[trigger] r.atoms@[i],
                xyz_body(contents@)[i],
                element_names(r.elements@),
            ),
        same_type_same_element(r.atoms@),
        element_names(r.elements@).no_duplicates(),
{
    let cs = chars_of(contents);
    let ls = split_lines(cs.as_slice());
    let ghost l = seqs_of(ls@);
    if ls.len() < 2 {
        return XyzRecords {
            atoms: Vec::new(),
            elements: Vec::new(),
            outcome: Err(XyzError::MissingHeader),
        };
    }
    assert(l[0] == ls@[0]@);
    let n_atoms = match parse_decimal(ls[0].as_slice()) {
        Some(n) => n,
        None => {
            return XyzRecords {
                atoms: Vec::new(),
                elements: Vec::new(),
                outcome: Err(XyzError::InvalidAtomCount),
            };
        },
    };
    let ghost body = l.skip(2);
    let mut atoms: Vec<XyzAtom> = Vec::new();
    let mut elements: Vec<Element> = Vec::new();
    let mut j: usize = 2;
    assert(element_names(elements@) =~= elements_upto(body, 0));
    while j < ls.len()
        invariant
            2 <= j <= ls@.len(),
            l == seqs_of(ls@),
            l == lines(contents@),
            body == l.skip(2),
            xyz_header_ok(contents@),
            parse_usize(l[0]) == Some(n_atoms),
            atoms@.len() == j - 2,
            elements@.len() <= 255,
            usable_until(body, 0) == usable_until(body, (j - 2) as nat),
            element_names(elements@) == elements_upto(body, (j - 2) as nat),
            forall|i: int|
                0 <= i < atoms@.len() ==> atom_matches(
                    #[trigger] atoms@[i],
                    body[i],
                    element_names(elements@),
                ),
        decreases ls@.len() - j,
    {
        let ghost k = (j - 2) as nat;
        let ghost prev = elements_upto(body, k);
        assert(body[k as int] == ls@[j as int]@);
        let fields = split_words(ls[j].as_slice());
        if fields.len() != 4 {
            assert(!entry_usable(body, k));
            proof {
                lemma_elements_distinct(body, k);
                lemma_types_follow_elements(atoms@, body, element_names(elements@));
            }
            return XyzRecords { atoms, elements, outcome: Err(XyzError::InvalidEntry { line: j }) };
        }
        let ghost w = seqs_of(fields@);
        assert(w[0] == fields@[0]@ && w[1] == fields@[1]@ && w[2] == fields@[2]@ && w[3]
            == fields@[3]@);
        assert(words(body[k as int]) == w);
        assert(entry_element(body[k as int]) == fields@[0]@);
        let ghost names_before = element_names(elements@);
        let ghost atoms_before = atoms@;
        let element = Element::from_chars(fields[0].as_slice());
        let id: usize = match position(&elements, &element) {
            Some(p) => {
                assert(prev.contains(entry_element(body[k as int])));
                assert(elements_upto(body, k + 1) == prev);
                p
            },
            None => {
                if elements.len() == 255 {
                    assert(!entry_usable(body, k));
                    proof {
                        lemma_elements_distinct(body, k);
                        lemma_types_follow_elements(atoms@, body, element_names(elements@));
                    }
                    return XyzRecords {
                        atoms,
                        elements,
                        outcome: Err(XyzError::TooManyElements { line: j }),
                    };
                }
                let ghost before = element_names(elements@);
                elements.push(Element::from_chars(fields[0].as_slice()));
                assert(element_names(elements@) =~= prev.push(entry_element(body[k as int])));
                assert(forall|i: int|
                    0 <= i < before.len() ==> element_names(elements@)[i] == before[i]);
                elements.len() - 1
            },
        };
        assert(entry_usable(body, k));
        assert(usable_until(body, k) == usable_until(body, k + 1));
        let atom = XyzAtom {
            element,
            atom_type: AtomType(id as u8),
            x: string_from_chars(fields[1].as_slice()),
            y: string_from_chars(fields[2].as_slice()),
            z: string_from_chars(fields[3].as_slice()),
        };
        atoms.push(atom);
        assert forall|i: int| 0 <= i < atoms@.len() implies atom_matches(
            #[trigger] atoms@[i],
            body[i],
            element_names(elements@),
        ) by {
            if i < atoms_before.len() {
                assert(atoms@[i] == atoms_before[i]);
                assert(atom_matches(atoms_before[i], body[i], names_before));
                assert(element_names(elements@)[atoms@[i].atom_type.id() as int]
                    == names_before[atoms@[i].atom_type.id() as int]);
            }
        }
        j += 1;
    }
    assert(usable_until(body, (j - 2) as nat) == j - 2);
    proof {
        lemma_elements_distinct(body, (j - 2) as nat);
        lemma_types_follow_elements(atoms@, body, element_names(elements@));
    }
    let found = atoms.len();
    let outcome = if found != n_atoms {
        Err(XyzError::CountMismatch { expected: n_atoms, found })
    } else {
        Ok(found)
    };
    XyzRecords { atoms, elements, outcome }
}

/// One line of a force-field file: an element with its mass, σ and ε as they are
/// written.
pub struct ForceFieldRecord {
    pub element: Element,
    pub mass: String,
    pub sigma: String,
    pub epsilon: String,
}

/// A line of a force-field file without exactly four fields, and its number of fields.
pub struct MalformedLine {
    pub fields: usize,
    pub line: String,
}

/// What was read from a force-field file: the lines before the first malformed one,
/// and that line if there is one.
pub struct ForceField {
    pub records: Vec<ForceFieldRecord>,
    pub malformed: Option<MalformedLine>,
}

/// The index of the first line of `ls`, from `j` on, without four fields; the number of
/// lines when there is none.
pub open spec fn well_formed_until(ls: Seq<Seq<char>>, j: nat) -> nat
    decreases ls.len() - j,
{
    if j >= ls.len() || words(ls[j as int]).len() != 4 {
        j
    } else {
        well_formed_until(ls, j + 1)
    }
}

/// `r` holds the four fields of `line`.
pub open spec fn record_matches(r: ForceFieldRecord, line: Seq<char>) -> bool {
    &&& r.element@ == words(line)[0]
    &&& r.mass@ == words(line)[1]
    &&& r.sigma@ == words(line)[2]
    &&& r.epsilon@ == words(line)[3]
}

/// Reads the contents of a force-field file: one line per element, with its name, mass,
/// σ and ε separated by whitespace. Reading stops at the first line that does not have
/// four fields.
pub fn parse_force_field(contents: &str) -> (r: ForceField)
    ensures
        r.records.len() == well_formed_until(lines(contents@), 0),
        forall|i: int|
            0 <= i < r.records.len() ==> record_matches(
                #[trigger] r.records@[i],
                lines(contents@)[i],
            ),
        match r.malformed {
            Some(m) => {
                &&& r.records.len() < lines(contents@).len()
                &&& m.fields == words(lines(contents@)[r.records.len() as int]).len()
                &&& m.line@ == lines(contents@)[r.records.len() as int]
            },
            None => r.records.len() == lines(contents@).len(),
        },
{
    let cs = chars_of(contents);
    let ls = split_lines(cs.as_slice());
    let ghost l = seqs_of(ls@);
    let mut records: Vec<ForceFieldRecord> = Vec::new();
    let mut j: usize = 0;
    while j < ls.len()
        invariant
            j <= ls@.len(),
            l == seqs_of(ls@),
            l == lines(contents@),
            records@.len() == j,
            well_formed_until(l, 0) == well_formed_until(l, j as nat),
            forall|i: int| 0 <= i < j ==> record_matches(#[trigger] records@[i], l[i]),
        decreases ls@.len() - j,
    {
        assert(l[j as int] == ls@[j as int]@);
        let fields = split_words(ls[j].as_slice());
        if fields.len() != 4 {
            let malformed = MalformedLine {
                fields: fields.len(),
                line: string_from_chars(ls[j].as_slice()),
            };
            return ForceField { records, malformed: Some(malformed) };
        }
        let ghost w = seqs_of(fields@);
        assert(w[0] == fields@[0]@ && w[1] == fields@[1]@ && w[2] == fields@[2]@ && w[3]
            == fields@[3]@);
        let record = ForceFieldRecord {
            element: Element::from_chars(fields[0].as_slice()),
            mass: string_from_chars(fields[1].as_slice()),
            sigma: string_from_chars(fields[2].as_slice()),
            epsilon: string_from_chars(fields[3].as_slice()),
        };
        records.push(record);
        j += 1;
    }
    ForceField { records, malformed: None }
}

/// The positions, in increasing order, of the records of `records` for the element
/// `name`.
pub fn matching_records(records: &[ForceFieldRecord], name: &Element) -> (r: Vec<usize>)
    ensures
        forall|a: int, b: int| 0 <= a < b < r@.len() ==> r@[a] < r@[b],
        forall|a: int|
            0 <= a < r@.len() ==> #[trigger] r@[a] < records@.len() && records@[r@[a] as int].element@
                == name@,
        forall|j: int|
            0 <= j < records@.len() && (#[trigger] records@[j]).element@ == name@ ==> r@.contains(
                j as usize,
            ),
{
    let mut r: Vec<usize> = Vec::new();
    for j in 0..records.len()
        invariant
            forall|a: int, b: int| 0 <= a < b < r@.len() ==> r@[a] < r@[b],
            forall|a: int| 0 <= a < r@.len() ==> #[trigger] r@[a] < j,
            forall|a: int|
                0 <= a < r@.len() ==> #[trigger] r@[a] < records@.len()
                    && records@[r@[a] as int].element@ == name@,
            forall|i: int|
                0 <= i < j && (#[trigger] records@[i]).element@ == name@ ==> r@.contains(
                    i as usize,
                ),
    {
        if records[j].element.same_as(name) {
            let ghost before = r@;
            r.push(j);
            assert(r@[before.len() as int] == j);
            assert forall|i: int|
                0 <= i < j + 1 && (#[trigger] records@[i]).element@ == name@ implies r@.contains(
                i as usize,
            ) by {
                if i < j {
                    let a = choose|a: int| 0 <= a < before.len() && before[a] == i as usize;
                    assert(r@[a] == i as usize);
                } else {
                    assert(r@[before.len() as int] == i as usize);
                }
            }
        }
    }
    r
}

} // verus!
