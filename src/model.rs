use vstd::prelude::*;

use crate::record::{
    coords_bounded, is_hydrogen, parse_atom_record, record_of, AtomRecord, RecordError, RecordView,
};

verus! {

/// One atom: its trimmed name and position, in units of `10^-7` Å.
pub struct Atom {
    pub name: String,
    pub x: i64,
    pub y: i64,
    pub z: i64,
}

pub struct AtomView {
    pub name: Seq<char>,
    pub x: int,
    pub y: int,
    pub z: int,
}

impl View for Atom {
    type V = AtomView;

    open spec fn view(&self) -> AtomView {
        AtomView { name: self.name@, x: self.x as int, y: self.y as int, z: self.z as int }
    }
}

/// One residue, named by the first record of its key `(chain_id, seq_num)`;
/// its atoms in the order of the file.
pub struct Residue {
    pub chain_id: String,
    pub seq_num: i32,
    pub name: String,
    pub atoms: Vec<Atom>,
}

pub struct ResidueView {
    pub chain_id: Seq<char>,
    pub seq_num: int,
    pub name: Seq<char>,
    pub atoms: Seq<AtomView>,
}

impl View for Residue {
    type V = ResidueView;

    open spec fn view(&self) -> ResidueView {
        ResidueView {
            chain_id: self.chain_id@,
            seq_num: self.seq_num as int,
            name: self.name@,
            atoms: self.atoms@.map_values(|a: Atom| a@),
        }
    }
}

/// The residues of a structure, in the order in which their keys first occur.
pub struct Model {
    pub residues: Vec<Residue>,
}

impl View for Model {
    type V = Seq<ResidueView>;

    open spec fn view(&self) -> Seq<ResidueView> {
        self.residues@.map_values(|r: Residue| r@)
    }
}

pub open spec fn has_key(m: Seq<ResidueView>, chain_id: Seq<char>, seq_num: int, i: int) -> bool {
    0 <= i < m.len() && m[i].chain_id == chain_id && m[i].seq_num == seq_num
}

/// No two residues share a key, and every coordinate is in range.
pub open spec fn well_formed(m: Seq<ResidueView>) -> bool {
    &&& forall|i: int, j: int|
        0 <= i < m.len() && 0 <= j < m.len()
            && #[trigger] has_key(m, m[i].chain_id, m[i].seq_num, j)
            ==> i == j
    &&& forall|i: int, k: int|
        0 <= i < m.len() && 0 <= k < m[i].atoms.len() ==> coords_bounded(
            #[trigger] m[i].atoms[k].x,
            m[i].atoms[k].y,
            m[i].atoms[k].z,
        )
}

pub open spec fn atom_of(r: RecordView) -> AtomView {
    AtomView { name: r.atom_name, x: r.x, y: r.y, z: r.z }
}

/// `m` with the atom of record `r` added: appended to the residue of its key,
/// or in a new residue at the end where no residue has that key yet.
pub open spec fn with_atom(m: Seq<ResidueView>, r: RecordView) -> Seq<ResidueView> {
    if exists|i: int| has_key(m, r.chain_id, r.residue_seq, i) {
        let i = choose|i: int| has_key(m, r.chain_id, r.residue_seq, i);
        m.update(i, ResidueView { atoms: m[i].atoms.push(atom_of(r)), ..m[i] })
    } else {
        m.push(
            ResidueView {
                chain_id: r.chain_id,
                seq_num: r.residue_seq,
                name: r.residue_name,
                atoms: seq![atom_of(r)],
            },
        )
    }
}

/// `m` after record `r`: unchanged for a hydrogen.
pub open spec fn after_record(m: Seq<ResidueView>, r: RecordView) -> Seq<ResidueView> {
    if is_hydrogen(r) {
        m
    } else {
        with_atom(m, r)
    }
}

/// The model that the lines of a PDB file describe, or the error of its first
/// bad ATOM record.
pub open spec fn model_of(lines: Seq<Seq<char>>) -> Result<Seq<ResidueView>, RecordError>
    decreases lines.len(),
{
    if lines.len() == 0 {
        Ok(Seq::empty())
    } else {
        match model_of(lines.drop_last()) {
            Err(e) => Err(e),
            Ok(m) => match record_of(lines.last()) {
                Err(e) => Err(e),
                Ok(None) => Ok(m),
                Ok(Some(r)) => Ok(after_record(m, r)),
            },
        }
    }
}

pub open spec fn lines_view(lines: Seq<String>) -> Seq<Seq<char>> {
    lines.map_values(|l: String| l@)
}

proof fn lemma_error_stays(lines: Seq<Seq<char>>, i: int)
    requires
        0 <= i <= lines.len(),
        model_of(lines.take(i)) is Err,
    ensures
        model_of(lines) == model_of(lines.take(i)),
    decreases lines.len() - i,
{
    if i < lines.len() {
        let t = lines.take(i + 1);
        assert(t.drop_last() =~= lines.take(i));
        lemma_error_stays(lines, i + 1);
    } else {
        assert(lines.take(i) =~= lines);
    }
}

/// A hydrogen's ATOM record changes nothing: the model of the lines is the
/// model of the lines without it.
pub proof fn law_hydrogen_ignored(lines: Seq<Seq<char>>, t: int)
    requires
        0 <= t < lines.len(),
        record_of(lines[t]) is Ok,
        record_of(lines[t])->Ok_0 is Some,
        is_hydrogen(record_of(lines[t])->Ok_0->Some_0),
    ensures
        model_of(lines) == model_of(lines.remove(t)),
    decreases lines.len(),
{
    let shorter = lines.remove(t);
    if t == lines.len() - 1 {
        assert(shorter =~= lines.drop_last());
    } else {
        let d = lines.drop_last();
        law_hydrogen_ignored(d, t);
        assert(shorter.drop_last() =~= d.remove(t));
        assert(shorter.last() == lines.last());
    }
}

impl Model {
    pub fn new() -> (r: Model)
        ensures
            r@ == Seq::<ResidueView>::empty(),
            well_formed(r@),
    {
        let m = Model { residues: Vec::new() };
        assert(m@ =~= Seq::<ResidueView>::empty());
        m
    }

    /// Adds the atom of one record, unless it is a hydrogen.
    pub fn add_record(&mut self, r: AtomRecord)
        requires
            well_formed(old(self)@),
            coords_bounded(r.x as int, r.y as int, r.z as int),
        ensures
            final(self)@ == after_record(old(self)@, r@),
            well_formed(final(self)@),
    {
        if r.element.as_str().unicode_len() == 1 && r.element.as_str().get_char(0) == 'H' {
            assert(r.element@ =~= seq!['H']);
            return;
        }
        assert(!is_hydrogen(r@));
        let ghost m = self@;
        let atom = Atom { name: r.atom_name, x: r.x, y: r.y, z: r.z };
        let mut i: usize = 0;
        while i < self.residues.len() && !(self.residues[i].chain_id == r.chain_id
            && self.residues[i].seq_num == r.residue_seq)
            invariant
                i <= self.residues.len(),
                m == self@,
                forall|j: int| 0 <= j < i ==> !has_key(m, r.chain_id@, r.residue_seq as int, j),
            decreases self.residues.len() - i,
        {
            i = i + 1;
        }
        if i < self.residues.len() {
            assert(has_key(m, r.chain_id@, r.residue_seq as int, i as int));
            let ghost k = choose|k: int| has_key(m, r.chain_id@, r.residue_seq as int, k);
            assert(has_key(m, m[i as int].chain_id, m[i as int].seq_num, k));
            assert(k == i);
            self.residues[i].atoms.push(atom);
            assert(self.residues@[i as int]@.atoms =~= m[i as int].atoms.push(atom_of(r@)));
            assert(self@ =~= with_atom(m, r@));
            let ghost n = self@;
            assert forall|a: int, b: int|
                0 <= a < n.len() && 0 <= b < n.len() && #[trigger] has_key(
                    n,
                    n[a].chain_id,
                    n[a].seq_num,
                    b,
                ) implies a == b by {
                assert(has_key(m, m[a].chain_id, m[a].seq_num, b));
            }
            assert forall|a: int, q: int| 0 <= a < n.len()
                && 0 <= q < n[a].atoms.len() implies coords_bounded(
                #[trigger] n[a].atoms[q].x,
                n[a].atoms[q].y,
                n[a].atoms[q].z,
            ) by {
                if a != i || q < m[a].atoms.len() {
                    assert(n[a].atoms[q] == m[a].atoms[q]);
                }
            }
        } else {
            assert(!exists|k: int| has_key(m, r.chain_id@, r.residue_seq as int, k));
            let mut atoms = Vec::new();
            atoms.push(atom);
            let res = Residue {
                chain_id: r.chain_id,
                seq_num: r.residue_seq,
                name: r.residue_name,
                atoms,
            };
            assert(res@.atoms =~= seq![atom_of(r@)]);
            self.residues.push(res);
            assert(self.residues@.last() == res);
            assert(self@ =~= with_atom(m, r@));
            let ghost n = self@;
            assert forall|a: int, b: int|
                0 <= a < n.len() && 0 <= b < n.len() && #[trigger] has_key(
                    n,
                    n[a].chain_id,
                    n[a].seq_num,
                    b,
                ) implies a == b by {
                if a < m.len() && b < m.len() {
                    assert(has_key(m, m[a].chain_id, m[a].seq_num, b));
                } else if a < m.len() {
                    assert(has_key(m, r.chain_id@, r.residue_seq as int, a));
                } else if b < m.len() {
                    assert(has_key(m, r.chain_id@, r.residue_seq as int, b));
                }
            }
            assert forall|a: int, q: int| 0 <= a < n.len()
                && 0 <= q < n[a].atoms.len() implies coords_bounded(
                #[trigger] n[a].atoms[q].x,
                n[a].atoms[q].y,
                n[a].atoms[q].z,
            ) by {
                if a < m.len() {
                    assert(n[a] == m[a]);
                }
            }
        }
    }

    /// Builds the model of the lines of a PDB file: every ATOM record but the
    /// hydrogens, the other lines ignored; the first bad ATOM record fails the
    /// whole.
    pub fn from_lines(lines: &Vec<String>) -> (r: Result<Model, RecordError>)
        ensures
            match r {
                Ok(m) => model_of(lines_view(lines@)) == Ok::<Seq<ResidueView>, RecordError>(m@)
                    && well_formed(m@),
                Err(e) => model_of(lines_view(lines@)) == Err::<Seq<ResidueView>, RecordError>(e),
            },
    {
        let ghost ls = lines_view(lines@);
        let mut m = Model::new();
        let mut i: usize = 0;
        assert(ls.take(0) =~= Seq::<Seq<char>>::empty());
        while i < lines.len()
            invariant
                i <= lines.len(),
                ls == lines_view(lines@),
                ls.len() == lines.len(),
                model_of(ls.take(i as int)) == Ok::<Seq<ResidueView>, RecordError>(m@),
                well_formed(m@),
            decreases lines.len() - i,
        {
            let ghost t = ls.take(i + 1);
            assert(t.drop_last() =~= ls.take(i as int));
            assert(t.last() == lines@[i as int]@);
            match parse_atom_record(lines[i].as_str()) {
                Err(e) => {
                    proof {
                        lemma_error_stays(ls, i + 1);
                    }
                    return Err(e);
                },
                Ok(None) => {},
                Ok(Some(rec)) => {
                    m.add_record(rec);
                },
            }
            i = i + 1;
        }
        assert(ls.take(i as int) =~= ls);
        Ok(m)
    }
}

} // verus!
