use vstd::prelude::*;

use crate::model::{lines_view, model_of, well_formed, Atom, AtomView, Model, ResidueView};
use crate::record::RecordError;
use crate::number::MAGNITUDE_LIMIT;
use crate::record::{coords_bounded, COORD_LIMIT};

verus! {

/// One reported atom pair: atom `atom_a` of residue `residue_a` and atom
/// `atom_b` of residue `residue_b` (indices into the model), and their squared
/// distance in units of `10^-14` Å².
#[derive(Debug, Clone, Copy, PartialEq, Eq, Structural)]
pub struct Contact {
    pub residue_a: usize,
    pub atom_a: usize,
    pub residue_b: usize,
    pub atom_b: usize,
    pub dist_sq: u128,
}

/// The squared Euclidean distance between two atoms.
pub open spec fn sq_dist(a: AtomView, b: AtomView) -> int {
    (a.x - b.x) * (a.x - b.x) + (a.y - b.y) * (a.y - b.y) + (a.z - b.z) * (a.z - b.z)
}

/// The distance between `a` and `b` is at most `cutoff`: for a cutoff below
/// zero no distance is, and otherwise the squares compare as the distances do.
pub open spec fn within(a: AtomView, b: AtomView, cutoff: int) -> bool {
    cutoff >= 0 && sq_dist(a, b) <= cutoff * cutoff
}

pub open spec fn atom(m: Seq<ResidueView>, i: int, k: int) -> AtomView {
    m[i].atoms[k]
}

pub open spec fn contact_at(m: Seq<ResidueView>, i: int, k: int, j: int, l: int) -> Contact {
    Contact {
        residue_a: i as usize,
        atom_a: k as usize,
        residue_b: j as usize,
        atom_b: l as usize,
        dist_sq: sq_dist(atom(m, i, k), atom(m, j, l)) as u128,
    }
}

/// The contact of atom `k` of residue `i` with atom `l` of residue `j`, if
/// they are close enough.
pub open spec fn hit(m: Seq<ResidueView>, i: int, k: int, j: int, l: int, cutoff: int) -> Seq<
    Contact,
> {
    if within(atom(m, i, k), atom(m, j, l), cutoff) {
        seq![contact_at(m, i, k, j, l)]
    } else {
        Seq::empty()
    }
}

/// The contacts of atom `k` of residue `i` with the first `n` atoms of residue `j`.
pub open spec fn atom_row(m: Seq<ResidueView>, i: int, k: int, j: int, cutoff: int, n: int) -> Seq<
    Contact,
>
    decreases n,
{
    if n <= 0 {
        Seq::empty()
    } else {
        atom_row(m, i, k, j, cutoff, n - 1) + hit(m, i, k, j, n - 1, cutoff)
    }
}

/// The contacts of the first `n` atoms of residue `i` with the atoms of residue `j`.
pub open spec fn pair_block(m: Seq<ResidueView>, i: int, j: int, cutoff: int, n: int) -> Seq<
    Contact,
>
    decreases n,
{
    if n <= 0 {
        Seq::empty()
    } else {
        pair_block(m, i, j, cutoff, n - 1) + atom_row(
            m,
            i,
            n - 1,
            j,
            cutoff,
            m[j].atoms.len() as int,
        )
    }
}

/// The contacts of residue `i` with the first `n` residues, those of its own
/// chain skipped.
pub open spec fn residue_row(m: Seq<ResidueView>, i: int, cutoff: int, n: int) -> Seq<Contact>
    decreases n,
{
    if n <= 0 {
        Seq::empty()
    } else {
        residue_row(m, i, cutoff, n - 1) + if m[i].chain_id != m[n - 1].chain_id {
            pair_block(m, i, n - 1, cutoff, m[i].atoms.len() as int)
        } else {
            Seq::empty()
        }
    }
}

/// The contacts of the first `n` residues with every residue.
pub open spec fn scan_upto(m: Seq<ResidueView>, cutoff: int, n: int) -> Seq<Contact>
    decreases n,
{
    if n <= 0 {
        Seq::empty()
    } else {
        scan_upto(m, cutoff, n - 1) + residue_row(m, n - 1, cutoff, m.len() as int)
    }
}

/// Every contact of the model, in the order of residue, atom, residue, atom.
pub open spec fn contacts_of(m: Seq<ResidueView>, cutoff: int) -> Seq<Contact> {
    scan_upto(m, cutoff, m.len() as int)
}

proof fn lemma_sq_dist_bound(a: AtomView, b: AtomView)
    requires
        -COORD_LIMIT < a.x < COORD_LIMIT,
        -COORD_LIMIT < a.y < COORD_LIMIT,
        -COORD_LIMIT < a.z < COORD_LIMIT,
        -COORD_LIMIT < b.x < COORD_LIMIT,
        -COORD_LIMIT < b.y < COORD_LIMIT,
        -COORD_LIMIT < b.z < COORD_LIMIT,
    ensures
        0 <= (a.x - b.x) * (a.x - b.x) <= 4 * COORD_LIMIT * COORD_LIMIT,
        0 <= (a.y - b.y) * (a.y - b.y) <= 4 * COORD_LIMIT * COORD_LIMIT,
        0 <= (a.z - b.z) * (a.z - b.z) <= 4 * COORD_LIMIT * COORD_LIMIT,
        0 <= sq_dist(a, b) <= 12 * COORD_LIMIT * COORD_LIMIT,
{
    let l = COORD_LIMIT as int;
    let (dx, dy, dz) = (a.x - b.x, a.y - b.y, a.z - b.z);
    assert(0 <= dx * dx <= 4 * l * l) by (nonlinear_arith)
        requires
            -2 * l <= dx <= 2 * l,
            l > 0,
    ;
    assert(0 <= dy * dy <= 4 * l * l) by (nonlinear_arith)
        requires
            -2 * l <= dy <= 2 * l,
            l > 0,
    ;
    assert(0 <= dz * dz <= 4 * l * l) by (nonlinear_arith)
        requires
            -2 * l <= dz <= 2 * l,
            l > 0,
    ;
}

fn squared_distance(a: &Atom, b: &Atom) -> (r: u128)
    requires
        -COORD_LIMIT < a.x < COORD_LIMIT,
        -COORD_LIMIT < a.y < COORD_LIMIT,
        -COORD_LIMIT < a.z < COORD_LIMIT,
        -COORD_LIMIT < b.x < COORD_LIMIT,
        -COORD_LIMIT < b.y < COORD_LIMIT,
        -COORD_LIMIT < b.z < COORD_LIMIT,
    ensures
        r == sq_dist(a@, b@),
        r <= 12 * COORD_LIMIT * COORD_LIMIT,
{
    proof {
        lemma_sq_dist_bound(a@, b@);
    }
    let dx = a.x as i128 - b.x as i128;
    let dy = a.y as i128 - b.y as i128;
    let dz = a.z as i128 - b.z as i128;
    (dx * dx + dy * dy + dz * dz) as u128
}


/// Appends the contacts of atom `k` of residue `i` with the atoms of residue `j`.
fn push_row(model: &Model, i: usize, k: usize, j: usize, cutoff: i64, out: &mut Vec<Contact>)
    requires
        well_formed(model@),
        i < model@.len(),
        j < model@.len(),
        k < model@[i as int].atoms.len(),
        -(MAGNITUDE_LIMIT as int) <= cutoff <= MAGNITUDE_LIMIT,
    ensures
        final(out)@ == old(out)@ + atom_row(
            model@,
            i as int,
            k as int,
            j as int,
            cutoff as int,
            model@[j as int].atoms.len() as int,
        ),
{
    let ghost m = model@;
    let ghost start = out@;
    let a = &model.residues[i].atoms[k];
    let others = &model.residues[j].atoms;
    assert(a@ == atom(m, i as int, k as int));
    assert(others@.len() == m[j as int].atoms.len());
    let limit_sq: u128 = if cutoff >= 0 {
        assert(cutoff * cutoff <= MAGNITUDE_LIMIT * MAGNITUDE_LIMIT) by (nonlinear_arith)
            requires
                0 <= cutoff <= MAGNITUDE_LIMIT,
        ;
        (cutoff as u128) * (cutoff as u128)
    } else {
        0
    };
    let mut l: usize = 0;
    while l < others.len()
        invariant
            well_formed(m),
            m == model@,
            i < m.len(),
            j < m.len(),
            k < m[i as int].atoms.len(),
            a@ == atom(m, i as int, k as int),
            others == &model.residues@[j as int].atoms,
            others@.len() == m[j as int].atoms.len(),
            cutoff >= 0 ==> limit_sq == cutoff * cutoff,
            l <= others@.len(),
            out@ == start + atom_row(m, i as int, k as int, j as int, cutoff as int, l as int),
        decreases others@.len() - l,
    {
        let b = &others[l];
        assert(b@ == atom(m, j as int, l as int));
        assert(m[i as int].atoms[k as int] == atom(m, i as int, k as int));
        assert(m[j as int].atoms[l as int] == atom(m, j as int, l as int));
        let ghost (p, q) = (m[i as int].atoms[k as int], m[j as int].atoms[l as int]);
        assert(coords_bounded(p.x, p.y, p.z));
        assert(coords_bounded(q.x, q.y, q.z));
        let d = squared_distance(a, b);
        let ghost before = out@;
        if cutoff >= 0 && d <= limit_sq {
            out.push(
                Contact { residue_a: i, atom_a: k, residue_b: j, atom_b: l, dist_sq: d },
            );
        }
        assert(out@ =~= start + atom_row(m, i as int, k as int, j as int, cutoff as int, l + 1));
        l = l + 1;
    }
}


/// Appends the contacts of the atoms of residue `i` with those of residue `j`.
fn push_block(model: &Model, i: usize, j: usize, cutoff: i64, out: &mut Vec<Contact>)
    requires
        well_formed(model@),
        i < model@.len(),
        j < model@.len(),
        -(MAGNITUDE_LIMIT as int) <= cutoff <= MAGNITUDE_LIMIT,
    ensures
        final(out)@ == old(out)@ + pair_block(
            model@,
            i as int,
            j as int,
            cutoff as int,
            model@[i as int].atoms.len() as int,
        ),
{
    let ghost m = model@;
    let ghost start = out@;
    let n = model.residues[i].atoms.len();
    let mut k: usize = 0;
    while k < n
        invariant
            well_formed(m),
            m == model@,
            i < m.len(),
            j < m.len(),
            n == m[i as int].atoms.len(),
            -(MAGNITUDE_LIMIT as int) <= cutoff <= MAGNITUDE_LIMIT,
            k <= n,
            out@ == start + pair_block(m, i as int, j as int, cutoff as int, k as int),
        decreases n - k,
    {
        push_row(model, i, k, j, cutoff, out);
        assert(out@ =~= start + pair_block(m, i as int, j as int, cutoff as int, k + 1));
        k = k + 1;
    }
}

/// Every pair of atoms on residues of different chains whose distance is at
/// most `cutoff` (in units of `10^-7` Å), in the order of residue, atom,
/// residue, atom; each pair therefore comes twice, once each way round.
pub fn find_contacts(model: &Model, cutoff: i64) -> (r: Vec<Contact>)
    requires
        well_formed(model@),
        -(MAGNITUDE_LIMIT as int) <= cutoff <= MAGNITUDE_LIMIT,
    ensures
        r@ == contacts_of(model@, cutoff as int),
{
    let ghost m = model@;
    let mut out: Vec<Contact> = Vec::new();
    let n = model.residues.len();
    let mut i: usize = 0;
    while i < n
        invariant
            well_formed(m),
            m == model@,
            n == m.len(),
            -(MAGNITUDE_LIMIT as int) <= cutoff <= MAGNITUDE_LIMIT,
            i <= n,
            out@ == scan_upto(m, cutoff as int, i as int),
        decreases n - i,
    {
        let ghost before = out@;
        let mut j: usize = 0;
        while j < n
            invariant
                well_formed(m),
                m == model@,
                n == m.len(),
                -(MAGNITUDE_LIMIT as int) <= cutoff <= MAGNITUDE_LIMIT,
                i < n,
                j <= n,
                out@ == before + residue_row(m, i as int, cutoff as int, j as int),
            decreases n - j,
        {
            assert(model.residues@[i as int].chain_id@ == m[i as int].chain_id);
            assert(model.residues@[j as int].chain_id@ == m[j as int].chain_id);
            if model.residues[i].chain_id != model.residues[j].chain_id {
                push_block(model, i, j, cutoff, &mut out);
            }
            assert(out@ =~= before + residue_row(m, i as int, cutoff as int, j + 1));
            j = j + 1;
        }
        assert(out@ =~= scan_upto(m, cutoff as int, i + 1));
        i = i + 1;
    }
    out
}


/// Atom `k` of residue `i` and atom `l` of residue `j` exist, lie on
/// different chains and are close enough.
pub open spec fn is_contact(
    m: Seq<ResidueView>,
    cutoff: int,
    i: int,
    k: int,
    j: int,
    l: int,
) -> bool {
    &&& 0 <= i < m.len()
    &&& 0 <= j < m.len()
    &&& 0 <= k < m[i].atoms.len()
    &&& 0 <= l < m[j].atoms.len()
    &&& m[i].chain_id != m[j].chain_id
    &&& within(atom(m, i, k), atom(m, j, l), cutoff)
}

proof fn lemma_concat_contains(a: Seq<Contact>, b: Seq<Contact>, x: Contact)
    ensures
        (a + b).contains(x) <==> a.contains(x) || b.contains(x),
{
    if (a + b).contains(x) {
        let t = choose|t: int| 0 <= t < (a + b).len() && (a + b)[t] == x;
        if t < a.len() {
            assert(a[t] == x);
        } else {
            assert(b[t - a.len()] == x);
        }
    }
    if a.contains(x) {
        let t = choose|t: int| 0 <= t < a.len() && a[t] == x;
        assert((a + b)[t] == x);
    }
    if b.contains(x) {
        let t = choose|t: int| 0 <= t < b.len() && b[t] == x;
        assert((a + b)[t + a.len()] == x);
    }
}

proof fn lemma_row_contains(
    m: Seq<ResidueView>,
    i: int,
    k: int,
    j: int,
    cutoff: int,
    n: int,
    x: Contact,
)
    requires
        0 <= n,
    ensures
        atom_row(m, i, k, j, cutoff, n).contains(x) <==> exists|l: int|
            0 <= l < n && within(atom(m, i, k), atom(m, j, l), cutoff)
                && x == #[trigger] contact_at(
                m,
                i,
                k,
                j,
                l,
            ),
    decreases n,
{
    if n > 0 {
        lemma_row_contains(m, i, k, j, cutoff, n - 1, x);
        let (front, back) = (atom_row(m, i, k, j, cutoff, n - 1), hit(m, i, k, j, n - 1, cutoff));
        lemma_concat_contains(front, back, x);
        if hit(m, i, k, j, n - 1, cutoff).contains(x) {
            assert(hit(m, i, k, j, n - 1, cutoff)[0] == x);
            assert(x == contact_at(m, i, k, j, n - 1));
        }
        if exists|l: int|
            0 <= l < n && within(atom(m, i, k), atom(m, j, l), cutoff)
                && x == #[trigger] contact_at(m, i, k, j, l)
        {
            let l = choose|l: int|
                0 <= l < n && within(atom(m, i, k), atom(m, j, l), cutoff)
                    && x == #[trigger] contact_at(m, i, k, j, l);
            if l == n - 1 {
                assert(hit(m, i, k, j, n - 1, cutoff)[0] == x);
            }
        }
    }
}

proof fn lemma_block_contains(
    m: Seq<ResidueView>,
    i: int,
    j: int,
    cutoff: int,
    n: int,
    x: Contact,
)
    requires
        0 <= n,
    ensures
        pair_block(m, i, j, cutoff, n).contains(x) <==> exists|k: int, l: int|
            0 <= k < n && 0 <= l < m[j].atoms.len() && within(atom(m, i, k), atom(m, j, l), cutoff)
                && x == #[trigger] contact_at(m, i, k, j, l),
    decreases n,
{
    if n > 0 {
        let len = m[j].atoms.len() as int;
        lemma_block_contains(m, i, j, cutoff, n - 1, x);
        lemma_row_contains(m, i, n - 1, j, cutoff, len, x);
        let front = pair_block(m, i, j, cutoff, n - 1);
        let back = atom_row(m, i, n - 1, j, cutoff, len);
        lemma_concat_contains(front, back, x);
        if exists|k: int, l: int|
            0 <= k < n && 0 <= l < len && within(atom(m, i, k), atom(m, j, l), cutoff)
                && x == #[trigger] contact_at(m, i, k, j, l)
        {
            let (k, l) = choose|k: int, l: int|
                0 <= k < n && 0 <= l < len && within(atom(m, i, k), atom(m, j, l), cutoff)
                    && x == #[trigger] contact_at(m, i, k, j, l);
            if k < n - 1 {
                assert(pair_block(m, i, j, cutoff, n - 1).contains(x));
            } else {
                assert(atom_row(m, i, n - 1, j, cutoff, len).contains(x));
            }
        }
    }
}

proof fn lemma_residue_row_contains(
    m: Seq<ResidueView>,
    i: int,
    cutoff: int,
    n: int,
    x: Contact,
)
    requires
        0 <= i < m.len(),
        0 <= n <= m.len(),
    ensures
        residue_row(m, i, cutoff, n).contains(x) <==> exists|j: int, k: int, l: int|
            0 <= j < n && is_contact(m, cutoff, i, k, j, l)
                && x == #[trigger] contact_at(m, i, k, j, l),
    decreases n,
{
    if n > 0 {
        let j0 = n - 1;
        let last = if m[i].chain_id != m[j0].chain_id {
            pair_block(m, i, j0, cutoff, m[i].atoms.len() as int)
        } else {
            Seq::empty()
        };
        lemma_residue_row_contains(m, i, cutoff, n - 1, x);
        lemma_block_contains(m, i, j0, cutoff, m[i].atoms.len() as int, x);
        lemma_concat_contains(residue_row(m, i, cutoff, n - 1), last, x);
        if last.contains(x) && m[i].chain_id != m[j0].chain_id {
            let (k, l) = choose|k: int, l: int|
                0 <= k < m[i].atoms.len() && 0 <= l < m[j0].atoms.len()
                    && within(atom(m, i, k), atom(m, j0, l), cutoff)
                    && x == #[trigger] contact_at(m, i, k, j0, l);
            assert(is_contact(m, cutoff, i, k, j0, l));
        }
        if exists|j: int, k: int, l: int|
            0 <= j < n && is_contact(m, cutoff, i, k, j, l)
                && x == #[trigger] contact_at(m, i, k, j, l)
        {
            let (j, k, l) = choose|j: int, k: int, l: int|
                0 <= j < n && is_contact(m, cutoff, i, k, j, l)
                    && x == #[trigger] contact_at(m, i, k, j, l);
            if j < n - 1 {
                assert(residue_row(m, i, cutoff, n - 1).contains(x));
            } else {
                assert(pair_block(m, i, j0, cutoff, m[i].atoms.len() as int).contains(x));
            }
        }
    }
}

proof fn lemma_scan_contains(m: Seq<ResidueView>, cutoff: int, n: int, x: Contact)
    requires
        0 <= n <= m.len(),
    ensures
        scan_upto(m, cutoff, n).contains(x) <==> exists|i: int, k: int, j: int, l: int|
            0 <= i < n && is_contact(m, cutoff, i, k, j, l)
                && x == #[trigger] contact_at(m, i, k, j, l),
    decreases n,
{
    if n > 0 {
        let i0 = n - 1;
        lemma_scan_contains(m, cutoff, n - 1, x);
        lemma_residue_row_contains(m, i0, cutoff, m.len() as int, x);
        let back = residue_row(m, i0, cutoff, m.len() as int);
        lemma_concat_contains(scan_upto(m, cutoff, n - 1), back, x);
        if residue_row(m, i0, cutoff, m.len() as int).contains(x) {
            let (j, k, l) = choose|j: int, k: int, l: int|
                0 <= j < m.len() && is_contact(m, cutoff, i0, k, j, l)
                    && x == #[trigger] contact_at(m, i0, k, j, l);
            assert(0 <= i0 < n && is_contact(m, cutoff, i0, k, j, l)
                && x == contact_at(m, i0, k, j, l));
        }
        if exists|i: int, k: int, j: int, l: int|
            0 <= i < n && is_contact(m, cutoff, i, k, j, l)
                && x == #[trigger] contact_at(m, i, k, j, l)
        {
            let (i, k, j, l) = choose|i: int, k: int, j: int, l: int|
                0 <= i < n && is_contact(m, cutoff, i, k, j, l)
                    && x == #[trigger] contact_at(m, i, k, j, l);
            if i < n - 1 {
                assert(scan_upto(m, cutoff, n - 1).contains(x));
            } else {
                assert(residue_row(m, i0, cutoff, m.len() as int).contains(x));
            }
        }
    }
}

/// A contact is reported exactly when its two atoms lie on residues of
/// different chains and are at most `cutoff` apart.
pub proof fn lemma_contacts_exactly(m: Seq<ResidueView>, cutoff: int, x: Contact)
    ensures
        contacts_of(m, cutoff).contains(x) <==> exists|i: int, k: int, j: int, l: int|
            is_contact(m, cutoff, i, k, j, l) && x == #[trigger] contact_at(m, i, k, j, l),
{
    lemma_scan_contains(m, cutoff, m.len() as int, x);
}


/// Residue and atom indices of `m` fit in a `usize`.
pub open spec fn indexable(m: Seq<ResidueView>) -> bool {
    &&& m.len() <= usize::MAX
    &&& forall|i: int| 0 <= i < m.len() ==> #[trigger] m[i].atoms.len() <= usize::MAX
}

/// `x` seen from its other atom.
pub open spec fn swapped(x: Contact) -> Contact {
    Contact {
        residue_a: x.residue_b,
        atom_a: x.atom_b,
        residue_b: x.residue_a,
        atom_b: x.atom_a,
        dist_sq: x.dist_sq,
    }
}

proof fn lemma_reported(m: Seq<ResidueView>, cutoff: int, x: Contact) -> (ix: (
    int,
    int,
    int,
    int,
))
    requires
        indexable(m),
        contacts_of(m, cutoff).contains(x),
    ensures
        is_contact(m, cutoff, ix.0, ix.1, ix.2, ix.3),
        x == contact_at(m, ix.0, ix.1, ix.2, ix.3),
        x.residue_a == ix.0 && x.atom_a == ix.1 && x.residue_b == ix.2 && x.atom_b == ix.3,
{
    lemma_contacts_exactly(m, cutoff, x);
    let (i, k, j, l) = choose|i: int, k: int, j: int, l: int|
        is_contact(m, cutoff, i, k, j, l) && x == #[trigger] contact_at(m, i, k, j, l);
    assert(m[i].atoms.len() <= usize::MAX);
    assert(m[j].atoms.len() <= usize::MAX);
    (i, k, j, l)
}

/// No contact joins two residues of one chain.
pub proof fn law_chains_differ(m: Seq<ResidueView>, cutoff: int, x: Contact)
    requires
        indexable(m),
        contacts_of(m, cutoff).contains(x),
    ensures
        x.residue_a < m.len(),
        x.residue_b < m.len(),
        m[x.residue_a as int].chain_id != m[x.residue_b as int].chain_id,
{
    lemma_reported(m, cutoff, x);
}

/// The cutoff is inclusive: a pair of atoms on different chains is reported
/// exactly when its squared distance is at most the squared cutoff, so a pair
/// at the cutoff is in and one any farther is out.
pub proof fn law_cutoff_inclusive(
    m: Seq<ResidueView>,
    cutoff: int,
    i: int,
    k: int,
    j: int,
    l: int,
)
    requires
        indexable(m),
        cutoff >= 0,
        0 <= i < m.len(),
        0 <= j < m.len(),
        0 <= k < m[i].atoms.len(),
        0 <= l < m[j].atoms.len(),
        m[i].chain_id != m[j].chain_id,
    ensures
        sq_dist(atom(m, i, k), atom(m, j, l)) <= cutoff * cutoff ==> contacts_of(
            m,
            cutoff,
        ).contains(contact_at(m, i, k, j, l)),
        sq_dist(atom(m, i, k), atom(m, j, l)) > cutoff * cutoff ==> !contacts_of(
            m,
            cutoff,
        ).contains(contact_at(m, i, k, j, l)),
{
    let x = contact_at(m, i, k, j, l);
    lemma_contacts_exactly(m, cutoff, x);
    assert(m[i].atoms.len() <= usize::MAX);
    assert(m[j].atoms.len() <= usize::MAX);
    if contacts_of(m, cutoff).contains(x) {
        lemma_reported(m, cutoff, x);
    }
}

/// Every contact is reported the other way round too, with the same distance.
pub proof fn law_reported_both_ways(m: Seq<ResidueView>, cutoff: int, x: Contact)
    requires
        indexable(m),
        contacts_of(m, cutoff).contains(x),
    ensures
        contacts_of(m, cutoff).contains(swapped(x)),
{
    let (i, k, j, l) = lemma_reported(m, cutoff, x);
    let a = atom(m, i, k);
    let b = atom(m, j, l);
    assert(sq_dist(a, b) == sq_dist(b, a)) by (nonlinear_arith);
    assert(is_contact(m, cutoff, j, l, i, k));
    assert(contact_at(m, j, l, i, k) == swapped(x));
    lemma_contacts_exactly(m, cutoff, swapped(x));
}

/// The scan depends on the model and the cutoff alone: two scans of one model
/// with one cutoff report the same contacts in the same order.
pub proof fn law_scan_repeatable(
    m: Seq<ResidueView>,
    cutoff: int,
    first: Seq<Contact>,
    second: Seq<Contact>,
)
    requires
        first == contacts_of(m, cutoff),
        second == contacts_of(m, cutoff),
    ensures
        first == second,
{
}


/// `k` thousandths of an Ångström is the distance whose square is `dist_sq`
/// (in units of `10^-14` Å²) rounded to the nearest thousandth, halves up:
/// `k - 1/2 <= sqrt(dist_sq) / 10^4 < k + 1/2`, squared.
pub open spec fn rounds_to(dist_sq: int, k: int) -> bool {
    &&& k >= 0
    &&& (k == 0 || (2 * k - 1) * (2 * k - 1) * 100_000_000 <= 4 * dist_sq)
    &&& 4 * dist_sq < (2 * k + 1) * (2 * k + 1) * 100_000_000
}

const QUARTER_SCALE: u128 = 25_000_000;

proof fn lemma_floor_compare(x: int, d: int, q: int)
    requires
        x >= 0,
        d >= 0,
        q == d / 25_000_000,
    ensures
        (x <= q) <==> (x * 100_000_000 <= 4 * d),
{
    assert(q * 25_000_000 <= d < (q + 1) * 25_000_000) by (nonlinear_arith)
        requires
            q == d / 25_000_000,
            d >= 0,
    ;
    assert((x <= q) <==> (x * 25_000_000 <= d)) by (nonlinear_arith)
        requires
            q * 25_000_000 <= d < (q + 1) * 25_000_000,
            x >= 0,
    ;
}

impl Contact {
    /// The distance between the two atoms in thousandths of an Ångström,
    /// rounded to the nearest (see `rounds_to`).
    pub fn distance_thousandths(&self) -> (r: u64)
        ensures
            rounds_to(self.dist_sq as int, r as int),
    {
        let q = self.dist_sq / QUARTER_SCALE;
        assert(q <= 14_000_000_000_000_000_000_000_000_000_000);
        let mut lo: u64 = 0;
        let mut hi: u64 = 0x8_0000_0000_0000;
        assert((2 * hi - 1) * (2 * hi - 1) > q) by (nonlinear_arith)
            requires
                hi == 0x8_0000_0000_0000,
                q <= 14_000_000_000_000_000_000_000_000_000_000,
        ;
        while hi - lo > 1
            invariant
                lo < hi <= 0x8_0000_0000_0000,
                q == self.dist_sq / QUARTER_SCALE,
                lo == 0 || (2 * lo - 1) * (2 * lo - 1) <= q,
                (2 * hi - 1) * (2 * hi - 1) > q,
            decreases hi - lo,
        {
            let mid = lo + (hi - lo) / 2;
            assert((2 * mid - 1) * (2 * mid - 1) <= 0x10_0000_0000_0000 * 0x10_0000_0000_0000)
                by (nonlinear_arith)
                requires
                    1 <= mid < 0x8_0000_0000_0000,
            ;
            let t = (2 * mid as u128 - 1) * (2 * mid as u128 - 1);
            if t <= q {
                lo = mid;
            } else {
                hi = mid;
            }
        }
        proof {
            let d = self.dist_sq as int;
            if lo > 0 {
                lemma_floor_compare((2 * lo - 1) * (2 * lo - 1), d, q as int);
            }
            lemma_floor_compare((2 * hi - 1) * (2 * hi - 1), d, q as int);
        }
        lo
    }
}


/// Builds the model of the lines of a PDB file and finds its contacts within
/// `cutoff` (in units of `10^-7` Å); fails with the error of the first bad
/// ATOM record.
pub fn calculate_contacts(lines: &Vec<String>, cutoff: i64) -> (r: Result<
    (Model, Vec<Contact>),
    RecordError,
>)
    requires
        -(MAGNITUDE_LIMIT as int) <= cutoff <= MAGNITUDE_LIMIT,
    ensures
        match r {
            Ok((m, cs)) => model_of(lines_view(lines@)) == Ok::<Seq<ResidueView>, RecordError>(m@)
                && well_formed(m@) && cs@ == contacts_of(m@, cutoff as int),
            Err(e) => model_of(lines_view(lines@)) == Err::<Seq<ResidueView>, RecordError>(e),
        },
{
    let model = Model::from_lines(lines)?;
    let contacts = find_contacts(&model, cutoff);
    Ok((model, contacts))
}

} // verus!
