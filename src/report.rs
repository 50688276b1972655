use vstd::prelude::*;
use vstd::string::*;

use crate::model::{Model, ResidueView};
use crate::scan::{rounds_to, Contact};

verus! {

pub open spec fn digit_char(d: int) -> char {
    seq!['0', '1', '2', '3', '4', '5', '6', '7', '8', '9'][d]
}

/// The decimal digits of `n`, without leading zeros.
pub open spec fn digits_text(n: nat) -> Seq<char>
    decreases n,
{
    if n < 10 {
        seq![digit_char(n as int)]
    } else {
        digits_text(n / 10).push(digit_char(n as int % 10))
    }
}

/// `v` in decimal, with a minus sign where it is negative.
pub open spec fn int_text(v: int) -> Seq<char> {
    if v < 0 {
        seq!['-'] + digits_text((-v) as nat)
    } else {
        digits_text(v as nat)
    }
}

/// `k` thousandths as a decimal with exactly three digits after the point.
pub open spec fn thousandths_text(k: nat) -> Seq<char> {
    let r = k % 1000;
    digits_text(k / 1000) + seq![
        '.',
        digit_char(r as int / 100),
        digit_char(r as int / 10 % 10),
        digit_char(r as int % 10),
    ]
}

/// Residue name, atom name, chain and residue number of one side of a contact.
pub open spec fn side_text(m: Seq<ResidueView>, i: int, k: int) -> Seq<char> {
    m[i].name + seq![' '] + m[i].atoms[k].name + seq![' '] + m[i].chain_id + seq![' '] + int_text(
        m[i].seq_num,
    )
}

/// The report line of contact `x` whose distance is `k` thousandths of an
/// Ångström: both sides and the distance, separated by single spaces.
pub open spec fn contact_line(m: Seq<ResidueView>, x: Contact, k: nat) -> Seq<char> {
    side_text(m, x.residue_a as int, x.atom_a as int) + seq![' '] + side_text(
        m,
        x.residue_b as int,
        x.atom_b as int,
    ) + seq![' '] + thousandths_text(k)
}

/// The indices of `x` name atoms of `m`.
pub open spec fn refers_to(m: Seq<ResidueView>, x: Contact) -> bool {
    &&& x.residue_a < m.len()
    &&& x.residue_b < m.len()
    &&& x.atom_a < m[x.residue_a as int].atoms.len()
    &&& x.atom_b < m[x.residue_b as int].atoms.len()
}

/// Rounding a distance to thousandths has one result.
pub proof fn lemma_rounding_unique(dist_sq: int, k1: int, k2: int)
    requires
        rounds_to(dist_sq, k1),
        rounds_to(dist_sq, k2),
    ensures
        k1 == k2,
{
    if k1 < k2 {
        assert((2 * k1 + 1) * (2 * k1 + 1) <= (2 * k2 - 1) * (2 * k2 - 1)) by (nonlinear_arith)
            requires
                0 <= k1 < k2,
        ;
    } else if k2 < k1 {
        assert((2 * k2 + 1) * (2 * k2 + 1) <= (2 * k1 - 1) * (2 * k1 - 1)) by (nonlinear_arith)
            requires
                0 <= k2 < k1,
        ;
    }
}

fn push_digit(out: &mut String, d: u64)
    requires
        d < 10,
    ensures
        final(out)@ == old(out)@.push(digit_char(d as int)),
{
    let table = "0123456789";
    proof {
        reveal_strlit("0123456789");
    }
    let one = table.substring_char(d as usize, d as usize + 1);
    assert(one@ =~= seq![digit_char(d as int)]);
    out.append(one);
}

fn push_decimal(out: &mut String, n: u64)
    ensures
        final(out)@ == old(out)@ + digits_text(n as nat),
    decreases n,
{
    if n >= 10 {
        push_decimal(out, n / 10);
    }
    push_digit(out, n % 10);
    assert(final(out)@ =~= old(out)@ + digits_text(n as nat));
}

fn push_int(out: &mut String, v: i32)
    ensures
        final(out)@ == old(out)@ + int_text(v as int),
{
    if v < 0 {
        out.append("-");
        proof {
            reveal_strlit("-");
        }
        push_decimal(out, (0 - v as i64) as u64);
        assert(final(out)@ =~= old(out)@ + int_text(v as int));
    } else {
        push_decimal(out, v as u64);
    }
}

fn push_side(out: &mut String, model: &Model, i: usize, k: usize)
    requires
        i < model@.len(),
        k < model@[i as int].atoms.len(),
    ensures
        final(out)@ == old(out)@ + side_text(model@, i as int, k as int),
{
    proof {
        reveal_strlit(" ");
    }
    let res = &model.residues[i];
    assert(res.atoms@[k as int]@ == model@[i as int].atoms[k as int]);
    out.append(res.name.as_str());
    out.append(" ");
    out.append(res.atoms[k].name.as_str());
    out.append(" ");
    out.append(res.chain_id.as_str());
    out.append(" ");
    push_int(out, res.seq_num);
    assert(final(out)@ =~= old(out)@ + side_text(model@, i as int, k as int));
}

/// The line that reports contact `c` of `model`, its distance rounded to
/// thousandths of an Ångström; `None` where `c` names no atoms of `model`.
pub fn report_line(model: &Model, c: &Contact) -> (r: Option<String>)
    ensures
        r is Some <==> refers_to(model@, *c),
        r matches Some(line) ==> exists|k: nat|
            rounds_to(c.dist_sq as int, k as int) && line@ == contact_line(model@, *c, k),
{
    if !(c.residue_a < model.residues.len() && c.residue_b < model.residues.len()
        && c.atom_a < model.residues[c.residue_a].atoms.len()
        && c.atom_b < model.residues[c.residue_b].atoms.len()) {
        return None;
    }
    proof {
        reveal_strlit(" ");
        reveal_strlit(".");
    }
    let k = c.distance_thousandths();
    let mut out = String::new();
    push_side(&mut out, model, c.residue_a, c.atom_a);
    out.append(" ");
    push_side(&mut out, model, c.residue_b, c.atom_b);
    out.append(" ");
    push_decimal(&mut out, k / 1000);
    out.append(".");
    let r = k % 1000;
    push_digit(&mut out, r / 100);
    push_digit(&mut out, r / 10 % 10);
    push_digit(&mut out, r % 10);
    assert(out@ =~= contact_line(model@, *c, k as nat));
    Some(out)
}

} // verus!
