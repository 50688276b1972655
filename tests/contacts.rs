use pdb_contacts::model::Model;
use pdb_contacts::number::{parse_decimal, parse_integer};
use pdb_contacts::record::{parse_atom_record, RecordError};
use pdb_contacts::report::report_line;
use pdb_contacts::scan::{calculate_contacts, find_contacts, Contact};
use pdb_contacts::text::trimmed_field;

const UNITS: i64 = 10_000_000;

fn atom_line(name: &str, resname: &str, chain: &str, resnum: i32, x: &str, y: &str, z: &str, element: &str) -> String {
    format!(
        "ATOM  {:>5} {:<4} {:>3} {}{:>4}    {:>8}{:>8}{:>8}{:>6}{:>6}          {:>2}",
        1, name, resname, chain, resnum, x, y, z, "1.00", "0.00", element
    )
}

fn lines(v: &[String]) -> Vec<String> {
    v.to_vec()
}

fn two_chain_lines() -> Vec<String> {
    lines(&[
        atom_line("CA", "ALA", "A", 1, "0.000", "0.000", "0.000", "C"),
        atom_line("CA", "GLY", "B", 1, "0.000", "0.000", "3.000", "C"),
    ])
}

#[test]
fn atom_line_layout() {
    let l = atom_line("CA", "ALA", "A", 1, "0.000", "0.000", "3.000", "C");
    assert_eq!(l.len(), 78);
    assert_eq!(&l[12..16], "CA  ");
    assert_eq!(&l[17..20], "ALA");
    assert_eq!(&l[21..22], "A");
    assert_eq!(&l[22..26], "   1");
    assert_eq!(&l[46..54], "   3.000");
    assert_eq!(&l[76..78], " C");
}

#[test]
fn cutoff_equal_to_distance_reports_both_ways() {
    let (model, cs) = calculate_contacts(&two_chain_lines(), 3 * UNITS).unwrap();
    assert_eq!(model.residues.len(), 2);
    assert_eq!(cs.len(), 2);
    assert_eq!(cs[0], Contact { residue_a: 0, atom_a: 0, residue_b: 1, atom_b: 0, dist_sq: 9 * (UNITS as u128) * (UNITS as u128) });
    assert_eq!(cs[1], Contact { residue_a: 1, atom_a: 0, residue_b: 0, atom_b: 0, dist_sq: 9 * (UNITS as u128) * (UNITS as u128) });
    assert_eq!(cs[0].distance_thousandths(), 3000);
    assert_eq!(cs[1].distance_thousandths(), 3000);
    assert_eq!(model.residues[cs[0].residue_a].chain_id, "A");
    assert_eq!(model.residues[cs[0].residue_b].chain_id, "B");
}

#[test]
fn cutoff_just_below_distance_reports_nothing() {
    let cutoff = parse_decimal("2.999").unwrap();
    let (_, cs) = calculate_contacts(&two_chain_lines(), cutoff).unwrap();
    assert!(cs.is_empty());
}

#[test]
fn distance_a_hair_over_cutoff_is_excluded() {
    let ls = lines(&[
        atom_line("CA", "ALA", "A", 1, "0.000", "0.000", "0.000", "C"),
        atom_line("CA", "GLY", "B", 1, "0.000", "0.000", "3.000001", "C"),
    ]);
    let (_, cs) = calculate_contacts(&ls, 3 * UNITS).unwrap();
    assert!(cs.is_empty());
    let (_, cs) = calculate_contacts(&ls, 3 * UNITS + 10).unwrap();
    assert_eq!(cs.len(), 2);
}

#[test]
fn same_chain_pairs_are_never_reported() {
    let mut ls = two_chain_lines();
    ls.push(atom_line("CA", "SER", "A", 2, "0.000", "0.000", "1.000", "C"));
    let (model, cs) = calculate_contacts(&ls, 100 * UNITS).unwrap();
    assert_eq!(model.residues.len(), 3);
    assert_eq!(cs.len(), 4);
    for c in &cs {
        assert_ne!(model.residues[c.residue_a].chain_id, model.residues[c.residue_b].chain_id);
    }
    let to_b: Vec<u64> = cs.iter().filter(|c| c.residue_a == 2).map(|c| c.distance_thousandths()).collect();
    assert_eq!(to_b, vec![2000]);
}

#[test]
fn every_contact_has_its_mirror() {
    let ls = lines(&[
        atom_line("N", "ALA", "A", 1, "1.000", "2.000", "3.000", "N"),
        atom_line("CA", "ALA", "A", 1, "1.500", "2.500", "3.500", "C"),
        atom_line("O", "LYS", "B", 7, "2.000", "2.000", "2.000", "O"),
        atom_line("CB", "LYS", "C", 9, "-1.000", "0.500", "4.250", "C"),
    ]);
    let (_, cs) = calculate_contacts(&ls, 4 * UNITS).unwrap();
    assert!(!cs.is_empty());
    for c in &cs {
        let mirror = Contact { residue_a: c.residue_b, atom_a: c.atom_b, residue_b: c.residue_a, atom_b: c.atom_a, dist_sq: c.dist_sq };
        assert!(cs.contains(&mirror));
    }
}

#[test]
fn scanning_twice_gives_the_same_contacts() {
    let ls = lines(&[
        atom_line("N", "ALA", "A", 1, "1.000", "2.000", "3.000", "N"),
        atom_line("O", "LYS", "B", 7, "2.000", "2.000", "2.000", "O"),
        atom_line("CB", "LYS", "C", 9, "-1.000", "0.500", "4.250", "C"),
    ]);
    let model = Model::from_lines(&ls).unwrap();
    let first = find_contacts(&model, 5 * UNITS);
    let second = find_contacts(&model, 5 * UNITS);
    assert_eq!(first, second);
    assert_eq!(first.len(), 6);
}

#[test]
fn hydrogens_are_left_out() {
    let mut ls = two_chain_lines();
    ls.push(atom_line("H", "ALA", "A", 1, "0.000", "0.000", "2.900", "H"));
    ls.push(atom_line("HB", "THR", "C", 5, "0.000", "0.000", "1.000", "H"));
    let (model, cs) = calculate_contacts(&ls, 3 * UNITS).unwrap();
    assert_eq!(model.residues.len(), 2);
    assert_eq!(model.residues[0].atoms.len(), 1);
    assert_eq!(cs.len(), 2);
    let (_, without) = calculate_contacts(&two_chain_lines(), 3 * UNITS).unwrap();
    assert_eq!(cs, without);
}

#[test]
fn record_fields_round_trip() {
    let l = atom_line("OG1", "THR", "B", -42, "-12.345", "6.5", "100.125", "O");
    let r = parse_atom_record(&l).unwrap().unwrap();
    assert_eq!(r.atom_name, "OG1");
    assert_eq!(r.residue_name, "THR");
    assert_eq!(r.chain_id, "B");
    assert_eq!(r.residue_seq, -42);
    assert_eq!(r.x, -123_450_000);
    assert_eq!(r.y, 65_000_000);
    assert_eq!(r.z, 1_001_250_000);
    assert_eq!(r.element, "O");
}

#[test]
fn other_records_are_ignored() {
    assert!(parse_atom_record("HEADER    PROTEIN").unwrap().is_none());
    assert!(parse_atom_record("HETATM    1  O   HOH A   1       0.000   0.000   0.000  1.00  0.00           O").unwrap().is_none());
    assert!(parse_atom_record("").unwrap().is_none());
    let mut ls = two_chain_lines();
    ls.insert(0, "REMARK 1".to_string());
    ls.push("END".to_string());
    let (model, cs) = calculate_contacts(&ls, 3 * UNITS).unwrap();
    assert_eq!(model.residues.len(), 2);
    assert_eq!(cs.len(), 2);
}

#[test]
fn short_atom_record_is_an_error() {
    let l = atom_line("CA", "ALA", "A", 1, "0.000", "0.000", "0.000", "C");
    assert_eq!(parse_atom_record(&l[..77]).err(), Some(RecordError::Truncated));
    assert_eq!(parse_atom_record("ATOM").err(), Some(RecordError::Truncated));
}

#[test]
fn bad_numbers_are_an_error() {
    let l = atom_line("CA", "ALA", "A", 1, "0.0x0", "0.000", "0.000", "C");
    assert_eq!(parse_atom_record(&l).err(), Some(RecordError::BadNumber));
    let mut l = atom_line("CA", "ALA", "A", 1, "0.000", "0.000", "0.000", "C");
    l.replace_range(22..26, "  x1");
    assert_eq!(parse_atom_record(&l).err(), Some(RecordError::BadNumber));
    let h = atom_line("H", "ALA", "A", 1, "abc", "0.000", "0.000", "H");
    assert_eq!(parse_atom_record(&h).err(), Some(RecordError::BadNumber));
    let mut ls = two_chain_lines();
    ls.push(l);
    assert_eq!(calculate_contacts(&ls, UNITS).err(), Some(RecordError::BadNumber));
}

#[test]
fn first_bad_record_stops_the_build() {
    let ls = lines(&[
        atom_line("CA", "ALA", "A", 1, "0.000", "0.000", "0.000", "C"),
        "ATOM  short".to_string(),
        atom_line("CA", "ALA", "A", 1, "zz", "0.000", "0.000", "C"),
    ]);
    assert_eq!(Model::from_lines(&ls).err(), Some(RecordError::Truncated));
}

#[test]
fn atoms_of_one_key_share_a_residue_first_name_wins() {
    let ls = lines(&[
        atom_line("N", "ALA", "A", 1, "0.000", "0.000", "0.000", "N"),
        atom_line("CA", "GLY", "B", 1, "9.000", "0.000", "0.000", "C"),
        atom_line("CA", "SER", "A", 1, "1.000", "0.000", "0.000", "C"),
        atom_line("C", "ALA", "A", 2, "2.000", "0.000", "0.000", "C"),
    ]);
    let model = Model::from_lines(&ls).unwrap();
    assert_eq!(model.residues.len(), 3);
    assert_eq!(model.residues[0].name, "ALA");
    assert_eq!(model.residues[0].atoms.len(), 2);
    assert_eq!(model.residues[0].atoms[0].name, "N");
    assert_eq!(model.residues[0].atoms[1].name, "CA");
    assert_eq!(model.residues[0].atoms[1].x, UNITS);
    assert_eq!(model.residues[1].chain_id, "B");
    assert_eq!(model.residues[2].seq_num, 2);
}

#[test]
fn negative_cutoff_reports_nothing() {
    let (_, cs) = calculate_contacts(&two_chain_lines(), -3 * UNITS).unwrap();
    assert!(cs.is_empty());
    let (_, cs) = calculate_contacts(&two_chain_lines(), 0).unwrap();
    assert!(cs.is_empty());
}

#[test]
fn decimals_parse_to_units() {
    assert_eq!(parse_decimal("3.0"), Some(30_000_000));
    assert_eq!(parse_decimal("3"), Some(30_000_000));
    assert_eq!(parse_decimal("-1.5"), Some(-15_000_000));
    assert_eq!(parse_decimal("+2.25"), Some(22_500_000));
    assert_eq!(parse_decimal(".5"), Some(5_000_000));
    assert_eq!(parse_decimal("5."), Some(50_000_000));
    assert_eq!(parse_decimal("0.0000001"), Some(1));
    assert_eq!(parse_decimal("10000000000"), Some(100_000_000_000_000_000));
    assert_eq!(parse_decimal("10000000000.0000001"), None);
    assert_eq!(parse_decimal("0.00000001"), None);
    assert_eq!(parse_decimal(""), None);
    assert_eq!(parse_decimal("."), None);
    assert_eq!(parse_decimal("-"), None);
    assert_eq!(parse_decimal("1.2.3"), None);
    assert_eq!(parse_decimal("1e3"), None);
    assert_eq!(parse_decimal(" 1"), None);
}

#[test]
fn integers_parse() {
    assert_eq!(parse_integer("42"), Some(42));
    assert_eq!(parse_integer("-7"), Some(-7));
    assert_eq!(parse_integer("+3"), Some(3));
    assert_eq!(parse_integer("999999999"), Some(999_999_999));
    assert_eq!(parse_integer("2147483647"), Some(i32::MAX));
    assert_eq!(parse_integer("-2147483648"), Some(i32::MIN));
    assert_eq!(parse_integer("2147483648"), None);
    assert_eq!(parse_integer("-2147483649"), None);
    assert_eq!(parse_integer("123456789012345678901234567890"), None);
    assert_eq!(parse_integer(""), None);
    assert_eq!(parse_integer("-"), None);
    assert_eq!(parse_integer("1a"), None);
    assert_eq!(parse_integer("1.0"), None);
}

#[test]
fn fields_are_trimmed() {
    assert_eq!(trimmed_field("ab \t xy  \n z", 2, 10), "xy");
    assert_eq!(trimmed_field("     ", 0, 5), "");
    assert_eq!(trimmed_field("abc", 1, 1), "");
    assert_eq!(trimmed_field("abc", 0, 3), "abc");
}

#[test]
fn distances_round_to_thousandths() {
    let c = |d: u128| Contact { residue_a: 0, atom_a: 0, residue_b: 1, atom_b: 0, dist_sq: d };
    assert_eq!(c(0).distance_thousandths(), 0);
    assert_eq!(c(10_005_000u128 * 10_005_000).distance_thousandths(), 1001);
    assert_eq!(c(10_004_999u128 * 10_004_999).distance_thousandths(), 1000);
    assert_eq!(c(2u128 * 10_000_000 * 10_000_000).distance_thousandths(), 1414);
    assert_eq!(c(u128::MAX).distance_thousandths(), 1_844_674_407_370_955);
}

#[test]
fn report_lines_follow_the_output_format() {
    let (model, cs) = calculate_contacts(&two_chain_lines(), 3 * UNITS).unwrap();
    assert_eq!(report_line(&model, &cs[0]).unwrap(), "ALA CA A 1 GLY CA B 1 3.000");
    assert_eq!(report_line(&model, &cs[1]).unwrap(), "GLY CA B 1 ALA CA A 1 3.000");
}

#[test]
fn report_lines_round_and_sign() {
    let ls = lines(&[
        atom_line("OG1", "THR", "X", -12, "0.000", "0.000", "0.000", "O"),
        atom_line("NZ", "LYS", "Y", 1042, "1.0005", "0.000", "0.000", "N"),
        atom_line("C", "LYS", "Y", 1043, "12.34", "0.000", "0.000", "C"),
    ]);
    let (model, cs) = calculate_contacts(&ls, 20 * UNITS).unwrap();
    assert_eq!(report_line(&model, &cs[0]).unwrap(), "THR OG1 X -12 LYS NZ Y 1042 1.001");
    assert_eq!(report_line(&model, &cs[1]).unwrap(), "THR OG1 X -12 LYS C Y 1043 12.340");
    let outside = Contact { residue_a: 0, atom_a: 0, residue_b: 5, atom_b: 0, dist_sq: 0 };
    assert!(report_line(&model, &outside).is_none());
    let no_atom = Contact { residue_a: 0, atom_a: 1, residue_b: 1, atom_b: 0, dist_sq: 0 };
    assert!(report_line(&model, &no_atom).is_none());
}
