use vstd::prelude::*;
use vstd::string::*;

use crate::number::{
    decimal_of, integer_of, lemma_short_decimal, lemma_short_integer, parse_decimal, parse_integer,
    pow10,
};
use crate::text::{lemma_trimmed_len, trimmed, trimmed_field};

verus! {

// The fixed columns of an ATOM record, counted from zero, each range half open.
pub const ATOM_NAME_START: usize = 12;
pub const ATOM_NAME_END: usize = 16;
pub const RESIDUE_NAME_START: usize = 17;
pub const RESIDUE_NAME_END: usize = 20;
pub const CHAIN_ID_START: usize = 21;
pub const CHAIN_ID_END: usize = 22;
pub const RESIDUE_SEQ_START: usize = 22;
pub const RESIDUE_SEQ_END: usize = 26;
pub const X_START: usize = 30;
pub const X_END: usize = 38;
pub const Y_START: usize = 38;
pub const Y_END: usize = 46;
pub const Z_START: usize = 46;
pub const Z_END: usize = 54;
pub const ELEMENT_START: usize = 76;
pub const ELEMENT_END: usize = 78;

/// Coordinates read from a record stay below this magnitude, in units of `10^-7` Å.
pub const COORD_LIMIT: i64 = 1_000_000_000_000_000;

/// Why an ATOM record could not be read.
#[derive(Debug, Clone, Copy, PartialEq, Eq, Structural)]
pub enum RecordError {
    /// The line ends before the element column does.
    Truncated,
    /// The residue number or a coordinate is not a number.
    BadNumber,
}

/// The fields of one ATOM record, trimmed; coordinates in units of `10^-7` Å.
pub struct AtomRecord {
    pub atom_name: String,
    pub residue_name: String,
    pub chain_id: String,
    pub residue_seq: i32,
    pub x: i64,
    pub y: i64,
    pub z: i64,
    pub element: String,
}

/// What an `AtomRecord` holds, as plain values.
pub struct RecordView {
    pub atom_name: Seq<char>,
    pub residue_name: Seq<char>,
    pub chain_id: Seq<char>,
    pub residue_seq: int,
    pub x: int,
    pub y: int,
    pub z: int,
    pub element: Seq<char>,
}

impl View for AtomRecord {
    type V = RecordView;

    open spec fn view(&self) -> RecordView {
        RecordView {
            atom_name: self.atom_name@,
            residue_name: self.residue_name@,
            chain_id: self.chain_id@,
            residue_seq: self.residue_seq as int,
            x: self.x as int,
            y: self.y as int,
            z: self.z as int,
            element: self.element@,
        }
    }
}

/// A line that opens with the record name `ATOM`.
pub open spec fn is_atom_line(line: Seq<char>) -> bool {
    line.len() >= 4 && line[0] == 'A' && line[1] == 'T' && line[2] == 'O' && line[3] == 'M'
}

/// The trimmed text of columns `lo .. hi`.
pub open spec fn field(line: Seq<char>, lo: usize, hi: usize) -> Seq<char> {
    trimmed(line.subrange(lo as int, hi as int))
}

/// A hydrogen: the element column reads `H`.
pub open spec fn is_hydrogen(r: RecordView) -> bool {
    r.element == seq!['H']
}

/// What a line of a PDB file says: nothing (`Ok(None)`) unless it is an ATOM
/// record; an ATOM record must reach the element column and hold numbers in
/// the residue number and coordinate columns.
pub open spec fn record_of(line: Seq<char>) -> Result<Option<RecordView>, RecordError> {
    if !is_atom_line(line) {
        Ok(None)
    } else if line.len() < ELEMENT_END {
        Err(RecordError::Truncated)
    } else {
        let seq_num = integer_of(field(line, RESIDUE_SEQ_START, RESIDUE_SEQ_END));
        let x = decimal_of(field(line, X_START, X_END));
        let y = decimal_of(field(line, Y_START, Y_END));
        let z = decimal_of(field(line, Z_START, Z_END));
        if seq_num is None || x is None || y is None || z is None {
            Err(RecordError::BadNumber)
        } else {
            Ok(
                Some(
                    RecordView {
                        atom_name: field(line, ATOM_NAME_START, ATOM_NAME_END),
                        residue_name: field(line, RESIDUE_NAME_START, RESIDUE_NAME_END),
                        chain_id: field(line, CHAIN_ID_START, CHAIN_ID_END),
                        residue_seq: seq_num->0,
                        x: x->0,
                        y: y->0,
                        z: z->0,
                        element: field(line, ELEMENT_START, ELEMENT_END),
                    },
                ),
            )
        }
    }
}

/// Each coordinate below `COORD_LIMIT` in magnitude.
pub open spec fn coords_bounded(x: int, y: int, z: int) -> bool {
    -COORD_LIMIT < x < COORD_LIMIT && -COORD_LIMIT < y < COORD_LIMIT && -COORD_LIMIT < z
        < COORD_LIMIT
}

fn read_coordinate(line: &str, lo: usize, hi: usize) -> (r: Option<i64>)
    requires
        lo <= hi <= line@.len(),
        hi - lo <= 8,
    ensures
        match r {
            Some(v) => decimal_of(field(line@, lo, hi)) == Some(v as int) && -COORD_LIMIT < v
                < COORD_LIMIT,
            None => decimal_of(field(line@, lo, hi)) is None,
        },
{
    let text = trimmed_field(line, lo, hi);
    proof {
        lemma_trimmed_len(line@.subrange(lo as int, hi as int));
        if decimal_of(text@) is Some {
            lemma_short_decimal(text@);
            reveal_with_fuel(pow10, 16);
        }
    }
    parse_decimal(text.as_str())
}

/// Reads one line of a PDB file (see `record_of`).
pub fn parse_atom_record(line: &str) -> (r: Result<Option<AtomRecord>, RecordError>)
    ensures
        match r {
            Ok(Some(a)) => record_of(line@) == Ok::<Option<RecordView>, RecordError>(Some(a@))
                && coords_bounded(a.x as int, a.y as int, a.z as int),
            Ok(None) => record_of(line@) == Ok::<Option<RecordView>, RecordError>(None),
            Err(e) => record_of(line@) == Err::<Option<RecordView>, RecordError>(e),
        },
{
    let n = line.unicode_len();
    if !(n >= 4 && line.get_char(0) == 'A' && line.get_char(1) == 'T' && line.get_char(2) == 'O'
        && line.get_char(3) == 'M') {
        return Ok(None);
    }
    if n < ELEMENT_END {
        return Err(RecordError::Truncated);
    }
    let seq_text = trimmed_field(line, RESIDUE_SEQ_START, RESIDUE_SEQ_END);
    proof {
        lemma_trimmed_len(line@.subrange(RESIDUE_SEQ_START as int, RESIDUE_SEQ_END as int));
        lemma_short_integer(seq_text@);
    }
    let residue_seq = parse_integer(seq_text.as_str());
    let x = read_coordinate(line, X_START, X_END);
    let y = read_coordinate(line, Y_START, Y_END);
    let z = read_coordinate(line, Z_START, Z_END);
    match (residue_seq, x, y, z) {
        (Some(residue_seq), Some(x), Some(y), Some(z)) => {
            let a = AtomRecord {
                atom_name: trimmed_field(line, ATOM_NAME_START, ATOM_NAME_END),
                residue_name: trimmed_field(line, RESIDUE_NAME_START, RESIDUE_NAME_END),
                chain_id: trimmed_field(line, CHAIN_ID_START, CHAIN_ID_END),
                residue_seq,
                x,
                y,
                z,
                element: trimmed_field(line, ELEMENT_START, ELEMENT_END),
            };
            Ok(Some(a))
        },
        _ => Err(RecordError::BadNumber),
    }
}

} // verus!
