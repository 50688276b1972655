//! Inter-chain atomic contacts of a protein structure.
//!
//! The ATOM records of a PDB file are read at their fixed columns into a
//! model of residues keyed by chain and residue number (hydrogens left out),
//! and every pair of atoms on residues of different chains that lie within a
//! cutoff distance is reported, once each way round. Coordinates and the
//! cutoff are exact fixed-point values in units of `10^-7` Å, so distances
//! compare without rounding.
pub mod model;
pub mod number;
pub mod record;
pub mod report;
pub mod scan;
pub mod text;
