//! The transcript table as the tiling logic sees it.
//!
//! A row keeps only what the logic reads. Whatever else the source table
//! carries stays with the caller and is found again through `row`.

use vstd::prelude::*;

verus! {

/// Largest magnitude of a whole number in coordinate space, 2^53. Up to this
/// bound whole numbers and their sums are exact in double precision, so a
/// table measured in doubles loses nothing when its tile edges are kept here
/// as integers.
pub const COORD_LIMIT: i64 = 9_007_199_254_740_992;

/// A position on one axis, known by the two whole numbers that enclose it.
///
/// `floor` is the greatest whole number not above the position and `ceil` the
/// least whole number not below it. Against a whole-numbered edge `e` the
/// position is at least `e` exactly when `floor >= e`, and at most `e`
/// exactly when `ceil <= e`.
#[derive(Clone, Copy, Debug, PartialEq, Eq, Structural)]
pub struct Coord {
    pub floor: i64,
    pub ceil: i64,
}

impl Coord {
    /// The two whole numbers enclose one position and stay within `COORD_LIMIT`.
    pub open spec fn fits(&self) -> bool {
        &&& -COORD_LIMIT <= self.floor
        &&& self.floor <= self.ceil
        &&& self.ceil <= self.floor + 1
        &&& self.ceil <= COORD_LIMIT
    }

    /// Tests `fits`.
    pub fn is_valid(&self) -> (ok: bool)
        ensures
            ok == self.fits(),
    {
        -COORD_LIMIT <= self.floor && self.floor <= self.ceil && self.ceil <= COORD_LIMIT
            && self.ceil - 1 <= self.floor
    }
}

/// One detected molecule, before its cell identifier is decoded.
#[derive(Clone, Debug, PartialEq, Eq)]
pub struct Transcript {
    /// Position of the record in the source table.
    pub row: usize,
    pub cell_id: String,
    pub overlaps_nucleus: bool,
    pub feature_name: String,
    pub x: Coord,
    pub y: Coord,
}

impl Transcript {
    /// A second copy of the record.
    pub fn duplicate(&self) -> (copy: Transcript)
        ensures
            copy == *self,
    {
        Transcript {
            row: self.row,
            cell_id: self.cell_id.clone(),
            overlaps_nucleus: self.overlaps_nucleus,
            feature_name: self.feature_name.clone(),
            x: self.x,
            y: self.y,
        }
    }
}

/// One detected molecule with its cell identifier as a plain integer. The
/// feature name is no longer needed once control probes are gone.
#[derive(Clone, Copy, Debug, PartialEq, Eq, Structural)]
pub struct DecodedTranscript {
    /// Position of the record in the source table.
    pub row: usize,
    pub cell_id: u32,
    pub overlaps_nucleus: bool,
    pub x: Coord,
    pub y: Coord,
}

/// Every row of a raw table has coordinates that fit.
pub open spec fn table_fits(table: Seq<Transcript>) -> bool {
    forall|i: int| 0 <= i < table.len() ==> (#[trigger] table[i]).x.fits() && table[i].y.fits()
}

/// Every row of a decoded table has coordinates that fit.
pub open spec fn decoded_fits(table: Seq<DecodedTranscript>) -> bool {
    forall|i: int| 0 <= i < table.len() ==> (#[trigger] table[i]).x.fits() && table[i].y.fits()
}

/// Tests `table_fits`.
pub fn table_is_valid(table: &Vec<Transcript>) -> (ok: bool)
    ensures
        ok == table_fits(table@),
{
    let mut i: usize = 0;
    while i < table.len()
        invariant
            i <= table.len(),
            forall|j: int| 0 <= j < i ==> (#[trigger] table@[j]).x.fits() && table@[j].y.fits(),
        decreases table.len() - i,
    {
        if !(table[i].x.is_valid() && table[i].y.is_valid()) {
            return false;
        }
        i += 1;
    }
    true
}

/// Tests `decoded_fits`.
pub fn decoded_is_valid(table: &Vec<DecodedTranscript>) -> (ok: bool)
    ensures
        ok == decoded_fits(table@),
{
    let mut i: usize = 0;
    while i < table.len()
        invariant
            i <= table.len(),
            forall|j: int| 0 <= j < i ==> (#[trigger] table@[j]).x.fits() && table@[j].y.fits(),
        decreases table.len() - i,
    {
        if !(table[i].x.is_valid() && table[i].y.is_valid()) {
            return false;
        }
        i += 1;
    }
    true
}

/// The number of rows in a table.
pub fn get_row_count(table: &Vec<Transcript>) -> (n: usize)
    ensures
        n == table@.len(),
{
    table.len()
}

} // verus!
