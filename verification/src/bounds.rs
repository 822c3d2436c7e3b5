//! The rounded envelope of a table's coordinates.

use vstd::prelude::*;
use crate::table::decoded_fits;
use crate::table::DecodedTranscript;
use crate::table::COORD_LIMIT;

verus! {

/// The whole-numbered envelope of a table: no row lies left of `x_min`, right
/// of `x_max`, below `y_min` or above `y_max`.
#[derive(Clone, Copy, Debug, PartialEq, Eq, Structural)]
pub struct Bounds {
    pub x_min: i64,
    pub x_max: i64,
    pub y_min: i64,
    pub y_max: i64,
}

impl Bounds {
    /// The envelope is not empty and lies within `COORD_LIMIT`.
    pub open spec fn fits(&self) -> bool {
        &&& -COORD_LIMIT <= self.x_min <= self.x_max <= COORD_LIMIT
        &&& -COORD_LIMIT <= self.y_min <= self.y_max <= COORD_LIMIT
    }

    /// Tests `fits`.
    pub fn is_valid(&self) -> (ok: bool)
        ensures
            ok == self.fits(),
    {
        -COORD_LIMIT <= self.x_min && self.x_min <= self.x_max && self.x_max <= COORD_LIMIT
            && -COORD_LIMIT <= self.y_min && self.y_min <= self.y_max && self.y_max
            <= COORD_LIMIT
    }

    /// `self` is the tightest whole-numbered envelope of `table`: each edge is
    /// reached by some row and passed by none. The lower edges are the least
    /// floors, the upper edges the greatest ceilings.
    pub open spec fn encloses(&self, table: Seq<DecodedTranscript>) -> bool {
        &&& forall|i: int|
            0 <= i < table.len() ==> {
                &&& self.x_min <= (#[trigger] table[i]).x.floor
                &&& table[i].x.ceil <= self.x_max
                &&& self.y_min <= table[i].y.floor
                &&& table[i].y.ceil <= self.y_max
            }
        &&& exists|i: int| 0 <= i < table.len() && (#[trigger] table[i]).x.floor == self.x_min
        &&& exists|i: int| 0 <= i < table.len() && (#[trigger] table[i]).x.ceil == self.x_max
        &&& exists|i: int| 0 <= i < table.len() && (#[trigger] table[i]).y.floor == self.y_min
        &&& exists|i: int| 0 <= i < table.len() && (#[trigger] table[i]).y.ceil == self.y_max
    }
}

/// The envelope of a table that has one.
pub open spec fn limits_of(table: Seq<DecodedTranscript>) -> Bounds {
    choose|b: Bounds| b.encloses(table)
}

/// A table has at most one envelope.
pub proof fn lemma_envelope_unique(table: Seq<DecodedTranscript>, a: Bounds, b: Bounds)
    requires
        a.encloses(table),
        b.encloses(table),
    ensures
        a == b,
{
    let ix = choose|i: int| 0 <= i < table.len() && (#[trigger] table[i]).x.floor == a.x_min;
    let jx = choose|i: int| 0 <= i < table.len() && (#[trigger] table[i]).x.floor == b.x_min;
    let ax = choose|i: int| 0 <= i < table.len() && (#[trigger] table[i]).x.ceil == a.x_max;
    let bx = choose|i: int| 0 <= i < table.len() && (#[trigger] table[i]).x.ceil == b.x_max;
    let iy = choose|i: int| 0 <= i < table.len() && (#[trigger] table[i]).y.floor == a.y_min;
    let jy = choose|i: int| 0 <= i < table.len() && (#[trigger] table[i]).y.floor == b.y_min;
    let ay = choose|i: int| 0 <= i < table.len() && (#[trigger] table[i]).y.ceil == a.y_max;
    let by = choose|i: int| 0 <= i < table.len() && (#[trigger] table[i]).y.ceil == b.y_max;
    assert(a.x_min == b.x_min);
    assert(a.x_max == b.x_max);
    assert(a.y_min == b.y_min);
    assert(a.y_max == b.y_max);
}

/// An envelope of a table is the envelope of that table.
pub proof fn lemma_limits_of(table: Seq<DecodedTranscript>, b: Bounds)
    requires
        b.encloses(table),
    ensures
        b == limits_of(table),
{
    lemma_envelope_unique(table, b, limits_of(table));
}

/// The envelope of a table whose coordinates fit lies within `COORD_LIMIT`.
pub proof fn lemma_bounds_fit(table: Seq<DecodedTranscript>, b: Bounds)
    requires
        decoded_fits(table),
        b.encloses(table),
    ensures
        -COORD_LIMIT <= b.x_min <= b.x_max <= COORD_LIMIT,
        -COORD_LIMIT <= b.y_min <= b.y_max <= COORD_LIMIT,
{
    let ix = choose|i: int| 0 <= i < table.len() && (#[trigger] table[i]).x.floor == b.x_min;
    let ax = choose|i: int| 0 <= i < table.len() && (#[trigger] table[i]).x.ceil == b.x_max;
    let iy = choose|i: int| 0 <= i < table.len() && (#[trigger] table[i]).y.floor == b.y_min;
    let ay = choose|i: int| 0 <= i < table.len() && (#[trigger] table[i]).y.ceil == b.y_max;
    assert(table[ix].x.fits() && table[ax].x.fits() && table[iy].y.fits() && table[ay].y.fits());
}

/// Computes the envelope of `table`: the floor of the least and the ceiling of
/// the greatest coordinate on each axis. An empty table has none.
pub fn get_limits(table: &Vec<DecodedTranscript>) -> (limits: Option<Bounds>)
    ensures
        table@.len() == 0 <==> limits.is_none(),
        limits matches Some(b) ==> b.encloses(table@),
{
    if table.len() == 0 {
        return None;
    }
    let mut b = Bounds {
        x_min: table[0].x.floor,
        x_max: table[0].x.ceil,
        y_min: table[0].y.floor,
        y_max: table[0].y.ceil,
    };
    let mut i: usize = 1;
    assert(table@.take(1)[0] == table@[0]);
    while i < table.len()
        invariant
            1 <= i <= table.len(),
            b.encloses(table@.take(i as int)),
        decreases table.len() - i,
    {
        let ghost seen = table@.take(i as int);
        let ghost next = table@.take(i + 1);
        let ghost was = b;
        let ghost ix = choose|k: int| 0 <= k < seen.len() && (#[trigger] seen[k]).x.floor == was.x_min;
        let ghost ax = choose|k: int| 0 <= k < seen.len() && (#[trigger] seen[k]).x.ceil == was.x_max;
        let ghost iy = choose|k: int| 0 <= k < seen.len() && (#[trigger] seen[k]).y.floor == was.y_min;
        let ghost ay = choose|k: int| 0 <= k < seen.len() && (#[trigger] seen[k]).y.ceil == was.y_max;
        let t = &table[i];
        if t.x.floor < b.x_min {
            b.x_min = t.x.floor;
        }
        if t.x.ceil > b.x_max {
            b.x_max = t.x.ceil;
        }
        if t.y.floor < b.y_min {
            b.y_min = t.y.floor;
        }
        if t.y.ceil > b.y_max {
            b.y_max = t.y.ceil;
        }
        proof {
            assert forall|k: int| 0 <= k < next.len() implies {
                &&& b.x_min <= (#[trigger] next[k]).x.floor
                &&& next[k].x.ceil <= b.x_max
                &&& b.y_min <= next[k].y.floor
                &&& next[k].y.ceil <= b.y_max
            } by {
                if k < i {
                    assert(next[k] == seen[k]);
                }
            }
            let wx = if b.x_min == was.x_min { ix } else { i as int };
            let vx = if b.x_max == was.x_max { ax } else { i as int };
            let wy = if b.y_min == was.y_min { iy } else { i as int };
            let vy = if b.y_max == was.y_max { ay } else { i as int };
            assert(next[ix] == seen[ix] && next[ax] == seen[ax] && next[iy] == seen[iy]
                && next[ay] == seen[ay]);
            assert(next[wx].x.floor == b.x_min);
            assert(next[vx].x.ceil == b.x_max);
            assert(next[wy].y.floor == b.y_min);
            assert(next[vy].y.ceil == b.y_max);
        }
        i += 1;
    }
    assert(table@.take(i as int) =~= table@);
    Some(b)
}

} // verus!
