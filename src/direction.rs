use vstd::prelude::*;
use crate::axis::Axis;

verus! {

/// A signed principal direction of the lattice: an axis and a sign.
#[derive(Debug, Clone, Copy, PartialEq, Eq, Structural, Hash, PartialOrd, Ord)]
pub struct Direction {
    pub axis: Axis,
    pub is_positive: bool,
}

/// The unit step along `d`, as integer coordinates (x, y, z).
pub open spec fn unit_vector(d: Direction) -> (int, int, int) {
    let s: int = if d.spec_is_positive() { 1 } else { -1 };
    match d.spec_axis() {
        Axis::X => (s, 0, 0),
        Axis::Y => (0, s, 0),
        Axis::Z => (0, 0, s),
    }
}

/// Coordinate `k` of `pos` moved one step along `d`, as a mathematical integer.
pub open spec fn stepped_coord(d: Direction, pos: Seq<u8>, k: int) -> int {
    let u = unit_vector(d);
    let delta = if k == 0 { u.0 } else if k == 1 { u.1 } else { u.2 };
    pos[k] as int + delta
}

/// The message of a step along `d` that leaves the lattice.
pub open spec fn position_error(d: Direction) -> Seq<char> {
    if d.spec_is_positive() {
        "position overflows the lattice"@
    } else {
        "position underflows the lattice"@
    }
}

impl Direction {
    pub open spec fn spec_axis(self) -> Axis {
        self.axis
    }

    pub open spec fn spec_is_positive(self) -> bool {
        self.is_positive
    }

    pub open spec fn spec_new(axis: Axis, is_positive: bool) -> Direction {
        Direction { axis, is_positive }
    }

    pub fn new_with(axis: Axis, is_positive: bool) -> (r: Direction)
        ensures
            r == Direction::spec_new(axis, is_positive),
            r.spec_axis() == axis,
            r.spec_is_positive() == is_positive,
    {
        Direction { axis, is_positive }
    }

    pub fn axis(self) -> (r: Axis)
        ensures
            r == self.spec_axis(),
    {
        self.axis
    }

    pub fn is_positive(self) -> (r: bool)
        ensures
            r == self.spec_is_positive(),
    {
        self.is_positive
    }

    /// The direction on the same axis with the other sign.
    pub fn opposite(self) -> (r: Direction)
        ensures
            r.spec_axis() == self.spec_axis(),
            r.spec_is_positive() == !self.spec_is_positive(),
    {
        Direction { axis: self.axis, is_positive: !self.is_positive }
    }

    /// Moves `pos` one lattice step along this direction; fails when the
    /// coordinate would leave the range of `u8`.
    pub fn update_position(self, pos: [u8; 3]) -> (r: Result<[u8; 3], String>)
        ensures
            (forall|k: int| 0 <= k < 3 ==> 0 <= #[trigger] stepped_coord(self, pos@, k) <= u8::MAX)
                <==> r is Ok,
            r matches Err(e) ==> e@ == position_error(self),
            r matches Ok(p) ==> forall|k: int|
                0 <= k < 3 ==> p@[k] as int == #[trigger] stepped_coord(self, pos@, k),
    {
        let i: usize = self.axis.as_index();
        let mut p = pos;
        if self.is_positive {
            if pos[i] == u8::MAX {
                assert(stepped_coord(self, pos@, i as int) > u8::MAX);
                return Err("position overflows the lattice".to_owned());
            }
            p[i] = pos[i] + 1;
        } else {
            if pos[i] == 0 {
                assert(stepped_coord(self, pos@, i as int) < 0);
                return Err("position underflows the lattice".to_owned());
            }
            p[i] = pos[i] - 1;
        }
        assert forall|k: int| 0 <= k < 3 implies p@[k] as int == #[trigger] stepped_coord(self, pos@, k) by {}
        Ok(p)
    }
}

} // verus!
