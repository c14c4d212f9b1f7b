use vstd::prelude::*;
use crate::axis::Axis;
use crate::direction::{Direction, unit_vector};

verus! {

/// A quarter turn, counter-clockwise (`Plus90`) or clockwise (`Minus90`).
#[derive(Debug, Clone, Copy, PartialEq, Eq, Structural, Hash, PartialOrd, Ord)]
pub enum RotationAngle {
    Plus90,
    Minus90,
}

impl RotationAngle {
    pub open spec fn spec_opposite(self) -> RotationAngle {
        match self {
            RotationAngle::Plus90 => RotationAngle::Minus90,
            RotationAngle::Minus90 => RotationAngle::Plus90,
        }
    }

    pub fn is_positive(self) -> (r: bool)
        ensures
            r == (self == RotationAngle::Plus90),
    {
        match self {
            RotationAngle::Plus90 => true,
            RotationAngle::Minus90 => false,
        }
    }

    pub fn opposite(self) -> (r: RotationAngle)
        ensures
            r == self.spec_opposite(),
    {
        match self {
            RotationAngle::Plus90 => RotationAngle::Minus90,
            RotationAngle::Minus90 => RotationAngle::Plus90,
        }
    }
}

/// A quarter turn about a principal axis, packed into one byte: the axis
/// index in the two low bits and the angle in the third bit.
#[derive(Debug, Clone, Copy, PartialEq, Eq, Structural, Hash, PartialOrd, Ord)]
pub struct Rotation {
    bits: u8,
}

/// The point (x, y, z) turned by `angle` about `axis`.
pub open spec fn rotated_point(axis: Axis, angle: RotationAngle, p: (int, int, int)) -> (int, int, int) {
    let (x, y, z) = p;
    match (axis, angle) {
        (Axis::X, RotationAngle::Plus90) => (x, -z, y),
        (Axis::X, RotationAngle::Minus90) => (x, z, -y),
        (Axis::Y, RotationAngle::Plus90) => (z, y, -x),
        (Axis::Y, RotationAngle::Minus90) => (-z, y, x),
        (Axis::Z, RotationAngle::Plus90) => (-y, x, z),
        (Axis::Z, RotationAngle::Minus90) => (y, -x, z),
    }
}

/// The extents (x, y, z) after a quarter turn about `axis`: the two other
/// extents swap.
pub open spec fn rotated_sizes<T>(axis: Axis, s: (T, T, T)) -> (T, T, T) {
    let (x, y, z) = s;
    match axis {
        Axis::X => (x, z, y),
        Axis::Y => (z, y, x),
        Axis::Z => (y, x, z),
    }
}

/// The direction `d` turned by `angle` about `axis`.
pub open spec fn rotated_dir(axis: Axis, angle: RotationAngle, d: Direction) -> (Axis, bool) {
    let a = d.spec_axis();
    let s = d.spec_is_positive();
    if a == axis {
        (a, s)
    } else if a == axis.spec_next() {
        (axis.spec_prev(), if angle == RotationAngle::Plus90 { s } else { !s })
    } else {
        (axis.spec_next(), if angle == RotationAngle::Plus90 { !s } else { s })
    }
}

/// Turning by `r` and then by its inverse (same axis, opposite angle) gives
/// back every point.
pub proof fn lemma_rotate_inverse(r: Rotation, p: (int, int, int))
    ensures
        rotated_point(r.spec_axis(), r.spec_angle().spec_opposite(), rotated_point(r.spec_axis(), r.spec_angle(), p))
            == p,
{
}

/// Turning a direction by `r` agrees with turning its unit vector by `r`.
pub proof fn lemma_rotate_dir_matches_rotate(r: Rotation, d: Direction)
    ensures
        ({
            let (a, s) = rotated_dir(r.spec_axis(), r.spec_angle(), d);
            unit_vector(Direction::spec_new(a, s)) == rotated_point(r.spec_axis(), r.spec_angle(), unit_vector(d))
        }),
{
}

/// Rotations with the same axis and angle are the same value.
pub proof fn lemma_rotation_parts(a: Rotation, b: Rotation)
    requires
        a == Rotation::from_parts(a.spec_axis(), a.spec_angle()),
        b == Rotation::from_parts(b.spec_axis(), b.spec_angle()),
        a.spec_axis() == b.spec_axis(),
        a.spec_angle() == b.spec_angle(),
    ensures
        a == b,
{
}

impl Rotation {
    /// The byte is the canonical encoding: axis index 0..=2 in the low two
    /// bits, the angle in the third, nothing above.
    #[verifier::type_invariant]
    closed spec fn inv(self) -> bool {
        self.bits < 8 && self.bits % 4 != 3
    }

    /// The one rotation with this axis and angle.
    pub closed spec fn from_parts(axis: Axis, angle: RotationAngle) -> Rotation {
        Rotation { bits: (axis.index() + if angle == RotationAngle::Minus90 { 4nat } else { 0nat }) as u8 }
    }

    pub closed spec fn spec_axis(self) -> Axis {
        Axis::from_index((self.bits % 4) as nat)
    }

    pub closed spec fn spec_angle(self) -> RotationAngle {
        if (self.bits / 4) % 2 == 0 {
            RotationAngle::Plus90
        } else {
            RotationAngle::Minus90
        }
    }

    pub fn new_with(axis: Axis, angle: RotationAngle) -> (r: Rotation)
        ensures
            r == Rotation::from_parts(axis, angle),
            r.spec_axis() == axis,
            r.spec_angle() == angle,
    {
        let a: u8 = axis.as_index() as u8;
        let bits: u8 = match angle {
            RotationAngle::Plus90 => a,
            RotationAngle::Minus90 => a + 4,
        };
        Rotation { bits }
    }

    pub fn axis(&self) -> (r: Axis)
        ensures
            r == self.spec_axis(),
            *self == Rotation::from_parts(self.spec_axis(), self.spec_angle()),
    {
        proof {
            use_type_invariant(self);
        }
        let k: u8 = self.bits % 4;
        if k == 1 {
            Axis::Y
        } else if k == 2 {
            Axis::Z
        } else {
            Axis::X
        }
    }

    pub fn angle(&self) -> (r: RotationAngle)
        ensures
            r == self.spec_angle(),
            *self == Rotation::from_parts(self.spec_axis(), self.spec_angle()),
    {
        proof {
            use_type_invariant(self);
        }
        if (self.bits / 4) % 2 == 0 {
            RotationAngle::Plus90
        } else {
            RotationAngle::Minus90
        }
    }

    /// The quarter turn about the axis of `direction`, by `rot_angle` as seen
    /// looking against `direction`: the angle flips for a negative direction.
    pub fn new_from_dir(direction: Direction, rot_angle: RotationAngle) -> (r: Rotation)
        ensures
            r == Rotation::from_parts(r.spec_axis(), r.spec_angle()),
            r.spec_axis() == direction.spec_axis(),
            r.spec_angle() == (if direction.spec_is_positive() {
                rot_angle
            } else {
                rot_angle.spec_opposite()
            }),
    {
        Self::new_with(
            direction.axis(),
            if direction.is_positive() {
                rot_angle
            } else {
                rot_angle.opposite()
            },
        )
    }

    /// The quarter turn that takes `from` to `to`.
    pub fn new_from_to(from: Direction, to: Direction) -> (r: Rotation)
        requires
            from.spec_axis() != to.spec_axis(),
        ensures
            r == Rotation::from_parts(r.spec_axis(), r.spec_angle()),
            rotated_dir(r.spec_axis(), r.spec_angle(), from) == (to.spec_axis(), to.spec_is_positive()),
            r.spec_axis() != from.spec_axis(),
            r.spec_axis() != to.spec_axis(),
            r.spec_angle() == (if (from.spec_axis().spec_next() == to.spec_axis())
                == (from.spec_is_positive() == to.spec_is_positive()) {
                RotationAngle::Plus90
            } else {
                RotationAngle::Minus90
            }),
    {
        if from.axis().next_axis() == to.axis() {
            let axis = from.axis().prev_axis();
            if from.is_positive() == to.is_positive() {
                Self::new_with(axis, RotationAngle::Plus90)
            } else {
                Self::new_with(axis, RotationAngle::Minus90)
            }
        } else {
            let axis = from.axis().next_axis();
            if from.is_positive() == to.is_positive() {
                Self::new_with(axis, RotationAngle::Minus90)
            } else {
                Self::new_with(axis, RotationAngle::Plus90)
            }
        }
    }

    /// Turns a point; no coordinate may be `i32::MIN`, whose negation overflows.
    pub fn rotate(&self, position: [i32; 3]) -> (r: [i32; 3])
        requires
            forall|k: int| 0 <= k < 3 ==> position@[k] != i32::MIN,
        ensures
            *self == Rotation::from_parts(self.spec_axis(), self.spec_angle()),
            (r@[0] as int, r@[1] as int, r@[2] as int) == rotated_point(
                self.spec_axis(),
                self.spec_angle(),
                (position@[0] as int, position@[1] as int, position@[2] as int),
            ),
    {
        let x = position[0];
        let y = position[1];
        let z = position[2];
        assert(x != i32::MIN && y != i32::MIN && z != i32::MIN);
        match (self.axis(), self.angle()) {
            (Axis::X, RotationAngle::Plus90) => [x, -z, y],
            (Axis::X, RotationAngle::Minus90) => [x, z, -y],
            (Axis::Y, RotationAngle::Plus90) => [z, y, -x],
            (Axis::Y, RotationAngle::Minus90) => [-z, y, x],
            (Axis::Z, RotationAngle::Plus90) => [-y, x, z],
            (Axis::Z, RotationAngle::Minus90) => [y, -x, z],
        }
    }

    /// Turns extents: the two magnitudes off the rotation axis swap.
    pub fn rotate_sizes<T: Copy>(&self, sizes: [T; 3]) -> (r: [T; 3])
        ensures
            *self == Rotation::from_parts(self.spec_axis(), self.spec_angle()),
            (r@[0], r@[1], r@[2]) == rotated_sizes(self.spec_axis(), (sizes@[0], sizes@[1], sizes@[2])),
    {
        let x = sizes[0];
        let y = sizes[1];
        let z = sizes[2];
        match self.axis() {
            Axis::X => [x, z, y],
            Axis::Y => [z, y, x],
            Axis::Z => [y, x, z],
        }
    }

    pub fn rotate_dir(&self, dir: Direction) -> (r: Direction)
        ensures
            *self == Rotation::from_parts(self.spec_axis(), self.spec_angle()),
            (r.spec_axis(), r.spec_is_positive()) == rotated_dir(self.spec_axis(), self.spec_angle(), dir),
    {
        if self.axis() == dir.axis() {
            dir
        } else if self.axis().next_axis() == dir.axis() {
            match self.angle() {
                RotationAngle::Plus90 => Direction::new_with(self.axis().prev_axis(), dir.is_positive()),
                RotationAngle::Minus90 => Direction::new_with(self.axis().prev_axis(), !dir.is_positive()),
            }
        } else {
            match self.angle() {
                RotationAngle::Plus90 => Direction::new_with(self.axis().next_axis(), !dir.is_positive()),
                RotationAngle::Minus90 => Direction::new_with(self.axis().next_axis(), dir.is_positive()),
            }
        }
    }

    /// The same axis, the opposite angle.
    pub fn inverse(&self) -> (r: Rotation)
        ensures
            *self == Rotation::from_parts(self.spec_axis(), self.spec_angle()),
            r == Rotation::from_parts(self.spec_axis(), self.spec_angle().spec_opposite()),
            r.spec_axis() == self.spec_axis(),
            r.spec_angle() == self.spec_angle().spec_opposite(),
    {
        Self::new_with(self.axis(), self.angle().opposite())
    }
}

} // verus!
