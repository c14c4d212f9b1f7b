use vstd::prelude::*;
use crate::axis::Axis;
use crate::direction::{Direction, position_error, stepped_coord};
use crate::rotation::RotationAngle;

verus! {

/// Whether a shoe's connector frame is in its normal or its rotated placement.
#[derive(Debug, Clone, Copy, PartialEq, Eq, Structural, Hash, PartialOrd, Ord)]
pub enum ShoeOrientation {
    Normal,
    Rotated,
}

impl ShoeOrientation {
    pub fn get_other(self) -> (r: ShoeOrientation)
        ensures
            r != self,
    {
        match self {
            ShoeOrientation::Normal => ShoeOrientation::Rotated,
            ShoeOrientation::Rotated => ShoeOrientation::Normal,
        }
    }
}

/// The angle of a module's joint.
#[derive(Debug, Clone, Copy, PartialEq, Eq, Structural, Hash, PartialOrd, Ord)]
pub enum JointPosition {
    Zero,
    Plus90,
    Minus90,
}

impl JointPosition {
    pub open spec fn spec_opposite(self) -> JointPosition {
        match self {
            JointPosition::Zero => JointPosition::Zero,
            JointPosition::Plus90 => JointPosition::Minus90,
            JointPosition::Minus90 => JointPosition::Plus90,
        }
    }

    /// The joint turned a further quarter by `angle`, if it stays within
    /// -90..=+90.
    pub open spec fn spec_rotated(self, angle: RotationAngle) -> Option<JointPosition> {
        match (self, angle) {
            (JointPosition::Zero, RotationAngle::Plus90) => Some(JointPosition::Plus90),
            (JointPosition::Zero, RotationAngle::Minus90) => Some(JointPosition::Minus90),
            (JointPosition::Plus90, RotationAngle::Minus90) => Some(JointPosition::Zero),
            (JointPosition::Minus90, RotationAngle::Plus90) => Some(JointPosition::Zero),
            _ => None,
        }
    }

    pub fn opposite(self) -> (r: JointPosition)
        ensures
            r == self.spec_opposite(),
    {
        match self {
            JointPosition::Zero => JointPosition::Zero,
            JointPosition::Plus90 => JointPosition::Minus90,
            JointPosition::Minus90 => JointPosition::Plus90,
        }
    }

    pub fn rotated(self, angle: RotationAngle) -> (r: Option<JointPosition>)
        ensures
            r == self.spec_rotated(angle),
    {
        match (self, angle) {
            (JointPosition::Zero, RotationAngle::Plus90) => Some(JointPosition::Plus90),
            (JointPosition::Zero, RotationAngle::Minus90) => Some(JointPosition::Minus90),
            (JointPosition::Plus90, RotationAngle::Minus90)
            | (JointPosition::Minus90, RotationAngle::Plus90) => Some(JointPosition::Zero),
            (JointPosition::Plus90, RotationAngle::Plus90)
            | (JointPosition::Minus90, RotationAngle::Minus90) => None,
        }
    }
}

/// From zero a joint turns to the position of the angle's sign; a signed
/// position turned the same way again has no result, and turned the other
/// way returns to zero.
pub proof fn lemma_joint_rotation(angle: RotationAngle)
    ensures
        JointPosition::Zero.spec_rotated(angle) == Some(
            if angle == RotationAngle::Plus90 { JointPosition::Plus90 } else { JointPosition::Minus90 },
        ),
        JointPosition::Zero.spec_rotated(angle).unwrap().spec_rotated(angle) is None,
        JointPosition::Zero.spec_rotated(angle).unwrap().spec_rotated(angle.spec_opposite())
            == Some(JointPosition::Zero),
{
}

/// A lattice position.
#[derive(Debug, Clone, Copy, PartialEq, Eq, Hash, PartialOrd, Ord)]
pub struct VoxelPos(pub [u8; 3]);

/// One half ("shoe") of a two-body module, packed into one byte:
/// bits 0-1 the axis towards the sibling body, bit 2 its sign, bit 3 whether
/// the shoe is rotated, bits 4-5 the joint position (0, +90, -90).
///
/// When the shoe is not rotated its two fixed connectors lie on the axis
/// after the sibling's axis (X -> Y -> Z -> X), otherwise on the one before.
/// The movable connector faces away from the sibling at joint zero, and
/// otherwise towards the plus or minus side of the remaining axis.
#[derive(Debug, Clone, Copy, PartialEq, Eq, Structural, Hash)]
pub struct VoxelBody {
    bits: u8,
}

pub type VoxelBodyWithPos = (VoxelBody, VoxelPos);

/// Bodies with the same sibling direction, rotation flag and joint are the
/// same value.
pub proof fn lemma_voxel_body_parts(a: VoxelBody, b: VoxelBody)
    requires
        a == VoxelBody::from_parts(a.spec_other_body_dir(), a.spec_is_shoe_rotated(), a.spec_joint_pos()),
        b == VoxelBody::from_parts(b.spec_other_body_dir(), b.spec_is_shoe_rotated(), b.spec_joint_pos()),
        a.spec_other_body_dir() == b.spec_other_body_dir(),
        a.spec_is_shoe_rotated() == b.spec_is_shoe_rotated(),
        a.spec_joint_pos() == b.spec_joint_pos(),
    ensures
        a == b,
{
}

impl VoxelBody {
    /// The byte is the canonical encoding: axis index 0..=2, sign, rotation
    /// flag, joint code 0..=2, nothing above bit 5.
    #[verifier::type_invariant]
    closed spec fn inv(self) -> bool {
        self.bits < 64 && self.bits % 4 != 3 && (self.bits / 16) % 4 != 3
    }

    /// The one body with these fields.
    pub closed spec fn from_parts(other_body_dir: Direction, is_shoe_rotated: bool, joint_pos: JointPosition) -> VoxelBody {
        let a = other_body_dir.spec_axis().index();
        let s: nat = if other_body_dir.spec_is_positive() { 4 } else { 0 };
        let t: nat = if is_shoe_rotated { 8 } else { 0 };
        let j: nat = match joint_pos {
            JointPosition::Zero => 0,
            JointPosition::Plus90 => 16,
            JointPosition::Minus90 => 32,
        };
        VoxelBody { bits: (a + s + t + j) as u8 }
    }

    pub open spec fn is_canonical(self) -> bool {
        self == VoxelBody::from_parts(self.spec_other_body_dir(), self.spec_is_shoe_rotated(), self.spec_joint_pos())
    }

    pub closed spec fn spec_other_body_dir(self) -> Direction {
        Direction::spec_new(Axis::from_index((self.bits % 4) as nat), (self.bits / 4) % 2 == 1)
    }

    pub closed spec fn spec_is_shoe_rotated(self) -> bool {
        (self.bits / 8) % 2 == 1
    }

    pub closed spec fn spec_joint_pos(self) -> JointPosition {
        let j = (self.bits / 16) % 4;
        if j == 1 {
            JointPosition::Plus90
        } else if j == 2 {
            JointPosition::Minus90
        } else {
            JointPosition::Zero
        }
    }

    /// Axis of the two fixed connectors.
    pub open spec fn spec_x_conns_axis(self) -> Axis {
        if self.spec_is_shoe_rotated() {
            self.spec_other_body_dir().spec_axis().spec_prev()
        } else {
            self.spec_other_body_dir().spec_axis().spec_next()
        }
    }

    /// Direction of the movable connector.
    pub open spec fn spec_z_conn_dir(self) -> Direction {
        let other = self.spec_other_body_dir();
        let z_axis = if self.spec_is_shoe_rotated() {
            other.spec_axis().spec_next()
        } else {
            other.spec_axis().spec_prev()
        };
        match self.spec_joint_pos() {
            JointPosition::Zero => Direction::spec_new(other.spec_axis(), !other.spec_is_positive()),
            JointPosition::Plus90 => Direction::spec_new(z_axis, true),
            JointPosition::Minus90 => Direction::spec_new(z_axis, false),
        }
    }

    pub fn new_with(other_body_dir: Direction, is_shoe_rotated: bool, joint_pos: JointPosition) -> (r: VoxelBody)
        ensures
            r == VoxelBody::from_parts(other_body_dir, is_shoe_rotated, joint_pos),
            r.spec_other_body_dir() == other_body_dir,
            r.spec_is_shoe_rotated() == is_shoe_rotated,
            r.spec_joint_pos() == joint_pos,
    {
        let a: u8 = other_body_dir.axis().as_index() as u8;
        let s: u8 = if other_body_dir.is_positive() { 4 } else { 0 };
        let t: u8 = if is_shoe_rotated { 8 } else { 0 };
        let j: u8 = match joint_pos {
            JointPosition::Zero => 0,
            JointPosition::Plus90 => 16,
            JointPosition::Minus90 => 32,
        };
        let bits: u8 = a + s + t + j;
        VoxelBody { bits }
    }

    pub fn other_body_dir(self) -> (r: Direction)
        ensures
            r == self.spec_other_body_dir(),
            self.is_canonical(),
    {
        proof {
            use_type_invariant(&self);
        }
        let k: u8 = self.bits % 4;
        let axis = if k == 1 {
            Axis::Y
        } else if k == 2 {
            Axis::Z
        } else {
            Axis::X
        };
        Direction::new_with(axis, (self.bits / 4) % 2 == 1)
    }

    pub fn is_shoe_rotated(self) -> (r: bool)
        ensures
            r == self.spec_is_shoe_rotated(),
            self.is_canonical(),
    {
        proof {
            use_type_invariant(&self);
        }
        (self.bits / 8) % 2 == 1
    }

    pub fn joint_pos(self) -> (r: JointPosition)
        ensures
            r == self.spec_joint_pos(),
            self.is_canonical(),
    {
        proof {
            use_type_invariant(&self);
        }
        let j: u8 = (self.bits / 16) % 4;
        if j == 1 {
            JointPosition::Plus90
        } else if j == 2 {
            JointPosition::Minus90
        } else {
            JointPosition::Zero
        }
    }

    pub fn x_conns_axis(self) -> (r: Axis)
        ensures
            self.is_canonical(),
            r == self.spec_x_conns_axis(),
    {
        let other_body_axis = self.other_body_dir().axis();
        if self.is_shoe_rotated() {
            other_body_axis.prev_axis()
        } else {
            other_body_axis.next_axis()
        }
    }

    pub fn z_conn_dir(self) -> (r: Direction)
        ensures
            self.is_canonical(),
            r == self.spec_z_conn_dir(),
    {
        let other_body_axis = self.other_body_dir().axis();
        let z_conn_axis = if self.is_shoe_rotated() {
            other_body_axis.next_axis()
        } else {
            other_body_axis.prev_axis()
        };
        match self.joint_pos() {
            JointPosition::Zero => self.other_body_dir().opposite(),
            JointPosition::Plus90 => Direction::new_with(z_conn_axis, true),
            JointPosition::Minus90 => Direction::new_with(z_conn_axis, false),
        }
    }

    /// The two fixed connectors, plus and minus side, then the movable one.
    pub fn get_connectors_dirs(self) -> (r: [Direction; 3])
        ensures
            self.is_canonical(),
            r@ == seq![
                Direction::spec_new(self.spec_x_conns_axis(), true),
                Direction::spec_new(self.spec_x_conns_axis(), false),
                self.spec_z_conn_dir(),
            ],
    {
        let x_conns_axis = self.x_conns_axis();
        let r = [
            Direction::new_with(x_conns_axis, true),
            Direction::new_with(x_conns_axis, false),
            self.z_conn_dir(),
        ];
        assert(r@ =~= seq![r[0], r[1], r[2]]);
        r
    }
}

/// The position of the sibling body: `pos` moved one step towards it. When
/// that step leaves the lattice the error wraps the message of the step.
pub fn get_neighbour_pos(body_with_pos: VoxelBodyWithPos) -> (r: Result<VoxelPos, String>)
    ensures
        (forall|k: int| 0 <= k < 3 ==> 0 <= #[trigger] stepped_coord(
            body_with_pos.0.spec_other_body_dir(), body_with_pos.1.0@, k) <= u8::MAX) <==> r is Ok,
        r matches Err(e) ==> e@ == "Other body direction error ("@ + position_error(
            body_with_pos.0.spec_other_body_dir(),
        ) + ")"@,
        r matches Ok(p) ==> forall|k: int| 0 <= k < 3 ==> p.0@[k] as int == #[trigger] stepped_coord(
            body_with_pos.0.spec_other_body_dir(), body_with_pos.1.0@, k),
{
    match body_with_pos.0.other_body_dir().update_position(body_with_pos.1.0) {
        Ok(p) => Ok(VoxelPos(p)),
        Err(_) => {
            if body_with_pos.0.other_body_dir().is_positive() {
                proof {
                    reveal_strlit("Other body direction error (");
                    reveal_strlit("position overflows the lattice");
                    reveal_strlit(")");
                    reveal_strlit("Other body direction error (position overflows the lattice)");
                    assert("Other body direction error (position overflows the lattice)"@ =~= "Other body direction error ("@
                        + "position overflows the lattice"@ + ")"@);
                }
                Err("Other body direction error (position overflows the lattice)".to_owned())
            } else {
                proof {
                    reveal_strlit("Other body direction error (");
                    reveal_strlit("position underflows the lattice");
                    reveal_strlit(")");
                    reveal_strlit("Other body direction error (position underflows the lattice)");
                    assert("Other body direction error (position underflows the lattice)"@ =~= "Other body direction error ("@
                        + "position underflows the lattice"@ + ")"@);
                }
                Err("Other body direction error (position underflows the lattice)".to_owned())
            }
        },
    }
}

} // verus!
