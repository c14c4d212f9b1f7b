use rofi_voxel::axis::Axis;
use rofi_voxel::body::{
    get_neighbour_pos, JointPosition, ShoeOrientation, VoxelBody, VoxelPos,
};
use rofi_voxel::direction::Direction;
use rofi_voxel::rotation::{Rotation, RotationAngle};

const AXES: [Axis; 3] = [Axis::X, Axis::Y, Axis::Z];
const ANGLES: [RotationAngle; 2] = [RotationAngle::Plus90, RotationAngle::Minus90];

fn all_dirs() -> Vec<Direction> {
    let mut v = Vec::new();
    for a in AXES {
        v.push(Direction::new_with(a, true));
        v.push(Direction::new_with(a, false));
    }
    v
}

fn unit(d: Direction) -> [i32; 3] {
    let mut p = [0i32; 3];
    p[d.axis().as_index()] = if d.is_positive() { 1 } else { -1 };
    p
}

#[test]
fn test_axis_as_index() {
    for (axis, i) in AXES.into_iter().zip(0..) {
        assert_eq!(axis.as_index(), i);
    }
}

#[test]
fn axis_cycles_with_period_three() {
    for a in AXES {
        assert_eq!(a.next_axis().next_axis().next_axis(), a);
        assert_eq!(a.next_axis().prev_axis(), a);
        assert_eq!(a.prev_axis().next_axis(), a);
    }
    assert_eq!(Axis::X.next_axis(), Axis::Y);
    assert_eq!(Axis::Z.next_axis(), Axis::X);
    assert_eq!(Axis::X.prev_axis(), Axis::Z);
}

#[test]
fn rotation_angle_basics() {
    assert!(RotationAngle::Plus90.is_positive());
    assert!(!RotationAngle::Minus90.is_positive());
    assert_eq!(RotationAngle::Plus90.opposite(), RotationAngle::Minus90);
    assert_eq!(RotationAngle::Minus90.opposite(), RotationAngle::Plus90);
}

#[test]
fn rotation_getters_round_trip() {
    for a in AXES {
        for g in ANGLES {
            let r = Rotation::new_with(a, g);
            assert_eq!(r.axis(), a);
            assert_eq!(r.angle(), g);
            assert_eq!(r.inverse().axis(), a);
            assert_eq!(r.inverse().angle(), g.opposite());
        }
    }
}

#[test]
fn rotate_table_values() {
    let p = [1, 2, 3];
    let r = |a, g| Rotation::new_with(a, g).rotate(p);
    assert_eq!(r(Axis::X, RotationAngle::Plus90), [1, -3, 2]);
    assert_eq!(r(Axis::X, RotationAngle::Minus90), [1, 3, -2]);
    assert_eq!(r(Axis::Y, RotationAngle::Plus90), [3, 2, -1]);
    assert_eq!(r(Axis::Y, RotationAngle::Minus90), [-3, 2, 1]);
    assert_eq!(r(Axis::Z, RotationAngle::Plus90), [-2, 1, 3]);
    assert_eq!(r(Axis::Z, RotationAngle::Minus90), [2, -1, 3]);
}

#[test]
fn rotate_then_inverse_is_identity() {
    let points = [[1, 2, 3], [-5, 0, 7], [0, 0, 0], [i32::MAX, -4, 9]];
    for a in AXES {
        for g in ANGLES {
            let r = Rotation::new_with(a, g);
            for p in points {
                assert_eq!(r.inverse().rotate(r.rotate(p)), p);
            }
        }
    }
}

#[test]
fn rotate_sizes_swaps_off_axis() {
    let s = [4u8, 5, 6];
    assert_eq!(Rotation::new_with(Axis::X, RotationAngle::Plus90).rotate_sizes(s), [4, 6, 5]);
    assert_eq!(Rotation::new_with(Axis::Y, RotationAngle::Minus90).rotate_sizes(s), [6, 5, 4]);
    assert_eq!(Rotation::new_with(Axis::Z, RotationAngle::Plus90).rotate_sizes(s), [5, 4, 6]);
}

#[test]
fn rotate_dir_agrees_with_rotate() {
    for a in AXES {
        for g in ANGLES {
            let r = Rotation::new_with(a, g);
            for d in all_dirs() {
                assert_eq!(unit(r.rotate_dir(d)), r.rotate(unit(d)));
            }
        }
    }
    for d in all_dirs() {
        for g in ANGLES {
            let r = Rotation::new_from_dir(d, g);
            for e in all_dirs() {
                assert_eq!(unit(r.rotate_dir(e)), r.rotate(unit(e)));
            }
        }
    }
}

#[test]
fn new_from_dir_flips_angle_for_negative_direction() {
    let r = Rotation::new_from_dir(Direction::new_with(Axis::Y, true), RotationAngle::Plus90);
    assert_eq!((r.axis(), r.angle()), (Axis::Y, RotationAngle::Plus90));
    let r = Rotation::new_from_dir(Direction::new_with(Axis::Y, false), RotationAngle::Plus90);
    assert_eq!((r.axis(), r.angle()), (Axis::Y, RotationAngle::Minus90));
}

#[test]
fn new_from_to_takes_from_to_to() {
    for from in all_dirs() {
        for to in all_dirs() {
            if from.axis() != to.axis() {
                let r = Rotation::new_from_to(from, to);
                assert_eq!(r.rotate_dir(from), to);
                assert_eq!(unit(r.rotate_dir(from)), r.rotate(unit(from)));
            }
        }
    }
    let r = Rotation::new_from_to(Direction::new_with(Axis::X, true), Direction::new_with(Axis::Y, true));
    assert_eq!((r.axis(), r.angle()), (Axis::Z, RotationAngle::Plus90));
}

#[test]
fn joint_rotation_steps() {
    assert_eq!(JointPosition::Zero.rotated(RotationAngle::Plus90), Some(JointPosition::Plus90));
    assert_eq!(JointPosition::Zero.rotated(RotationAngle::Minus90), Some(JointPosition::Minus90));
    assert_eq!(JointPosition::Plus90.rotated(RotationAngle::Plus90), None);
    assert_eq!(JointPosition::Minus90.rotated(RotationAngle::Minus90), None);
    assert_eq!(JointPosition::Plus90.rotated(RotationAngle::Minus90), Some(JointPosition::Zero));
    assert_eq!(JointPosition::Minus90.rotated(RotationAngle::Plus90), Some(JointPosition::Zero));
    assert_eq!(JointPosition::Zero.opposite(), JointPosition::Zero);
    assert_eq!(JointPosition::Plus90.opposite(), JointPosition::Minus90);
    assert_eq!(ShoeOrientation::Normal.get_other(), ShoeOrientation::Rotated);
    assert_eq!(ShoeOrientation::Rotated.get_other(), ShoeOrientation::Normal);
}

#[test]
fn packed_types_take_one_byte() {
    assert_eq!(std::mem::size_of::<VoxelBody>(), 1);
    assert_eq!(std::mem::size_of::<Rotation>(), 1);
}

#[test]
fn voxel_body_fields_round_trip() {
    for d in all_dirs() {
        for rot in [false, true] {
            for j in [JointPosition::Zero, JointPosition::Plus90, JointPosition::Minus90] {
                let b = VoxelBody::new_with(d, rot, j);
                assert_eq!(b.other_body_dir(), d);
                assert_eq!(b.is_shoe_rotated(), rot);
                assert_eq!(b.joint_pos(), j);
            }
        }
    }
}

#[test]
fn voxel_body_connectors() {
    let b = VoxelBody::new_with(Direction::new_with(Axis::X, true), false, JointPosition::Zero);
    assert_eq!(b.x_conns_axis(), Axis::Y);
    assert_eq!(b.z_conn_dir(), Direction::new_with(Axis::X, false));
    let b = VoxelBody::new_with(Direction::new_with(Axis::X, true), true, JointPosition::Plus90);
    assert_eq!(b.x_conns_axis(), Axis::Z);
    assert_eq!(b.z_conn_dir(), Direction::new_with(Axis::Y, true));
    let b = VoxelBody::new_with(Direction::new_with(Axis::Y, false), false, JointPosition::Minus90);
    assert_eq!(b.x_conns_axis(), Axis::Z);
    assert_eq!(b.z_conn_dir(), Direction::new_with(Axis::X, false));
    assert_eq!(
        b.get_connectors_dirs(),
        [
            Direction::new_with(Axis::Z, true),
            Direction::new_with(Axis::Z, false),
            Direction::new_with(Axis::X, false),
        ]
    );
}

#[test]
fn neighbour_position_and_its_domain() {
    let b = VoxelBody::new_with(Direction::new_with(Axis::X, true), false, JointPosition::Zero);
    assert_eq!(get_neighbour_pos((b, VoxelPos([0, 0, 0]))), Ok(VoxelPos([1, 0, 0])));
    assert!(get_neighbour_pos((b, VoxelPos([255, 0, 0]))).is_err());
    let b = VoxelBody::new_with(Direction::new_with(Axis::Z, false), false, JointPosition::Zero);
    assert_eq!(get_neighbour_pos((b, VoxelPos([3, 4, 5]))), Ok(VoxelPos([3, 4, 4])));
    assert!(get_neighbour_pos((b, VoxelPos([3, 4, 0]))).is_err());
    assert_eq!(Direction::new_with(Axis::Y, false).update_position([2, 2, 2]), Ok([2, 1, 2]));
    assert_eq!(Direction::new_with(Axis::Y, true).opposite(), Direction::new_with(Axis::Y, false));
}

#[test]
fn rotations_are_fixed_by_axis_and_angle() {
    let r = Rotation::new_from_to(Direction::new_with(Axis::X, true), Direction::new_with(Axis::Y, true));
    assert_eq!(r, Rotation::new_with(Axis::Z, RotationAngle::Plus90));
    for a in AXES {
        for g in ANGLES {
            let r = Rotation::new_with(a, g);
            assert_eq!(r.inverse().inverse(), r);
            assert_ne!(r.inverse(), r);
        }
    }
    for from in all_dirs() {
        for to in all_dirs() {
            if from.axis() != to.axis() {
                assert_eq!(Rotation::new_from_to(to, from), Rotation::new_from_to(from, to).inverse());
            }
        }
        for g in ANGLES {
            assert_eq!(Rotation::new_from_dir(from.opposite(), g.opposite()), Rotation::new_from_dir(from, g));
        }
    }
}

#[test]
fn voxel_bodies_are_fixed_by_their_fields() {
    let d = Direction::new_with(Axis::Z, false);
    let a = VoxelBody::new_with(d, true, JointPosition::Minus90);
    let b = VoxelBody::new_with(a.other_body_dir(), a.is_shoe_rotated(), a.joint_pos());
    assert_eq!(a, b);
    assert_ne!(a, VoxelBody::new_with(d, false, JointPosition::Minus90));
}

#[test]
fn position_errors_name_their_cause() {
    assert_eq!(
        Direction::new_with(Axis::X, true).update_position([255, 0, 0]),
        Err("position overflows the lattice".to_string())
    );
    assert_eq!(
        Direction::new_with(Axis::X, false).update_position([0, 0, 0]),
        Err("position underflows the lattice".to_string())
    );
    let b = VoxelBody::new_with(Direction::new_with(Axis::Y, false), false, JointPosition::Zero);
    assert_eq!(
        get_neighbour_pos((b, VoxelPos([0, 0, 0]))),
        Err("Other body direction error (position underflows the lattice)".to_string())
    );
}
