use rofi_voxel::axis::Axis;
use rofi_voxel::body::{JointPosition, VoxelBody, VoxelPos};
use rofi_voxel::direction::Direction;
use rofi_voxel::reconfiguration::{
    all_possible_next_worlds, all_possible_next_worlds_not_norm, log_counters, Error, NextWorld,
    Planner, Stats,
};
use rofi_voxel::world::VoxelWorld;

fn module_world(second_rotated: bool, second_joint: JointPosition) -> VoxelWorld {
    VoxelWorld::from_cells(vec![
        (
            VoxelBody::new_with(Direction::new_with(Axis::X, true), true, JointPosition::Plus90),
            VoxelPos([0; 3]),
        ),
        (
            VoxelBody::new_with(Direction::new_with(Axis::X, false), second_rotated, second_joint),
            VoxelPos([1, 0, 0]),
        ),
    ])
}

/// A world reached by one move whose only symmetry variant is itself.
fn plain_next(world: &VoxelWorld, bodies_count: usize) -> NextWorld {
    NextWorld {
        world: world.copy(),
        bodies_count,
        canonical: world.copy(),
        variants: vec![world.copy()],
    }
}

/// Runs the search where `moves` gives the worlds one move away from a world.
fn run(
    init: &VoxelWorld,
    goal: &VoxelWorld,
    moves: &dyn Fn(&VoxelWorld) -> Vec<VoxelWorld>,
) -> Result<Vec<VoxelWorld>, Error> {
    let mut planner = Planner::start(vec![init.copy()], 2, goal.copy(), 2)?;
    while let Some(h) = planner.next_to_expand() {
        let next: Vec<NextWorld> = moves(planner.world(h)).iter().map(|w| plain_next(w, 2)).collect();
        if planner.expand(h, &next) {
            break;
        }
    }
    planner.path_to_goal()
}

#[test]
fn test_reconfig_no_steps() {
    let world = module_world(false, JointPosition::Minus90);
    let mut planner = Planner::start(vec![world.copy()], 2, world.copy(), 2).unwrap();
    assert!(planner.is_goal_found());
    assert_eq!(planner.next_to_expand(), None);
    let result = planner.path_to_goal().unwrap();
    assert_eq!(result.len(), 1);
    assert!(result[0].same_as(&world));
}

#[test]
fn test_reconfig_one_step() {
    let init_world = module_world(false, JointPosition::Minus90);
    let goal_world = module_world(true, JointPosition::Minus90);
    let mut planner = Planner::start(vec![init_world.copy()], 2, goal_world.copy(), 2).unwrap();
    assert!(!planner.is_goal_found());
    let h = planner.next_to_expand().unwrap();
    assert!(planner.world(h).same_as(&init_world));
    assert!(planner.expand(h, &vec![plain_next(&goal_world, 2)]));
    let result = planner.path_to_goal().unwrap();
    assert_eq!(result.len(), 2);
    assert!(result[0].same_as(&init_world));
    assert!(result[1].same_as(&goal_world));
}

#[test]
fn one_joint_flip_is_a_two_world_path() {
    let init = module_world(false, JointPosition::Minus90);
    let goal = module_world(false, JointPosition::Plus90);
    let flip = |w: &VoxelWorld| {
        let b = w.cells[1].0;
        let j = b.joint_pos().opposite();
        vec![VoxelWorld::from_cells(vec![
            w.cells[0],
            (VoxelBody::new_with(b.other_body_dir(), b.is_shoe_rotated(), j), w.cells[1].1),
        ])]
    };
    let path = run(&init, &goal, &flip).unwrap();
    assert_eq!(path.len(), 2);
    assert!(path[0].same_as(&init));
    assert!(path[1].same_as(&goal));
    assert_eq!(path[0].cells[0], path[1].cells[0]);
}

#[test]
fn differing_body_counts_fail_before_search() {
    let w = module_world(false, JointPosition::Zero);
    let r = Planner::start(vec![w.copy()], 2, w.copy(), 3);
    assert_eq!(r.err(), Some(Error::BodiesCountDoesNotMatch));
}

#[test]
fn unreachable_goal_gives_path_not_found() {
    let init = module_world(false, JointPosition::Zero);
    let other = module_world(false, JointPosition::Plus90);
    let goal = module_world(true, JointPosition::Minus90);
    // init and other reach each other, never the goal.
    let moves = |w: &VoxelWorld| {
        if w.same_as(&init) { vec![other.copy()] } else { vec![init.copy()] }
    };
    let r = run(&init, &goal, &moves);
    assert_eq!(r.err(), Some(Error::PathNotFound));
}

#[test]
fn shortest_path_is_found_first() {
    let w0 = module_world(false, JointPosition::Zero);
    let w1 = module_world(false, JointPosition::Plus90);
    let w2 = module_world(false, JointPosition::Minus90);
    let w3 = module_world(true, JointPosition::Zero);
    // w0 -> w1 -> w2 -> w3 and w0 -> w3 directly.
    let moves = |w: &VoxelWorld| {
        if w.same_as(&w0) {
            vec![w1.copy(), w3.copy()]
        } else if w.same_as(&w1) {
            vec![w2.copy()]
        } else {
            vec![w3.copy()]
        }
    };
    let path = run(&w0, &w3, &moves).unwrap();
    assert_eq!(path.len(), 2);
}

#[test]
fn repeated_runs_give_equal_lengths() {
    let w0 = module_world(false, JointPosition::Zero);
    let w1 = module_world(false, JointPosition::Plus90);
    let w2 = module_world(true, JointPosition::Zero);
    let moves = |w: &VoxelWorld| {
        if w.same_as(&w0) { vec![w1.copy()] } else { vec![w2.copy(), w0.copy()] }
    };
    let first = run(&w0, &w2, &moves).unwrap().len();
    for _ in 0..5 {
        assert_eq!(run(&w0, &w2, &moves).unwrap().len(), first);
    }
    assert_eq!(first, 3);
}

#[test]
fn symmetric_variant_of_start_reaches_goal_in_zero_steps() {
    let init = module_world(false, JointPosition::Zero);
    let mirrored = module_world(true, JointPosition::Zero);
    let mut planner =
        Planner::start(vec![init.copy(), mirrored.copy()], 2, mirrored.copy(), 2).unwrap();
    assert!(planner.is_goal_found());
    assert_eq!(planner.next_to_expand(), None);
    assert_eq!(planner.path_to_goal().unwrap().len(), 1);
}

#[test]
fn collided_and_known_worlds_are_dropped() {
    let init = module_world(false, JointPosition::Zero);
    let a = module_world(false, JointPosition::Plus90);
    let goal = module_world(true, JointPosition::Plus90);
    let mut planner = Planner::start(vec![init.copy()], 2, goal.copy(), 2).unwrap();
    let h = planner.next_to_expand().unwrap();
    let next = vec![plain_next(&goal, 3), plain_next(&init, 2), plain_next(&a, 2)];
    assert!(!planner.expand(h, &next));
    let s = planner.stats();
    assert_eq!(s.all_worlds, 3);
    assert_eq!(s.collided_worlds, 1);
    assert_eq!(s.next_worlds_before_add, 2);
    assert_eq!(s.added_worlds, 1);
    assert_eq!(s.steps_computed, 1);
    let h2 = planner.next_to_expand().unwrap();
    assert!(planner.world(h2).same_as(&a));
    assert_eq!(planner.next_to_expand(), None);
    assert_eq!(planner.path_to_goal().err(), Some(Error::PathNotFound));
}

#[test]
fn next_world_filters() {
    let a = module_world(false, JointPosition::Plus90);
    let b = module_world(true, JointPosition::Plus90);
    let c = module_world(true, JointPosition::Zero);
    let next = vec![
        NextWorld { world: a.copy(), bodies_count: 2, canonical: b.copy(), variants: vec![b.copy()] },
        NextWorld { world: c.copy(), bodies_count: 1, canonical: c.copy(), variants: vec![c.copy()] },
    ];
    let raw = all_possible_next_worlds_not_norm(&next, 2);
    assert_eq!(raw.len(), 1);
    assert!(raw[0].same_as(&a));
    let canon = all_possible_next_worlds(&next, 2);
    assert_eq!(canon.len(), 1);
    assert!(canon[0].same_as(&b));
    assert_eq!(all_possible_next_worlds(&next, 5).len(), 0);
}

#[test]
fn counter_report_lines() {
    let s = Stats {
        true_cuts: 3,
        false_cuts: 4,
        all_worlds: 10,
        added_worlds: 5,
        next_worlds_before_add: 8,
        collided_worlds: 2,
        steps_computed: 6,
    };
    assert_eq!(
        log_counters(&s),
        vec![
            ("ALL_CUTS", 7),
            ("TRUE_CUTS", 3),
            ("FALSE_CUTS", 4),
            ("ALL_WORLDS", 10),
            ("COLLIDED_WORLDS", 2),
            ("STEPS_COMPUTED", 6),
            ("NEXT_WORLDS_BEFORE_ADD", 8),
            ("ADDED_WORLDS", 5),
        ]
    );
    assert_eq!(Stats::new().steps_computed, 0);
    assert_eq!(Error::PathNotFound.as_str(), "Reconfiguration path not found");
    assert_eq!(Error::BodiesCountDoesNotMatch.as_str(), "Bodies count doesn't match");
}

#[test]
fn expansion_queues_new_canonical_worlds_in_order() {
    let init = module_world(false, JointPosition::Zero);
    let a = module_world(false, JointPosition::Plus90);
    let b = module_world(false, JointPosition::Minus90);
    let a_mirror = module_world(true, JointPosition::Plus90);
    let goal = module_world(true, JointPosition::Minus90);
    let mut planner = Planner::start(vec![init.copy()], 2, goal.copy(), 2).unwrap();
    let h = planner.next_to_expand().unwrap();
    let next = vec![
        NextWorld { world: a.copy(), bodies_count: 2, canonical: a.copy(), variants: vec![a.copy(), a_mirror.copy()] },
        plain_next(&b, 2),
        plain_next(&a_mirror, 2),
    ];
    assert!(!planner.expand(h, &next));
    let s = planner.stats();
    assert_eq!(s.added_worlds, 2);
    assert_eq!(s.next_worlds_before_add, 3);
    let first = planner.next_to_expand().unwrap();
    assert!(planner.world(first).same_as(&a));
    let second = planner.next_to_expand().unwrap();
    assert!(planner.world(second).same_as(&b));
    assert_eq!(planner.next_to_expand(), None);
}

#[test]
fn canonical_world_may_stand_anywhere_among_variants() {
    let init = module_world(false, JointPosition::Zero);
    let canon = module_world(false, JointPosition::Plus90);
    let mirror = module_world(true, JointPosition::Plus90);
    let goal = module_world(true, JointPosition::Minus90);
    let mut planner = Planner::start(vec![init.copy()], 2, goal.copy(), 2).unwrap();
    let h = planner.next_to_expand().unwrap();
    let next = vec![NextWorld {
        world: mirror.copy(),
        bodies_count: 2,
        canonical: canon.copy(),
        variants: vec![mirror.copy(), canon.copy()],
    }];
    assert!(!planner.expand(h, &next));
    let queued = planner.next_to_expand().unwrap();
    assert!(planner.world(queued).same_as(&canon));
    assert_eq!(planner.next_to_expand(), None);
}
