use bicycle_chain::chain::{link_filter, CollisionFilter, LinkParams};
use bicycle_chain::controller::{
    plan_chain, ChainSettings, RebuildController, RebuildTrigger, StepOutcome,
};
use bicycle_chain::error::ChainError;
use bicycle_chain::geometry::Point;
use bicycle_chain::groupset::{cog_profile, radius_update, Radius};
use bicycle_chain::pipeline::{
    chain_link_points, generate_chain_link_points_from_point_set, LINK_COUNT,
};
use bicycle_chain::sampler::{
    compass_is_unit, sample_profiles, Direction, Disc, CHAIN_CLEARANCE, DIRECTION_SCALE,
    SAMPLES_PER_COG,
};

fn pt(x: i32, y: i32) -> Point {
    Point { x, y }
}

fn compass(count: usize) -> Vec<Direction> {
    let mut directions = Vec::new();
    for i in 0..count {
        let angle = 2.0 * std::f64::consts::PI * (i as f64) / (count as f64);
        directions.push(Direction {
            cos: (angle.cos() * DIRECTION_SCALE as f64).round() as i32,
            sin: (angle.sin() * DIRECTION_SCALE as f64).round() as i32,
        });
    }
    directions
}

fn drivetrain() -> Vec<Disc> {
    vec![
        cog_profile(Radius(5000), pt(0, 0)),
        cog_profile(Radius(5000), pt(-40000, 0)),
    ]
}

#[test]
fn standard_settings() {
    let settings = ChainSettings::standard();
    assert_eq!(settings.clearance, 1350);
    assert_eq!(settings.link_count, 60);
    assert_eq!(settings.compliance, 0);
    assert_eq!(settings.link_params, LinkParams::standard());
    assert_eq!((CHAIN_CLEARANCE, LINK_COUNT, SAMPLES_PER_COG), (1350, 60, 60));
}

#[test]
fn a_new_controller_holds_no_chain() {
    let controller = RebuildController::new();
    assert!(controller.chain().is_none());
}

#[test]
fn rebuild_puts_one_chain_in_place() {
    let mut controller = RebuildController::new();
    let replaced = controller
        .rebuild(&drivetrain(), &compass(60), &ChainSettings::standard())
        .unwrap();
    assert!(replaced.is_none());
    let chain = controller.chain().unwrap();
    assert_eq!(chain.links.len(), 60);
    assert_eq!(chain.constraints.len(), 60);
    for (i, c) in chain.constraints.iter().enumerate() {
        assert_eq!(c.first, i);
        assert_eq!(c.second, (i + 1) % 60);
        assert!(c.first < chain.links.len() && c.second < chain.links.len());
        assert_eq!(
            c.rest_length,
            chain.links[c.first].position.distance(&chain.links[c.second].position)
        );
        assert_eq!(c.compliance, 0);
    }
    for link in &chain.links {
        assert_eq!(link.params, LinkParams::standard());
        assert!(-46350 <= link.position.x && link.position.x <= 6350);
        assert!(-6350 <= link.position.y && link.position.y <= 6350);
    }
}

#[test]
fn rebuild_twice_gives_the_same_chain() {
    let mut controller = RebuildController::new();
    let settings = ChainSettings::standard();
    controller.rebuild(&drivetrain(), &compass(60), &settings).unwrap();
    let first = controller.rebuild(&drivetrain(), &compass(60), &settings).unwrap().unwrap();
    let second = controller.chain().unwrap();
    assert_eq!(first.links, second.links);
    assert_eq!(first.constraints, second.constraints);
}

#[test]
fn rebuild_hands_back_the_chain_it_replaces() {
    let mut controller = RebuildController::new();
    let settings = ChainSettings::standard();
    controller.rebuild(&drivetrain(), &compass(60), &settings).unwrap();
    let old_links = controller.chain().unwrap().links.clone();
    let mut bigger = drivetrain();
    bigger[0].radius = 9000;
    let replaced = controller.rebuild(&bigger, &compass(60), &settings).unwrap().unwrap();
    assert_eq!(replaced.links, old_links);
    let chain = controller.chain().unwrap();
    assert_ne!(chain.links, old_links);
    assert_eq!(chain.links.len(), 60);
    assert!(chain.links.iter().any(|l| l.position.y > 10000));
}

#[test]
fn a_failed_rebuild_keeps_the_chain() {
    let mut controller = RebuildController::new();
    let mut settings = ChainSettings::standard();
    controller.rebuild(&drivetrain(), &compass(60), &settings).unwrap();
    let links = controller.chain().unwrap().links.clone();
    let constraints = controller.chain().unwrap().constraints.clone();

    let nothing: Vec<Disc> = vec![];
    assert_eq!(
        controller.rebuild(&nothing, &compass(60), &settings).err(),
        Some(ChainError::InsufficientInput)
    );
    assert_eq!(controller.chain().unwrap().links, links);

    settings.clearance = 0;
    let dots = vec![cog_profile(Radius(0), pt(0, 0)), cog_profile(Radius(0), pt(500, 0))];
    assert_eq!(
        controller.rebuild(&dots, &compass(60), &settings).err(),
        Some(ChainError::DegenerateHull)
    );
    assert_eq!(controller.chain().unwrap().links, links);

    let far = vec![cog_profile(Radius(5000), pt(i32::MAX - 100, 0))];
    assert_eq!(
        controller.rebuild(&far, &compass(60), &settings).err(),
        Some(ChainError::OutsideLattice)
    );
    assert_eq!(controller.chain().unwrap().links, links);
    assert_eq!(controller.chain().unwrap().constraints, constraints);
}

#[test]
fn no_cogs_give_no_chain() {
    let mut controller = RebuildController::new();
    let nothing: Vec<Disc> = vec![];
    assert_eq!(
        controller.rebuild(&nothing, &compass(60), &ChainSettings::standard()).err(),
        Some(ChainError::InsufficientInput)
    );
    assert!(controller.chain().is_none());
    assert_eq!(
        controller.rebuild(&drivetrain(), &vec![], &ChainSettings::standard()).err(),
        Some(ChainError::InsufficientInput)
    );
    assert!(controller.chain().is_none());
}

#[test]
fn teardown_takes_the_chain_out() {
    let mut controller = RebuildController::new();
    assert!(controller.teardown().is_none());
    controller.rebuild(&drivetrain(), &compass(60), &ChainSettings::standard()).unwrap();
    let removed = controller.teardown().unwrap();
    assert_eq!(removed.links.len(), 60);
    assert_eq!(removed.constraints.len(), 60);
    assert!(controller.chain().is_none());
    assert!(controller.teardown().is_none());
}

#[test]
fn a_step_without_triggers_does_nothing() {
    let mut controller = RebuildController::new();
    let settings = ChainSettings::standard();
    assert!(controller.pending_triggers().is_empty());
    assert!(matches!(controller.step(&drivetrain(), &compass(60), &settings), StepOutcome::Idle));
    assert!(controller.chain().is_none());
    controller.rebuild(&drivetrain(), &compass(60), &settings).unwrap();
    assert!(matches!(controller.step(&drivetrain(), &compass(60), &settings), StepOutcome::Idle));
    assert!(matches!(controller.step(&vec![], &compass(60), &settings), StepOutcome::Idle));
    assert_eq!(controller.chain().unwrap().links.len(), 60);
}

#[test]
fn a_step_with_triggers_rebuilds_once() {
    let mut controller = RebuildController::new();
    let settings = ChainSettings::standard();
    controller.notify(RebuildTrigger::RadiusChanged);
    controller.notify(RebuildTrigger::RadiusChanged);
    controller.notify(RebuildTrigger::CogsMoved);
    controller.notify(RebuildTrigger::ManualReset);
    assert_eq!(
        controller.pending_triggers(),
        &vec![
            RebuildTrigger::RadiusChanged,
            RebuildTrigger::RadiusChanged,
            RebuildTrigger::CogsMoved,
            RebuildTrigger::ManualReset,
        ]
    );
    assert!(controller.chain().is_none());
    match controller.step(&drivetrain(), &compass(60), &settings) {
        StepOutcome::Rebuilt(None) => {}
        other => panic!("unexpected outcome {:?}", other),
    }
    assert!(controller.pending_triggers().is_empty());
    let links = controller.chain().unwrap().links.clone();

    controller.notify(RebuildTrigger::ManualReset);
    match controller.step(&drivetrain(), &compass(60), &settings) {
        StepOutcome::Rebuilt(Some(replaced)) => assert_eq!(replaced.links, links),
        other => panic!("unexpected outcome {:?}", other),
    }
    assert_eq!(controller.chain().unwrap().links, links);

    controller.notify(RebuildTrigger::CogsMoved);
    let nothing: Vec<Disc> = vec![];
    match controller.step(&nothing, &compass(60), &settings) {
        StepOutcome::Kept(ChainError::InsufficientInput) => {}
        other => panic!("unexpected outcome {:?}", other),
    }
    assert!(controller.pending_triggers().is_empty());
    assert_eq!(controller.chain().unwrap().links, links);
    assert!(matches!(controller.step(&nothing, &compass(60), &settings), StepOutcome::Idle));
}

#[test]
fn teardown_forgets_the_triggers() {
    let mut controller = RebuildController::new();
    controller.notify(RebuildTrigger::ManualReset);
    controller.rebuild(&drivetrain(), &compass(60), &ChainSettings::standard()).unwrap();
    assert_eq!(controller.pending_triggers().len(), 1);
    assert!(controller.teardown().is_some());
    assert!(controller.pending_triggers().is_empty());
    assert!(matches!(
        controller.step(&drivetrain(), &compass(60), &ChainSettings::standard()),
        StepOutcome::Idle
    ));
    assert!(controller.chain().is_none());
}

#[test]
fn a_skipped_step_drops_the_triggers() {
    let mut controller = RebuildController::new();
    let settings = ChainSettings::standard();
    controller.rebuild(&drivetrain(), &compass(60), &settings).unwrap();
    let links = controller.chain().unwrap().links.clone();
    controller.notify(RebuildTrigger::CogsMoved);
    controller.notify(RebuildTrigger::RadiusChanged);
    controller.skip_step();
    assert!(controller.pending_triggers().is_empty());
    assert_eq!(controller.chain().unwrap().links, links);
    let mut bigger = drivetrain();
    bigger[1].radius = 12000;
    assert!(matches!(controller.step(&bigger, &compass(60), &settings), StepOutcome::Idle));
    assert_eq!(controller.chain().unwrap().links, links);
}

#[test]
fn compass_directions_are_unit_vectors() {
    for count in [1usize, 2, 3, 4, 7, 40, 60, 360] {
        for direction in compass(count) {
            assert!(direction.is_unit());
        }
    }
    assert!(Direction { cos: DIRECTION_SCALE, sin: 0 }.is_unit());
    assert!(Direction { cos: 0, sin: -DIRECTION_SCALE }.is_unit());
    assert!(Direction { cos: DIRECTION_SCALE + 1, sin: 0 }.is_unit());
    assert!(Direction { cos: DIRECTION_SCALE - 1, sin: 0 }.is_unit());
    assert!(!Direction { cos: DIRECTION_SCALE + 2, sin: 0 }.is_unit());
    assert!(!Direction { cos: DIRECTION_SCALE - 2, sin: 0 }.is_unit());
    assert!(!Direction { cos: 0, sin: 0 }.is_unit());
    assert!(!Direction { cos: DIRECTION_SCALE, sin: DIRECTION_SCALE }.is_unit());
    assert!(!Direction { cos: i32::MIN, sin: i32::MIN }.is_unit());
    assert!(!Direction { cos: i32::MAX, sin: i32::MAX }.is_unit());
}

#[test]
fn a_compass_is_tested_as_a_whole() {
    assert!(compass_is_unit(&compass(60)));
    assert!(compass_is_unit(&vec![]));
    let mut bent = compass(60);
    bent[17].cos += 5;
    assert!(!compass_is_unit(&bent));
    assert!(!compass_is_unit(&vec![Direction { cos: 0, sin: 0 }]));
}

#[test]
fn the_cloud_lies_on_the_circles_of_its_cogs() {
    let cogs = vec![
        Disc { center: pt(0, 0), radius: 5000 },
        Disc { center: pt(40000, 0), radius: 5000 },
        Disc { center: pt(-7, 12345), radius: 1 },
    ];
    let directions = compass(60);
    assert!(compass_is_unit(&directions));
    let cloud = sample_profiles(&cogs, 1350, &directions).unwrap();
    assert_eq!(cloud.len(), 180);
    for (c, cog) in cogs.iter().enumerate() {
        let reach = cog.radius as u64 + 1350;
        for i in 0..60 {
            let found = cog.center.distance(&cloud[c * 60 + i]);
            assert!(found + 3 >= reach && found <= reach + 1, "cog {} direction {}", c, i);
        }
    }
}

#[test]
fn samples_in_unit_directions_lie_on_the_circle() {
    let center = pt(1234, -5678);
    for reach in [0u32, 1, 2, 3, 10, 999, 6350, 1_000_000] {
        let disc = Disc { center, radius: reach };
        for p in disc.simplify_disc_as_polygon(&compass(360)).unwrap() {
            let found = center.distance(&p);
            assert!(found + 3 >= reach as u64 && found <= reach as u64 + 1);
        }
    }
}

#[test]
fn plan_follows_the_settings() {
    let settings = ChainSettings {
        clearance: 0,
        link_count: 8,
        link_params: LinkParams {
            radius: 7,
            collision_margin: 1,
            mass: 2,
            friction: 3,
            rotation_locked: true,
            layers: CollisionFilter { memberships: 1, filters: 1 },
        },
        compliance: 5,
    };
    let cogs = vec![Disc { center: pt(0, 0), radius: 1000 }];
    let chain = plan_chain(&cogs, &compass(4), &settings).unwrap();
    let places: Vec<Point> = chain.links.iter().map(|l| l.position).collect();
    assert_eq!(
        places,
        vec![
            pt(-500, 500),
            pt(0, 1000),
            pt(500, 500),
            pt(1000, 0),
            pt(500, -500),
            pt(0, -1000),
            pt(-500, -500),
            pt(-1000, 0),
        ]
    );
    for (i, c) in chain.constraints.iter().enumerate() {
        assert_eq!((c.first, c.second), (i, (i + 1) % 8));
        assert_eq!(c.rest_length, 707);
        assert_eq!(c.compliance, 5);
    }
    assert!(chain.links.iter().all(|l| l.params == settings.link_params));
    assert_ne!(settings.link_params.layers, link_filter());
}

#[test]
fn sampler_puts_every_cog_on_the_compass() {
    let disc = Disc { center: pt(100, -200), radius: 50 };
    assert_eq!(
        disc.simplify_disc_as_polygon(&compass(4)).unwrap(),
        vec![pt(150, -200), pt(100, -150), pt(50, -200), pt(100, -250)]
    );
    assert_eq!(disc.simplify_disc_as_polygon(&vec![]).unwrap(), vec![]);
    let cogs = vec![disc, Disc { center: pt(0, 0), radius: 10 }];
    let cloud = sample_profiles(&cogs, 5, &compass(4)).unwrap();
    assert_eq!(
        cloud,
        vec![
            pt(155, -200),
            pt(100, -145),
            pt(45, -200),
            pt(100, -255),
            pt(15, 0),
            pt(0, 15),
            pt(-15, 0),
            pt(0, -15),
        ]
    );
    assert_eq!(sample_profiles(&cogs, 5, &compass(60)).unwrap().len(), 120);
    assert_eq!(sample_profiles(&vec![], 5, &compass(60)).unwrap(), vec![]);
}

#[test]
fn sampler_rounds_towards_the_centre() {
    let half = Direction { cos: DIRECTION_SCALE / 2, sin: -(DIRECTION_SCALE / 2) };
    let third = Direction { cos: DIRECTION_SCALE / 3, sin: -(DIRECTION_SCALE / 3) };
    let disc = Disc { center: pt(0, 0), radius: 7 };
    assert_eq!(disc.simplify_disc_as_polygon(&vec![half, third]).unwrap(), vec![pt(3, -3), pt(2, -2)]);
}

#[test]
fn sampler_refuses_what_leaves_the_lattice() {
    let east = vec![Direction { cos: DIRECTION_SCALE, sin: 0 }];
    let west = vec![Direction { cos: -DIRECTION_SCALE, sin: 0 }];
    let rim = Disc { center: pt(i32::MAX - 10, 0), radius: 10 };
    assert_eq!(rim.simplify_disc_as_polygon(&east).unwrap(), vec![pt(i32::MAX, 0)]);
    assert_eq!(rim.simplify_disc_as_polygon(&west).unwrap(), vec![pt(i32::MAX - 20, 0)]);
    let over = Disc { center: pt(i32::MAX - 10, 0), radius: 11 };
    assert_eq!(over.simplify_disc_as_polygon(&east), Err(ChainError::OutsideLattice));
    assert_eq!(sample_profiles(&vec![rim], 1, &east), Err(ChainError::OutsideLattice));
    assert_eq!(sample_profiles(&vec![rim], 0, &east).unwrap(), vec![pt(i32::MAX, 0)]);
    let huge = Disc { center: pt(0, 0), radius: u32::MAX };
    assert_eq!(sample_profiles(&vec![huge], u32::MAX, &west), Err(ChainError::OutsideLattice));
    let wild = vec![Direction { cos: i32::MIN, sin: i32::MAX }];
    assert_eq!(sample_profiles(&vec![huge], u32::MAX, &wild), Err(ChainError::OutsideLattice));
    assert_eq!(
        Disc { center: pt(0, 0), radius: 1 << 29 }.simplify_disc_as_polygon(&wild).unwrap(),
        vec![pt(-(1 << 30), (1 << 30) - 1)]
    );
}

#[test]
fn link_points_go_round_the_hull() {
    let cloud = vec![pt(0, 0), pt(100, 0), pt(100, 100), pt(0, 100), pt(50, 50), pt(50, 0)];
    assert_eq!(
        chain_link_points(&cloud, 4).unwrap(),
        vec![pt(0, 100), pt(100, 100), pt(100, 0), pt(0, 0)]
    );
    assert_eq!(generate_chain_link_points_from_point_set(&cloud).unwrap().len(), 60);
    assert_eq!(chain_link_points(&cloud, 0).unwrap(), vec![]);
    assert_eq!(chain_link_points(&cloud[..2].to_vec(), 4), Err(ChainError::InsufficientInput));
    assert_eq!(
        chain_link_points(&vec![pt(0, 0), pt(1, 1), pt(2, 2)], 4),
        Err(ChainError::DegenerateHull)
    );
    assert_eq!(
        generate_chain_link_points_from_point_set(&vec![pt(0, 0), pt(1, 1), pt(2, 2)]),
        Err(ChainError::DegenerateHull)
    );
}

#[test]
fn a_changed_radius_asks_for_a_rebuild() {
    assert_eq!(
        radius_update(7000, true, false),
        Some((Radius(7000), RebuildTrigger::RadiusChanged))
    );
    assert_eq!(radius_update(7000, true, true), None);
    assert_eq!(radius_update(7000, false, false), None);
    assert_eq!(radius_update(7000, false, true), None);
}

#[test]
fn a_compass_of_sixty_holds_the_axes() {
    let directions = compass(60);
    assert_eq!(directions[0], Direction { cos: DIRECTION_SCALE, sin: 0 });
    assert_eq!(directions[15], Direction { cos: 0, sin: DIRECTION_SCALE });
    assert_eq!(directions[30], Direction { cos: -DIRECTION_SCALE, sin: 0 });
    assert_eq!(directions[45], Direction { cos: 0, sin: -DIRECTION_SCALE });
    // with them a single cog of any size has a chain
    let mut settings = ChainSettings::standard();
    settings.clearance = 0;
    for radius in [1u32, 2, 3, 10, 5000] {
        let cogs = vec![Disc { center: pt(3, -4), radius }];
        let chain = plan_chain(&cogs, &directions, &settings).unwrap();
        assert_eq!(chain.links.len(), 60);
        assert_eq!(chain.constraints.len(), 60);
    }
    let three = vec![directions[0], directions[15], directions[30]];
    assert!(plan_chain(&vec![Disc { center: pt(0, 0), radius: 1 }], &three, &settings).is_ok());
}
