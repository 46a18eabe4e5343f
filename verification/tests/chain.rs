use bicycle_chain::chain::{
    assemble_chain, cog_filter, generate_link, link_filter, setup_chain, ChainLink,
    CollisionFilter, Constraint, GameLayer, LinkParams, CHAIN_COMPLIANCE, LINK_COLLISION_MARGIN,
    LINK_FRICTION, LINK_MASS, LINK_RADIUS,
};
use bicycle_chain::geometry::Point;

fn pt(x: i32, y: i32) -> Point {
    Point { x, y }
}

#[test]
fn layers_have_one_bit_each_in_order() {
    assert_eq!(GameLayer::Default.to_bits(), 1 << 0);
    assert_eq!(GameLayer::World.to_bits(), 1 << 1);
    assert_eq!(GameLayer::Frame.to_bits(), 1 << 2);
    assert_eq!(GameLayer::Wheels.to_bits(), 1 << 3);
    assert_eq!(GameLayer::AttachmentPoints.to_bits(), 1 << 4);
    assert_eq!(GameLayer::Groupset.to_bits(), 1 << 5);
    assert_eq!(GameLayer::Chain.to_bits(), 1 << 6);
}

#[test]
fn links_collide_with_cogs_and_links_only() {
    let link = link_filter();
    assert_eq!(link, CollisionFilter { memberships: 64, filters: 96 });
    assert_eq!(cog_filter(), CollisionFilter { memberships: 32, filters: 98 });
    assert!(link.interacts_with(&cog_filter()));
    assert!(cog_filter().interacts_with(&link));
    assert!(link.interacts_with(&link));
    let ground = CollisionFilter { memberships: 2, filters: 12 };
    let wheel = CollisionFilter { memberships: 8, filters: 2 };
    let frame = CollisionFilter { memberships: 4, filters: 2 };
    let everything = CollisionFilter { memberships: 1, filters: u32::MAX };
    assert!(!link.interacts_with(&ground));
    assert!(!link.interacts_with(&wheel));
    assert!(!link.interacts_with(&frame));
    assert!(!link.interacts_with(&everything));
    assert!(cog_filter().interacts_with(&CollisionFilter { memberships: 2, filters: 32 }));
    assert!(!cog_filter().interacts_with(&ground));
}

#[test]
fn standard_link() {
    let params = LinkParams::standard();
    assert_eq!(params.radius, 500);
    assert_eq!(params.collision_margin, 50);
    assert_eq!(params.mass, 10);
    assert_eq!(params.friction, 1000);
    assert!(params.rotation_locked);
    assert_eq!(params.layers, link_filter());
    assert_eq!((LINK_RADIUS, LINK_COLLISION_MARGIN, LINK_MASS, LINK_FRICTION), (500, 50, 10, 1000));
    assert_eq!(CHAIN_COMPLIANCE, 0);
    let link = generate_link(&pt(12, -7));
    assert_eq!(link, ChainLink { position: pt(12, -7), params });
}

#[test]
fn chain_of_four_links() {
    let path = vec![pt(0, 0), pt(30, 40), pt(30, 100), pt(0, 100)];
    let chain = setup_chain(path.clone());
    assert_eq!(chain.links.len(), 4);
    assert_eq!(chain.constraints.len(), 4);
    for i in 0..4 {
        assert_eq!(chain.links[i], generate_link(&path[i]));
    }
    assert_eq!(
        chain.constraints,
        vec![
            Constraint { first: 0, second: 1, rest_length: 50, compliance: 0 },
            Constraint { first: 1, second: 2, rest_length: 60, compliance: 0 },
            Constraint { first: 2, second: 3, rest_length: 30, compliance: 0 },
            Constraint { first: 3, second: 0, rest_length: 100, compliance: 0 },
        ]
    );
}

#[test]
fn chain_is_one_cycle_through_all_links() {
    for n in 1..40usize {
        let path: Vec<Point> = (0..n).map(|i| pt((i * i) as i32, 3 * i as i32)).collect();
        let chain = setup_chain(path);
        assert_eq!(chain.links.len(), n);
        assert_eq!(chain.constraints.len(), n);
        let mut seen = vec![false; n];
        let mut at = 0;
        for step in 0..n {
            assert_eq!(at, step);
            assert!(!seen[at]);
            seen[at] = true;
            assert_eq!(chain.constraints[at].first, at);
            at = chain.constraints[at].second;
        }
        assert_eq!(at, 0);
        assert!(seen.iter().all(|s| *s));
    }
}

#[test]
fn chain_of_one_link_is_joined_to_itself() {
    let chain = setup_chain(vec![pt(5, 5)]);
    assert_eq!(chain.links.len(), 1);
    assert_eq!(
        chain.constraints,
        vec![Constraint { first: 0, second: 0, rest_length: 0, compliance: 0 }]
    );
}

#[test]
fn chain_of_two_links_has_two_constraints() {
    let chain = setup_chain(vec![pt(0, 0), pt(0, 9)]);
    assert_eq!(
        chain.constraints,
        vec![
            Constraint { first: 0, second: 1, rest_length: 9, compliance: 0 },
            Constraint { first: 1, second: 0, rest_length: 9, compliance: 0 },
        ]
    );
}

#[test]
fn chain_without_links() {
    let chain = setup_chain(vec![]);
    assert!(chain.links.is_empty());
    assert!(chain.constraints.is_empty());
}

#[test]
fn chain_with_settings_of_its_own() {
    let params = LinkParams {
        radius: 1,
        collision_margin: 2,
        mass: 3,
        friction: 4,
        rotation_locked: false,
        layers: CollisionFilter { memberships: 5, filters: 6 },
    };
    let path = vec![pt(i32::MIN, i32::MIN), pt(i32::MAX, i32::MAX), pt(0, 0)];
    let chain = assemble_chain(&path, params, 17);
    assert_eq!(chain.links[1], ChainLink { position: pt(i32::MAX, i32::MAX), params });
    assert_eq!(
        chain.constraints,
        vec![
            Constraint { first: 0, second: 1, rest_length: 6074000998, compliance: 17 },
            Constraint { first: 1, second: 2, rest_length: 3037000498, compliance: 17 },
            Constraint { first: 2, second: 0, rest_length: 3037000499, compliance: 17 },
        ]
    );
}
