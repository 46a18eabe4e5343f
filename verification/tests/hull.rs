use bicycle_chain::error::ChainError;
use bicycle_chain::geometry::{cross, Point};
use bicycle_chain::hull::gift_wrapping;

fn pt(x: i32, y: i32) -> Point {
    Point { x, y }
}

/// Panics unless `hull` turns right at every corner and has no point of
/// `cloud` to the left of an edge.
fn assert_wraps(hull: &[Point], cloud: &[Point]) {
    let n = hull.len();
    assert!(n >= 3);
    for i in 0..n {
        let a = hull[i];
        let b = hull[(i + 1) % n];
        let c = hull[(i + 2) % n];
        assert!(cross(&a, &b, &c) < 0, "no right turn at corner {}", (i + 1) % n);
        for p in cloud {
            assert!(cross(&a, &b, p) <= 0, "{:?} lies outside edge {}", p, i);
        }
        assert!(cloud.contains(&a));
        for j in (i + 1)..n {
            assert_ne!(hull[i], hull[j]);
        }
    }
    // the hull starts at the first point of least x that is a corner
    let least = cloud.iter().map(|p| p.x).min().unwrap();
    let first_corner = cloud.iter().find(|p| p.x == least && hull.contains(*p)).unwrap();
    assert_eq!(hull[0], *first_corner);
    // and at the first point of least x where that is an end of the left side
    let first = cloud.iter().find(|p| p.x == least).unwrap();
    let top = cloud.iter().filter(|p| p.x == least).map(|p| p.y).max().unwrap();
    let bottom = cloud.iter().filter(|p| p.x == least).map(|p| p.y).min().unwrap();
    if first.y == top || first.y == bottom {
        assert_eq!(hull[0], *first);
    }
}

/// `ring` turned so that it starts at `start`.
fn turned_to(ring: &[Point], start: Point) -> Vec<Point> {
    let at = ring.iter().position(|p| *p == start).unwrap();
    let mut turned = ring[at..].to_vec();
    turned.extend_from_slice(&ring[..at]);
    turned
}

#[test]
fn hull_of_a_triangle() {
    let cloud = vec![pt(0, 0), pt(1, 0), pt(0, 1)];
    let hull = gift_wrapping(&cloud).unwrap();
    assert_eq!(hull, vec![pt(0, 0), pt(0, 1), pt(1, 0)]);
    assert_wraps(&hull, &cloud);
}

#[test]
fn hull_starts_at_the_first_point_of_least_x() {
    let cloud = vec![pt(0, 0), pt(0, 2), pt(2, 2), pt(2, 0)];
    assert_eq!(gift_wrapping(&cloud).unwrap(), vec![pt(0, 0), pt(0, 2), pt(2, 2), pt(2, 0)]);
    let cloud = vec![pt(0, 2), pt(0, 0), pt(2, 2), pt(2, 0)];
    assert_eq!(gift_wrapping(&cloud).unwrap(), vec![pt(0, 2), pt(2, 2), pt(2, 0), pt(0, 0)]);
    let cloud = vec![pt(2, 2), pt(2, 0), pt(0, 2), pt(1, 1), pt(0, 1), pt(0, 0)];
    assert_eq!(gift_wrapping(&cloud).unwrap(), vec![pt(0, 2), pt(2, 2), pt(2, 0), pt(0, 0)]);
    let cloud = vec![pt(5, 5), pt(1, 3), pt(9, 0), pt(1, 3), pt(4, -6)];
    assert_eq!(gift_wrapping(&cloud).unwrap(), vec![pt(1, 3), pt(5, 5), pt(9, 0), pt(4, -6)]);
}

#[test]
fn hull_of_a_square_with_points_inside_and_on_its_sides() {
    let cloud = vec![
        pt(5, 5),
        pt(0, 0),
        pt(10, 0),
        pt(5, 0),
        pt(10, 10),
        pt(0, 5),
        pt(0, 10),
        pt(10, 5),
        pt(3, 7),
        pt(5, 10),
    ];
    let hull = gift_wrapping(&cloud).unwrap();
    assert_eq!(hull, vec![pt(0, 0), pt(0, 10), pt(10, 10), pt(10, 0)]);
    assert_wraps(&hull, &cloud);
}

#[test]
fn hull_starts_at_the_first_end_where_the_first_point_of_least_x_is_no_corner() {
    let cloud = vec![pt(0, 0), pt(0, -5), pt(0, 1), pt(1, 0)];
    let hull = gift_wrapping(&cloud).unwrap();
    assert_eq!(hull, vec![pt(0, -5), pt(0, 1), pt(1, 0)]);
    assert_wraps(&hull, &cloud);
    let cloud = vec![pt(0, 0), pt(0, 1), pt(0, -5), pt(1, 0)];
    let hull = gift_wrapping(&cloud).unwrap();
    assert_eq!(hull, vec![pt(0, 1), pt(1, 0), pt(0, -5)]);
    assert_wraps(&hull, &cloud);
    let cloud = vec![pt(3, 3), pt(0, 0), pt(0, 0), pt(0, 4), pt(0, -4), pt(0, 4)];
    let hull = gift_wrapping(&cloud).unwrap();
    assert_eq!(hull, vec![pt(0, 4), pt(3, 3), pt(0, -4)]);
    assert_wraps(&hull, &cloud);
}

#[test]
fn hull_is_the_same_ring_in_any_order_of_the_cloud() {
    let cloud = vec![pt(0, 0), pt(4, 0), pt(4, 3), pt(0, 3), pt(2, 1), pt(2, 3), pt(4, 1)];
    let ring = vec![pt(0, 3), pt(4, 3), pt(4, 0), pt(0, 0)];
    assert_eq!(gift_wrapping(&cloud).unwrap(), turned_to(&ring, pt(0, 0)));
    let mut turned = cloud.clone();
    for _ in 0..cloud.len() {
        turned.rotate_left(1);
        let hull = gift_wrapping(&turned).unwrap();
        let start = *turned.iter().find(|p| p.x == 0).unwrap();
        assert_eq!(hull, turned_to(&ring, start));
        assert_wraps(&hull, &turned);
    }
    let mut reversed = cloud.clone();
    reversed.reverse();
    assert_eq!(gift_wrapping(&reversed).unwrap(), turned_to(&ring, pt(0, 3)));
}

#[test]
fn hull_with_points_that_occur_twice() {
    let cloud = vec![pt(0, 0), pt(0, 0), pt(2, 0), pt(2, 0), pt(1, 2), pt(1, 2), pt(1, 1)];
    let hull = gift_wrapping(&cloud).unwrap();
    assert_eq!(hull, vec![pt(0, 0), pt(1, 2), pt(2, 0)]);
    assert_wraps(&hull, &cloud);
}

#[test]
fn hull_of_near_collinear_clusters() {
    let cloud = vec![
        pt(0, 0),
        pt(1000, 1),
        pt(2000, 2),
        pt(3000, 3),
        pt(1500, 2),
        pt(1500, 3),
        pt(1500, 1),
        pt(3000, 2),
        pt(0, 1),
    ];
    let hull = gift_wrapping(&cloud).unwrap();
    assert_eq!(hull, vec![pt(0, 0), pt(0, 1), pt(1500, 3), pt(3000, 3), pt(3000, 2)]);
    assert_wraps(&hull, &cloud);
}

#[test]
fn hull_at_the_rim_of_the_lattice() {
    let cloud = vec![
        pt(i32::MIN, i32::MIN),
        pt(i32::MAX, i32::MAX),
        pt(i32::MIN, i32::MAX),
        pt(i32::MAX, i32::MIN),
        pt(0, 0),
        pt(i32::MAX, 0),
    ];
    let hull = gift_wrapping(&cloud).unwrap();
    assert_eq!(
        hull,
        vec![
            pt(i32::MIN, i32::MIN),
            pt(i32::MIN, i32::MAX),
            pt(i32::MAX, i32::MAX),
            pt(i32::MAX, i32::MIN),
        ]
    );
    assert_wraps(&hull, &cloud);
}

#[test]
fn fewer_than_three_points_are_insufficient() {
    assert_eq!(gift_wrapping(&vec![]), Err(ChainError::InsufficientInput));
    assert_eq!(gift_wrapping(&vec![pt(1, 1)]), Err(ChainError::InsufficientInput));
    assert_eq!(gift_wrapping(&vec![pt(1, 1), pt(2, 5)]), Err(ChainError::InsufficientInput));
}

#[test]
fn points_on_one_line_are_degenerate() {
    assert_eq!(
        gift_wrapping(&vec![pt(0, 0), pt(1, 0), pt(2, 0)]),
        Err(ChainError::DegenerateHull)
    );
    assert_eq!(
        gift_wrapping(&vec![pt(0, 3), pt(0, -1), pt(0, 2), pt(0, 0)]),
        Err(ChainError::DegenerateHull)
    );
    assert_eq!(
        gift_wrapping(&vec![pt(-2, -4), pt(3, 6), pt(1, 2), pt(0, 0), pt(1, 2)]),
        Err(ChainError::DegenerateHull)
    );
    assert_eq!(
        gift_wrapping(&vec![pt(i32::MIN, i32::MIN), pt(0, 0), pt(i32::MAX, i32::MAX)]),
        Err(ChainError::DegenerateHull)
    );
}

#[test]
fn points_that_are_all_the_same_are_degenerate() {
    assert_eq!(
        gift_wrapping(&vec![pt(4, 4), pt(4, 4), pt(4, 4)]),
        Err(ChainError::DegenerateHull)
    );
    assert_eq!(
        gift_wrapping(&vec![pt(4, 4), pt(4, 4), pt(4, 4), pt(9, 9), pt(9, 9)]),
        Err(ChainError::DegenerateHull)
    );
}

#[test]
fn hull_of_a_ring_of_points_is_the_ring() {
    let mut cloud = Vec::new();
    let ring = [
        pt(-5, 0),
        pt(-4, 3),
        pt(-3, 4),
        pt(0, 5),
        pt(3, 4),
        pt(4, 3),
        pt(5, 0),
        pt(4, -3),
        pt(3, -4),
        pt(0, -5),
        pt(-3, -4),
        pt(-4, -3),
    ];
    for (i, p) in ring.iter().enumerate() {
        cloud.push(*p);
        cloud.push(pt(p.x / 2, p.y / 2));
        if i % 3 == 0 {
            cloud.push(pt(0, 0));
        }
    }
    let hull = gift_wrapping(&cloud).unwrap();
    assert_eq!(hull, ring.to_vec());
    assert_wraps(&hull, &cloud);
}

/// The next number of a fixed sequence that looks random.
fn next(state: &mut u64) -> u64 {
    *state = state.wrapping_mul(6364136223846793005).wrapping_add(1442695040888963407);
    *state >> 33
}

fn on_one_line(cloud: &[Point]) -> bool {
    for a in cloud {
        for b in cloud {
            for c in cloud {
                if cross(a, b, c) != 0 {
                    return false;
                }
            }
        }
    }
    true
}

#[test]
fn every_cloud_that_spans_an_area_has_a_hull() {
    let mut state = 7u64;
    let mut hulls = 0;
    let mut lines = 0;
    for round in 0..600 {
        let size = 3 + (next(&mut state) % 14) as usize;
        let width = 1 + (next(&mut state) % (1 + round % 9)) as i32;
        let height = (next(&mut state) % 6) as i32;
        let cloud: Vec<Point> = (0..size)
            .map(|_| {
                pt(
                    (next(&mut state) % (width as u64 + 1)) as i32 - width / 2,
                    (next(&mut state) % (height as u64 + 1)) as i32 - height / 2,
                )
            })
            .collect();
        match gift_wrapping(&cloud) {
            Ok(hull) => {
                assert!(!on_one_line(&cloud));
                assert_wraps(&hull, &cloud);
                hulls += 1;
            }
            Err(error) => {
                assert_eq!(error, ChainError::DegenerateHull);
                assert!(on_one_line(&cloud), "no hull for {:?}", cloud);
                lines += 1;
            }
        }
    }
    assert!(hulls > 100 && lines > 20, "{} hulls, {} lines", hulls, lines);
}

#[test]
fn errors_say_what_went_wrong() {
    assert_eq!(
        ChainError::InsufficientInput.message(),
        "fewer than three points to lay the chain round"
    );
    assert_eq!(
        ChainError::DegenerateHull.message(),
        "the points to lay the chain round span no area"
    );
    assert_eq!(ChainError::OutsideLattice.message(), "a cog reaches beyond the lattice");
}

/// The march in floating point, with the first point of least x as its
/// start, given up after `limit` corners.
fn float_march(cloud: &[(f64, f64)], limit: usize) -> Option<Vec<(f64, f64)>> {
    let cross = |o: (f64, f64), a: (f64, f64), b: (f64, f64)| {
        (a.0 - o.0) * (b.1 - o.1) - (a.1 - o.1) * (b.0 - o.0)
    };
    let distance =
        |a: (f64, f64), b: (f64, f64)| ((a.0 - b.0).powi(2) + (a.1 - b.1).powi(2)).sqrt();
    let mut hull = Vec::new();
    let mut leftmost = cloud[0];
    for &point in cloud {
        if point.0 < leftmost.0 {
            leftmost = point;
        }
    }
    let mut current_point = leftmost;
    loop {
        hull.push(current_point);
        if hull.len() > limit {
            return None;
        }
        let mut next_point = cloud[0];
        for &point in cloud {
            if point == current_point {
                continue;
            }
            let cross_product = cross(current_point, next_point, point);
            if cross_product > 0.0
                || (cross_product == 0.0
                    && distance(current_point, point) > distance(current_point, next_point))
            {
                next_point = point;
            }
        }
        if next_point == leftmost {
            break;
        }
        current_point = next_point;
    }
    Some(hull)
}

#[test]
fn the_march_agrees_with_the_march_in_floating_point() {
    let mut state = 99u64;
    let mut compared = 0;
    let mut given_up = 0;
    for round in 0..800 {
        let size = 3 + (next(&mut state) % 12) as usize;
        let width = 1 + (next(&mut state) % (1 + round % 7)) as i32;
        let height = 1 + (next(&mut state) % 7) as i32;
        let cloud: Vec<Point> = (0..size)
            .map(|_| {
                pt(
                    (next(&mut state) % (width as u64 + 1)) as i32,
                    (next(&mut state) % (height as u64 + 1)) as i32 - 3,
                )
            })
            .collect();
        let Ok(hull) = gift_wrapping(&cloud) else {
            continue;
        };
        let floats: Vec<(f64, f64)> = cloud.iter().map(|p| (p.x as f64, p.y as f64)).collect();
        match float_march(&floats, cloud.len()) {
            Some(expected) => {
                let found: Vec<(f64, f64)> = hull.iter().map(|p| (p.x as f64, p.y as f64)).collect();
                assert_eq!(found, expected, "cloud {:?}", cloud);
                compared += 1;
            }
            None => {
                // the first point of least x lies inside the left side
                let least = cloud.iter().map(|p| p.x).min().unwrap();
                let first = cloud.iter().find(|p| p.x == least).unwrap();
                assert!(cloud.iter().any(|p| p.x == least && p.y > first.y));
                assert!(cloud.iter().any(|p| p.x == least && p.y < first.y));
                given_up += 1;
            }
        }
    }
    assert!(compared > 300 && given_up > 10, "{} compared, {} given up", compared, given_up);
}
