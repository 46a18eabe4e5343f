use bicycle_chain::error::ChainError;
use bicycle_chain::geometry::Point;
use bicycle_chain::resample::{equidistant_points_on_polygon, polygon_perimeter};

fn pt(x: i32, y: i32) -> Point {
    Point { x, y }
}

fn square() -> Vec<Point> {
    vec![pt(0, 0), pt(100, 0), pt(100, 100), pt(0, 100)]
}

#[test]
fn perimeter_sums_the_edges_and_closes_the_outline() {
    assert_eq!(polygon_perimeter(&square()), 400);
    assert_eq!(polygon_perimeter(&vec![pt(0, 0), pt(3, 4)]), 10);
    assert_eq!(polygon_perimeter(&vec![pt(0, 0), pt(3, 0), pt(3, 4)]), 12);
    assert_eq!(polygon_perimeter(&vec![pt(0, 0), pt(1, 1), pt(2, 0)]), 4);
    assert_eq!(polygon_perimeter(&vec![pt(9, 9)]), 0);
    assert_eq!(polygon_perimeter(&vec![]), 0);
}

#[test]
fn perimeter_of_the_whole_lattice() {
    let frame = vec![
        pt(i32::MIN, i32::MAX),
        pt(i32::MAX, i32::MAX),
        pt(i32::MAX, i32::MIN),
        pt(i32::MIN, i32::MIN),
    ];
    assert_eq!(polygon_perimeter(&frame), 4 * (u32::MAX as u128));
}

#[test]
fn four_samples_on_a_square_are_its_corners() {
    let path = equidistant_points_on_polygon(&square(), 4).unwrap();
    assert_eq!(path, vec![pt(100, 0), pt(100, 100), pt(0, 100), pt(0, 0)]);
}

#[test]
fn eight_samples_on_a_square() {
    let path = equidistant_points_on_polygon(&square(), 8).unwrap();
    assert_eq!(
        path,
        vec![
            pt(50, 0),
            pt(100, 0),
            pt(100, 50),
            pt(100, 100),
            pt(50, 100),
            pt(0, 100),
            pt(0, 50),
            pt(0, 0),
        ]
    );
}

#[test]
fn several_samples_on_one_edge() {
    let path = equidistant_points_on_polygon(&vec![pt(0, 0), pt(100, 0)], 10).unwrap();
    assert_eq!(
        path,
        vec![
            pt(20, 0),
            pt(40, 0),
            pt(60, 0),
            pt(80, 0),
            pt(100, 0),
            pt(80, 0),
            pt(60, 0),
            pt(40, 0),
            pt(20, 0),
            pt(0, 0),
        ]
    );
}

#[test]
fn one_sample_goes_all_the_way_round() {
    let path = equidistant_points_on_polygon(&square(), 1).unwrap();
    assert_eq!(path, vec![pt(0, 0)]);
}

#[test]
fn three_samples_on_a_square_round_the_step_down() {
    let path = equidistant_points_on_polygon(&square(), 3).unwrap();
    assert_eq!(path, vec![pt(100, 33), pt(34, 100), pt(0, 1)]);
}

#[test]
fn no_samples_are_an_empty_path() {
    assert_eq!(equidistant_points_on_polygon(&square(), 0), Ok(vec![]));
}

#[test]
fn more_samples_than_steps_stay_at_the_first_corner() {
    let path = equidistant_points_on_polygon(&vec![pt(3, 3), pt(4, 3)], 5).unwrap();
    assert_eq!(path, vec![pt(3, 3); 5]);
    let path = equidistant_points_on_polygon(&vec![pt(3, 3), pt(3, 3), pt(4, 3)], 7).unwrap();
    assert_eq!(path, vec![pt(3, 3); 7]);
}

#[test]
fn an_outline_without_length_is_degenerate() {
    assert_eq!(equidistant_points_on_polygon(&vec![], 4), Err(ChainError::DegenerateHull));
    assert_eq!(equidistant_points_on_polygon(&vec![pt(1, 2)], 4), Err(ChainError::DegenerateHull));
    assert_eq!(
        equidistant_points_on_polygon(&vec![pt(1, 2), pt(1, 2), pt(1, 2)], 4),
        Err(ChainError::DegenerateHull)
    );
    assert_eq!(equidistant_points_on_polygon(&vec![pt(1, 2)], 0), Err(ChainError::DegenerateHull));
}

#[test]
fn samples_pass_over_corners_that_occur_twice() {
    let outline = vec![pt(0, 0), pt(0, 0), pt(100, 0), pt(100, 0), pt(100, 100), pt(0, 100)];
    let path = equidistant_points_on_polygon(&outline, 4).unwrap();
    assert_eq!(path, vec![pt(100, 0), pt(100, 100), pt(0, 100), pt(0, 0)]);
}

#[test]
fn any_number_of_samples_is_met() {
    let outline = vec![pt(-40, 10), pt(0, 50), pt(70, 20), pt(30, -60), pt(-20, -30)];
    for n in 0..200 {
        let path = equidistant_points_on_polygon(&outline, n).unwrap();
        assert_eq!(path.len(), n);
        for p in &path {
            assert!(-40 <= p.x && p.x <= 70 && -60 <= p.y && p.y <= 50);
        }
    }
}

#[test]
fn the_way_through_the_samples_is_as_long_as_the_outline() {
    let outline = vec![pt(-4000, 1000), pt(0, 5000), pt(7000, 2000), pt(3000, -6000)];
    let perimeter = polygon_perimeter(&outline);
    for n in [1usize, 2, 3, 7, 60, 61] {
        let path = equidistant_points_on_polygon(&outline, n).unwrap();
        let mut chords: u128 = 0;
        for i in 0..n {
            chords += path[i].distance(&path[(i + 1) % n]) as u128;
        }
        assert!(chords <= perimeter);
        if n >= 60 {
            assert!(chords + perimeter / 50 > perimeter);
        }
    }
}

#[test]
fn every_sample_lies_near_an_edge() {
    let outlines = vec![
        vec![pt(-4000, 1000), pt(0, 5000), pt(7000, 2000), pt(3000, -6000)],
        vec![pt(0, 0), pt(1, 1000), pt(3, 1999), pt(1000, 2003), pt(997, 4), pt(500, -1)],
        vec![pt(0, 0), pt(17, 3)],
        vec![pt(0, 0), pt(100000, 1), pt(7, 13)],
    ];
    for outline in outlines {
        for n in [1usize, 2, 5, 60, 333] {
            let path = equidistant_points_on_polygon(&outline, n).unwrap();
            for (k, p) in path.iter().enumerate() {
                let near = (0..outline.len()).any(|e| {
                    let a = outline[e];
                    let b = outline[(e + 1) % outline.len()];
                    let in_box = a.x.min(b.x) <= p.x
                        && p.x <= a.x.max(b.x)
                        && a.y.min(b.y) <= p.y
                        && p.y <= a.y.max(b.y);
                    let side = (b.x as i128 - a.x as i128).abs() + (b.y as i128 - a.y as i128).abs();
                    in_box && bicycle_chain::geometry::cross(&a, &b, p).abs() <= (k as i128 + 1) * side
                });
                assert!(near, "sample {} of {} at {:?}", k, n, p);
            }
        }
    }
}
