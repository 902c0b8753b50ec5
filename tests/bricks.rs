use bricks::brick::{Brick, Position3};
use bricks::grid::{BoundingBox, Position};
use bricks::parse::parse_input;
use bricks::settle::{compute_fallen_brick_positions, part1};
use bricks::surface::Surface;

fn get_unlabeled_example() -> &'static str {
    "1,0,1~1,2,1\n0,0,2~2,0,2\n0,2,3~2,2,3\n0,0,4~0,2,4\n2,0,5~2,2,5\n0,1,6~2,1,6\n1,1,8~1,1,9\n"
}

fn get_labeled_example() -> &'static str {
    "1,0,1~1,2,1   <- A\n0,0,2~2,0,2   <- B\n0,2,3~2,2,3   <- C\n0,0,4~0,2,4   <- D\n2,0,5~2,2,5   <- E\n0,1,6~2,1,6   <- F\n1,1,8~1,1,9   <- G\n"
}

#[test]
fn brick_comarison() {
    let e = Brick::try_from("2,0,5~2,2,5").expect("Brick E should be valid");
    let f = Brick::try_from("0,1,6~2,1,6").expect("Brick F should be valid");
    assert!(e < f);
    assert!(e <= f);
    assert!(f > e);
    assert!(f >= e);

    assert!(!(e > f));
    assert!(!(e >= f));

    assert!(!(f < e));
    assert!(!(f <= e));
}

#[test]
fn brick_equality() {
    let e = Brick::try_from("2,0,5~2,2,5").expect("Brick E should be valid");
    let f = Brick::try_from("0,1,6~2,1,6").expect("Brick F should be valid");
    let f_twin = Brick::try_from("0,1,6~2,1,6").expect("Brick F (twin) should be valid");
    assert_eq!(e, e);
    assert_eq!(f, f);

    assert_eq!(f, f_twin);
    assert_eq!(f_twin, f);

    assert!(!(e == f));
    assert!(!(f == e));
}

#[test]
fn brick_plan() {
    let brick = Brick::try_from("2,0,5~2,2,5").expect("Brick E should be valid");
    assert_eq!(
        brick.plan(),
        BoundingBox {
            top_left: Position { x: 2, y: 0 },
            bottom_right: Position { x: 2, y: 2 }
        }
    );
}

#[test]
fn test_parse_unlabeled_example() {
    let bricks = parse_input(get_unlabeled_example()).expect("example should be valid");
    assert_eq!(bricks.len(), 7);
    assert_eq!(
        &bricks[0],
        &Brick {
            lower: Position3 { x: 1, y: 0, z: 1 },
            upper: Position3 { x: 1, y: 2, z: 1 },
            label: None,
        }
    );
}

#[test]
fn test_parse_labeled_example() {
    let bricks = parse_input(get_labeled_example()).expect("labeled example should be valid");
    assert_eq!(bricks.len(), 7);
    assert_eq!(
        &bricks[0],
        &Brick {
            lower: Position3 { x: 1, y: 0, z: 1 },
            upper: Position3 { x: 1, y: 2, z: 1 },
            label: Some("A".to_string()),
        }
    );
}

#[test]
fn test_surface_default_height() {
    let surface = Surface::default();
    assert_eq!(surface.get(&Position { x: 1000, y: 22 }), (0, None));
}

#[test]
fn test_surface_set_height() {
    let mut surface = Surface::default();
    let brick = Brick::try_from("2,0,5~2,2,5").expect("brick should be valid");
    // The brick would fall from z=5 to z=1.  The brick itself, once
    // fallen, has height 1, extending from z=1 to z=1.
    surface.set_height(&brick.plan(), 1, 200);
    assert_eq!(surface.get(&Position { x: 1000, y: 22 }), (0, None));
    assert_eq!(surface.get(&Position { x: 2, y: 0 }), (1, Some(200)));
    assert_eq!(surface.get(&Position { x: 2, y: 1 }), (1, Some(200)));
    assert_eq!(surface.get(&Position { x: 2, y: 2 }), (1, Some(200)));
    assert_eq!(surface.get(&Position { x: 2, y: 3 }), (0, None));
}

#[test]
fn example_compute_fallen_brick_positions() {
    let (bricks, can_disintegrate) = compute_fallen_brick_positions(
        &parse_input(get_labeled_example()).expect("example should be valid"),
    );
    assert!(bricks.contains(&Brick {
        // A (which didn't move)
        lower: Position3 { x: 1, y: 0, z: 1 },
        upper: Position3 { x: 1, y: 2, z: 1 },
        label: Some("A".to_string()),
    }));
    assert!(bricks.contains(&Brick {
        // B (which didn't move), resting on A.
        lower: Position3 { x: 0, y: 0, z: 2 },
        upper: Position3 { x: 2, y: 0, z: 2 },
        label: Some("B".to_string()),
    }));
    assert!(bricks.contains(&Brick {
        // C (which did move), resting on A and B with z=2.
        lower: Position3 { x: 0, y: 2, z: 2 },
        upper: Position3 { x: 2, y: 2, z: 2 },
        label: Some("C".to_string()),
    }));
    assert!(bricks.contains(&Brick {
        // D fell from z=4 to z=3.
        lower: Position3 { x: 0, y: 0, z: 3 },
        upper: Position3 { x: 0, y: 2, z: 3 },
        label: Some("D".to_string()),
    }));
    assert!(bricks.contains(&Brick {
        // E fell from z=5 to z=3.
        lower: Position3 { x: 2, y: 0, z: 3 },
        upper: Position3 { x: 2, y: 2, z: 3 },
        label: Some("E".to_string()),
    }));
    assert!(bricks.contains(&Brick {
        // F fell from z=6 to z=4.
        lower: Position3 { x: 0, y: 1, z: 4 },
        upper: Position3 { x: 2, y: 1, z: 4 },
        label: Some("F".to_string()),
    }));
    assert!(bricks.contains(&Brick {
        // G fell from z=8 (top being z=9) to z=5
        lower: Position3 { x: 1, y: 1, z: 5 },
        upper: Position3 { x: 1, y: 1, z: 6 },
        label: Some("G".to_string()),
    }));

    assert_eq!(can_disintegrate.len(), 5);
}

#[test]
fn test_part1() {
    let bricks = parse_input(get_labeled_example()).expect("example should be valid");
    assert_eq!(part1(&bricks), 5);
}

#[test]
fn single_brick_is_removable() {
    let bricks = parse_input("3,3,7~3,5,7\n").expect("one brick should be valid");
    let (fallen, removable) = compute_fallen_brick_positions(&bricks);
    assert_eq!(fallen[0].lower.z, 1);
    assert_eq!(fallen[0].upper.z, 1);
    assert_eq!(removable.len(), 1);
    assert!(removable.contains(&0));
}

#[test]
fn two_stacked_bricks_bottom_is_load_bearing() {
    let bricks = parse_input("0,0,9~0,0,10\n0,0,3~0,0,3\n").expect("bricks should be valid");
    let (fallen, removable) = compute_fallen_brick_positions(&bricks);
    // The second input line settles first.
    assert_eq!(fallen[0].lower.z, 1);
    assert_eq!(fallen[1].lower.z, 2);
    assert_eq!(fallen[1].upper.z, 3);
    assert_eq!(removable.len(), 1);
    assert!(removable.contains(&0));
    assert!(!removable.contains(&1));
}

#[test]
fn unsorted_input_settles_in_height_order() {
    let sorted = parse_input(get_unlabeled_example()).expect("example should be valid");
    let reversed: Vec<Brick> = sorted.iter().rev().cloned().collect();
    let (a, ra) = compute_fallen_brick_positions(&sorted);
    let (b, rb) = compute_fallen_brick_positions(&reversed);
    assert_eq!(a, b);
    assert_eq!(ra.len(), rb.len());
    // Settling the settled bricks again moves nothing.
    let (c, _) = compute_fallen_brick_positions(&a);
    assert_eq!(a, c);
}

#[test]
fn settled_bricks_never_share_a_cell() {
    let bricks = parse_input(get_labeled_example()).expect("example should be valid");
    let (fallen, _) = compute_fallen_brick_positions(&bricks);
    for (i, a) in fallen.iter().enumerate() {
        for b in fallen.iter().skip(i + 1) {
            let pa = a.plan();
            let pb = b.plan();
            let meet = pa.top_left.x <= pb.bottom_right.x
                && pb.top_left.x <= pa.bottom_right.x
                && pa.top_left.y <= pb.bottom_right.y
                && pb.top_left.y <= pa.bottom_right.y;
            if meet {
                assert!(a.upper.z < b.lower.z || b.upper.z < a.lower.z);
            }
        }
    }
}

#[test]
fn bricks_rest_on_ground_or_brick() {
    let bricks = parse_input(get_unlabeled_example()).expect("example should be valid");
    let (fallen, _) = compute_fallen_brick_positions(&bricks);
    for b in fallen.iter() {
        let pb = b.plan();
        let on_brick = fallen.iter().any(|a| {
            let pa = a.plan();
            a.upper.z + 1 == b.lower.z
                && pa.top_left.x <= pb.bottom_right.x
                && pb.top_left.x <= pa.bottom_right.x
                && pa.top_left.y <= pb.bottom_right.y
                && pb.top_left.y <= pa.bottom_right.y
        });
        assert!(b.lower.z == 1 || on_brick);
    }
}

#[test]
fn brick_resting_on_two_keeps_both_removable() {
    let bricks = parse_input("0,0,1~0,0,1\n2,0,1~2,0,1\n0,0,5~2,0,5\n").expect("bricks should be valid");
    let (fallen, removable) = compute_fallen_brick_positions(&bricks);
    assert_eq!(fallen[2].lower.z, 2);
    assert_eq!(removable.len(), 3);
}

#[test]
fn surface_heights_only_grow() {
    let mut surface = Surface::default();
    let low = Brick::try_from("0,0,1~2,0,1").expect("brick should be valid");
    let high = Brick::try_from("1,0,2~1,0,4").expect("brick should be valid");
    surface.set_height(&low.plan(), 1, 0);
    surface.set_height(&high.plan(), 4, 1);
    assert_eq!(surface.get(&Position { x: 0, y: 0 }), (1, Some(0)));
    assert_eq!(surface.get(&Position { x: 1, y: 0 }), (4, Some(1)));
    assert_eq!(surface.get(&Position { x: 2, y: 0 }), (1, Some(0)));
}

#[test]
fn malformed_lines_are_rejected() {
    assert!(parse_input("1,0,1-1,2,1\n").is_err());
    assert!(parse_input("1,0~1,2,1\n").is_err());
    assert!(parse_input("1,0,1,4~1,2,1\n").is_err());
    assert!(parse_input("1,x,1~1,2,1\n").is_err());
    assert!(parse_input("1,0,1~1,2,99999999999999999999\n").is_err());
    assert!(parse_input("\n").is_err());
}

#[test]
fn endpoints_are_ordered_by_height() {
    let b = Brick::try_from("-1,+2,9~-1,2,3 <-  top  ").expect("brick should be valid");
    assert_eq!(b.lower, Position3 { x: -1, y: 2, z: 3 });
    assert_eq!(b.upper, Position3 { x: -1, y: 2, z: 9 });
    assert_eq!(b.label, Some("top".to_string()));
}

#[test]
fn points_parse() {
    assert_eq!(Position3::try_from("1,-2,3"), Ok(Position3 { x: 1, y: -2, z: 3 }));
    assert!(Position3::try_from("1,2").is_err());
    assert!(Position3::try_from("1,2,3,4").is_err());
    assert!(Position3::try_from("a,2,3").is_err());
}
