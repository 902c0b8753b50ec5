use bricks::grid::{
    bounds, manhattan, maybe_update_max, maybe_update_min, update_max, update_min,
    BoundingBox, CompassDirection, Position,
};

#[test]
fn test_manhattan() {
    assert_eq!(
        manhattan(&Position { x: 1, y: -2 }, &Position { x: 12, y: 7 }),
        11 + 9
    );
}

#[test]
fn directions_reverse() {
    assert_eq!(CompassDirection::North.reversed(), CompassDirection::South);
    assert_eq!(CompassDirection::East.reversed(), CompassDirection::West);
    assert_eq!(CompassDirection::West.reversed().reversed(), CompassDirection::West);
}

#[test]
fn moves_and_bearings() {
    let p = Position { x: 3, y: 3 };
    assert_eq!(p.move_direction(&CompassDirection::North), Position { x: 3, y: 2 });
    assert_eq!(p.move_direction(&CompassDirection::East), Position { x: 4, y: 3 });
    let q = Position { x: 4, y: 2 };
    assert_eq!(q.neighbour_xbearing(&p), Ok(Some(CompassDirection::East)));
    assert_eq!(q.neighbour_ybearing(&p), Ok(Some(CompassDirection::North)));
    assert_eq!(p.neighbour_xbearing(&p), Ok(None));
    assert!(Position { x: 9, y: 3 }.neighbour_xbearing(&p).is_err());
}

#[test]
fn min_max_updates() {
    let mut m: Option<i64> = None;
    maybe_update_min(&mut m, 5);
    maybe_update_min(&mut m, 7);
    assert_eq!(m, Some(5));
    maybe_update_max(&mut m, 9);
    assert_eq!(m, Some(9));
    let mut lo = 4;
    update_min(&mut lo, 2);
    update_min(&mut lo, 3);
    assert_eq!(lo, 2);
    let mut hi = 4;
    update_max(&mut hi, 2);
    assert_eq!(hi, 4);
}

#[test]
fn bounds_of_points() {
    assert_eq!(bounds(&[]), None);
    let pts = [Position { x: 1, y: 5 }, Position { x: -2, y: 3 }, Position { x: 0, y: 8 }];
    assert_eq!(
        bounds(&pts),
        Some(BoundingBox {
            top_left: Position { x: -2, y: 3 },
            bottom_right: Position { x: 1, y: 8 }
        })
    );
}

#[test]
fn box_surface_lists_every_cell() {
    let b = BoundingBox {
        top_left: Position { x: 0, y: 1 },
        bottom_right: Position { x: 1, y: 2 },
    };
    assert_eq!(
        b.surface(),
        vec![
            Position { x: 0, y: 1 },
            Position { x: 0, y: 2 },
            Position { x: 1, y: 1 },
            Position { x: 1, y: 2 }
        ]
    );
}

#[test]
fn direction_initials() {
    assert_eq!(char::from(CompassDirection::North), 'N');
    assert_eq!(char::from(CompassDirection::West), 'W');
}
