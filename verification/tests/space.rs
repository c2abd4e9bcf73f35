use polypack::geometry::Piece;
use polypack::geometry::Point;
use polypack::space::PuzzleError;
use polypack::space::Space;
use polypack::space::empty_positions;
use polypack::space::fits;
use polypack::space::get;
use polypack::space::place;

fn y_pentacube() -> Piece {
    Piece {
        points: vec![
            Point(0, 0, 0),
            Point(0, 0, 1),
            Point(0, 0, 2),
            Point(0, 0, 3),
            Point(0, 1, 2),
        ],
    }
}

#[test]
fn space_new_starts_empty() {
    let space = Space::new(5, 5, 5).unwrap();
    assert_eq!(space.field.len(), 125);
    for x in 0..5 {
        for y in 0..5 {
            for z in 0..5 {
                assert_eq!(get(&space, &Point(x, y, z)), 0);
            }
        }
    }
}

#[test]
fn space_new_rejects_bad_dimensions() {
    assert_eq!(Space::new(0, 5, 5), Err(PuzzleError::BadDimensions));
    assert_eq!(Space::new(5, -1, 5), Err(PuzzleError::BadDimensions));
    assert_eq!(Space::new(5, 5, 1025), Err(PuzzleError::BadDimensions));
}

#[test]
fn place_writes_symbol_into_covered_cells() {
    let mut space = Space::new(5, 5, 5).unwrap();
    let piece = y_pentacube();
    assert!(fits(&space, &piece));
    place(&mut space, &piece, 4);
    for p in &piece.points {
        assert_eq!(get(&space, p), 4);
    }
    assert_eq!(get(&space, &Point(1, 0, 0)), 0);
    assert_eq!(get(&space, &Point(0, 1, 0)), 0);
}

#[test]
fn fits_rejects_out_of_bounds_and_occupied() {
    let mut space = Space::new(3, 3, 3).unwrap();
    let outside = Piece { points: vec![Point(0, 0, 0), Point(0, 0, 3)] };
    assert!(!fits(&space, &outside));
    let negative = Piece { points: vec![Point(-1, 0, 0)] };
    assert!(!fits(&space, &negative));
    let unit = Piece { points: vec![Point(1, 1, 1)] };
    assert!(fits(&space, &unit));
    place(&mut space, &unit, 7);
    let overlapping = Piece { points: vec![Point(1, 1, 0), Point(1, 1, 1)] };
    assert!(!fits(&space, &overlapping));
}

#[test]
fn place_then_undo_restores_space_exactly() {
    let mut space = Space::new(4, 3, 5).unwrap();
    let first = Piece { points: vec![Point(0, 0, 0), Point(1, 0, 0)] };
    place(&mut space, &first, 9);
    let before = space.clone();
    let piece = Piece { points: vec![Point(2, 1, 3), Point(2, 2, 3), Point(3, 2, 3)] };
    assert!(fits(&space, &piece));
    place(&mut space, &piece, 5);
    place(&mut space, &piece, 0);
    assert_eq!(space, before);
}

#[test]
fn empty_positions_lists_empty_cells_in_raster_order() {
    let mut space = Space::new(2, 2, 2).unwrap();
    let unit = Piece { points: vec![Point(0, 1, 0)] };
    place(&mut space, &unit, 3);
    let cells = empty_positions(&space);
    assert_eq!(
        cells,
        vec![
            Point(0, 0, 0),
            Point(0, 0, 1),
            Point(0, 1, 1),
            Point(1, 0, 0),
            Point(1, 0, 1),
            Point(1, 1, 0),
            Point(1, 1, 1),
        ]
    );
}
