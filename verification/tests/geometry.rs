use polypack::geometry::Piece;
use polypack::geometry::Point;
use polypack::geometry::around;
use polypack::geometry::translate;

fn tromino() -> Piece {
    Piece { points: vec![Point(0, 0, 0), Point(0, 0, 1), Point(0, 1, 1)] }
}

#[test]
fn translate_moves_anchor_to_target() {
    let piece = tromino();
    let pos = Point(0, 0, 1);
    let whr = Point(5, 5, 5);
    let moved = translate(&piece, &pos, &whr);
    assert_eq!(moved.points, vec![Point(5, 5, 4), Point(5, 5, 5), Point(5, 6, 5)]);
}

#[test]
fn translate_preserves_relative_offsets() {
    let piece = Piece { points: vec![Point(1, 2, 3), Point(4, 5, 6), Point(-1, 0, 2)] };
    let pos = Point(4, 5, 6);
    let whr = Point(10, 20, 30);
    let moved = translate(&piece, &pos, &whr);
    assert_eq!(moved.points.len(), piece.points.len());
    assert_eq!(moved.points[1], whr);
    for i in 0..piece.points.len() {
        assert_eq!(moved.points[i].0 - whr.0, piece.points[i].0 - pos.0);
        assert_eq!(moved.points[i].1 - whr.1, piece.points[i].1 - pos.1);
        assert_eq!(moved.points[i].2 - whr.2, piece.points[i].2 - pos.2);
    }
}

#[test]
fn translate_identity_when_anchor_is_target() {
    let piece = tromino();
    let pos = Point(0, 0, 0);
    let moved = translate(&piece, &pos, &pos);
    assert_eq!(moved.points, piece.points);
}

#[test]
fn around_anchors_each_point_at_target() {
    let piece = tromino();
    let whr = Point(2, 2, 2);
    let variants = around(&piece, &whr);
    assert_eq!(variants.len(), 3);
    for (j, variant) in variants.iter().enumerate() {
        assert_eq!(variant.points.len(), 3);
        assert_eq!(variant.points[j], whr);
    }
    assert_eq!(variants[0].points, vec![Point(2, 2, 2), Point(2, 2, 3), Point(2, 3, 3)]);
    assert_eq!(variants[1].points, vec![Point(2, 2, 1), Point(2, 2, 2), Point(2, 3, 2)]);
    assert_eq!(variants[2].points, vec![Point(2, 1, 1), Point(2, 1, 2), Point(2, 2, 2)]);
}
