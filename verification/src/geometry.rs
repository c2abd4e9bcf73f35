//! Points of the integer lattice and polycube pieces, with the pure
//! transformations that move a piece so that one of its cells lands on a
//! chosen target cell.
use vstd::prelude::*;

verus! {

/// A cell of the integer lattice: x, y and z coordinates.
#[derive(Clone, Copy, PartialEq, Eq, Structural, Hash, Debug)]
pub struct Point(pub i64, pub i64, pub i64);

/// A polycube piece: the set of lattice cells it covers, as a list of
/// points relative to an implicit local origin.
#[derive(Clone, PartialEq, Eq, Debug)]
pub struct Piece {
    pub points: Vec<Point>,
}

impl View for Piece {
    type V = Seq<Point>;

    open spec fn view(&self) -> Seq<Point> {
        self.points@
    }
}

/// The point `p` shifted by the delta that carries `pos` onto `whr`,
/// coordinate by coordinate (truncating only if the shift leaves `i64`).
pub open spec fn shifted_point(p: Point, pos: Point, whr: Point) -> Point {
    Point(
        (whr.0 + p.0 - pos.0) as i64,
        (whr.1 + p.1 - pos.1) as i64,
        (whr.2 + p.2 - pos.2) as i64,
    )
}

/// Whether shifting `p` by the delta that carries `pos` onto `whr` stays
/// within `i64` on every coordinate.
pub open spec fn shift_fits(p: Point, pos: Point, whr: Point) -> bool {
    &&& i64::MIN <= whr.0 + p.0 - pos.0 <= i64::MAX
    &&& i64::MIN <= whr.1 + p.1 - pos.1 <= i64::MAX
    &&& i64::MIN <= whr.2 + p.2 - pos.2 <= i64::MAX
}

/// Every point of `pts`, shifted by the delta that carries `pos` onto `whr`.
pub open spec fn translated(pts: Seq<Point>, pos: Point, whr: Point) -> Seq<Point> {
    Seq::new(pts.len(), |i: int| shifted_point(pts[i], pos, whr))
}

/// Returns a new piece whose every point is shifted by the delta that
/// carries `pos` onto `whr`: the point of the piece that equalled `pos`
/// now lies exactly at `whr`, and every other point keeps its relative
/// offset to it.
pub fn translate(piece: &Piece, pos: &Point, whr: &Point) -> (r: Piece)
    requires
        forall|i: int| 0 <= i < piece@.len() ==> shift_fits(#[trigger] piece@[i], *pos, *whr),
    ensures
        r@ == translated(piece@, *pos, *whr),
{
    let mut points: Vec<Point> = Vec::new();
    let n = piece.points.len();
    let mut i: usize = 0;
    while i < n
        invariant
            n == piece@.len(),
            i <= n,
            points@ == translated(piece@, *pos, *whr).take(i as int),
            forall|j: int| 0 <= j < piece@.len() ==> shift_fits(#[trigger] piece@[j], *pos, *whr),
        decreases n - i,
    {
        let p = piece.points[i];
        let qx = (whr.0 as i128 + p.0 as i128 - pos.0 as i128) as i64;
        let qy = (whr.1 as i128 + p.1 as i128 - pos.1 as i128) as i64;
        let qz = (whr.2 as i128 + p.2 as i128 - pos.2 as i128) as i64;
        points.push(Point(qx, qy, qz));
        proof {
            assert(translated(piece@, *pos, *whr).take(i + 1)
                =~= translated(piece@, *pos, *whr).take(i as int).push(
                shifted_point(piece@[i as int], *pos, *whr),
            ));
        }
        i += 1;
    }
    proof {
        assert(translated(piece@, *pos, *whr).take(n as int) =~= translated(
            piece@,
            *pos,
            *whr,
        ));
    }
    Piece { points }
}

/// All the ways `piece` can cover the target cell `whr` with one of its own
/// cells: for each point of the piece, the translated piece that puts that
/// point exactly at `whr`, in the order of the piece's point list.
pub fn around(piece: &Piece, whr: &Point) -> (r: Vec<Piece>)
    requires
        forall|i: int, j: int|
            0 <= i < piece@.len() && 0 <= j < piece@.len() ==> shift_fits(
                #[trigger] piece@[i],
                #[trigger] piece@[j],
                *whr,
            ),
    ensures
        r@.len() == piece@.len(),
        forall|j: int|
            0 <= j < piece@.len() ==> (#[trigger] r@[j])@ == translated(
                piece@,
                piece@[j],
                *whr,
            ),
{
    let mut res: Vec<Piece> = Vec::new();
    let n = piece.points.len();
    let mut j: usize = 0;
    while j < n
        invariant
            n == piece@.len(),
            j <= n,
            res@.len() == j,
            forall|k: int|
                0 <= k < j ==> (#[trigger] res@[k])@ == translated(piece@, piece@[k], *whr),
            forall|a: int, b: int|
                0 <= a < piece@.len() && 0 <= b < piece@.len() ==> shift_fits(
                    #[trigger] piece@[a],
                    #[trigger] piece@[b],
                    *whr,
                ),
        decreases n - j,
    {
        let pos = piece.points[j];
        res.push(translate(piece, &pos, whr));
        j += 1;
    }
    res
}

/// The translate invariant: anchoring a piece's point `k` at `whr` puts
/// that point exactly at `whr`, and every other point keeps its relative
/// offset to the anchor, coordinate by coordinate.
pub proof fn lemma_translate_invariant(pts: Seq<Point>, k: int, whr: Point)
    requires
        0 <= k < pts.len(),
        forall|i: int| 0 <= i < pts.len() ==> shift_fits(#[trigger] pts[i], pts[k], whr),
    ensures
        translated(pts, pts[k], whr)[k] == whr,
        forall|i: int|
            0 <= i < pts.len() ==> {
                let q = #[trigger] translated(pts, pts[k], whr)[i];
                &&& q.0 - whr.0 == pts[i].0 - pts[k].0
                &&& q.1 - whr.1 == pts[i].1 - pts[k].1
                &&& q.2 - whr.2 == pts[i].2 - pts[k].2
            },
{
    assert(shift_fits(pts[k], pts[k], whr));
}

} // verus!
