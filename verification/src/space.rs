//! The voxel volume: a half-open cuboid of cells, each holding a label.
//! A label of zero means the cell is empty; a non-zero label names the
//! placement instance occupying it. All occupancy decisions go through
//! `fits`; `place` writes labels and, with label zero, undoes a placement.
//!
//! Contracts speak of `SpaceModel`, the mathematical value of a volume:
//! its dimensions and its grid of labels as a sequence in raster order.
use vstd::arithmetic::div_mod::lemma_fundamental_div_mod;
use vstd::arithmetic::div_mod::lemma_fundamental_div_mod_converse;
use vstd::arithmetic::div_mod::lemma_mod_bound;
use vstd::prelude::*;

use crate::geometry::Piece;
use crate::geometry::Point;

verus! {

/// Largest accepted extent of the volume along any axis. It keeps every
/// flattened cell index far below `i64::MAX`.
pub const MAX_DIM: i64 = 1024;

/// A construction input that is rejected up front, before any search runs.
#[derive(Clone, Copy, PartialEq, Eq, Structural, Debug)]
pub enum PuzzleError {
    /// A dimension of the volume is not positive, or exceeds `MAX_DIM`.
    BadDimensions,
    /// A piece of the catalog has no points, or a point with a coordinate
    /// too large in magnitude.
    BadPiece,
    /// The remaining-count list does not have one entry per catalog shape.
    CountMismatch,
}

/// The mathematical value of a voxel volume: its dimensions and the grid
/// of cell labels, flattened in raster order (x outermost, z innermost).
pub ghost struct SpaceModel {
    pub x: int,
    pub y: int,
    pub z: int,
    pub grid: Seq<u64>,
}

impl SpaceModel {
    /// The number of cells the dimensions span.
    pub open spec fn volume(&self) -> int {
        self.x * self.y * self.z
    }

    /// Well-formed: positive dimensions within `MAX_DIM`, and one label
    /// per cell.
    pub open spec fn wf(&self) -> bool {
        &&& 0 < self.x <= MAX_DIM
        &&& 0 < self.y <= MAX_DIM
        &&& 0 < self.z <= MAX_DIM
        &&& self.grid.len() == self.volume()
    }
}

/// A rectangular voxel volume `[0,x) x [0,y) x [0,z)` with one label per
/// cell, stored in raster order: x outermost, then y, then z innermost.
#[derive(Clone, PartialEq, Eq, Debug)]
pub struct Space {
    pub x: i64,
    pub y: i64,
    pub z: i64,
    pub field: Vec<u64>,
}

impl View for Space {
    type V = SpaceModel;

    open spec fn view(&self) -> SpaceModel {
        SpaceModel { x: self.x as int, y: self.y as int, z: self.z as int, grid: self.field@ }
    }
}

impl Space {
    /// Well-formed: the mathematical value is.
    pub open spec fn wf(&self) -> bool {
        self@.wf()
    }

    /// A fresh, all-empty volume of the given dimensions; rejects
    /// non-positive or oversized dimensions.
    pub fn new(x: i64, y: i64, z: i64) -> (r: Result<Space, PuzzleError>)
        ensures
            (0 < x <= MAX_DIM && 0 < y <= MAX_DIM && 0 < z <= MAX_DIM) <==> r is Ok,
            r matches Ok(s) ==> {
                &&& s.wf()
                &&& s@.x == x
                &&& s@.y == y
                &&& s@.z == z
                &&& forall|i: int| 0 <= i < s@.grid.len() ==> s@.grid[i] == 0
            },
            r matches Err(e) ==> e == PuzzleError::BadDimensions,
    {
        if !(0 < x && x <= MAX_DIM && 0 < y && y <= MAX_DIM && 0 < z && z <= MAX_DIM) {
            return Err(PuzzleError::BadDimensions);
        }
        proof {
            lemma_dim_products(x as int, y as int, z as int);
        }
        let n: usize = (x * (y * z)) as usize;
        let mut field: Vec<u64> = Vec::new();
        let mut i: usize = 0;
        while i < n
            invariant
                i <= n,
                field@.len() == i,
                forall|j: int| 0 <= j < i ==> field@[j] == 0,
            decreases n - i,
        {
            field.push(0);
            i += 1;
        }
        let s = Space { x, y, z, field };
        proof {
            lemma_dim_products(x as int, y as int, z as int);
        }
        Ok(s)
    }
}

/// Bounds that well-formed dimensions put on their products.
proof fn lemma_dim_products(x: int, y: int, z: int)
    requires
        0 < x <= MAX_DIM,
        0 < y <= MAX_DIM,
        0 < z <= MAX_DIM,
    ensures
        0 < y * z <= 1048576,
        0 < x * (y * z) <= 1073741824,
        x * y * z == x * (y * z),
{
    assert(0 < y * z <= 1048576 && 0 < x * (y * z) <= 1073741824 && x * y * z == x * (y * z))
        by (nonlinear_arith)
        requires
            0 < x <= 1024,
            0 < y <= 1024,
            0 < z <= 1024,
    ;
}

/// Whether `p` lies inside the volume on all three axes.
pub open spec fn in_bounds(m: SpaceModel, p: Point) -> bool {
    &&& 0 <= p.0 < m.x
    &&& 0 <= p.1 < m.y
    &&& 0 <= p.2 < m.z
}

/// The flattened raster index of `p`: x outermost, y middle, z innermost.
pub open spec fn sidx(m: SpaceModel, p: Point) -> int {
    p.0 * (m.y * m.z) + p.1 * m.z + p.2
}

/// The label stored for the in-bounds cell `p`.
pub open spec fn cell(m: SpaceModel, p: Point) -> u64 {
    m.grid[sidx(m, p)]
}

/// The cell whose flattened raster index is `r`.
pub open spec fn decode(m: SpaceModel, r: int) -> Point {
    Point((r / (m.y * m.z)) as i64, ((r % (m.y * m.z)) / m.z) as i64, (r % m.z) as i64)
}

/// An in-bounds cell's raster index lies within the volume, and decoding
/// it gives the cell back.
pub proof fn lemma_sidx_decode(m: SpaceModel, p: Point)
    requires
        m.wf(),
        in_bounds(m, p),
    ensures
        0 <= sidx(m, p) < m.volume(),
        decode(m, sidx(m, p)) == p,
{
    lemma_dim_products(m.x, m.y, m.z);
    let yz = m.y * m.z;
    let rem = p.1 * m.z + p.2;
    assert(0 <= rem < yz && 0 <= p.0 * yz + rem < m.x * yz) by (nonlinear_arith)
        requires
            0 <= p.0 < m.x,
            0 <= p.1 < m.y,
            0 <= p.2 < m.z,
            yz == m.y * m.z,
            rem == p.1 * m.z + p.2,
    ;
    let r = sidx(m, p);
    lemma_fundamental_div_mod_converse(r, yz, p.0 as int, rem);
    lemma_fundamental_div_mod_converse(rem, m.z, p.1 as int, p.2 as int);
    assert(r / yz == p.0 as int && r % yz == rem);
    assert(rem / m.z == p.1 as int && rem % m.z == p.2 as int);
    assert(decode(m, r).0 == (r / (m.y * m.z)) as i64);
    assert(decode(m, r).0 == p.0);
    assert(r % (m.y * m.z) == rem);
    assert(decode(m, r).1 == (rem / m.z) as i64);
    assert(decode(m, r).1 == p.1);
    lemma_mod_factor(r, m.y, m.z);
    assert(decode(m, r).2 == (r % m.z) as i64);
    assert(r % m.z == rem % m.z);
    assert(decode(m, r).2 == p.2);
}

/// Taking a remainder first by `y * z` and then by `z` is the same as
/// taking it by `z` directly.
proof fn lemma_mod_factor(r: int, y: int, z: int)
    requires
        0 < y,
        0 < z,
    ensures
        (r % (y * z)) % z == r % z,
{
    assert(0 < y * z) by (nonlinear_arith)
        requires
            0 < y,
            0 < z,
    ;
    let yz = y * z;
    lemma_fundamental_div_mod(r, yz);
    lemma_mod_bound(r, yz);
    let q = r / yz;
    let rem = r % yz;
    lemma_fundamental_div_mod(rem, z);
    lemma_mod_bound(rem, z);
    let q2 = rem / z;
    let rem2 = rem % z;
    assert(r == z * (y * q + q2) + rem2) by (nonlinear_arith)
        requires
            r == yz * q + rem,
            yz == y * z,
            rem == z * q2 + rem2,
    ;
    lemma_fundamental_div_mod_converse(r, z, y * q + q2, rem2);
}

/// Every raster index within the volume decodes to an in-bounds cell, and
/// encoding that cell gives the index back.
pub proof fn lemma_decode_sidx(m: SpaceModel, r: int)
    requires
        m.wf(),
        0 <= r < m.volume(),
    ensures
        in_bounds(m, decode(m, r)),
        sidx(m, decode(m, r)) == r,
        0 <= r / (m.y * m.z) < m.x,
        0 <= (r % (m.y * m.z)) / m.z < m.y,
        0 <= r % m.z < m.z,
{
    lemma_dim_products(m.x, m.y, m.z);
    let yz = m.y * m.z;
    lemma_fundamental_div_mod(r, yz);
    lemma_mod_bound(r, yz);
    let q = r / yz;
    let rem = r % yz;
    lemma_fundamental_div_mod(rem, m.z);
    lemma_mod_bound(rem, m.z);
    let q2 = rem / m.z;
    let rem2 = rem % m.z;
    assert(0 <= q < m.x && 0 <= q2 < m.y) by (nonlinear_arith)
        requires
            0 < m.x,
            0 < m.y,
            0 < m.z,
            yz == m.y * m.z,
            0 <= r < m.x * yz,
            r == yz * q + rem,
            0 <= rem < yz,
            rem == m.z * q2 + rem2,
            0 <= rem2 < m.z,
    ;
    let d = decode(m, r);
    assert(d.0 == (r / (m.y * m.z)) as i64);
    assert(d.1 == ((r % (m.y * m.z)) / m.z) as i64);
    assert(d.2 == (r % m.z) as i64);
    assert(r % (m.y * m.z) == rem);
    lemma_mod_factor(r, m.y, m.z);
    assert(r % m.z == rem2);
    assert(d.0 == q as i64 && d.1 == q2 as i64 && d.2 == rem2 as i64);
    assert(sidx(m, d) == q * yz + q2 * m.z + rem2);
    assert(q * yz == yz * q && q2 * m.z == m.z * q2) by (nonlinear_arith);
    assert(sidx(m, d) == r);
}

/// The label of the in-bounds cell `pos`.
pub fn get(space: &Space, pos: &Point) -> (r: u64)
    requires
        space.wf(),
        in_bounds(space@, *pos),
    ensures
        r == cell(space@, *pos),
{
    proof {
        lemma_dim_products(space@.x, space@.y, space@.z);
        lemma_sidx_decode(space@, *pos);
    }
    let yz = space.y * space.z;
    let idx = (pos.0 * yz + pos.1 * space.z + pos.2) as usize;
    space.field[idx]
}

/// Whether every point of `pts` lies inside the volume and its cell is
/// currently empty.
pub open spec fn spec_fits(m: SpaceModel, pts: Seq<Point>) -> bool {
    forall|i: int|
        0 <= i < pts.len() ==> in_bounds(m, #[trigger] pts[i]) && cell(m, pts[i]) == 0
}

/// True iff every point of the piece lies within the volume and every such
/// cell is currently empty. The single occupancy and bounds guard: every
/// placement decision goes through it.
pub fn fits(space: &Space, piece: &Piece) -> (r: bool)
    requires
        space.wf(),
    ensures
        r == spec_fits(space@, piece@),
{
    let n = piece.points.len();
    let mut i: usize = 0;
    while i < n
        invariant
            space.wf(),
            n == piece@.len(),
            i <= n,
            forall|j: int|
                0 <= j < i ==> in_bounds(space@, #[trigger] piece@[j]) && cell(
                    space@,
                    piece@[j],
                ) == 0,
        decreases n - i,
    {
        let p = piece.points[i];
        if !(0 <= p.0 && p.0 < space.x && 0 <= p.1 && p.1 < space.y && 0 <= p.2 && p.2
            < space.z) {
            return false;
        }
        if get(space, &p) != 0 {
            return false;
        }
        i += 1;
    }
    true
}

/// Whether some point of `pts` has raster index `r`.
pub open spec fn covered(m: SpaceModel, pts: Seq<Point>, r: int) -> bool {
    exists|i: int| 0 <= i < pts.len() && sidx(m, #[trigger] pts[i]) == r
}

/// The volume after writing `sym` into every cell covered by `pts`, all
/// other cells unchanged.
pub open spec fn place_grid(m: SpaceModel, pts: Seq<Point>, sym: u64) -> SpaceModel {
    SpaceModel {
        grid: Seq::new(
            m.grid.len(),
            |r: int|
                if covered(m, pts, r) {
                    sym
                } else {
                    m.grid[r]
                },
        ),
        ..m
    }
}

/// Writes `sym` into every cell covered by the piece's points, leaving all
/// other cells unchanged. The caller must have established that the points
/// are in bounds (normally by `fits`); writing `sym == 0` undoes a
/// placement.
pub fn place(space: &mut Space, piece: &Piece, symbol: u64)
    requires
        old(space).wf(),
        forall|i: int| 0 <= i < piece@.len() ==> in_bounds(old(space)@, #[trigger] piece@[i]),
    ensures
        final(space)@ == place_grid(old(space)@, piece@, symbol),
        final(space).wf(),
{
    let ghost m0 = space@;
    let n = piece.points.len();
    let mut i: usize = 0;
    while i < n
        invariant
            space@.x == m0.x,
            space@.y == m0.y,
            space@.z == m0.z,
            m0.wf(),
            space@.grid.len() == m0.grid.len(),
            n == piece@.len(),
            i <= n,
            forall|j: int| 0 <= j < n ==> in_bounds(m0, #[trigger] piece@[j]),
            forall|r: int|
                0 <= r < m0.grid.len() ==> space@.grid[r] == (if covered(
                    m0,
                    piece@.take(i as int),
                    r,
                ) {
                    symbol
                } else {
                    m0.grid[r]
                }),
        decreases n - i,
    {
        let p = piece.points[i];
        proof {
            lemma_dim_products(m0.x, m0.y, m0.z);
            lemma_sidx_decode(m0, p);
        }
        let yz = space.y * space.z;
        let idx = (p.0 * yz + p.1 * space.z + p.2) as usize;
        space.field[idx] = symbol;
        proof {
            let pre = piece@.take(i as int);
            let cur = piece@.take(i + 1);
            assert(cur == pre.push(piece@[i as int]));
            assert forall|r: int| 0 <= r < m0.grid.len() implies space@.grid[r] == (if covered(
                m0,
                cur,
                r,
            ) {
                symbol
            } else {
                m0.grid[r]
            }) by {
                if r == sidx(m0, p) {
                    assert(cur[i as int] == p);
                    assert(covered(m0, cur, r));
                } else if covered(m0, cur, r) {
                    let w = choose|w: int| 0 <= w < cur.len() && sidx(m0, cur[w]) == r;
                    assert(0 <= w < pre.len() && sidx(m0, pre[w]) == r);
                    assert(covered(m0, pre, r));
                }
            }
        }
        i += 1;
    }
    proof {
        assert(piece@.take(n as int) == piece@);
        assert(space@.grid =~= place_grid(m0, piece@, symbol).grid);
        assert(space@ == place_grid(m0, piece@, symbol));
    }
}

/// Placing a fitting piece and then writing zeros over the same points
/// restores the volume exactly: apply followed by undo is the identity.
pub proof fn lemma_place_unplace(m: SpaceModel, pts: Seq<Point>, sym: u64)
    requires
        m.wf(),
        spec_fits(m, pts),
    ensures
        place_grid(place_grid(m, pts, sym), pts, 0) == m,
{
    let m1 = place_grid(m, pts, sym);
    let m2 = place_grid(m1, pts, 0);
    assert forall|r: int| 0 <= r < m.grid.len() implies m2.grid[r] == m.grid[r] by {
        if covered(m, pts, r) {
            let w = choose|w: int| 0 <= w < pts.len() && sidx(m, pts[w]) == r;
            lemma_sidx_decode(m, pts[w]);
            assert(cell(m, pts[w]) == 0);
            assert(m.grid[r] == 0);
        }
    }
    assert(m2.grid =~= m.grid);
}

/// The empty cells among the first `n` raster indices, as points, in
/// raster order.
pub open spec fn empties_up_to(m: SpaceModel, n: int) -> Seq<Point>
    decreases n,
{
    if n <= 0 {
        Seq::empty()
    } else if m.grid[n - 1] == 0 {
        empties_up_to(m, n - 1).push(decode(m, n - 1))
    } else {
        empties_up_to(m, n - 1)
    }
}

/// All currently empty cells of the volume, in raster order.
pub open spec fn empties(m: SpaceModel) -> Seq<Point> {
    empties_up_to(m, m.volume())
}

/// All cells whose label is zero, in raster order: x outermost, y middle,
/// z innermost.
pub fn empty_positions(space: &Space) -> (r: Vec<Point>)
    requires
        space.wf(),
    ensures
        r@ == empties(space@),
{
    proof {
        lemma_dim_products(space@.x, space@.y, space@.z);
    }
    let yz: usize = (space.y * space.z) as usize;
    let zu: usize = space.z as usize;
    let n: usize = (space.x * (space.y * space.z)) as usize;
    let mut res: Vec<Point> = Vec::new();
    let mut r: usize = 0;
    while r < n
        invariant
            space.wf(),
            yz == space@.y * space@.z,
            1 <= yz,
            zu == space@.z,
            n == space@.volume(),
            r <= n,
            res@ == empties_up_to(space@, r as int),
        decreases n - r,
    {
        if space.field[r] == 0 {
            proof {
                lemma_decode_sidx(space@, r as int);
            }
            let px = (r / yz) as i64;
            let py = ((r % yz) / zu) as i64;
            let pz = (r % zu) as i64;
            res.push(Point(px, py, pz));
            proof {
                assert(Point(px, py, pz) == decode(space@, r as int));
            }
        }
        r += 1;
    }
    res
}

/// `empty_positions` is sound, complete, and strictly raster-ordered: its
/// elements are exactly the in-bounds cells whose label is zero, and their
/// raster indices strictly increase along the list.
pub proof fn lemma_empties_characterization(m: SpaceModel)
    requires
        m.wf(),
    ensures
        forall|p: Point| empties(m).contains(p) <==> in_bounds(m, p) && cell(m, p) == 0,
        forall|i: int, j: int|
            0 <= i < j < empties(m).len() ==> sidx(m, #[trigger] empties(m)[i]) < sidx(
                m,
                #[trigger] empties(m)[j],
            ),
{
    lemma_dim_products(m.x, m.y, m.z);
    lemma_empties_up_to(m, m.volume());
    assert forall|p: Point| in_bounds(m, p) && cell(m, p) == 0 implies empties(m).contains(
        p,
    ) by {
        lemma_sidx_decode(m, p);
    }
}

/// Induction core for `lemma_empties_characterization`, over the scanned
/// prefix length `n`.
proof fn lemma_empties_up_to(m: SpaceModel, n: int)
    requires
        m.wf(),
        n <= m.volume(),
    ensures
        forall|p: Point|
            #[trigger] empties_up_to(m, n).contains(p) <==> exists|r: int|
                0 <= r < n && m.grid[r] == 0 && p == decode(m, r),
        forall|k: int|
            0 <= k < empties_up_to(m, n).len() ==> in_bounds(m, #[trigger] empties_up_to(m, n)[k])
                && cell(m, empties_up_to(m, n)[k]) == 0 && sidx(m, empties_up_to(m, n)[k]) < n,
        forall|i: int, j: int|
            0 <= i < j < empties_up_to(m, n).len() ==> sidx(m, #[trigger] empties_up_to(m, n)[i])
                < sidx(m, #[trigger] empties_up_to(m, n)[j]),
    decreases n,
{
    if n <= 0 {
        assert forall|p: Point| #[trigger]
            empties_up_to(m, n).contains(p) <==> exists|r: int|
                0 <= r < n && m.grid[r] == 0 && p == decode(m, r) by {
            assert(!empties_up_to(m, n).contains(p));
        }
    } else {
        lemma_empties_up_to(m, n - 1);
        let prev = empties_up_to(m, n - 1);
        let here = empties_up_to(m, n);
        lemma_decode_sidx(m, n - 1);
        if m.grid[n - 1] == 0 {
            let d = decode(m, n - 1);
            assert(here == prev.push(d));
            assert forall|p: Point| #[trigger] here.contains(p) implies exists|r: int|
                0 <= r < n && m.grid[r] == 0 && p == decode(m, r) by {
                let k = choose|k: int| 0 <= k < here.len() && here[k] == p;
                if k < prev.len() {
                    assert(prev.contains(p));
                } else {
                    assert(p == d);
                    assert(0 <= n - 1 < n && m.grid[n - 1] == 0 && p == decode(m, n - 1));
                }
            }
            assert forall|p: Point| (exists|r: int|
                0 <= r < n && m.grid[r] == 0 && p == decode(m, r)) implies #[trigger] here
                .contains(p) by {
                let r = choose|r: int| 0 <= r < n && m.grid[r] == 0 && p == decode(m, r);
                if r < n - 1 {
                    assert(prev.contains(p));
                    let k = choose|k: int| 0 <= k < prev.len() && prev[k] == p;
                    assert(here[k] == p);
                } else {
                    assert(here[here.len() - 1] == p);
                }
            }
            assert(cell(m, d) == m.grid[n - 1]);
        } else {
            assert(here == prev);
            assert forall|p: Point| (exists|r: int|
                0 <= r < n && m.grid[r] == 0 && p == decode(m, r)) implies #[trigger] here
                .contains(p) by {
                let r = choose|r: int| 0 <= r < n && m.grid[r] == 0 && p == decode(m, r);
                assert(0 <= r < n - 1 && m.grid[r] == 0 && p == decode(m, r));
            }
        }
    }
}

/// The volume after placing a sequence of pieces in order, each with its
/// symbol.
pub open spec fn place_seq(m: SpaceModel, pieces: Seq<Seq<Point>>, syms: Seq<u64>) -> SpaceModel
    decreases pieces.len(),
{
    if pieces.len() == 0 {
        m
    } else {
        place_seq(place_grid(m, pieces[0], syms[0]), pieces.drop_first(), syms.drop_first())
    }
}

/// Each piece of the sequence fits the volume as it stands when that
/// piece's turn comes: a sequence of successful placements with no
/// intervening undo.
pub open spec fn all_fit_in_turn(m: SpaceModel, pieces: Seq<Seq<Point>>, syms: Seq<u64>) -> bool
    decreases pieces.len(),
{
    if pieces.len() == 0 {
        true
    } else {
        &&& spec_fits(m, pieces[0])
        &&& all_fit_in_turn(place_grid(m, pieces[0], syms[0]), pieces.drop_first(), syms.drop_first())
    }
}

/// A piece overlapping any occupied cell does not fit.
pub proof fn lemma_fits_overlap(m: SpaceModel, pts: Seq<Point>, b: int)
    requires
        0 <= b < pts.len(),
        cell(m, pts[b]) != 0,
    ensures
        !spec_fits(m, pts),
{
}

/// No piece of a fit-in-turn sequence with non-zero symbols covers a cell
/// that was already occupied before the sequence began.
proof fn lemma_fit_in_turn_avoids_occupied(
    m: SpaceModel,
    pieces: Seq<Seq<Point>>,
    syms: Seq<u64>,
    q: Point,
)
    requires
        m.wf(),
        syms.len() == pieces.len(),
        forall|k: int| 0 <= k < syms.len() ==> syms[k] != 0,
        all_fit_in_turn(m, pieces, syms),
        in_bounds(m, q),
        cell(m, q) != 0,
    ensures
        forall|j: int, b: int|
            #![trigger pieces[j][b]]
            0 <= j < pieces.len() && 0 <= b < pieces[j].len() ==> pieces[j][b] != q,
    decreases pieces.len(),
{
    if pieces.len() > 0 {
        let m1 = place_grid(m, pieces[0], syms[0]);
        assert(m1.wf());
        lemma_sidx_decode(m, q);
        assert(cell(m1, q) != 0) by {
            if covered(m, pieces[0], sidx(m, q)) {
                assert(m1.grid[sidx(m, q)] == syms[0]);
            } else {
                assert(m1.grid[sidx(m, q)] == m.grid[sidx(m, q)]);
            }
        }
        lemma_fit_in_turn_avoids_occupied(m1, pieces.drop_first(), syms.drop_first(), q);
        assert forall|j: int, b: int|
            #![trigger pieces[j][b]]
            0 <= j < pieces.len() && 0 <= b < pieces[j].len() implies pieces[j][b] != q by {
            if j == 0 {
                if pieces[0][b] == q {
                    assert(spec_fits(m, pieces[0]));
                    assert(cell(m, pieces[0][b]) == 0);
                }
            } else {
                assert(pieces.drop_first()[j - 1] == pieces[j]);
            }
        }
    }
}

/// Occupancy exclusivity: after any sequence of successful placements
/// with non-zero symbols and no intervening undo, no two distinct
/// placements' point sets intersect.
pub proof fn lemma_occupancy_exclusivity(m: SpaceModel, pieces: Seq<Seq<Point>>, syms: Seq<u64>)
    requires
        m.wf(),
        syms.len() == pieces.len(),
        forall|k: int| 0 <= k < syms.len() ==> syms[k] != 0,
        all_fit_in_turn(m, pieces, syms),
    ensures
        forall|i: int, j: int, a: int, b: int|
            #![trigger pieces[i][a], pieces[j][b]]
            0 <= i < j < pieces.len() && 0 <= a < pieces[i].len() && 0 <= b < pieces[j].len()
                ==> pieces[i][a] != pieces[j][b],
    decreases pieces.len(),
{
    if pieces.len() > 0 {
        let m1 = place_grid(m, pieces[0], syms[0]);
        assert(m1.wf());
        lemma_occupancy_exclusivity(m1, pieces.drop_first(), syms.drop_first());
        assert forall|i: int, j: int, a: int, b: int|
            #![trigger pieces[i][a], pieces[j][b]]
            0 <= i < j < pieces.len() && 0 <= a < pieces[i].len() && 0 <= b < pieces[j].len()
                implies pieces[i][a] != pieces[j][b] by {
            if i == 0 {
                let q = pieces[0][a];
                assert(spec_fits(m, pieces[0]));
                assert(in_bounds(m, q) && cell(m, q) == 0);
                lemma_sidx_decode(m, q);
                assert(covered(m, pieces[0], sidx(m, q)));
                assert(cell(m1, q) == syms[0]);
                assert(in_bounds(m1, q));
                lemma_fit_in_turn_avoids_occupied(m1, pieces.drop_first(), syms.drop_first(), q);
                assert(pieces.drop_first()[j - 1] == pieces[j]);
            } else {
                assert(pieces.drop_first()[i - 1] == pieces[i]);
                assert(pieces.drop_first()[j - 1] == pieces[j]);
            }
        }
    }
}

} // verus!
