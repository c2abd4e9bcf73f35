//! The piece catalog and the per-cell possibility map: for every empty
//! cell, the candidate placements still valid under the current occupancy
//! and remaining piece counts. A node's map is derived by filtering its
//! parent's map, never recomputed from the whole catalog, and map
//! construction stops early at the first cell left with no candidates.
use vstd::prelude::*;

use crate::geometry::Piece;
use crate::geometry::Point;
use crate::geometry::shift_fits;
use crate::geometry::translate;
use crate::geometry::translated;
use crate::space::MAX_DIM;
use crate::space::PuzzleError;
use crate::space::Space;
use crate::space::SpaceModel;
use crate::space::empties;
use crate::space::empty_positions;
use crate::space::fits;
use crate::space::in_bounds;
use crate::space::lemma_empties_characterization;
use crate::space::spec_fits;

verus! {

/// Largest accepted magnitude of a catalog piece coordinate. Together
/// with `MAX_DIM` it keeps every translation far inside `i64`.
pub const COORD_LIMIT: i64 = 1048576;

/// A piece's point list is acceptable for the catalog: non-empty, with
/// every coordinate within `COORD_LIMIT` in magnitude.
pub open spec fn piece_ok(pts: Seq<Point>) -> bool {
    &&& pts.len() >= 1
    &&& forall|i: int|
        0 <= i < pts.len() ==> {
            let p = #[trigger] pts[i];
            &&& -COORD_LIMIT <= p.0 <= COORD_LIMIT
            &&& -COORD_LIMIT <= p.1 <= COORD_LIMIT
            &&& -COORD_LIMIT <= p.2 <= COORD_LIMIT
        }
}

/// One logical shape of the catalog: the rotation variants under which it
/// may be placed (each a concrete point list).
pub struct Shape {
    pub rotations: Vec<Piece>,
}

/// The catalog of available piece shapes, fixed for a whole search run.
/// The remaining count per shape is kept separately, one entry per shape.
pub struct Catalog {
    pub shapes: Vec<Shape>,
}

impl Catalog {
    /// Every rotation variant of every shape is an acceptable piece.
    pub open spec fn wf(&self) -> bool {
        forall|si: int, ri: int|
            0 <= si < self.shapes@.len() && 0 <= ri < self.shapes@[si].rotations@.len()
                ==> piece_ok((#[trigger] self.shapes@[si].rotations@[ri])@)
    }

    /// A catalog from the given shapes; rejects any shape with a rotation
    /// variant that has no points or a coordinate beyond `COORD_LIMIT`.
    pub fn new(shapes: Vec<Shape>) -> (r: Result<Catalog, PuzzleError>)
        ensures
            r matches Ok(c) ==> c.wf() && c.shapes == shapes,
            r is Err ==> !(Catalog { shapes }).wf(),
            r matches Err(e) ==> e == PuzzleError::BadPiece,
    {
        let mut si: usize = 0;
        while si < shapes.len()
            invariant
                forall|a: int, b: int|
                    0 <= a < si && 0 <= b < shapes@[a].rotations@.len() ==> piece_ok(
                        (#[trigger] shapes@[a].rotations@[b])@,
                    ),
            decreases shapes@.len() - si,
        {
            let mut ri: usize = 0;
            while ri < shapes[si].rotations.len()
                invariant
                    si < shapes@.len(),
                    forall|a: int, b: int|
                        0 <= a < si && 0 <= b < shapes@[a].rotations@.len() ==> piece_ok(
                            (#[trigger] shapes@[a].rotations@[b])@,
                        ),
                    forall|b: int|
                        0 <= b < ri ==> piece_ok((#[trigger] shapes@[si as int].rotations@[b])@),
                decreases shapes@[si as int].rotations@.len() - ri,
            {
                let piece = &shapes[si].rotations[ri];
                if piece.points.len() == 0 {
                    proof {
                        let pts = (shapes@[si as int].rotations@[ri as int])@;
                        assert(pts == piece@);
                        assert(!piece_ok(pts));
                        let c = Catalog { shapes };
                        assert((c.shapes@[si as int].rotations@[ri as int])@ == pts);
                        assert(!c.wf());
                    }
                    return Err(PuzzleError::BadPiece);
                }
                let mut pi: usize = 0;
                while pi < piece.points.len()
                    invariant
                        si < shapes@.len(),
                        ri < shapes@[si as int].rotations@.len(),
                        piece@ == (shapes@[si as int].rotations@[ri as int])@,
                        forall|k: int|
                            0 <= k < pi ==> {
                                let p = #[trigger] piece@[k];
                                &&& -COORD_LIMIT <= p.0 <= COORD_LIMIT
                                &&& -COORD_LIMIT <= p.1 <= COORD_LIMIT
                                &&& -COORD_LIMIT <= p.2 <= COORD_LIMIT
                            },
                    decreases piece@.len() - pi,
                {
                    let p = piece.points[pi];
                    if p.0 < -COORD_LIMIT || p.0 > COORD_LIMIT || p.1 < -COORD_LIMIT || p.1
                        > COORD_LIMIT || p.2 < -COORD_LIMIT || p.2 > COORD_LIMIT {
                        proof {
                            let pts = (shapes@[si as int].rotations@[ri as int])@;
                            assert(pts == piece@);
                            assert(pts[pi as int] == p);
                            assert(!piece_ok(pts));
                            let c = Catalog { shapes };
                            assert((c.shapes@[si as int].rotations@[ri as int])@ == pts);
                            assert(!c.wf());
                        }
                        return Err(PuzzleError::BadPiece);
                    }
                    pi += 1;
                }
                ri += 1;
            }
            si += 1;
        }
        Ok(Catalog { shapes })
    }
}

/// One way to instantiate a piece so that one of its cells lands on a
/// target cell: a shape of the catalog, one of its rotation variants, and
/// the index of the variant's point that is anchored at the target.
#[derive(Clone, Copy, PartialEq, Eq, Structural, Debug)]
pub struct Candidate {
    pub shape: usize,
    pub rot: usize,
    pub anchor: usize,
}

/// The candidate's indices all lie within the catalog.
pub open spec fn cand_wf(cat: Catalog, c: Candidate) -> bool {
    &&& (c.shape as int) < cat.shapes@.len()
    &&& (c.rot as int) < cat.shapes@[c.shape as int].rotations@.len()
    &&& (c.anchor as int) < cat.shapes@[c.shape as int].rotations@[c.rot as int]@.len()
}

/// The points covered by the candidate when its anchor point is placed at
/// `cell`.
pub open spec fn cand_pts(cat: Catalog, c: Candidate, cell: Point) -> Seq<Point> {
    let pts = cat.shapes@[c.shape as int].rotations@[c.rot as int]@;
    translated(pts, pts[c.anchor as int], cell)
}

/// The concrete translated piece a candidate stands for at the target
/// cell.
pub fn candidate_piece(cat: &Catalog, c: Candidate, cell: &Point) -> (r: Piece)
    requires
        cat.wf(),
        cand_wf(*cat, c),
        -MAX_DIM <= cell.0 <= MAX_DIM,
        -MAX_DIM <= cell.1 <= MAX_DIM,
        -MAX_DIM <= cell.2 <= MAX_DIM,
    ensures
        r@ == cand_pts(*cat, c, *cell),
{
    let piece = &cat.shapes[c.shape].rotations[c.rot];
    let pos = piece.points[c.anchor];
    proof {
        assert forall|i: int| 0 <= i < piece@.len() implies shift_fits(
            #[trigger] piece@[i],
            pos,
            *cell,
        ) by {
            assert(piece_ok(piece@));
        }
    }
    translate(piece, &pos, cell)
}

/// A candidate survives at `cell`: it is within the catalog, its shape
/// still has remaining count, and its translated piece fits the current
/// occupancy.
pub open spec fn cand_ok(
    m: SpaceModel,
    cat: Catalog,
    counts: Seq<usize>,
    cell: Point,
    c: Candidate,
) -> bool {
    &&& cand_wf(cat, c)
    &&& counts[c.shape as int] > 0
    &&& spec_fits(m, cand_pts(cat, c, cell))
}

/// The candidates of `cs` that survive at `cell`, in their given order.
pub open spec fn surviving(
    m: SpaceModel,
    cat: Catalog,
    counts: Seq<usize>,
    cell: Point,
    cs: Seq<Candidate>,
) -> Seq<Candidate>
    decreases cs.len(),
{
    if cs.len() == 0 {
        Seq::empty()
    } else {
        let prev = surviving(m, cat, counts, cell, cs.drop_last());
        if cand_ok(m, cat, counts, cell, cs.last()) {
            prev.push(cs.last())
        } else {
            prev
        }
    }
}

/// Every surviving candidate came from the filtered list and satisfies
/// the survival test; the surviving list is never longer than its source.
pub proof fn lemma_surviving_props(
    m: SpaceModel,
    cat: Catalog,
    counts: Seq<usize>,
    cell: Point,
    cs: Seq<Candidate>,
)
    ensures
        surviving(m, cat, counts, cell, cs).len() <= cs.len(),
        forall|k: int|
            0 <= k < surviving(m, cat, counts, cell, cs).len() ==> cand_ok(
                m,
                cat,
                counts,
                cell,
                #[trigger] surviving(m, cat, counts, cell, cs)[k],
            ) && cs.contains(surviving(m, cat, counts, cell, cs)[k]),
    decreases cs.len(),
{
    if cs.len() > 0 {
        lemma_surviving_props(m, cat, counts, cell, cs.drop_last());
        let prev = surviving(m, cat, counts, cell, cs.drop_last());
        assert forall|k: int| 0 <= k < prev.len() implies cs.contains(prev[k]) by {
            let j = choose|j: int| 0 <= j < cs.drop_last().len() && cs.drop_last()[j] == prev[k];
            assert(cs[j] == prev[k]);
        }
        assert(cs[cs.len() - 1] == cs.last());
    }
}

/// Keeps the candidates of `cs` that survive at `cell` under the current
/// occupancy and remaining counts.
pub fn filter_candidates(
    space: &Space,
    cat: &Catalog,
    counts: &Vec<usize>,
    cell: &Point,
    cs: &Vec<Candidate>,
) -> (r: Vec<Candidate>)
    requires
        space.wf(),
        cat.wf(),
        counts@.len() == cat.shapes@.len(),
        -MAX_DIM <= cell.0 <= MAX_DIM,
        -MAX_DIM <= cell.1 <= MAX_DIM,
        -MAX_DIM <= cell.2 <= MAX_DIM,
    ensures
        r@ == surviving(space@, *cat, counts@, *cell, cs@),
{
    let mut res: Vec<Candidate> = Vec::new();
    let n = cs.len();
    let mut i: usize = 0;
    while i < n
        invariant
            space.wf(),
            cat.wf(),
            counts@.len() == cat.shapes@.len(),
            -MAX_DIM <= cell.0 <= MAX_DIM,
            -MAX_DIM <= cell.1 <= MAX_DIM,
            -MAX_DIM <= cell.2 <= MAX_DIM,
            n == cs@.len(),
            i <= n,
            res@ == surviving(space@, *cat, counts@, *cell, cs@.take(i as int)),
        decreases n - i,
    {
        let c = cs[i];
        let keep = if c.shape < cat.shapes.len() {
            let shape = &cat.shapes[c.shape];
            if c.rot < shape.rotations.len() {
                if c.anchor < shape.rotations[c.rot].points.len() {
                    if counts[c.shape] > 0 {
                        let piece = candidate_piece(cat, c, cell);
                        fits(space, &piece)
                    } else {
                        false
                    }
                } else {
                    false
                }
            } else {
                false
            }
        } else {
            false
        };
        if keep {
            res.push(c);
        }
        proof {
            let pre = cs@.take(i as int);
            let cur = cs@.take(i + 1);
            assert(cur.drop_last() == pre);
            assert(cur.last() == cs@[i as int]);
            assert(keep == cand_ok(space@, *cat, counts@, *cell, cs@[i as int]));
        }
        i += 1;
    }
    proof {
        assert(cs@.take(n as int) == cs@);
    }
    res
}

/// A copy of a candidate list.
pub fn copy_candidates(v: &Vec<Candidate>) -> (r: Vec<Candidate>)
    ensures
        r@ == v@,
{
    let mut res: Vec<Candidate> = Vec::new();
    let mut i: usize = 0;
    while i < v.len()
        invariant
            i <= v@.len(),
            res@ == v@.take(i as int),
        decreases v@.len() - i,
    {
        res.push(v[i]);
        proof {
            assert(v@.take(i + 1) == v@.take(i as int).push(v@[i as int]));
        }
        i += 1;
    }
    proof {
        assert(v@.take(v@.len() as int) == v@);
    }
    res
}

/// One cell of the possibility map with its surviving candidates.
pub struct CellCandidates {
    pub cell: Point,
    pub cands: Vec<Candidate>,
}

/// The mathematical value of one possibility-map entry.
pub ghost struct EntryView {
    pub cell: Point,
    pub cands: Seq<Candidate>,
}

impl View for CellCandidates {
    type V = EntryView;

    open spec fn view(&self) -> EntryView {
        EntryView { cell: self.cell, cands: self.cands@ }
    }
}

/// The possibility map of one search node: for each empty cell, in raster
/// order, the candidate placements still valid there. Construction stops
/// at the first cell whose candidate set is empty, so the map either
/// covers every empty cell or ends with an empty entry that signals a
/// dead end.
pub struct PossibilityMap {
    pub entries: Vec<CellCandidates>,
}

/// The mathematical value of an entry list.
pub open spec fn entries_view(v: Seq<CellCandidates>) -> Seq<EntryView> {
    v.map_values(|e: CellCandidates| e@)
}

impl View for PossibilityMap {
    type V = Seq<EntryView>;

    open spec fn view(&self) -> Seq<EntryView> {
        entries_view(self.entries@)
    }
}

/// The candidate set that `m` records for cell `p`: the first entry for
/// `p`, or the empty set where there is none.
pub open spec fn lookup(m: Seq<EntryView>, p: Point) -> Seq<Candidate>
    decreases m.len(),
{
    if m.len() == 0 {
        Seq::empty()
    } else if m[0].cell == p {
        m[0].cands
    } else {
        lookup(m.drop_first(), p)
    }
}

/// The candidate set recorded for `p` in `m`, copied out; the empty list
/// where `m` has no entry for `p`.
pub fn lookup_candidates(m: &PossibilityMap, p: &Point) -> (r: Vec<Candidate>)
    ensures
        r@ == lookup(m@, *p),
{
    let n = m.entries.len();
    let mut i: usize = 0;
    proof {
        assert(m@.skip(0) =~= m@);
    }
    while i < n
        invariant
            n == m.entries@.len(),
            i <= n,
            lookup(m@, *p) == lookup(m@.skip(i as int), *p),
        decreases n - i,
    {
        proof {
            assert(m@.skip(i as int)[0] == m.entries@[i as int]@);
        }
        if m.entries[i].cell == *p {
            proof {
                assert(lookup(m@.skip(i as int), *p) == m.entries@[i as int]@.cands);
            }
            return copy_candidates(&m.entries[i].cands);
        }
        proof {
            assert(m@.skip(i as int).drop_first() =~= m@.skip(i + 1));
        }
        i += 1;
    }
    proof {
        assert(m@.skip(n as int) =~= Seq::<EntryView>::empty());
    }
    Vec::new()
}

/// The possibility map for the given cells, in order: each cell is mapped
/// to the survivors of the candidate set its parent recorded for it, and
/// construction stops right after the first cell left with no survivors.
pub open spec fn build_possibilities(
    m: SpaceModel,
    cat: Catalog,
    counts: Seq<usize>,
    parent: Seq<EntryView>,
    cells: Seq<Point>,
) -> Seq<EntryView>
    decreases cells.len(),
{
    if cells.len() == 0 {
        Seq::empty()
    } else {
        let cands = surviving(m, cat, counts, cells[0], lookup(parent, cells[0]));
        let e = EntryView { cell: cells[0], cands };
        if cands.len() == 0 {
            seq![e]
        } else {
            seq![e] + build_possibilities(m, cat, counts, parent, cells.drop_first())
        }
    }
}

/// Shape of a built possibility map: its entries follow the cell list in
/// order, each holds exactly the survivors of its parent set, every entry
/// but the last is non-empty, and the map stops short of the full cell
/// list only on an empty last entry. It is empty only for an empty cell
/// list.
pub proof fn lemma_build_shape(
    m: SpaceModel,
    cat: Catalog,
    counts: Seq<usize>,
    parent: Seq<EntryView>,
    cells: Seq<Point>,
)
    ensures
        build_possibilities(m, cat, counts, parent, cells).len() <= cells.len(),
        build_possibilities(m, cat, counts, parent, cells).len() == 0 <==> cells.len() == 0,
        forall|i: int|
            0 <= i < build_possibilities(m, cat, counts, parent, cells).len() ==> {
                let e = #[trigger] build_possibilities(m, cat, counts, parent, cells)[i];
                &&& e.cell == cells[i]
                &&& e.cands == surviving(m, cat, counts, cells[i], lookup(parent, cells[i]))
            },
        forall|i: int|
            0 <= i < build_possibilities(m, cat, counts, parent, cells).len() - 1 ==> (
            #[trigger] build_possibilities(m, cat, counts, parent, cells)[i]).cands.len() > 0,
        build_possibilities(m, cat, counts, parent, cells).len() < cells.len()
            ==> build_possibilities(m, cat, counts, parent, cells).last().cands.len() == 0,
    decreases cells.len(),
{
    if cells.len() > 0 {
        lemma_build_shape(m, cat, counts, parent, cells.drop_first());
        let cands = surviving(m, cat, counts, cells[0], lookup(parent, cells[0]));
        let e = EntryView { cell: cells[0], cands };
        if cands.len() != 0 {
            let rest = build_possibilities(m, cat, counts, parent, cells.drop_first());
            let whole = build_possibilities(m, cat, counts, parent, cells);
            assert(whole == seq![e] + rest);
            assert(whole[0] == e);
            assert forall|i: int| 1 <= i < whole.len() implies whole[i] == rest[i - 1] by {}
            assert forall|i: int| 1 <= i < whole.len() implies #[trigger] whole[i].cell
                == cells[i] && whole[i].cands == surviving(m,
                cat,
                counts,
                cells[i],
                lookup(parent, cells[i]),
            ) by {
                assert(whole[i] == rest[i - 1]);
                assert(cells.drop_first()[i - 1] == cells[i]);
            }
        }
    }
}

/// The possibility map for every currently empty cell, derived from the
/// parent node's map: each cell keeps the candidates of its parent entry
/// whose shape still has remaining count and whose translated piece still
/// fits, and enumeration stops at the first cell with no survivors.
pub fn get_possibilities(
    space: &Space,
    cat: &Catalog,
    counts: &Vec<usize>,
    last_poss: &PossibilityMap,
) -> (r: PossibilityMap)
    requires
        space.wf(),
        cat.wf(),
        counts@.len() == cat.shapes@.len(),
    ensures
        r@ == build_possibilities(space@, *cat, counts@, last_poss@, empties(space@)),
{
    let cells = empty_positions(space);
    proof {
        lemma_empties_characterization(space@);
        assert forall|i: int| 0 <= i < cells@.len() implies in_bounds(
            space@,
            #[trigger] cells@[i],
        ) by {
            assert(empties(space@).contains(cells@[i]));
        }
    }
    let ghost target = build_possibilities(space@, *cat, counts@, last_poss@, cells@);
    let mut entries: Vec<CellCandidates> = Vec::new();
    let n = cells.len();
    let mut i: usize = 0;
    proof {
        assert(cells@.skip(0) =~= cells@);
        assert(entries_view(entries@) + target =~= target);
    }
    loop
        invariant_except_break
            space.wf(),
            cat.wf(),
            counts@.len() == cat.shapes@.len(),
            n == cells@.len(),
            i <= n,
            forall|k: int| 0 <= k < n ==> in_bounds(space@, #[trigger] cells@[k]),
            target == build_possibilities(space@, *cat, counts@, last_poss@, cells@),
            entries_view(entries@) + build_possibilities(
                space@,
                *cat,
                counts@,
                last_poss@,
                cells@.skip(i as int),
            ) == target,
        ensures
            entries_view(entries@) == target,
        decreases n - i,
    {
        if i >= n {
            proof {
                assert(cells@.skip(i as int) =~= Seq::<Point>::empty());
                assert(entries_view(entries@) + Seq::<EntryView>::empty() =~= entries_view(
                    entries@,
                ));
            }
            break ;
        }
        let cell = cells[i];
        let parent_cands = lookup_candidates(last_poss, &cell);
        let surv = filter_candidates(space, cat, counts, &cell, &parent_cands);
        let is_empty = surv.len() == 0;
        let ghost pre = entries_view(entries@);
        entries.push(CellCandidates { cell, cands: surv });
        proof {
            let rest = cells@.skip(i as int);
            assert(rest[0] == cells@[i as int]);
            assert(rest.drop_first() =~= cells@.skip(i + 1));
            let cands = surviving(
                space@,
                *cat,
                counts@,
                cells@[i as int],
                lookup(last_poss@, cells@[i as int]),
            );
            let e = EntryView { cell: cells@[i as int], cands };
            assert(entries_view(entries@) =~= pre.push(e));
            if cands.len() == 0 {
                assert(build_possibilities(space@, *cat, counts@, last_poss@, rest)
                    =~= seq![e]);
                assert(pre.push(e) =~= pre + seq![e]);
            } else {
                assert(build_possibilities(space@, *cat, counts@, last_poss@, rest) == seq![e]
                    + build_possibilities(space@, *cat, counts@, last_poss@, cells@.skip(i + 1)));
                assert(pre + (seq![e] + build_possibilities(
                    space@,
                    *cat,
                    counts@,
                    last_poss@,
                    cells@.skip(i + 1),
                )) =~= pre.push(e) + build_possibilities(
                    space@,
                    *cat,
                    counts@,
                    last_poss@,
                    cells@.skip(i + 1),
                ));
            }
        }
        if is_empty {
            proof {
                assert(entries_view(entries@) == target);
            }
            break ;
        }
        i += 1;
    }
    PossibilityMap { entries }
}

/// The candidates anchoring each point of rotation `ri` of shape `si`,
/// in point order.
pub open spec fn rot_candidates(si: int, ri: int, npts: int) -> Seq<Candidate> {
    Seq::new(
        npts as nat,
        |a: int| Candidate { shape: si as usize, rot: ri as usize, anchor: a as usize },
    )
}

/// The candidates of the first `nrots` rotations of shape `si`, rotation
/// by rotation.
pub open spec fn shape_candidates(cat: Catalog, si: int, nrots: int) -> Seq<Candidate>
    decreases nrots,
{
    if nrots <= 0 {
        Seq::empty()
    } else {
        shape_candidates(cat, si, nrots - 1) + rot_candidates(
            si,
            nrots - 1,
            cat.shapes@[si].rotations@[nrots - 1]@.len() as int,
        )
    }
}

/// The candidates of the first `ns` shapes, shape by shape.
pub open spec fn all_candidates_up_to(cat: Catalog, ns: int) -> Seq<Candidate>
    decreases ns,
{
    if ns <= 0 {
        Seq::empty()
    } else {
        all_candidates_up_to(cat, ns - 1) + shape_candidates(
            cat,
            ns - 1,
            cat.shapes@[ns - 1].rotations@.len() as int,
        )
    }
}

/// Every way any catalog piece could be instantiated: all shapes, all
/// their rotations, all anchor points, in catalog order.
pub open spec fn all_candidates(cat: Catalog) -> Seq<Candidate> {
    all_candidates_up_to(cat, cat.shapes@.len() as int)
}

/// Enumerates every candidate of the catalog: for each shape, each
/// rotation variant, and each point of that variant as the anchor, in
/// catalog order. The root of a search filters this set per cell.
pub fn full_candidate_set(cat: &Catalog) -> (r: Vec<Candidate>)
    ensures
        r@ == all_candidates(*cat),
{
    let mut res: Vec<Candidate> = Vec::new();
    let ns = cat.shapes.len();
    let mut si: usize = 0;
    while si < ns
        invariant
            ns == cat.shapes@.len(),
            si <= ns,
            res@ == all_candidates_up_to(*cat, si as int),
        decreases ns - si,
    {
        let nrots = cat.shapes[si].rotations.len();
        let mut ri: usize = 0;
        while ri < nrots
            invariant
                ns == cat.shapes@.len(),
                si < ns,
                nrots == cat.shapes@[si as int].rotations@.len(),
                ri <= nrots,
                res@ == all_candidates_up_to(*cat, si as int) + shape_candidates(
                    *cat,
                    si as int,
                    ri as int,
                ),
            decreases nrots - ri,
        {
            let npts = cat.shapes[si].rotations[ri].points.len();
            let mut ai: usize = 0;
            while ai < npts
                invariant
                    ns == cat.shapes@.len(),
                    si < ns,
                    nrots == cat.shapes@[si as int].rotations@.len(),
                    ri < nrots,
                    npts == cat.shapes@[si as int].rotations@[ri as int]@.len(),
                    ai <= npts,
                    res@ == all_candidates_up_to(*cat, si as int) + shape_candidates(
                        *cat,
                        si as int,
                        ri as int,
                    ) + rot_candidates(si as int, ri as int, ai as int),
                decreases npts - ai,
            {
                res.push(Candidate { shape: si, rot: ri, anchor: ai });
                proof {
                    assert(rot_candidates(si as int, ri as int, ai + 1) =~= rot_candidates(
                        si as int,
                        ri as int,
                        ai as int,
                    ).push(Candidate { shape: si, rot: ri, anchor: ai }));
                }
                ai += 1;
            }
            proof {
                assert(shape_candidates(*cat, si as int, ri + 1) == shape_candidates(
                    *cat,
                    si as int,
                    ri as int,
                ) + rot_candidates(si as int, ri as int, npts as int));
                assert(all_candidates_up_to(*cat, si as int) + (shape_candidates(
                    *cat,
                    si as int,
                    ri as int,
                ) + rot_candidates(si as int, ri as int, npts as int)) =~= all_candidates_up_to(
                    *cat,
                    si as int,
                ) + shape_candidates(*cat, si as int, ri as int) + rot_candidates(
                    si as int,
                    ri as int,
                    npts as int,
                ));
            }
            ri += 1;
        }
        proof {
            if ri == 0 {
                assert(res@ =~= all_candidates_up_to(*cat, si as int) + shape_candidates(
                    *cat,
                    si as int,
                    0,
                ));
            }
            assert(all_candidates_up_to(*cat, si + 1) == all_candidates_up_to(*cat, si as int)
                + shape_candidates(*cat, si as int, nrots as int));
        }
        si += 1;
    }
    proof {
        if ns == 0 {
            assert(res@ =~= all_candidates_up_to(*cat, 0));
        }
    }
    res
}

/// Possibility monotonicity: a derived map only ever narrows. Every
/// candidate that a built map lists for a cell is already in the set its
/// parent records for that cell: placements remove feasibility, never
/// add it.
pub proof fn lemma_possibility_monotonicity(
    m: SpaceModel,
    cat: Catalog,
    counts: Seq<usize>,
    parent: Seq<EntryView>,
    cells: Seq<Point>,
)
    ensures
        forall|i: int, j: int|
            0 <= i < build_possibilities(m, cat, counts, parent, cells).len() && 0 <= j < (
            #[trigger] build_possibilities(m, cat, counts, parent, cells)[i]).cands.len()
                ==> lookup(
                parent,
                build_possibilities(m, cat, counts, parent, cells)[i].cell,
            ).contains(#[trigger] build_possibilities(m, cat, counts, parent, cells)[i].cands[j]),
{
    let built = build_possibilities(m, cat, counts, parent, cells);
    lemma_build_shape(m, cat, counts, parent, cells);
    assert forall|i: int, j: int|
        0 <= i < built.len() && 0 <= j < (#[trigger] built[i]).cands.len() implies lookup(
        parent,
        built[i].cell,
    ).contains(#[trigger] built[i].cands[j]) by {
        lemma_surviving_props(m, cat, counts, cells[i], lookup(parent, cells[i]));
    }
}

} // verus!
