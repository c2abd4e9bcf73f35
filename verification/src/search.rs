//! The backtracking search: at each node, recompute the possibility map
//! from the parent's, pick the empty cell with the fewest surviving
//! candidates (first in raster order among ties), try each candidate by
//! placing it and recursing, and undo on failure. A call counter bounds
//! the total number of nodes visited.
//!
//! The search's whole behaviour is pinned by `search_model`, a
//! mathematical function of the inputs: `find_solution` returns exactly
//! what the model says, which also makes the search deterministic.
use vstd::prelude::*;

use crate::possibilities::Catalog;
use crate::possibilities::CellCandidates;
use crate::possibilities::EntryView;
use crate::possibilities::PossibilityMap;
use crate::possibilities::build_possibilities;
use crate::possibilities::cand_ok;
use crate::possibilities::all_candidates;
use crate::possibilities::cand_pts;
use crate::possibilities::candidate_piece;
use crate::possibilities::copy_candidates;
use crate::possibilities::full_candidate_set;
use crate::possibilities::get_possibilities;
use crate::possibilities::lemma_build_shape;
use crate::possibilities::lemma_surviving_props;
use crate::possibilities::lookup;
use crate::space::PuzzleError;
use crate::space::Space;
use crate::space::SpaceModel;
use crate::space::empties;
use crate::space::empty_positions;
use crate::space::in_bounds;
use crate::space::lemma_empties_characterization;
use crate::space::lemma_place_unplace;
use crate::space::place;
use crate::space::place_grid;
use crate::space::spec_fits;

verus! {

/// The outcome of one search node: whether a solution was found, and the
/// volume, remaining counts and call counter as the node leaves them.
pub ghost struct NodeResult {
    pub found: bool,
    pub m: SpaceModel,
    pub counts: Seq<usize>,
    pub counter: int,
}

/// The counter after one more call, saturating at `u64::MAX`.
pub open spec fn sat_inc(c: int) -> int {
    if c < u64::MAX {
        c + 1
    } else {
        c
    }
}

/// The placement symbol of the next depth, saturating at `u64::MAX`.
pub open spec fn next_depth(d: u64) -> u64 {
    if d < u64::MAX {
        (d + 1) as u64
    } else {
        d
    }
}

/// One less, stopping at zero.
pub open spec fn dec1(u: usize) -> usize {
    if u > 0 {
        (u - 1) as usize
    } else {
        0
    }
}

/// One more, saturating at `usize::MAX`.
pub open spec fn inc1(u: usize) -> usize {
    if u < usize::MAX {
        (u + 1) as usize
    } else {
        u
    }
}

/// How many more calls the budget admits from counter value `c`.
pub open spec fn fuel(c: int, budget: u64) -> nat {
    if c <= budget {
        (budget + 1 - c) as nat
    } else {
        0
    }
}

/// The index of the entry with the fewest candidates among the first `n`,
/// the earliest among ties: the most-constrained-cell heuristic.
pub open spec fn best_upto(poss: Seq<EntryView>, n: int) -> int
    decreases n,
{
    if n <= 1 {
        0
    } else {
        let b = best_upto(poss, n - 1);
        if poss[n - 1].cands.len() < poss[b].cands.len() {
            n - 1
        } else {
            b
        }
    }
}

/// `best_upto` picks an index in range, with the fewest candidates among
/// the first `n` entries, and no earlier entry ties with it.
pub proof fn lemma_best_upto_range(poss: Seq<EntryView>, n: int)
    requires
        1 <= n,
    ensures
        0 <= best_upto(poss, n) < n,
        forall|j: int|
            0 <= j < n ==> poss[best_upto(poss, n)].cands.len() <= (#[trigger] poss[j]).cands.len(),
        forall|j: int|
            0 <= j < best_upto(poss, n) ==> (#[trigger] poss[j]).cands.len() > poss[best_upto(
                poss,
                n,
            )].cands.len(),
    decreases n,
{
    if n > 1 {
        lemma_best_upto_range(poss, n - 1);
    }
}

/// The search as a mathematical function of its inputs. One node: count
/// the call and abort on an exhausted budget; recompute the possibility
/// map over the empty cells; succeed when there are none; fail when the
/// chosen most-constrained cell has no candidates; otherwise try that
/// cell's candidates in order.
pub open spec fn search_model(
    cat: Catalog,
    budget: u64,
    m: SpaceModel,
    counts: Seq<usize>,
    parent: Seq<EntryView>,
    counter: int,
    depth: u64,
) -> NodeResult
    decreases fuel(sat_inc(counter), budget), 0int, 0int,
{
    let c1 = sat_inc(counter);
    if c1 > budget || c1 == u64::MAX {
        NodeResult { found: false, m, counts, counter: c1 }
    } else {
        let poss = build_possibilities(m, cat, counts, parent, empties(m));
        if poss.len() == 0 {
            NodeResult { found: true, m, counts, counter: c1 }
        } else {
            let k = best_upto(poss, poss.len() as int);
            if poss[k].cands.len() == 0 {
                NodeResult { found: false, m, counts, counter: c1 }
            } else {
                try_candidates(cat, budget, m, counts, poss, k, 0, c1, depth)
            }
        }
    }
}

/// Try the candidates of entry `k` from index `i` on: place one, recurse,
/// propagate success at once, or undo and move to the next; fail when all
/// are exhausted.
pub open spec fn try_candidates(
    cat: Catalog,
    budget: u64,
    m: SpaceModel,
    counts: Seq<usize>,
    poss: Seq<EntryView>,
    k: int,
    i: int,
    counter: int,
    depth: u64,
) -> NodeResult
    decreases
            fuel(sat_inc(counter), budget),
            1int,
            (if i < poss[k].cands.len() {
                poss[k].cands.len() - i
            } else {
                0
            }),
{
    if i < 0 || i >= poss[k].cands.len() {
        NodeResult { found: false, m, counts, counter }
    } else {
        let c = poss[k].cands[i];
        let pts = cand_pts(cat, c, poss[k].cell);
        let m1 = place_grid(m, pts, depth);
        let counts1 = counts.update(c.shape as int, dec1(counts[c.shape as int]));
        let child = search_model(cat, budget, m1, counts1, poss, counter, next_depth(depth));
        if child.found {
            child
        } else {
            let m2 = place_grid(child.m, pts, 0);
            let counts2 = child.counts.update(c.shape as int, inc1(child.counts[c.shape as int]));
            let t2 = if child.counter > counter {
                child.counter
            } else {
                sat_inc(counter)
            };
            try_candidates(cat, budget, m2, counts2, poss, k, i + 1, t2, depth)
        }
    }
}

/// What every node of the model guarantees: the counter advances; the
/// dimensions never change and stay well-formed; on failure the volume
/// and the remaining counts are restored exactly; on success no cell of
/// the returned volume is empty.
pub proof fn lemma_search_model_props(
    cat: Catalog,
    budget: u64,
    m: SpaceModel,
    counts: Seq<usize>,
    parent: Seq<EntryView>,
    counter: int,
    depth: u64,
)
    requires
        m.wf(),
        counts.len() == cat.shapes@.len(),
    ensures
        ({
            let r = search_model(cat, budget, m, counts, parent, counter, depth);
            &&& r.counter >= sat_inc(counter)
            &&& r.counter >= counter
            &&& r.m.wf()
            &&& r.m.x == m.x && r.m.y == m.y && r.m.z == m.z
            &&& r.counts.len() == counts.len()
            &&& (!r.found ==> r.m == m && r.counts == counts)
            &&& (r.found ==> empties(r.m).len() == 0)
        }),
    decreases fuel(sat_inc(counter), budget), 0int, 0int,
{
    let c1 = sat_inc(counter);
    if c1 > budget || c1 == u64::MAX {
    } else {
        let cells = empties(m);
        let poss = build_possibilities(m, cat, counts, parent, cells);
        lemma_build_shape(m, cat, counts, parent, cells);
        if poss.len() == 0 {
        } else {
            let k = best_upto(poss, poss.len() as int);
            lemma_best_upto_range(poss, poss.len() as int);
            if poss[k].cands.len() == 0 {
            } else {
                lemma_surviving_props(m, cat, counts, cells[k], lookup(parent, cells[k]));
                assert(poss[k].cell == cells[k]);
                assert(poss[k].cands == crate::possibilities::surviving(
                    m,
                    cat,
                    counts,
                    cells[k],
                    lookup(parent, cells[k]),
                ));
                lemma_try_candidates_props(cat, budget, m, counts, poss, k, 0, c1, depth);
            }
        }
    }
}

/// The same guarantees for the candidate loop, given that every candidate
/// still to try survives at the chosen cell under the current state.
pub proof fn lemma_try_candidates_props(
    cat: Catalog,
    budget: u64,
    m: SpaceModel,
    counts: Seq<usize>,
    poss: Seq<EntryView>,
    k: int,
    i: int,
    counter: int,
    depth: u64,
)
    requires
        m.wf(),
        counts.len() == cat.shapes@.len(),
        0 <= k < poss.len(),
        forall|j: int|
            i <= j < poss[k].cands.len() ==> cand_ok(
                m,
                cat,
                counts,
                poss[k].cell,
                #[trigger] poss[k].cands[j],
            ),
    ensures
        ({
            let r = try_candidates(cat, budget, m, counts, poss, k, i, counter, depth);
            &&& r.counter >= counter
            &&& r.m.wf()
            &&& r.m.x == m.x && r.m.y == m.y && r.m.z == m.z
            &&& r.counts.len() == counts.len()
            &&& (!r.found ==> r.m == m && r.counts == counts)
            &&& (r.found ==> empties(r.m).len() == 0)
        }),
    decreases
            fuel(sat_inc(counter), budget),
            1int,
            (if i < poss[k].cands.len() {
                poss[k].cands.len() - i
            } else {
                0
            }),
{
    if i < 0 || i >= poss[k].cands.len() {
    } else {
        let c = poss[k].cands[i];
        assert(cand_ok(m, cat, counts, poss[k].cell, c));
        let pts = cand_pts(cat, c, poss[k].cell);
        let m1 = place_grid(m, pts, depth);
        assert(m1.wf());
        let counts1 = counts.update(c.shape as int, dec1(counts[c.shape as int]));
        lemma_search_model_props(cat, budget, m1, counts1, poss, counter, next_depth(depth));
        let child = search_model(cat, budget, m1, counts1, poss, counter, next_depth(depth));
        if child.found {
        } else {
            assert(child.m == m1 && child.counts == counts1);
            let m2 = place_grid(child.m, pts, 0);
            lemma_place_unplace(m, pts, depth);
            assert(m2 == m);
            let counts2 = child.counts.update(c.shape as int, inc1(child.counts[c.shape as int]));
            assert(counts[c.shape as int] > 0);
            assert(counts1[c.shape as int] == counts[c.shape as int] - 1);
            assert(inc1(counts1[c.shape as int]) == counts[c.shape as int]);
            assert(counts2 =~= counts);
            let t2 = if child.counter > counter {
                child.counter
            } else {
                sat_inc(counter)
            };
            lemma_try_candidates_props(cat, budget, m2, counts2, poss, k, i + 1, t2, depth);
        }
    }
}

/// The entry of the map with the fewest candidates, earliest in raster
/// order among ties.
pub fn best_entry(poss: &PossibilityMap) -> (k: usize)
    requires
        poss.entries@.len() > 0,
    ensures
        0 <= k < poss@.len(),
        k as int == best_upto(poss@, poss@.len() as int),
{
    let n = poss.entries.len();
    let mut b: usize = 0;
    let mut j: usize = 1;
    while j < n
        invariant
            n == poss@.len(),
            1 <= j <= n,
            b < j,
            b as int == best_upto(poss@, j as int),
        decreases n - j,
    {
        proof {
            assert(poss@[j as int] == poss.entries@[j as int]@);
            assert(poss@[b as int] == poss.entries@[b as int]@);
        }
        if poss.entries[j].cands.len() < poss.entries[b].cands.len() {
            b = j;
        }
        j += 1;
    }
    b
}

/// One node of the backtracking search, exactly as `search_model` says:
/// count the call and give up past the budget; recompute the possibility
/// map from the parent's; succeed when no cell is empty; otherwise try
/// every surviving candidate of the most-constrained cell, undoing each
/// failed placement. On failure the volume and counts are left exactly
/// as they were; on success the volume holds the solution.
pub fn find_solution(
    space: &mut Space,
    cat: &Catalog,
    counts: &mut Vec<usize>,
    last_poss: &PossibilityMap,
    counter: &mut u64,
    budget: u64,
    depth: u64,
) -> (found: bool)
    requires
        old(space).wf(),
        cat.wf(),
        old(counts)@.len() == cat.shapes@.len(),
        budget < u64::MAX,
        1 <= depth,
    ensures
        final(space).wf(),
        ({
            let r = search_model(
                *cat,
                budget,
                old(space)@,
                old(counts)@,
                last_poss@,
                *old(counter) as int,
                depth,
            );
            &&& found == r.found
            &&& final(space)@ == r.m
            &&& final(counts)@ == r.counts
            &&& *final(counter) as int == r.counter
        }),
        !found ==> final(space)@ == old(space)@ && final(counts)@ == old(counts)@,
        found ==> empties(final(space)@).len() == 0,
        *final(counter) > *old(counter) || *old(counter) == u64::MAX,
    decreases fuel(sat_inc(*old(counter) as int), budget), 0int, 0int,
{
    let ghost c0 = *counter as int;
    let ghost m0 = space@;
    let ghost counts0 = counts@;
    let ghost r = search_model(*cat, budget, m0, counts0, last_poss@, c0, depth);
    proof {
        lemma_search_model_props(*cat, budget, m0, counts0, last_poss@, c0, depth);
    }
    if *counter < u64::MAX {
        *counter = *counter + 1;
    }
    let ghost c1 = sat_inc(c0);
    proof {
        assert(*counter as int == c1);
    }
    if *counter > budget {
        proof {
            assert(r == NodeResult { found: false, m: m0, counts: counts0, counter: c1 });
        }
        return false;
    }
    let poss = get_possibilities(space, cat, counts, last_poss);
    let ghost cells = empties(m0);
    proof {
        lemma_build_shape(m0, *cat, counts0, last_poss@, cells);
    }
    if poss.entries.len() == 0 {
        proof {
            assert(poss@.len() == 0);
            assert(r == NodeResult { found: true, m: m0, counts: counts0, counter: c1 });
        }
        return true;
    }
    let k = best_entry(&poss);
    let ghost kk = k as int;
    let ncands = poss.entries[k].cands.len();
    proof {
        assert(poss@[kk] == poss.entries@[kk]@);
        assert(ncands == poss@[kk].cands.len());
    }
    if ncands == 0 {
        proof {
            assert(r == NodeResult { found: false, m: m0, counts: counts0, counter: c1 });
        }
        return false;
    }
    let cell0 = poss.entries[k].cell;
    proof {
        assert(cell0 == poss@[kk].cell);
        assert(poss@[kk].cell == cells[kk]);
        lemma_empties_characterization(m0);
        assert(empties(m0).contains(cells[kk]));
        assert(in_bounds(m0, cell0));
        lemma_surviving_props(m0, *cat, counts0, cells[kk], lookup(last_poss@, cells[kk]));
        assert(r == try_candidates(*cat, budget, m0, counts0, poss@, kk, 0, c1, depth));
    }
    let mut i: usize = 0;
    while i < ncands
        invariant
            space.wf(),
            cat.wf(),
            budget < u64::MAX,
            1 <= depth,
            m0.wf(),
            m0 == old(space)@,
            counts0 == old(counts)@,
            c0 == *old(counter) as int,
            space@ == m0,
            counts@ == counts0,
            counts@.len() == cat.shapes@.len(),
            i <= ncands,
            0 <= kk < poss@.len(),
            kk == k as int,
            ncands == poss@[kk].cands.len(),
            cell0 == poss@[kk].cell,
            in_bounds(m0, cell0),
            forall|j: int|
                0 <= j < ncands ==> cand_ok(
                    m0,
                    *cat,
                    counts0,
                    cell0,
                    #[trigger] poss@[kk].cands[j],
                ),
            *counter as int >= c1,
            c1 == sat_inc(c0),
            c1 <= budget,
            c1 < u64::MAX,
            r == try_candidates(*cat, budget, m0, counts0, poss@, kk, i as int, *counter as int, depth),
            r == search_model(*cat, budget, m0, counts0, last_poss@, c0, depth),
        decreases ncands - i,
    {
        let cand = poss.entries[k].cands[i];
        proof {
            assert(poss@[kk] == poss.entries@[kk]@);
            assert(cand == poss@[kk].cands[i as int]);
            assert(cand_ok(m0, *cat, counts0, cell0, cand));
        }
        let ghost pts = cand_pts(*cat, cand, cell0);
        let piece = candidate_piece(cat, cand, &cell0);
        proof {
            assert(piece@ == pts);
            assert(spec_fits(m0, pts));
        }
        place(space, &piece, depth);
        let cnt = counts[cand.shape];
        counts[cand.shape] = cnt - 1;
        let ghost m1 = place_grid(m0, pts, depth);
        let ghost counts1 = counts0.update(cand.shape as int, dec1(counts0[cand.shape as int]));
        proof {
            assert(space@ == m1);
            assert(cnt == counts0[cand.shape as int]);
            assert(dec1(counts0[cand.shape as int]) == cnt - 1);
            assert(counts@ == counts1);
            lemma_search_model_props(
                *cat,
                budget,
                m1,
                counts1,
                poss@,
                *counter as int,
                next_depth(depth),
            );
        }
        let ghost t_before = *counter as int;
        let ghost child = search_model(
            *cat,
            budget,
            m1,
            counts1,
            poss@,
            t_before,
            next_depth(depth),
        );
        let child_depth = if depth < u64::MAX {
            depth + 1
        } else {
            depth
        };
        proof {
            assert(child_depth == next_depth(depth));
            if t_before < u64::MAX {
                assert(sat_inc(t_before) == t_before + 1);
                assert(sat_inc(t_before) >= c1 + 1);
            } else {
                assert(sat_inc(t_before) > budget);
            }
            assert(fuel(sat_inc(t_before), budget) < fuel(c1, budget));
        }
        let found = find_solution(space, cat, counts, &poss, counter, budget, child_depth);
        proof {
            assert(found == child.found);
            assert(space@ == child.m);
            assert(counts@ == child.counts);
            assert(*counter as int == child.counter);
            assert(try_candidates(*cat, budget, m0, counts0, poss@, kk, i as int, t_before, depth)
                == (if child.found {
                child
            } else {
                try_candidates(
                    *cat,
                    budget,
                    place_grid(child.m, pts, 0),
                    child.counts.update(
                        cand.shape as int,
                        inc1(child.counts[cand.shape as int]),
                    ),
                    poss@,
                    kk,
                    i + 1,
                    (if child.counter > t_before {
                        child.counter
                    } else {
                        sat_inc(t_before)
                    }),
                    depth,
                )
            }));
        }
        if found {
            proof {
                assert(r == child);
            }
            return true;
        }
        place(space, &piece, 0);
        let cnt2 = counts[cand.shape];
        counts[cand.shape] = cnt2 + 1;
        proof {
            assert(child.m == m1 && child.counts == counts1);
            lemma_place_unplace(m0, pts, depth);
            assert(space@ == m0);
            assert(cnt2 == counts1[cand.shape as int]);
            assert(inc1(counts1[cand.shape as int]) == cnt2 + 1);
            assert(counts@ =~= counts0);
            assert(child.counts.update(cand.shape as int, inc1(child.counts[cand.shape as int]))
                =~= counts0);
            assert(child.counter >= sat_inc(t_before));
            let t2 = if child.counter > t_before {
                child.counter
            } else {
                sat_inc(t_before)
            };
            assert(t2 == child.counter);
            assert(r == try_candidates(
                *cat,
                budget,
                m0,
                counts0,
                poss@,
                kk,
                i + 1,
                *counter as int,
                depth,
            ));
        }
        i += 1;
    }
    proof {
        assert(r == NodeResult {
            found: false,
            m: m0,
            counts: counts0,
            counter: *counter as int,
        });
    }
    false
}

/// The parent map a search starts from: every empty cell of the volume,
/// in raster order, mapped to the full candidate set of the catalog.
pub open spec fn root_map(m: SpaceModel, cat: Catalog) -> Seq<EntryView> {
    Seq::new(
        empties(m).len(),
        |i: int| EntryView { cell: empties(m)[i], cands: all_candidates(cat) },
    )
}

/// Determinism: the search's outcome is a mathematical function of its
/// inputs. Two runs given identical volume, catalog, remaining counts,
/// parent map, counter, budget and depth return identical results: the
/// same found flag, final volume, final counts and call counter.
pub proof fn lemma_search_deterministic(
    cat: Catalog,
    budget: u64,
    m: SpaceModel,
    counts: Seq<usize>,
    parent: Seq<EntryView>,
    counter: int,
    depth: u64,
    r1: NodeResult,
    r2: NodeResult,
)
    requires
        r1 == search_model(cat, budget, m, counts, parent, counter, depth),
        r2 == search_model(cat, budget, m, counts, parent, counter, depth),
    ensures
        r1 == r2,
{
}

/// How a whole search run ended.
#[derive(Clone, Copy, PartialEq, Eq, Structural, Debug)]
pub enum SolveStatus {
    /// A solution was found; the volume holds it, with no empty cell.
    Solved,
    /// Every branch was explored within the budget and none led to a
    /// solution: the puzzle has no solution for this catalog.
    Exhausted,
    /// The call budget ran out before the space of branches was
    /// exhausted: no solution was found, but none is ruled out.
    BudgetExceeded,
}

/// Runs the whole search: builds the root possibility map (every empty
/// cell mapped to the full candidate set), then explores from counter
/// zero with depth symbol one. On success the volume holds the solution
/// and no cell is empty; otherwise volume and counts are restored, and
/// the status says whether exploration was exhausted or the budget ran
/// out first. Rejects a remaining-count list that does not have one
/// entry per catalog shape.
pub fn solve(
    space: &mut Space,
    cat: &Catalog,
    counts: &mut Vec<usize>,
    budget: u64,
) -> (r: Result<SolveStatus, PuzzleError>)
    requires
        old(space).wf(),
        cat.wf(),
        budget < u64::MAX,
    ensures
        final(space).wf(),
        r is Err <==> old(counts)@.len() != cat.shapes@.len(),
        r matches Err(e) ==> e == PuzzleError::CountMismatch && final(space)@ == old(space)@
            && final(counts)@ == old(counts)@,
        ({
            let res = search_model(
                *cat,
                budget,
                old(space)@,
                old(counts)@,
                root_map(old(space)@, *cat),
                0,
                1,
            );
            r is Ok ==> {
                &&& final(space)@ == res.m
                &&& final(counts)@ == res.counts
                &&& (r == Ok::<SolveStatus, PuzzleError>(SolveStatus::Solved) <==> res.found)
                &&& (res.found ==> empties(final(space)@).len() == 0)
                &&& (!res.found ==> final(space)@ == old(space)@ && final(counts)@ == old(
                    counts,
                )@)
                &&& (r == Ok::<SolveStatus, PuzzleError>(SolveStatus::BudgetExceeded) <==> !res.found
                    && res.counter > budget)
                &&& (r == Ok::<SolveStatus, PuzzleError>(SolveStatus::Exhausted) <==> !res.found
                    && res.counter <= budget)
            }
        }),
{
    if counts.len() != cat.shapes.len() {
        return Err(PuzzleError::CountMismatch);
    }
    let ghost m0 = space@;
    let ghost counts0 = counts@;
    let cells = empty_positions(space);
    let full = full_candidate_set(cat);
    let mut entries: Vec<CellCandidates> = Vec::new();
    let n = cells.len();
    let mut i: usize = 0;
    while i < n
        invariant
            n == cells@.len(),
            i <= n,
            full@ == all_candidates(*cat),
            entries@.len() == i,
            forall|j: int|
                0 <= j < i ==> (#[trigger] entries@[j]).cell == cells@[j] && entries@[j].cands@
                    == all_candidates(*cat),
        decreases n - i,
    {
        let cell = cells[i];
        let cands = copy_candidates(&full);
        entries.push(CellCandidates { cell, cands });
        i += 1;
    }
    let parent = PossibilityMap { entries };
    proof {
        assert forall|j: int| 0 <= j < n implies parent@[j] == root_map(m0, *cat)[j] by {
            assert(parent@[j] == parent.entries@[j]@);
        }
        assert(parent@ =~= root_map(m0, *cat));
    }
    let mut counter: u64 = 0;
    let found = find_solution(space, cat, counts, &parent, &mut counter, budget, 1);
    let ghost res = search_model(*cat, budget, m0, counts0, root_map(m0, *cat), 0, 1);
    proof {
        lemma_search_model_props(*cat, budget, m0, counts0, root_map(m0, *cat), 0, 1);
        assert(found == res.found);
        assert(space@ == res.m);
        assert(counts@ == res.counts);
        assert(counter as int == res.counter);
    }
    if found {
        Ok(SolveStatus::Solved)
    } else if counter > budget {
        Ok(SolveStatus::BudgetExceeded)
    } else {
        Ok(SolveStatus::Exhausted)
    }
}

} // verus!
