use polypack::geometry::Piece;
use polypack::geometry::Point;
use polypack::possibilities::Catalog;
use polypack::possibilities::CellCandidates;
use polypack::possibilities::PossibilityMap;
use polypack::possibilities::Shape;
use polypack::possibilities::full_candidate_set;
use polypack::search::SolveStatus;
use polypack::search::find_solution;
use polypack::search::solve;
use polypack::space::PuzzleError;
use polypack::space::Space;
use polypack::space::empty_positions;
use polypack::space::get;

fn rotate_x(p: (i64, i64, i64)) -> (i64, i64, i64) {
    (p.0, -p.2, p.1)
}

fn rotate_y(p: (i64, i64, i64)) -> (i64, i64, i64) {
    (p.2, p.1, -p.0)
}

fn rotate_z(p: (i64, i64, i64)) -> (i64, i64, i64) {
    (-p.1, p.0, p.2)
}

fn normalize(mut pts: Vec<(i64, i64, i64)>) -> Vec<(i64, i64, i64)> {
    let mx = pts.iter().map(|p| p.0).min().unwrap();
    let my = pts.iter().map(|p| p.1).min().unwrap();
    let mz = pts.iter().map(|p| p.2).min().unwrap();
    for p in pts.iter_mut() {
        *p = (p.0 - mx, p.1 - my, p.2 - mz);
    }
    pts.sort();
    pts
}

/// All distinct orientations of a shape under the 24 lattice rotations,
/// each normalized so its minimum corner sits at the origin.
fn rotations(shape: &[(i64, i64, i64)]) -> Vec<Piece> {
    let mut seen: Vec<Vec<(i64, i64, i64)>> = Vec::new();
    for a in 0..4 {
        for b in 0..4 {
            for c in 0..4 {
                let mut pts: Vec<(i64, i64, i64)> = shape.to_vec();
                for p in pts.iter_mut() {
                    for _ in 0..a {
                        *p = rotate_x(*p);
                    }
                    for _ in 0..b {
                        *p = rotate_y(*p);
                    }
                    for _ in 0..c {
                        *p = rotate_z(*p);
                    }
                }
                let norm = normalize(pts);
                if !seen.contains(&norm) {
                    seen.push(norm);
                }
            }
        }
    }
    seen.into_iter()
        .map(|pts| Piece { points: pts.into_iter().map(|(x, y, z)| Point(x, y, z)).collect() })
        .collect()
}

fn tromino_catalog() -> Catalog {
    let shape = [(0, 0, 0), (0, 0, 1), (0, 1, 1)];
    Catalog::new(vec![Shape { rotations: rotations(&shape) }]).unwrap()
}

fn y_pentacube_catalog() -> Catalog {
    let shape = [(0, 0, 0), (0, 0, 1), (0, 0, 2), (0, 0, 3), (0, 1, 2)];
    Catalog::new(vec![Shape { rotations: rotations(&shape) }]).unwrap()
}

#[test]
fn solve_packs_tromino_into_3x3x4() {
    let mut space = Space::new(3, 3, 4).unwrap();
    let cat = tromino_catalog();
    let mut counts = vec![12usize];
    let status = solve(&mut space, &cat, &mut counts, 500000).unwrap();
    assert_eq!(status, SolveStatus::Solved);
    assert_eq!(empty_positions(&space).len(), 0);
    for x in 0..3 {
        for y in 0..3 {
            for z in 0..4 {
                assert_ne!(get(&space, &Point(x, y, z)), 0);
            }
        }
    }
}

#[test]
fn solve_reports_budget_exceeded_on_tiny_budget() {
    let mut space = Space::new(5, 5, 5).unwrap();
    let before = space.clone();
    let cat = y_pentacube_catalog();
    let mut counts = vec![25usize];
    let status = solve(&mut space, &cat, &mut counts, 10).unwrap();
    assert_eq!(status, SolveStatus::BudgetExceeded);
    // No solution was found within the budget: everything is restored.
    assert_eq!(space, before);
    assert_eq!(counts, vec![25usize]);
}

#[test]
fn solve_fails_on_first_call_with_empty_catalog() {
    let mut space = Space::new(1, 1, 1).unwrap();
    assert_eq!(empty_positions(&space).len(), 1);
    let cat = Catalog::new(vec![]).unwrap();
    let mut counts: Vec<usize> = vec![];
    let status = solve(&mut space, &cat, &mut counts, 100).unwrap();
    assert_eq!(status, SolveStatus::Exhausted);
    assert_eq!(get(&space, &Point(0, 0, 0)), 0);
}

#[test]
fn solve_rejects_mismatched_counts() {
    let mut space = Space::new(2, 2, 2).unwrap();
    let cat = tromino_catalog();
    let mut counts = vec![4usize, 4usize];
    let r = solve(&mut space, &cat, &mut counts, 100);
    assert_eq!(r, Err(PuzzleError::CountMismatch));
}

#[test]
fn solve_uses_each_shape_at_most_its_count() {
    // A 1x1x3 bar, one unit-cube shape with count 1 and one domino shape
    // with count 1: the only packing uses both shapes fully.
    let cat = Catalog::new(vec![
        Shape { rotations: rotations(&[(0, 0, 0)]) },
        Shape { rotations: rotations(&[(0, 0, 0), (0, 0, 1)]) },
    ])
    .unwrap();
    let mut space = Space::new(1, 1, 3).unwrap();
    let mut counts = vec![1usize, 1usize];
    let status = solve(&mut space, &cat, &mut counts, 10000).unwrap();
    assert_eq!(status, SolveStatus::Solved);
    assert_eq!(empty_positions(&space).len(), 0);
    // The counts are consumed along the solution path.
    assert_eq!(counts, vec![0usize, 0usize]);
}

fn uniform_map(space: &Space, cat: &Catalog) -> PossibilityMap {
    let full = full_candidate_set(cat);
    let mut entries = Vec::new();
    for cell in empty_positions(space) {
        entries.push(CellCandidates { cell, cands: full.clone() });
    }
    PossibilityMap { entries }
}

#[test]
fn search_runs_are_deterministic() {
    let run = || {
        let mut space = Space::new(3, 3, 2).unwrap();
        let cat = tromino_catalog();
        let mut counts = vec![6usize];
        let parent = uniform_map(&space, &cat);
        let mut counter: u64 = 0;
        let found = find_solution(&mut space, &cat, &mut counts, &parent, &mut counter, 5000, 1);
        (found, counter, space.field.clone(), counts)
    };
    let first = run();
    let second = run();
    assert_eq!(first.0, second.0);
    assert_eq!(first.1, second.1);
    assert_eq!(first.2, second.2);
    assert_eq!(first.3, second.3);
}
