use polypack::geometry::Piece;
use polypack::geometry::Point;
use polypack::possibilities::Candidate;
use polypack::possibilities::Catalog;
use polypack::possibilities::CellCandidates;
use polypack::possibilities::PossibilityMap;
use polypack::possibilities::Shape;
use polypack::possibilities::full_candidate_set;
use polypack::possibilities::get_possibilities;
use polypack::space::PuzzleError;
use polypack::space::Space;
use polypack::space::place;

fn unit_catalog() -> Catalog {
    let unit = Piece { points: vec![Point(0, 0, 0)] };
    Catalog::new(vec![Shape { rotations: vec![unit] }]).unwrap()
}

fn uniform_map(space: &Space, cat: &Catalog) -> PossibilityMap {
    let full = full_candidate_set(cat);
    let mut entries = Vec::new();
    for cell in polypack::space::empty_positions(space) {
        entries.push(CellCandidates { cell, cands: full.clone() });
    }
    PossibilityMap { entries }
}

#[test]
fn catalog_new_rejects_piece_without_points() {
    let r = Catalog::new(vec![Shape { rotations: vec![Piece { points: vec![] }] }]);
    assert_eq!(r.err(), Some(PuzzleError::BadPiece));
}

#[test]
fn catalog_new_rejects_oversized_coordinate() {
    let far = Piece { points: vec![Point(0, 0, 2000000)] };
    let r = Catalog::new(vec![Shape { rotations: vec![far] }]);
    assert_eq!(r.err(), Some(PuzzleError::BadPiece));
}

#[test]
fn full_candidate_set_enumerates_in_catalog_order() {
    let two = Piece { points: vec![Point(0, 0, 0), Point(0, 0, 1)] };
    let three = Piece { points: vec![Point(0, 0, 0), Point(0, 1, 0), Point(1, 0, 0)] };
    let cat = Catalog::new(vec![Shape { rotations: vec![two, three] }]).unwrap();
    let full = full_candidate_set(&cat);
    assert_eq!(
        full,
        vec![
            Candidate { shape: 0, rot: 0, anchor: 0 },
            Candidate { shape: 0, rot: 0, anchor: 1 },
            Candidate { shape: 0, rot: 1, anchor: 0 },
            Candidate { shape: 0, rot: 1, anchor: 1 },
            Candidate { shape: 0, rot: 1, anchor: 2 },
        ]
    );
}

#[test]
fn get_possibilities_keeps_only_fitting_candidates() {
    let mut space = Space::new(1, 1, 2).unwrap();
    let cat = unit_catalog();
    let counts = vec![2usize];
    let parent = uniform_map(&space, &cat);
    let poss = get_possibilities(&space, &cat, &counts, &parent);
    assert_eq!(poss.entries.len(), 2);
    assert_eq!(poss.entries[0].cell, Point(0, 0, 0));
    assert_eq!(poss.entries[0].cands.len(), 1);
    assert_eq!(poss.entries[1].cell, Point(0, 0, 1));
    assert_eq!(poss.entries[1].cands.len(), 1);
    // Occupy one cell: its entry disappears, the other survives.
    let unit = Piece { points: vec![Point(0, 0, 0)] };
    place(&mut space, &unit, 1);
    let narrowed = get_possibilities(&space, &cat, &counts, &poss);
    assert_eq!(narrowed.entries.len(), 1);
    assert_eq!(narrowed.entries[0].cell, Point(0, 0, 1));
    // The surviving set is a subset of the parent's set for that cell.
    for cand in &narrowed.entries[0].cands {
        assert!(poss.entries[1].cands.contains(cand));
    }
}

#[test]
fn get_possibilities_stops_at_first_empty_candidate_set() {
    let space = Space::new(1, 1, 3).unwrap();
    let cat = unit_catalog();
    // No remaining pieces: the first cell already has no candidates, so
    // enumeration must stop after that one entry.
    let counts = vec![0usize];
    let parent = uniform_map(&space, &cat);
    let poss = get_possibilities(&space, &cat, &counts, &parent);
    assert_eq!(poss.entries.len(), 1);
    assert_eq!(poss.entries[0].cell, Point(0, 0, 0));
    assert_eq!(poss.entries[0].cands.len(), 0);
}

#[test]
fn get_possibilities_gates_on_remaining_count() {
    let space = Space::new(1, 1, 1).unwrap();
    let cat = unit_catalog();
    let parent = uniform_map(&space, &cat);
    let with_count = get_possibilities(&space, &cat, &vec![1usize], &parent);
    assert_eq!(with_count.entries[0].cands.len(), 1);
    let without = get_possibilities(&space, &cat, &vec![0usize], &parent);
    assert_eq!(without.entries[0].cands.len(), 0);
}
