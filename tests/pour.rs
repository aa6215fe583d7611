use water_sort::Color::{Blue, Green, Orange, Red, Yellow};
use water_sort::{Glass, GlassError, Pour, PourError, State, CAPACITY};

fn board(glasses: Vec<Vec<water_sort::Color>>) -> State {
    State {
        glasses: glasses.into_iter().map(Glass::from).collect(),
        ..Default::default()
    }
}

fn contents(state: &State) -> Vec<Vec<water_sort::Color>> {
    state.glasses.iter().map(|g| g.content.clone()).collect()
}

#[test]
fn empty_glass_is_complete() {
    assert!(Glass::default().complete());
    assert!(Glass::from(vec![]).complete());
}

#[test]
fn full_uniform_glass_is_complete() {
    assert!(Glass::from(vec![Red; CAPACITY]).complete());
}

#[test]
fn full_mixed_glass_is_not_complete() {
    assert!(!Glass::from(vec![Red, Red, Red, Blue]).complete());
    assert!(!Glass::from(vec![Blue, Red, Red, Red]).complete());
}

#[test]
fn partial_uniform_glass_is_not_complete() {
    assert!(!Glass::from(vec![Red, Red, Red]).complete());
    assert!(!Glass::from(vec![Green]).complete());
}

#[test]
fn fullness_and_emptiness() {
    let g = Glass::from(vec![Red, Blue, Red, Blue]);
    assert!(g.is_full());
    assert!(!g.is_empty());
    let e = Glass::default();
    assert!(!e.is_full());
    assert!(e.is_empty());
    let p = Glass::from(vec![Red, Blue]);
    assert!(!p.is_full());
    assert!(!p.is_empty());
}

#[test]
fn top_is_the_last_unit() {
    assert_eq!(Glass::from(vec![Red, Blue]).top(), Some(Blue));
    assert_eq!(Glass::default().top(), None);
}

#[test]
fn pop_from_empty_glass_fails() {
    let mut g = Glass::default();
    assert_eq!(g.pop_top(), Err(GlassError::EmptyContainer));
    assert!(g.is_empty());
}

#[test]
fn pop_takes_the_top() {
    let mut g = Glass::from(vec![Red, Blue]);
    assert_eq!(g.pop_top(), Ok(Blue));
    assert_eq!(g.content, vec![Red]);
}

#[test]
fn push_onto_full_glass_fails() {
    let mut g = Glass::from(vec![Red; 4]);
    assert_eq!(g.push(Blue), Err(GlassError::OverCapacity));
    assert_eq!(g.content, vec![Red; 4]);
}

#[test]
fn push_puts_on_top() {
    let mut g = Glass::from(vec![Red]);
    assert_eq!(g.push(Blue), Ok(()));
    assert_eq!(g.content, vec![Red, Blue]);
}

#[test]
fn all_empty_board_is_solved() {
    assert!(board(vec![vec![], vec![], vec![]]).solved());
    assert!(State::default().solved());
}

#[test]
fn board_with_partial_glass_is_not_solved() {
    assert!(!board(vec![vec![Red; 4], vec![Blue, Blue], vec![Blue, Blue]]).solved());
}

#[test]
fn pour_with_bad_index_is_refused() {
    let s = board(vec![vec![Red], vec![]]);
    assert_eq!(s.step(&Pour { from: 2, to: 1 }).err(), Some(PourError::InvalidIndex));
    assert_eq!(s.step(&Pour { from: 0, to: 5 }).err(), Some(PourError::InvalidIndex));
}

#[test]
fn pour_onto_other_colour_is_refused() {
    let s = board(vec![vec![Red, Blue], vec![Green, Red]]);
    assert_eq!(s.step(&Pour { from: 0, to: 1 }).err(), Some(PourError::ColorMismatch));
    assert_eq!(contents(&s), vec![vec![Red, Blue], vec![Green, Red]]);
    assert!(s.steps.is_empty());
    assert!(!s.is_legal(&Pour { from: 0, to: 1 }));
}

#[test]
fn pour_from_empty_onto_non_empty_is_a_mismatch() {
    let s = board(vec![vec![], vec![Red]]);
    assert_eq!(s.step(&Pour { from: 0, to: 1 }).err(), Some(PourError::ColorMismatch));
}

#[test]
fn pour_into_full_glass_is_refused() {
    let s = board(vec![vec![Red], vec![Red; 4]]);
    assert_eq!(s.step(&Pour { from: 0, to: 1 }).err(), Some(PourError::DestinationFull));
}

#[test]
fn pour_from_empty_glass_is_refused() {
    let s = board(vec![vec![], vec![]]);
    assert_eq!(s.step(&Pour { from: 0, to: 1 }).err(), Some(PourError::SourceEmpty));
}

#[test]
fn pour_moves_the_whole_top_run() {
    let s = board(vec![vec![Red, Blue, Blue], vec![]]);
    let next = s.step(&Pour { from: 0, to: 1 }).unwrap();
    assert_eq!(contents(&next), vec![vec![Red], vec![Blue, Blue]]);
    assert_eq!(next.steps, vec![Pour { from: 0, to: 1 }]);
    assert_eq!(contents(&s), vec![vec![Red, Blue, Blue], vec![]]);
}

#[test]
fn pour_stops_at_colour_change() {
    let s = board(vec![vec![Blue, Red, Blue], vec![Blue]]);
    let next = s.step(&Pour { from: 0, to: 1 }).unwrap();
    assert_eq!(contents(&next), vec![vec![Blue, Red], vec![Blue, Blue]]);
}

#[test]
fn pour_stops_when_destination_fills() {
    let s = board(vec![vec![Blue, Blue, Blue], vec![Yellow, Blue]]);
    let next = s.step(&Pour { from: 0, to: 1 }).unwrap();
    assert_eq!(contents(&next), vec![vec![Blue], vec![Yellow, Blue, Blue, Blue]]);
}

#[test]
fn pour_empties_a_uniform_source() {
    let s = board(vec![vec![Green, Green], vec![Green], vec![]]);
    let next = s.step(&Pour { from: 0, to: 1 }).unwrap();
    assert_eq!(contents(&next), vec![vec![], vec![Green, Green, Green], vec![]]);
}

#[test]
fn legal_moves_are_ordered_and_legal() {
    let s = board(vec![vec![Blue, Red], vec![Red], vec![], vec![Green; 4]]);
    let moves = s.legal_moves();
    assert_eq!(
        moves,
        vec![
            Pour { from: 0, to: 1 },
            Pour { from: 0, to: 2 },
            Pour { from: 1, to: 0 },
            Pour { from: 1, to: 2 },
            Pour { from: 3, to: 2 },
        ]
    );
    for p in &moves {
        assert_ne!(p.from, p.to);
        assert!(s.is_legal(p));
    }
}

#[test]
fn legal_moves_of_two_twin_glasses() {
    let s = board(vec![vec![Blue, Blue], vec![Blue, Blue]]);
    assert_eq!(s.legal_moves(), vec![Pour { from: 0, to: 1 }, Pour { from: 1, to: 0 }]);
}

#[test]
fn solved_board_gives_its_own_history() {
    let s = board(vec![vec![Red; 4], vec![]]);
    assert_eq!(s.solution(), vec![]);
    let mut t = board(vec![vec![Red; 4], vec![]]);
    t.steps.push(Pour { from: 1, to: 0 });
    assert_eq!(t.solution(), vec![Pour { from: 1, to: 0 }]);
}

#[test]
fn stuck_board_has_no_solution() {
    let s = board(vec![vec![Blue, Red, Blue, Red], vec![Red, Blue, Red, Blue]]);
    assert!(s.legal_moves().is_empty());
    assert_eq!(s.solution(), vec![]);
}

#[test]
fn found_solution_replays_to_a_solved_board() {
    let layout = vec![
        vec![Orange, Blue, Green, Blue],
        vec![Green, Orange, Red, Blue],
        vec![Green, Yellow, Green, Red],
        vec![Red, Orange, Orange, Red],
        vec![Yellow, Yellow, Yellow, Blue],
        vec![],
    ];
    let start = board(layout.clone());
    assert!(!start.solved());
    let path = start.solution();
    assert!(!path.is_empty());
    let mut s = board(layout);
    for p in &path {
        s = s.step(p).unwrap();
    }
    assert!(s.solved());
    assert_eq!(s.steps, path);
}
