use cubirds::bird::Bird;
use cubirds::evaluator::{evaluate_once, internal_evaluate_state, Playout};
use cubirds::line::Line;
use cubirds::materialized_state::{FlockMove, LineMove, SimplifiableMove};
use cubirds::player::Player;
use cubirds::ranking::is_higher;
use cubirds::state::CubirdsState;
use cubirds::tally::{Score, Tally};
use rand::rngs::StdRng;
use rand::SeedableRng;

fn name(text: &str) -> String {
    String::from(text)
}

fn tally(entries: &[(&str, i32, i32)]) -> Tally {
    let mut tally = Tally::new();
    for (key, wins, total) in entries {
        tally.add(name(key), *wins, *total);
    }
    tally
}

fn line_move(bird: Bird, line: usize, left: bool, draw: bool) -> LineMove {
    LineMove { line, bird, left, draw }
}

#[test]
fn line_moves_have_their_canonical_names() {
    assert_eq!(line_move(Bird::PARROT, 0, true, true).simplified(), "P0LD");
    assert_eq!(line_move(Bird::OWL, 3, false, false).simplified(), "O3RP");
    assert_eq!(line_move(Bird::DUCK, 2, true, false).simplified(), "D2LP");
    assert_eq!(line_move(Bird::DUCK, 1207, false, true).simplified(), "D1207RD");
    assert_eq!(line_move(Bird::WARBLER, 10, false, true).simplified(), "W10RD");
}

#[test]
fn flock_moves_have_their_canonical_names() {
    assert_eq!(FlockMove { bird: Some(Bird::FLAMINGO) }.simplified(), "F");
    assert_eq!(FlockMove { bird: Some(Bird::ROBIN) }.simplified(), "R");
    assert_eq!(FlockMove { bird: None }.simplified(), "_");
}

#[test]
fn canonical_names_do_not_collide() {
    let mut names = Vec::new();
    for i in 0..8 {
        let bird = Bird::from_ordinal(i).unwrap();
        for line in 0..4 {
            for left in [true, false] {
                for draw in [true, false] {
                    names.push(line_move(bird, line, left, draw).simplified());
                }
            }
        }
    }
    assert_eq!(names.len(), 128);
    names.sort();
    names.dedup();
    assert_eq!(names.len(), 128);
    let mut flocks = vec![FlockMove { bird: None }.simplified()];
    for i in 0..8 {
        flocks.push(FlockMove { bird: Bird::from_ordinal(i) }.simplified());
    }
    flocks.sort();
    flocks.dedup();
    assert_eq!(flocks.len(), 9);
}

#[test]
fn a_new_tally_records_nothing() {
    let tally = Tally::new();
    assert!(tally.scores.is_empty());
    assert_eq!(tally.get(&name("P0LD")), (0, 0));
    assert_eq!(tally.evaluated(), 0);
}

#[test]
fn record_counts_wins_and_playouts() {
    let mut tally = Tally::new();
    tally.record(Some((line_move(Bird::PARROT, 0, true, true), true)));
    tally.record(Some((line_move(Bird::PARROT, 0, true, true), false)));
    tally.record(Some((line_move(Bird::OWL, 1, false, false), false)));
    tally.record(Some((line_move(Bird::PARROT, 0, true, true), true)));
    assert_eq!(tally.get(&name("P0LD")), (2, 3));
    assert_eq!(tally.get(&name("O1RP")), (0, 1));
    assert_eq!(tally.get(&name("O1LP")), (0, 0));
    assert_eq!(tally.scores.len(), 2);
    assert_eq!(tally.evaluated(), 4);
}

#[test]
fn a_playout_that_was_given_up_is_not_recorded() {
    let mut tally = Tally::new();
    tally.record(Some((FlockMove { bird: None }, true)));
    tally.record::<FlockMove>(None);
    tally.record::<LineMove>(None);
    assert_eq!(tally.scores.len(), 1);
    assert_eq!(tally.get(&name("_")), (1, 1));
    assert_eq!(tally.evaluated(), 1);
    let mut empty = Tally::new();
    empty.record::<FlockMove>(None);
    assert!(empty.scores.is_empty());
}

#[test]
fn merge_adds_wins_and_playouts_of_every_move() {
    let mut merged = tally(&[("P0LD", 2, 5), ("O1RP", 0, 1)]);
    merged.merge(&tally(&[("O1RP", 3, 4), ("D2LP", 1, 1)]));
    assert_eq!(merged.get(&name("P0LD")), (2, 5));
    assert_eq!(merged.get(&name("O1RP")), (3, 5));
    assert_eq!(merged.get(&name("D2LP")), (1, 1));
    assert_eq!(merged.scores.len(), 3);
    merged.merge(&Tally::new());
    assert_eq!(merged.scores.len(), 3);
    assert_eq!(merged.evaluated(), 11);
}

#[test]
fn merge_all_sums_over_the_workers() {
    let workers = vec![
        tally(&[("P0LD", 2, 5), ("O1RP", 0, 1)]),
        tally(&[("O1RP", 3, 4), ("D2LP", 1, 1)]),
        Tally::new(),
        tally(&[("P0LD", 1, 1), ("O1RP", 1, 2), ("W3RD", 0, 7)]),
    ];
    let merged = Tally::merge_all(&workers);
    assert_eq!(merged.get(&name("P0LD")), (3, 6));
    assert_eq!(merged.get(&name("O1RP")), (4, 7));
    assert_eq!(merged.get(&name("D2LP")), (1, 1));
    assert_eq!(merged.get(&name("W3RD")), (0, 7));
    assert_eq!(merged.scores.len(), 4);
    assert_eq!(merged.evaluated(), 21);
    assert!(Tally::merge_all(&Vec::new()).scores.is_empty());
}

#[test]
fn fits_tells_when_a_counter_would_overflow() {
    let large = tally(&[("P0LD", 0, i32::MAX - 1)]);
    assert!(large.fits(&tally(&[("P0LD", 1, 1), ("O1RP", 0, i32::MAX)])));
    assert!(!large.fits(&tally(&[("P0LD", 1, 2)])));
    assert!(large.fits(&Tally::new()));
}

#[test]
fn is_higher_compares_the_rates_of_wins() {
    let score = |wins, total| Score { name: name("x"), wins, total };
    assert!(is_higher(&score(1, 2), &score(1, 3)));
    assert!(!is_higher(&score(1, 3), &score(1, 2)));
    assert!(!is_higher(&score(2, 4), &score(1, 2)));
    assert!(is_higher(&score(1, 1), &score(999_999, 1_000_000)));
    assert!(!is_higher(&score(0, 5), &score(0, 1)));
}

#[test]
fn ranking_puts_the_highest_rate_first() {
    let tally = tally(&[("a", 1, 4), ("b", 3, 4), ("c", 0, 9), ("d", 5, 5), ("e", 2, 4)]);
    let order = tally.ranking();
    let names: Vec<&str> = order.iter().map(|i| tally.scores[*i].name.as_str()).collect();
    assert_eq!(names, vec!["d", "b", "e", "a", "c"]);
    assert!(Tally::new().ranking().is_empty());
}

#[test]
fn ranking_lists_every_entry_once() {
    let tally = tally(&[("a", 1, 2), ("b", 2, 4), ("c", 3, 6), ("d", 0, 1)]);
    let mut order = tally.ranking();
    assert_eq!(order[3], 3);
    order.sort();
    assert_eq!(order, vec![0, 1, 2, 3]);
}

fn table() -> CubirdsState {
    let mut state = CubirdsState::new();
    state.players.push(Player::new());
    state.players.push(Player::new());
    state.set_birds(0, &Bird::from_string("FFFWWTRM").unwrap());
    state.board[0] = Line(Bird::from_string("PWT").unwrap());
    state.board[1] = Line(Bird::from_string("FRM").unwrap());
    state.board[2] = Line(Bird::from_string("ODP").unwrap());
    state.board[3] = Line(Bird::from_string("WRM").unwrap());
    state
}

#[test]
fn playable_states_need_cards_in_the_hands() {
    let mut state = table();
    assert!(state.can_play_lines());
    assert!(state.can_play_flocks());
    state.players[0].cards.total_cards = 0;
    assert!(!state.can_play_lines());
    assert!(state.can_play_flocks());
    state.players[1].cards.total_cards = 0;
    assert!(!state.can_play_flocks());
    let mut state = table();
    state.turn = 2;
    assert!(!state.can_play_lines());
    assert!(!state.can_play_flocks());
    assert!(!CubirdsState::new().can_play_flocks());
}

#[test]
fn evaluate_once_records_at_most_one_playout() {
    let state = table();
    let mut rng = StdRng::seed_from_u64(31);
    let mut tally = Tally::new();
    for round in 1..=60 {
        assert!(!matches!(
            evaluate_once(&state, false, &mut tally, &mut rng),
            Playout::Unsampled
        ));
        assert!(tally.evaluated() <= round);
    }
    assert!(tally.evaluated() > 0);
    for score in &tally.scores {
        assert!(0 <= score.wins && score.wins <= score.total);
        let tag = score.name.chars().next().unwrap();
        assert!("FWTRM".contains(tag));
        assert_eq!(score.name.len(), 4);
    }
}

#[test]
fn evaluate_once_records_flock_choices() {
    let state = table();
    let mut rng = StdRng::seed_from_u64(32);
    let mut tally = Tally::new();
    for _ in 0..60 {
        assert!(!matches!(
            evaluate_once(&state, true, &mut tally, &mut rng),
            Playout::Unsampled
        ));
    }
    assert!(tally.evaluated() > 0);
    for score in &tally.scores {
        assert!(score.name == "F" || score.name == "_");
    }
}

#[test]
fn evaluate_once_reports_a_state_that_cannot_be_sampled() {
    let mut state = table();
    state.board[0] = Line(Bird::from_string("FFFFFFF").unwrap());
    let mut rng = StdRng::seed_from_u64(32);
    let mut tally = Tally::new();
    assert!(matches!(
        evaluate_once(&state, false, &mut tally, &mut rng),
        Playout::Unsampled
    ));
    assert!(tally.scores.is_empty());
}

#[test]
fn internal_evaluate_state_refuses_books_that_cannot_be_balanced() {
    let mut rng = StdRng::seed_from_u64(32);
    let mut state = table();
    state.board[0] = Line(Bird::from_string("FFFFFFF").unwrap());
    assert!(internal_evaluate_state(&state, false, &mut rng).is_none());
    assert!(internal_evaluate_state(&state, true, &mut rng).is_none());
    let mut state = table();
    state.players[1].collection.set(Bird::OWL, -1);
    assert!(internal_evaluate_state(&state, false, &mut rng).is_none());
}

#[test]
fn evaluate_once_records_the_outcome_it_tells() {
    let state = table();
    let mut rng = StdRng::seed_from_u64(77);
    let mut tally = Tally::new();
    let mut finished = 0;
    for _ in 0..60 {
        let before = tally.clone();
        match evaluate_once(&state, false, &mut tally, &mut rng) {
            Playout::Unsampled => panic!("the state can be sampled"),
            Playout::GivenUp => {
                assert_eq!(tally.scores.len(), before.scores.len());
                assert_eq!(tally.evaluated(), before.evaluated());
            },
            Playout::Finished { name, won } => {
                let (wins, total) = before.get(&name);
                assert_eq!(tally.get(&name), (wins + if won { 1 } else { 0 }, total + 1));
                assert_eq!(tally.evaluated(), before.evaluated() + 1);
                let line = name[1..2].parse::<usize>().unwrap();
                assert!(line < 4);
                finished += 1;
            },
        }
        for score in &before.scores {
            let (wins, total) = tally.get(&score.name);
            assert!(total == score.total || total == score.total + 1);
            assert!(wins >= score.wins);
        }
    }
    assert_eq!(tally.evaluated(), finished);
}

#[test]
fn evaluated_adds_the_playouts_of_all_moves() {
    assert_eq!(tally(&[("a", 1, 4), ("b", 3, 4), ("c", 0, 9)]).evaluated(), 17);
    assert_eq!(tally(&[("a", 0, 1)]).evaluated(), 1);
}
