use cubirds::bird::Bird;
use cubirds::counts::BirdCounts;
use cubirds::line::Line;
use cubirds::partial_cards::PartialCards;
use cubirds::player::Player;
use cubirds::state::CubirdsState;

fn birds(tags: &str) -> Vec<Bird> {
    Bird::from_string(tags).unwrap()
}

fn counted(tags: &str) -> BirdCounts {
    BirdCounts::from_birds(&birds(tags))
}

fn table() -> CubirdsState {
    let mut state = CubirdsState::new();
    state.players.push(Player::new());
    state.players.push(Player::new());
    state.set_birds(0, &birds("PPWWTFRM"));
    state.players[0].collection.add(Bird::OWL, 1);
    state.players[1].collection.add(Bird::DUCK, 1);
    state.board[0] = Line(birds("PWT"));
    state.board[1] = Line(birds("FRM"));
    state.board[2] = Line(birds("ODP"));
    state.board[3] = Line(birds("WRM"));
    state
}

#[test]
fn new_state_is_empty() {
    let state = CubirdsState::new();
    assert!(state.players.is_empty());
    assert!(state.discard_pile.is_empty());
    assert_eq!(state.player_idx, 0);
    assert_eq!(state.total_discarded, 0);
    assert_eq!(state.turn, 0);
    for line in &state.board {
        assert!(line.0.is_empty());
    }
    assert!(state.is_wf());
}

#[test]
fn new_player_has_eight_unknown_cards() {
    let player = Player::new();
    assert!(player.collection.is_empty());
    assert!(player.cards.known_cards.is_empty());
    assert_eq!(player.cards.total_cards, 8);
}

#[test]
fn all_cards_are_available_in_an_empty_game() {
    let available = CubirdsState::new().all_available_cards();
    assert_eq!(available.get(Bird::PARROT), 13);
    assert_eq!(available.get(Bird::WARBLER), 20);
    assert_eq!(available.get(Bird::TOUCAN), 10);
    assert_eq!(available.get(Bird::FLAMINGO), 7);
    assert_eq!(available.get(Bird::ROBIN), 20);
    assert_eq!(available.get(Bird::MAGPIE), 17);
    assert_eq!(available.get(Bird::OWL), 10);
    assert_eq!(available.get(Bird::DUCK), 13);
}

#[test]
fn available_cards_leave_out_what_is_placed() {
    let mut state = table();
    state.discard_pile.push(PartialCards::batch(Some(Bird::ROBIN), 2));
    state.discard_pile.push(PartialCards::batch(None, 3));
    let available = state.all_available_cards();
    assert_eq!(available.get(Bird::PARROT), 13 - 2 - 2);
    assert_eq!(available.get(Bird::WARBLER), 20 - 2 - 2);
    assert_eq!(available.get(Bird::TOUCAN), 10 - 1 - 1);
    assert_eq!(available.get(Bird::FLAMINGO), 7 - 1 - 1);
    assert_eq!(available.get(Bird::ROBIN), 20 - 1 - 2 - 2);
    assert_eq!(available.get(Bird::MAGPIE), 17 - 1 - 2);
    assert_eq!(available.get(Bird::OWL), 10 - 1 - 1);
    assert_eq!(available.get(Bird::DUCK), 13 - 1 - 1);
}

#[test]
fn available_above_tells_when_too_many_cards_are_placed() {
    let mut state = table();
    assert!(state.available_above(0).is_some());
    state.board[0] = Line(birds("FFFFFF"));
    assert!(state.available_above(0).is_none());
    let available = state.available_above(-1).unwrap();
    assert_eq!(available.get(Bird::FLAMINGO), -1);
    assert_eq!(state.all_available_cards().get(Bird::FLAMINGO), -1);
}

#[test]
fn play_without_capture_moves_the_cards_to_the_line() {
    let mut state = table();
    state.play(0, Bird::PARROT, 2, 1, true, None);
    assert_eq!(state.board[1].0, birds("PPFRM"));
    assert_eq!(state.players[0].cards.total_cards, 6);
    assert!(state.players[0].cards.known_cards.same(&counted("WWTFRM")));
    assert!(state.players[0].cards.blacklisted_cards.contains(Bird::PARROT));
    assert_eq!(state.board[0].0, birds("PWT"));
    assert_eq!(state.players[1].cards.total_cards, 8);
}

#[test]
fn play_with_capture_takes_the_cards_and_lays_new_ones() {
    let mut state = table();
    state.players[0].cards.blacklisted_cards.insert(Bird::DUCK);
    state.play(0, Bird::PARROT, 2, 2, true, Some((birds("RW"), false)));
    assert_eq!(state.board[2].0, birds("PPPRW"));
    assert_eq!(state.players[0].cards.total_cards, 8);
    assert!(state.players[0].cards.known_cards.same(&counted("WWTFRMOD")));
    assert!(state.players[0].cards.blacklisted_cards.contains(Bird::PARROT));
    assert!(!state.players[0].cards.blacklisted_cards.contains(Bird::DUCK));
}

#[test]
fn play_lays_new_cards_on_the_left_in_their_order() {
    let mut state = table();
    state.play(0, Bird::MAGPIE, 1, 3, true, Some((birds("TF"), true)));
    assert_eq!(state.board[3].0, birds("TFMM"));
    assert!(state.players[0].cards.known_cards.same(&counted("PPWWTFRWR")));
    assert_eq!(state.players[0].cards.total_cards, 9);
}

#[test]
fn play_without_capture_ignores_the_new_cards() {
    let mut state = table();
    state.play(1, Bird::DUCK, 3, 0, false, Some((birds("TF"), true)));
    assert_eq!(state.board[0].0, birds("PWTDDD"));
    assert_eq!(state.players[1].cards.total_cards, 5);
    assert!(state.players[1].cards.blacklisted_cards.contains(Bird::DUCK));
}

#[test]
fn draw_of_unknown_cards_clears_the_blacklist() {
    let mut state = table();
    state.players[1].cards.blacklisted_cards.insert(Bird::OWL);
    state.draw(1, None);
    assert_eq!(state.players[1].cards.total_cards, 10);
    assert!(!state.players[1].cards.blacklisted_cards.contains(Bird::OWL));
    assert!(state.players[1].cards.known_cards.is_empty());
}

#[test]
fn draw_of_known_cards_adds_them() {
    let mut state = table();
    state.draw(0, Some((Bird::OWL, Bird::OWL)));
    assert_eq!(state.players[0].cards.total_cards, 10);
    assert!(state.players[0].cards.known_cards.same(&counted("PPWWTFRMOO")));
    state.draw(0, Some((Bird::PARROT, Bird::DUCK)));
    assert!(state.players[0].cards.known_cards.same(&counted("PPPWWTFRMOOD")));
}

#[test]
fn fly_of_a_small_flock() {
    let mut state = table();
    state.fly(1, Bird::TOUCAN, 5, true);
    assert_eq!(state.players[1].cards.total_cards, 5);
    assert!(state.players[1].cards.blacklisted_cards.contains(Bird::TOUCAN));
    assert_eq!(state.players[1].collection.get(Bird::TOUCAN), 1);
    assert_eq!(state.players[1].collection.get(Bird::DUCK), 1);
    assert_eq!(state.discard_pile.len(), 1);
    assert_eq!(state.discard_pile[0].total_cards, 2);
    assert!(state.discard_pile[0].known_cards.same(&counted("TT")));
}

#[test]
fn fly_of_a_large_flock() {
    let mut state = table();
    state.set_birds(0, &birds("DDDDDDW"));
    state.fly(0, Bird::DUCK, 1, false);
    assert_eq!(state.players[0].cards.total_cards, 1);
    assert!(state.players[0].cards.known_cards.same(&counted("W")));
    assert_eq!(state.players[0].collection.get(Bird::DUCK), 2);
    assert_eq!(state.discard_pile[0].total_cards, 4);
    assert!(state.discard_pile[0].known_cards.same(&counted("DDDD")));
}

#[test]
fn reset_discards_every_hand_in_batches() {
    let mut state = table();
    state.set_birds(0, &birds("OPP"));
    state.players[0].cards.total_cards = 5;
    state.discard_pile.push(PartialCards::batch(Some(Bird::ROBIN), 2));
    state.reset();
    let pile = &state.discard_pile;
    assert_eq!(pile.len(), 5);
    assert!(pile[0].known_cards.same(&counted("RR")));
    assert_eq!(pile[1].total_cards, 2);
    assert!(pile[1].known_cards.same(&counted("PP")));
    assert_eq!(pile[2].total_cards, 1);
    assert!(pile[2].known_cards.same(&counted("O")));
    assert_eq!(pile[3].total_cards, 2);
    assert!(pile[3].known_cards.is_empty());
    assert_eq!(pile[4].total_cards, 8);
    assert!(pile[4].known_cards.is_empty());
    for player in &state.players {
        assert_eq!(player.cards.total_cards, 8);
        assert!(player.cards.known_cards.is_empty());
    }
    assert_eq!(state.players[0].collection.get(Bird::OWL), 1);
    assert_eq!(state.board[0].0, birds("PWT"));
}

#[test]
fn set_birds_fixes_the_hand() {
    let mut state = table();
    state.players[1].cards.blacklisted_cards.insert(Bird::OWL);
    state.set_birds(1, &birds("OOM"));
    assert_eq!(state.players[1].cards.total_cards, 3);
    assert!(state.players[1].cards.known_cards.same(&counted("OOM")));
    assert!(!state.players[1].cards.blacklisted_cards.contains(Bird::OWL));
    assert!(state.is_wf());
}

#[test]
fn state_with_a_negative_count_is_not_well_formed() {
    let mut state = table();
    assert!(state.is_wf());
    state.players[1].collection.set(Bird::OWL, -1);
    assert!(!state.is_wf());
    let mut state = table();
    state.discard_pile.push(PartialCards::batch(Some(Bird::OWL), -1));
    assert!(!state.is_wf());
}
