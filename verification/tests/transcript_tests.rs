use cubirds::bird::Bird;
use cubirds::counts::BirdCounts;
use cubirds::line::Line;
use cubirds::partial_cards::PartialCards;
use cubirds::player::Player;
use cubirds::state::CubirdsState;

fn birds(tags: &str) -> Vec<Bird> {
    Bird::from_string(tags).unwrap()
}

fn counted(tags: &str) -> BirdCounts {
    BirdCounts::from_birds(&birds(tags))
}

fn table() -> CubirdsState {
    let mut state = CubirdsState::new();
    state.players.push(Player::new());
    state.players.push(Player::new());
    state.set_birds(0, &birds("PPWWTFRM"));
    state.board[0] = Line(birds("PWT"));
    state.board[1] = Line(birds("FRM"));
    state.board[2] = Line(birds("ODP"));
    state.board[3] = Line(birds("WRM"));
    state
}

#[test]
fn captures_tells_what_a_play_would_do() {
    let state = table();
    assert!(state.captures(Bird::PARROT, 2, 2, true));
    assert!(!state.captures(Bird::PARROT, 2, 2, false));
    assert!(!state.captures(Bird::PARROT, 2, 1, true));
    assert!(state.captures(Bird::MAGPIE, 1, 3, true));
    assert!(state.captures(Bird::WARBLER, 5, 3, false));
    assert_eq!(state.board[2].0, birds("ODP"));
}

#[test]
fn can_play_needs_a_player_and_a_line() {
    let state = table();
    assert!(state.can_play(0, Bird::PARROT, 2, 2, true));
    assert!(state.can_play(1, Bird::PARROT, 2, 3, false));
    assert!(!state.can_play(2, Bird::PARROT, 2, 2, true));
    assert!(!state.can_play(0, Bird::PARROT, 2, 4, true));
    assert!(state.can_play(0, Bird::PARROT, -2, 0, true));
}

#[test]
fn can_play_keeps_the_counters_in_range() {
    let mut state = table();
    assert!(!state.can_play(0, Bird::PARROT, i32::MAX, 2, true));
    state.players[0].cards.total_cards = i32::MIN + 1;
    assert!(state.can_play(0, Bird::PARROT, 1, 1, true));
    assert!(!state.can_play(0, Bird::PARROT, 2, 1, true));
    state.players[0].cards.total_cards = i32::MAX;
    assert!(state.can_play(0, Bird::PARROT, 2, 2, true));
    assert!(!state.can_play(0, Bird::PARROT, 1, 2, true));
    state.players[0].cards.total_cards = 8;
    state.players[0].cards.known_cards.set(Bird::OWL, i32::MAX);
    assert!(!state.can_play(0, Bird::PARROT, 2, 2, true));
    assert!(state.can_play(0, Bird::PARROT, 2, 1, true));
}

#[test]
fn can_draw_fly_and_reset_keep_the_counters_in_range() {
    let mut state = table();
    assert!(state.can_draw(0, None));
    assert!(state.can_draw(1, Some((Bird::OWL, Bird::OWL))));
    assert!(!state.can_draw(2, None));
    assert!(state.can_fly(0, Bird::OWL, 5));
    assert!(!state.can_fly(2, Bird::OWL, 5));
    assert!(!state.can_fly(0, Bird::OWL, i32::MIN));
    assert!(state.can_reset());
    state.players[1].cards.total_cards = i32::MAX - 1;
    assert!(!state.can_draw(1, None));
    state.players[1].cards.total_cards = i32::MAX;
    state.players[1].cards.known_cards.set(Bird::OWL, -1);
    assert!(!state.can_reset());
    state.players[1].collection.set(Bird::OWL, i32::MAX - 1);
    assert!(!state.can_fly(1, Bird::OWL, i32::MAX - 3));
    assert!(state.can_fly(1, Bird::DUCK, i32::MAX - 3));
}

#[test]
fn draw_seen_adds_the_cards_to_the_known_ones() {
    let mut state = table();
    state.players[0].cards.blacklisted_cards.insert(Bird::OWL);
    assert!(state.can_draw_seen(0, &birds("OD")));
    state.draw_seen(0, &birds("OD"));
    assert_eq!(state.players[0].cards.total_cards, 10);
    assert!(state.players[0].cards.known_cards.same(&counted("PPWWTFRMOD")));
    assert!(state.players[0].cards.blacklisted_cards.contains(Bird::OWL));
    assert!(!state.can_draw_seen(2, &birds("OD")));
    state.players[0].cards.total_cards = i32::MAX - 1;
    assert!(!state.can_draw_seen(0, &birds("OD")));
    assert!(state.can_draw_seen(0, &birds("O")));
}

#[test]
fn discarded_total_adds_the_batches() {
    let mut state = table();
    assert_eq!(state.discarded_total(), 0);
    state.discard_pile.push(PartialCards::batch(Some(Bird::OWL), 3));
    state.discard_pile.push(PartialCards::batch(None, 4));
    assert_eq!(state.discarded_total(), 7);
}

#[test]
fn fly_seen_of_a_small_flock() {
    let mut state = table();
    state.discard_pile.push(PartialCards::batch(Some(Bird::OWL), 3));
    assert!(state.can_fly_seen(1, Bird::WARBLER, true, 5));
    state.fly_seen(1, Bird::WARBLER, true, 5);
    assert_eq!(state.players[1].cards.total_cards, 8 - 2 - 5);
    assert_eq!(state.players[1].collection.get(Bird::WARBLER), 1);
    assert!(state.players[1].cards.blacklisted_cards.contains(Bird::WARBLER));
    assert_eq!(state.discard_pile.len(), 2);
    assert_eq!(state.discard_pile[1].total_cards, 2);
    assert!(state.discard_pile[1].known_cards.is_empty());
}

#[test]
fn fly_seen_of_a_large_flock_without_discards() {
    let mut state = table();
    state.set_birds(0, &birds("FFFW"));
    assert!(state.can_fly_seen(0, Bird::FLAMINGO, false, 0));
    state.fly_seen(0, Bird::FLAMINGO, false, 0);
    assert_eq!(state.players[0].cards.total_cards, 3);
    assert!(state.players[0].cards.known_cards.same(&counted("W")));
    assert_eq!(state.players[0].collection.get(Bird::FLAMINGO), 2);
    assert!(state.discard_pile.is_empty());
}

#[test]
fn fly_seen_needs_a_discard_pile_that_has_not_shrunk() {
    let mut state = table();
    state.discard_pile.push(PartialCards::batch(Some(Bird::OWL), 3));
    assert!(!state.can_fly_seen(0, Bird::FLAMINGO, true, 2));
    assert!(state.can_fly_seen(0, Bird::FLAMINGO, true, 3));
    assert!(!state.can_fly_seen(2, Bird::FLAMINGO, true, 3));
    state.discard_pile.push(PartialCards::batch(None, -1));
    assert!(!state.can_fly_seen(0, Bird::FLAMINGO, true, 3));
}

#[test]
fn redeal_gives_new_hands_and_knows_one() {
    let mut state = table();
    state.player_idx = 1;
    state.players[0].collection.add(Bird::OWL, 2);
    state.players[1].cards.blacklisted_cards.insert(Bird::OWL);
    state.redeal(&birds("OOPPDDMM"));
    assert_eq!(state.players[0].cards.total_cards, 8);
    assert!(state.players[0].cards.known_cards.is_empty());
    assert_eq!(state.players[1].cards.total_cards, 8);
    assert!(state.players[1].cards.known_cards.same(&counted("OOPPDDMM")));
    assert!(!state.players[1].cards.blacklisted_cards.contains(Bird::OWL));
    assert_eq!(state.players[0].collection.get(Bird::OWL), 2);
}

#[test]
fn pass_turn_goes_round_the_table() {
    let mut state = table();
    state.pass_turn();
    assert_eq!(state.turn, 1);
    state.pass_turn();
    assert_eq!(state.turn, 0);
}
