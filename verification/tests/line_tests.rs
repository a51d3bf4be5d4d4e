use cubirds::bird::Bird;
use cubirds::counts::BirdCounts;
use cubirds::line::Line;
use rand::rngs::StdRng;
use rand::SeedableRng;

fn birds(tags: &str) -> Vec<Bird> {
    Bird::from_string(tags).unwrap()
}

fn counted(tags: &str) -> BirdCounts {
    BirdCounts::from_birds(&birds(tags))
}

#[test]
fn sandwich_left_captures_the_enclosed_cards() {
    let mut line = Line(birds("PPWTWPMO"));
    let captured = line.sandwich(true).unwrap();
    assert_eq!(captured.get(Bird::WARBLER), 2);
    assert_eq!(captured.get(Bird::TOUCAN), 1);
    assert_eq!(captured.total(), 3);
    assert_eq!(line.0, birds("PPPMO"));
}

#[test]
fn sandwich_left_without_second_card_captures_nothing() {
    let mut line = Line(birds("PWTO"));
    assert!(line.sandwich(true).is_none());
    assert_eq!(line.0, birds("PWTO"));
}

#[test]
fn sandwich_right_is_the_mirror_image() {
    let mut line = Line(birds("OMPWTWPP"));
    let captured = line.sandwich(false).unwrap();
    assert!(captured.same(&counted("WWT")));
    assert_eq!(line.0, birds("OMPPP"));
}

#[test]
fn sandwich_right_takes_the_nearest_match() {
    let mut line = Line(birds("DWDTROD"));
    let captured = line.sandwich(false).unwrap();
    assert!(captured.same(&counted("TRO")));
    assert_eq!(line.0, birds("DWDD"));
}

#[test]
fn sandwich_of_one_species_captures_nothing() {
    let mut line = Line(birds("PPP"));
    assert!(line.sandwich(true).is_none());
    assert!(line.sandwich(false).is_none());
    assert_eq!(line.0, birds("PPP"));
}

#[test]
fn sandwich_of_an_empty_line_captures_nothing() {
    let mut line = Line::new();
    assert!(line.sandwich(true).is_none());
    assert!(line.sandwich(false).is_none());
    assert!(line.0.is_empty());
}

#[test]
fn sandwich_needs_cards_in_between() {
    let mut line = Line(birds("PPMO"));
    assert!(line.sandwich(true).is_none());
    let mut line = Line(birds("PMOP"));
    assert!(line.sandwich(false).unwrap().same(&counted("MO")));
    assert_eq!(line.0, birds("PP"));
}

#[test]
fn play_lays_the_cards_and_captures() {
    let mut line = Line(birds("WTWPMO"));
    let captured = line.play(Bird::PARROT, 2, true).unwrap();
    assert!(captured.same(&counted("WTW")));
    assert_eq!(line.0, birds("PPPMO"));
}

#[test]
fn play_on_the_right_without_capture() {
    let mut line = Line(birds("WTO"));
    assert!(line.play(Bird::PARROT, 3, false).is_none());
    assert_eq!(line.0, birds("WTOPPP"));
}

#[test]
fn play_of_no_card_only_resolves() {
    let mut line = Line(birds("WTW"));
    let captured = line.play(Bird::PARROT, 0, true).unwrap();
    assert!(captured.same(&counted("T")));
    assert_eq!(line.0, birds("WW"));
}

#[test]
fn place_and_lay_extend_the_line() {
    let mut line = Line(birds("MO"));
    line.place(Bird::DUCK, 2, true);
    assert_eq!(line.0, birds("DDMO"));
    line.place(Bird::ROBIN, 1, false);
    assert_eq!(line.0, birds("DDMOR"));
    line.place(Bird::ROBIN, -3, false);
    assert_eq!(line.0, birds("DDMOR"));
    line.lay(&birds("PW"), true);
    assert_eq!(line.0, birds("PWDDMOR"));
    line.lay(&birds("TF"), false);
    assert_eq!(line.0, birds("PWDDMORTF"));
}

#[test]
fn line_clone_keeps_the_cards() {
    let line = Line(birds("PWT"));
    assert_eq!(line.clone().0, birds("PWT"));
}

#[test]
fn draw_new_leaves_an_end_of_two_species() {
    let mut rng = StdRng::seed_from_u64(1);
    let mut line = Line(birds("PMOO"));
    let mut draw_pile = birds("WT");
    let mut discard_pile = counted("R");
    assert!(line.draw_new(true, &mut draw_pile, &mut discard_pile, &mut rng));
    assert_eq!(line.0, birds("PMOO"));
    assert_eq!(draw_pile, birds("WT"));
    assert!(discard_pile.same(&counted("R")));
    assert!(line.ends_open(true));
    assert!(!line.ends_open(false));
}

#[test]
fn draw_new_looks_at_the_end_that_is_filled() {
    let mut rng = StdRng::seed_from_u64(1);
    let mut line = Line(birds("PPPMO"));
    let mut draw_pile = birds("TWP");
    let mut discard_pile = BirdCounts::new();
    assert!(line.draw_new(true, &mut draw_pile, &mut discard_pile, &mut rng));
    assert_eq!(line.0, birds("WPPPPMO"));
    assert_eq!(draw_pile, birds("T"));
    let mut line = Line(birds("PPPMO"));
    let mut draw_pile = birds("TWP");
    assert!(line.draw_new(false, &mut draw_pile, &mut discard_pile, &mut rng));
    assert_eq!(line.0, birds("PPPMO"));
    assert_eq!(draw_pile, birds("TWP"));
}

#[test]
fn draw_new_takes_the_top_of_the_draw_pile() {
    let mut rng = StdRng::seed_from_u64(1);
    let mut line = Line(birds("PP"));
    let mut draw_pile = birds("OM");
    let mut discard_pile = BirdCounts::new();
    assert!(line.draw_new(true, &mut draw_pile, &mut discard_pile, &mut rng));
    assert_eq!(line.0, birds("MPP"));
    assert_eq!(draw_pile, birds("O"));
    assert!(discard_pile.is_empty());
}

#[test]
fn draw_new_gives_a_single_card_a_neighbour() {
    let mut rng = StdRng::seed_from_u64(1);
    let mut line = Line(birds("P"));
    let mut draw_pile = birds("OP");
    let mut discard_pile = counted("W");
    assert!(line.draw_new(false, &mut draw_pile, &mut discard_pile, &mut rng));
    assert_eq!(line.0, birds("PPO"));
    assert!(draw_pile.is_empty());
    assert!(discard_pile.same(&counted("W")));
    let mut line = Line(birds("P"));
    let mut draw_pile = Vec::new();
    let mut discard_pile = BirdCounts::new();
    assert!(!line.draw_new(true, &mut draw_pile, &mut discard_pile, &mut rng));
    assert_eq!(line.0, birds("P"));
}

#[test]
fn draw_new_draws_until_the_ends_differ() {
    let mut rng = StdRng::seed_from_u64(1);
    let mut line = Line(birds("PPP"));
    let mut draw_pile = birds("OWPP");
    let mut discard_pile = BirdCounts::new();
    assert!(line.draw_new(true, &mut draw_pile, &mut discard_pile, &mut rng));
    assert_eq!(line.0, birds("WPPPPP"));
    assert_eq!(draw_pile, birds("O"));
}

#[test]
fn draw_new_fills_the_right_end() {
    let mut rng = StdRng::seed_from_u64(1);
    let mut line = Line(birds("PP"));
    let mut draw_pile = birds("OWP");
    let mut discard_pile = BirdCounts::new();
    assert!(line.draw_new(false, &mut draw_pile, &mut discard_pile, &mut rng));
    assert_eq!(line.0, birds("PPPW"));
    assert_eq!(draw_pile, birds("O"));
}

#[test]
fn draw_new_fails_when_the_piles_run_out() {
    let mut rng = StdRng::seed_from_u64(1);
    let mut line = Line(birds("PP"));
    let mut draw_pile = birds("P");
    let mut discard_pile = counted("PP");
    assert!(!line.draw_new(false, &mut draw_pile, &mut discard_pile, &mut rng));
    assert_eq!(line.0, birds("PPPPP"));
    assert!(draw_pile.is_empty());
    assert!(discard_pile.is_empty());
}

#[test]
fn draw_new_takes_discarded_cards_when_the_draw_pile_is_empty() {
    let mut rng = StdRng::seed_from_u64(7);
    let mut line = Line(birds("TT"));
    let mut draw_pile = Vec::new();
    let mut discard_pile = counted("MMM");
    assert!(line.draw_new(true, &mut draw_pile, &mut discard_pile, &mut rng));
    assert_eq!(line.0, birds("MTT"));
    assert_eq!(draw_pile, birds("MM"));
    assert!(discard_pile.is_empty());
}
