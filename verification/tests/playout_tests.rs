use cubirds::bird::Bird;
use cubirds::counts::BirdCounts;
use cubirds::line::Line;
use cubirds::materialized_state::{FlockMove, LineMove, MaterializedCubirdsState};
use cubirds::partial_cards::PartialCards;
use cubirds::player::{MaterializedPlayer, Player};
use cubirds::state::CubirdsState;
use rand::rngs::StdRng;
use rand::SeedableRng;

fn birds(tags: &str) -> Vec<Bird> {
    Bird::from_string(tags).unwrap()
}

fn counted(tags: &str) -> BirdCounts {
    BirdCounts::from_birds(&birds(tags))
}

fn table() -> CubirdsState {
    let mut state = CubirdsState::new();
    state.players.push(Player::new());
    state.players.push(Player::new());
    state.players.push(Player::new());
    state.set_birds(0, &birds("PPWWTFRM"));
    state.players[0].collection.add(Bird::OWL, 1);
    state.players[1].collection.add(Bird::DUCK, 1);
    state.players[2].collection.add(Bird::ROBIN, 1);
    state.players[1].cards.blacklisted_cards.insert(Bird::WARBLER);
    state.board[0] = Line(birds("PWT"));
    state.board[1] = Line(birds("FRM"));
    state.board[2] = Line(birds("ODP"));
    state.board[3] = Line(birds("WRM"));
    state.discard_pile.push(PartialCards::batch(Some(Bird::MAGPIE), 2));
    state.discard_pile.push(PartialCards::batch(None, 3));
    state
}

fn census(world: &MaterializedCubirdsState, bird: Bird) -> i32 {
    let mut cards = world.discard_pile.get(bird);
    for player in &world.players {
        cards += player.cards.get(bird) + player.collection.get(bird);
    }
    for line in &world.board {
        cards += line.0.iter().filter(|b| **b == bird).count() as i32;
    }
    cards += world.draw_pile.iter().filter(|b| **b == bird).count() as i32;
    cards
}

fn assert_conserved(world: &MaterializedCubirdsState) {
    for i in 0..8 {
        let bird = Bird::from_ordinal(i).unwrap();
        assert_eq!(census(world, bird), bird.information().cards);
    }
    assert!(world.discard_pile.is_wf());
    for player in &world.players {
        assert!(player.cards.is_wf());
        assert!(player.collection.is_wf());
    }
}

fn world() -> MaterializedCubirdsState {
    let mut rng = StdRng::seed_from_u64(99);
    MaterializedCubirdsState::sample_from(&table(), &mut rng)
}

#[test]
fn sample_from_keeps_every_card_of_the_game() {
    let state = table();
    for seed in 0..30 {
        let mut rng = StdRng::seed_from_u64(seed);
        let world = MaterializedCubirdsState::sample_from(&state, &mut rng);
        assert_conserved(&world);
        assert_eq!(world.players.len(), 3);
        assert!(world.players[0].cards.same(&counted("PPWWTFRM")));
        for (sampled, known) in world.players.iter().zip(state.players.iter()) {
            assert_eq!(sampled.cards.total(), 8);
            assert!(sampled.collection.same(&known.collection));
        }
        assert_eq!(world.players[1].cards.get(Bird::WARBLER), 0);
        assert_eq!(world.discard_pile.total(), 5);
        assert!(world.discard_pile.get(Bird::MAGPIE) >= 2);
        assert_eq!(world.draw_pile.len(), 110 - 24 - 3 - 12 - 5);
        for (line, known) in world.board.iter().zip(state.board.iter()) {
            assert_eq!(line.0, known.0);
        }
        assert_eq!(world.turn, state.turn);
        assert_eq!(world.player_idx, state.player_idx);
    }
}

#[test]
fn sample_from_shuffles_the_draw_pile() {
    let mut rng = StdRng::seed_from_u64(4);
    let world = MaterializedCubirdsState::sample_from(&CubirdsState::new(), &mut rng);
    assert_eq!(world.draw_pile.len(), 110);
    let mut sorted = world.draw_pile.clone();
    sorted.sort_by_key(|bird| bird.ordinal());
    assert_ne!(world.draw_pile, sorted);
    assert_conserved(&world);
}

#[test]
fn try_sample_from_agrees_on_a_consistent_state() {
    let mut rng = StdRng::seed_from_u64(8);
    let world = MaterializedCubirdsState::try_sample_from(&table(), &mut rng).unwrap();
    assert_conserved(&world);
}

#[test]
fn try_sample_from_refuses_too_many_placed_cards() {
    let mut rng = StdRng::seed_from_u64(8);
    let mut state = table();
    state.board[0] = Line(birds("FFFFFFF"));
    assert!(MaterializedCubirdsState::try_sample_from(&state, &mut rng).is_none());
}

#[test]
fn try_sample_from_refuses_a_hand_that_cannot_be_filled() {
    let mut rng = StdRng::seed_from_u64(8);
    let mut state = table();
    state.players[1].cards.total_cards = 100;
    assert!(MaterializedCubirdsState::try_sample_from(&state, &mut rng).is_none());
    let mut state = table();
    state.players[0].cards.total_cards = 7;
    assert!(MaterializedCubirdsState::try_sample_from(&state, &mut rng).is_none());
}

#[test]
fn draw_takes_the_top_card() {
    let mut rng = StdRng::seed_from_u64(1);
    let mut draw_pile = birds("PWT");
    let mut discard_pile = counted("OO");
    let drawn = MaterializedCubirdsState::draw(&mut draw_pile, &mut discard_pile, &mut rng);
    assert_eq!(drawn, Some(Bird::TOUCAN));
    assert_eq!(draw_pile, birds("PW"));
    assert!(discard_pile.same(&counted("OO")));
}

#[test]
fn draw_reshuffles_the_discarded_cards() {
    let mut rng = StdRng::seed_from_u64(1);
    let mut draw_pile = Vec::new();
    let mut discard_pile = counted("OOWM");
    let drawn =
        MaterializedCubirdsState::draw(&mut draw_pile, &mut discard_pile, &mut rng).unwrap();
    assert!(discard_pile.is_empty());
    assert_eq!(draw_pile.len(), 3);
    let mut all = BirdCounts::from_birds(&draw_pile);
    all.add(drawn, 1);
    assert!(all.same(&counted("OOWM")));
}

#[test]
fn draw_from_empty_piles_gives_nothing() {
    let mut rng = StdRng::seed_from_u64(1);
    let mut draw_pile = Vec::new();
    let mut discard_pile = BirdCounts::new();
    assert_eq!(
        MaterializedCubirdsState::draw(&mut draw_pile, &mut discard_pile, &mut rng),
        None
    );
    assert!(draw_pile.is_empty());
    assert!(discard_pile.is_empty());
}

fn with_collection(tags: &str) -> MaterializedCubirdsState {
    let mut world = world();
    world.players[1].collection = counted(tags);
    world
}

#[test]
fn two_species_of_three_cards_win() {
    assert_eq!(with_collection("PPPWWWT").player_win(), Some(1));
}

#[test]
fn seven_species_win() {
    assert_eq!(with_collection("PPPWWTFRMO").player_win(), Some(1));
}

#[test]
fn two_species_of_two_cards_do_not_win() {
    let mut world = with_collection("PPWW");
    world.players[0].collection = counted("OO");
    world.players[2].collection = counted("PWTFRM");
    assert_eq!(world.player_win(), None);
}

#[test]
fn the_first_winner_in_the_order_of_play_wins() {
    let mut world = with_collection("PPPWWW");
    world.players[2].collection = counted("TTTFFF");
    assert_eq!(world.player_win(), Some(1));
    world.players[0].collection = counted("PWTFRMO");
    assert_eq!(world.player_win(), Some(0));
}

#[test]
fn a_large_flock_gives_two_cards() {
    let mut player = MaterializedPlayer { collection: counted("T"), cards: counted("TTTTW") };
    let mut discard_pile = counted("T");
    player.fly_home(Bird::TOUCAN, &mut discard_pile);
    assert!(player.collection.same(&counted("TTT")));
    assert!(player.cards.same(&counted("W")));
    assert!(discard_pile.same(&counted("TTT")));
}

#[test]
fn a_small_flock_gives_one_card() {
    let mut player = MaterializedPlayer { collection: BirdCounts::new(), cards: counted("TTTW") };
    let mut discard_pile = BirdCounts::new();
    player.fly_home(Bird::TOUCAN, &mut discard_pile);
    assert!(player.collection.same(&counted("T")));
    assert!(player.cards.same(&counted("W")));
    assert!(discard_pile.same(&counted("TT")));
}

#[test]
fn a_flock_at_the_large_threshold_is_large() {
    let mut player = MaterializedPlayer { collection: BirdCounts::new(), cards: counted("PPPPPP") };
    let mut discard_pile = BirdCounts::new();
    player.fly_home(Bird::PARROT, &mut discard_pile);
    assert_eq!(player.collection.get(Bird::PARROT), 2);
    assert_eq!(discard_pile.get(Bird::PARROT), 4);
    let mut player = MaterializedPlayer { collection: BirdCounts::new(), cards: counted("PPPPP") };
    let mut discard_pile = BirdCounts::new();
    player.fly_home(Bird::PARROT, &mut discard_pile);
    assert_eq!(player.collection.get(Bird::PARROT), 1);
    assert_eq!(discard_pile.get(Bird::PARROT), 4);
}

#[test]
fn flockable_lists_the_flocks_in_order() {
    let player = MaterializedPlayer {
        collection: BirdCounts::new(),
        cards: counted("OOOFFPPPWWWWWW"),
    };
    assert_eq!(player.flockable(), vec![Bird::WARBLER, Bird::FLAMINGO, Bird::OWL]);
    let player = MaterializedPlayer { collection: BirdCounts::new(), cards: counted("OOFPPP") };
    assert_eq!(player.flockable(), vec![]);
}

#[test]
fn play_line_without_capture_and_draw() {
    let mut rng = StdRng::seed_from_u64(5);
    let mut world = world();
    let piles = world.draw_pile.clone();
    let played = world.play_line(Bird::WARBLER, 1, false, false, &mut rng);
    assert_eq!(
        played,
        Some(LineMove { line: 1, bird: Bird::WARBLER, left: false, draw: false })
    );
    assert_eq!(world.board[1].0, birds("FRMWW"));
    assert!(world.players[0].cards.same(&counted("PPTFRM")));
    assert_eq!(world.draw_pile, piles);
    assert_eq!(world.turn, 0);
    assert_conserved(&world);
}

#[test]
fn play_line_without_capture_draws_two_cards() {
    let mut rng = StdRng::seed_from_u64(5);
    let mut world = world();
    let cards = world.draw_pile.len();
    let played = world.play_line(Bird::WARBLER, 1, false, true, &mut rng);
    assert_eq!(
        played,
        Some(LineMove { line: 1, bird: Bird::WARBLER, left: false, draw: true })
    );
    assert_eq!(world.players[0].cards.total(), 8);
    assert_eq!(world.draw_pile.len(), cards - 2);
    assert_conserved(&world);
}

#[test]
fn play_line_with_capture_takes_the_cards() {
    let mut rng = StdRng::seed_from_u64(5);
    let mut world = world();
    let played = world.play_line(Bird::PARROT, 2, true, false, &mut rng);
    assert_eq!(
        played,
        Some(LineMove { line: 2, bird: Bird::PARROT, left: true, draw: false })
    );
    assert!(world.players[0].cards.same(&counted("WWTFRMOD")));
    let line = &world.board[2].0;
    assert_ne!(line[line.len() - 1], line[line.len() - 2]);
    assert_eq!(&line[..3], &birds("PPP")[..]);
    assert_conserved(&world);
}

#[test]
fn play_line_fails_when_the_piles_are_empty() {
    let mut rng = StdRng::seed_from_u64(5);
    let mut world = world();
    let discarded = world.discard_pile;
    world.players[2].cards.add_all(&BirdCounts::from_birds(&world.draw_pile));
    world.players[2].cards.add_all(&discarded);
    world.draw_pile.clear();
    world.discard_pile = BirdCounts::new();
    assert_conserved(&world);
    assert_eq!(world.play_line(Bird::WARBLER, 1, false, true, &mut rng), None);
    assert_conserved(&world);
    let mut rng = StdRng::seed_from_u64(5);
    assert_eq!(world.play_line(Bird::PARROT, 2, true, false, &mut rng), None);
    assert_conserved(&world);
}

#[test]
fn flock_play_lets_a_flock_fly_home() {
    let mut world = world();
    world.players[0].cards = counted("FFFWWTRM");
    world.players[1].cards.add(Bird::PARROT, 2);
    world.players[1].cards.add(Bird::FLAMINGO, -1);
    let flamingos = census(&world, Bird::FLAMINGO);
    let parrots = census(&world, Bird::PARROT);
    let discarded = world.discard_pile.get(Bird::FLAMINGO);
    world.flock_play(FlockMove { bird: Some(Bird::FLAMINGO) });
    assert!(world.players[0].cards.same(&counted("WWTRM")));
    assert_eq!(world.players[0].collection.get(Bird::FLAMINGO), 2);
    assert_eq!(world.discard_pile.get(Bird::FLAMINGO), discarded + 1);
    assert_eq!(census(&world, Bird::FLAMINGO), flamingos);
    assert_eq!(census(&world, Bird::PARROT), parrots);
}

#[test]
fn flock_play_of_no_flock_changes_nothing() {
    let mut world = world();
    let hand = world.players[0].cards;
    let discarded = world.discard_pile;
    world.flock_play(FlockMove { bird: None });
    assert!(world.players[0].cards.same(&hand));
    assert!(world.discard_pile.same(&discarded));
    assert_conserved(&world);
}

#[test]
fn random_flock_play_chooses_a_flock_or_none() {
    let mut world = world();
    let mut rng = StdRng::seed_from_u64(17);
    let choice = world.random_flock_play(&mut rng);
    assert_eq!(choice, FlockMove { bird: None });
    let mut flown = 0;
    for seed in 0..40 {
        let mut world = MaterializedCubirdsState::sample_from(&table(), &mut rng);
        let mut rng = StdRng::seed_from_u64(seed);
        let hand = world.players[1].cards;
        world.turn = 1;
        if let Some(bird) = world.random_flock_play(&mut rng).bird {
            assert!(hand.get(bird) >= bird.information().small);
            assert_eq!(world.players[1].cards.get(bird), 0);
            flown += 1;
        } else {
            assert!(world.players[1].cards.same(&hand));
        }
        assert_conserved(&world);
    }
    assert!(flown > 0);
}

#[test]
fn determine_reset_passes_the_turn_on() {
    let mut rng = StdRng::seed_from_u64(17);
    let mut world = world();
    assert_eq!(world.determine_reset(&mut rng), None);
    assert_eq!(world.turn, 1);
    assert_eq!(world.determine_reset(&mut rng), None);
    assert_eq!(world.determine_reset(&mut rng), None);
    assert_eq!(world.turn, 0);
    assert_conserved(&world);
}

#[test]
fn determine_reset_deals_new_hands_after_an_empty_hand() {
    let mut rng = StdRng::seed_from_u64(17);
    let mut world = world();
    let hand = world.players[1].cards;
    world.discard_pile.add_all(&hand);
    world.players[1].cards = BirdCounts::new();
    world.turn = 1;
    assert_eq!(world.determine_reset(&mut rng), Some(true));
    assert_eq!(world.turn, 1);
    for player in &world.players {
        assert_eq!(player.cards.total(), 8);
    }
    assert_eq!(world.players[1].collection.get(Bird::DUCK), 1);
    assert_conserved(&world);
}

#[test]
fn reset_fails_when_the_piles_are_too_small() {
    let mut rng = StdRng::seed_from_u64(17);
    let mut world = world();
    world.board[0].0.append(&mut world.draw_pile);
    for bird in world.players[2].cards.species() {
        let cards = world.players[2].cards.remove(bird) + world.discard_pile.remove(bird);
        world.board[0].place(bird, cards, false);
    }
    let before = world.discard_pile.total() + 16;
    assert!(before < 24);
    assert_conserved(&world);
    assert!(!world.reset(&mut rng));
    assert!(world.draw_pile.is_empty());
    assert!(world.discard_pile.is_empty());
    let dealt: i64 = world.players.iter().map(|player| player.cards.total()).sum();
    assert_eq!(dealt, before);
    assert_conserved(&world);
}

#[test]
fn random_play_keeps_every_card_of_the_game() {
    for seed in 0..20 {
        let mut rng = StdRng::seed_from_u64(seed);
        let mut world = MaterializedCubirdsState::sample_from(&table(), &mut rng);
        for _ in 0..30 {
            let hand = world.players[world.turn].cards;
            match world.random_play(&mut rng) {
                Some(played) => {
                    assert!(played.line < 4);
                    assert!(hand.get(played.bird) > 0);
                    assert!(world.players.iter().all(|player| player.cards.total() > 0));
                },
                None => {
                    assert!(world.draw_pile.is_empty());
                    assert!(world.discard_pile.is_empty());
                    assert_conserved(&world);
                    break;
                },
            }
            assert_conserved(&world);
            if world.player_win().is_some() {
                break;
            }
        }
    }
}

#[test]
fn full_rollout_ends_with_a_winner_or_is_given_up() {
    let mut finished = 0;
    for seed in 0..40 {
        let mut rng = StdRng::seed_from_u64(seed);
        let mut world = MaterializedCubirdsState::sample_from(&table(), &mut rng);
        let hand = world.players[0].cards;
        if let Some((first_move, won)) = world.full_rollout(&mut rng) {
            assert!(hand.get(first_move.bird) > 0);
            assert!(first_move.line < 4);
            let winner = world.player_win().unwrap();
            assert_eq!(won, winner == world.player_idx);
            finished += 1;
        }
        assert_conserved(&world);
    }
    assert!(finished > 0);
}

#[test]
fn flock_rollout_ends_with_a_winner_or_is_given_up() {
    let mut finished = 0;
    for seed in 0..40 {
        let mut rng = StdRng::seed_from_u64(seed);
        let mut state = table();
        state.set_birds(0, &birds("FFFWWTRM"));
        let mut world = MaterializedCubirdsState::sample_from(&state, &mut rng);
        if let Some((first_move, won)) = world.flock_rollout(&mut rng) {
            assert!(first_move.bird.is_none() || first_move.bird == Some(Bird::FLAMINGO));
            let winner = world.player_win().unwrap();
            assert_eq!(won, winner == world.player_idx);
            finished += 1;
        }
        assert_conserved(&world);
    }
    assert!(finished > 0);
}

#[test]
fn flock_choice_numbers_the_flocks_in_order() {
    let player = MaterializedPlayer {
        collection: BirdCounts::new(),
        cards: counted("OOOFFPPPWWWWWW"),
    };
    assert_eq!(player.flock_choice(0), Some(Bird::WARBLER));
    assert_eq!(player.flock_choice(1), Some(Bird::FLAMINGO));
    assert_eq!(player.flock_choice(2), Some(Bird::OWL));
    assert_eq!(player.flock_choice(3), None);
    assert_eq!(player.flock_choice(usize::MAX), None);
    let player = MaterializedPlayer { collection: BirdCounts::new(), cards: counted("OOFPPP") };
    assert_eq!(player.flock_choice(0), None);
}

#[test]
fn full_rollout_of_a_decided_game_ends_after_one_turn() {
    for seed in 0..40 {
        let mut rng = StdRng::seed_from_u64(seed);
        let mut world = MaterializedCubirdsState::sample_from(&table(), &mut rng);
        let moved = world.players[1].cards.remove(Bird::PARROT);
        world.players[1].collection.add(Bird::PARROT, moved);
        world.players[1].collection.add(Bird::WARBLER, 3);
        for _ in 0..3 {
            let position = world.draw_pile.iter().position(|b| *b == Bird::WARBLER).unwrap();
            world.draw_pile.remove(position);
        }
        world.players[1].collection.add(Bird::ROBIN, 3);
        for _ in 0..3 {
            let position = world.draw_pile.iter().position(|b| *b == Bird::ROBIN).unwrap();
            world.draw_pile.remove(position);
        }
        if world.players[1].cards.total() == 0 {
            continue;
        }
        assert_conserved(&world);
        assert!(world.draw_pile.len() > 20);
        let (first_move, won) = world.full_rollout(&mut rng).unwrap();
        assert!(first_move.line < 4);
        assert!(!won);
        assert_eq!(world.turn, 1);
        assert_eq!(world.player_win(), Some(1));
        assert_conserved(&world);
    }
}

#[test]
fn flock_rollout_of_a_decided_game_ends_with_the_choice() {
    for seed in 0..40 {
        let mut rng = StdRng::seed_from_u64(seed);
        let mut state = table();
        state.set_birds(0, &birds("FFFWWTRM"));
        state.players[0].collection = counted("OOODDD");
        let mut world = MaterializedCubirdsState::sample_from(&state, &mut rng);
        let before = world.clone();
        let (first_move, won) = world.flock_rollout(&mut rng).unwrap();
        assert!(won);
        assert_eq!(world.turn, 1);
        match first_move.bird {
            Some(bird) => {
                assert_eq!(bird, Bird::FLAMINGO);
                assert!(world.players[0].cards.same(&counted("WWTRM")));
                assert_eq!(world.players[0].collection.get(Bird::FLAMINGO), 2);
                assert_eq!(
                    world.discard_pile.get(Bird::FLAMINGO),
                    before.discard_pile.get(Bird::FLAMINGO) + 1
                );
            },
            None => {
                assert!(world.players[0].cards.same(&before.players[0].cards));
                assert!(world.discard_pile.same(&before.discard_pile));
            },
        }
        assert_eq!(world.draw_pile, before.draw_pile);
        assert!(world.players[1].cards.same(&before.players[1].cards));
        assert_conserved(&world);
    }
}

#[test]
fn reset_succeeds_when_hands_and_piles_hold_a_hand_for_each() {
    let mut rng = StdRng::seed_from_u64(17);
    let mut world = world();
    world.board[0].0.append(&mut world.draw_pile);
    let discarded = world.discard_pile;
    world.board[0].lay(&discarded.species(), false);
    for bird in discarded.species() {
        let cards = world.discard_pile.remove(bird);
        world.board[0].place(bird, cards - 1, false);
    }
    assert_conserved(&world);
    assert!(world.draw_pile.is_empty());
    assert!(world.discard_pile.is_empty());
    assert!(world.reset(&mut rng));
    assert!(world.draw_pile.is_empty());
    assert!(world.discard_pile.is_empty());
    for player in &world.players {
        assert_eq!(player.cards.total(), 8);
    }
    assert_conserved(&world);
    let card = world.players[0].cards.species()[0];
    world.players[0].cards.add(card, -1);
    world.board[0].place(card, 1, false);
    assert!(!world.reset(&mut rng));
    assert_conserved(&world);
}

#[test]
fn rollout_turns_counts_the_turns() {
    for seed in 0..20 {
        let mut rng = StdRng::seed_from_u64(seed);
        let mut world = MaterializedCubirdsState::sample_from(&table(), &mut rng);
        let before = world.clone();
        assert_eq!(world.rollout_turns(0, &mut rng), (None, 0));
        assert_eq!(world.draw_pile, before.draw_pile);
        let (winner, turns) = world.rollout_turns(3, &mut rng);
        assert!(turns <= 3);
        match winner {
            Some(winner) => assert_eq!(world.player_win(), Some(winner)),
            None => {
                let dry = world.draw_pile.is_empty() && world.discard_pile.is_empty();
                assert!(turns == 3 || dry);
                if turns == 3 && !world.draw_pile.is_empty() {
                    assert_eq!(world.player_win(), None);
                }
            },
        }
        assert_conserved(&world);
    }
    let mut rng = StdRng::seed_from_u64(5);
    let mut decided = with_collection("PPPWWWT");
    assert_eq!(decided.rollout_turns(9, &mut rng), (Some(1), 0));
}

#[test]
fn random_play_lays_all_cards_of_the_species() {
    for seed in 0..40 {
        let mut rng = StdRng::seed_from_u64(seed);
        let mut world = MaterializedCubirdsState::sample_from(&table(), &mut rng);
        let before = world.clone();
        if let Some(played) = world.random_play(&mut rng) {
            let count = before.players[0].cards.get(played.bird);
            let mut trial = before.board[played.line].clone();
            let captured = trial.play(played.bird, count, played.left);
            let line = &world.board[played.line].0;
            if captured.is_none() {
                assert_eq!(line, &trial.0);
            } else {
                assert!(!played.draw);
                assert!(line.len() >= trial.0.len());
                let grown = line.len() - trial.0.len();
                assert!(line[grown..] == trial.0[..] || line[..trial.0.len()] == trial.0[..]);
            }
            if world.turn == 0 {
                assert!(world.players.iter().all(|player| player.cards.total() == 8));
            } else {
                assert_eq!(world.turn, 1);
                assert!(world.players[1].cards.same(&before.players[1].cards));
                assert!(world.players[2].cards.same(&before.players[2].cards));
            }
        }
        assert_conserved(&world);
    }
}
