use cubirds::bird::Bird;
use cubirds::counts::{BirdCounts, BirdSet};
use cubirds::partial_cards::PartialCards;
use cubirds::utilities::{eligible_total, weighted_choice, weighted_pick};
use rand::rngs::StdRng;
use rand::SeedableRng;

fn pool(tags: &str) -> BirdCounts {
    BirdCounts::from_birds(&Bird::from_string(tags).unwrap())
}

fn listed(tags: &str) -> BirdSet {
    let mut set = BirdSet::new();
    for bird in Bird::from_string(tags).unwrap() {
        set.insert(bird);
    }
    set
}

#[test]
fn weighted_pick_walks_the_species_in_order() {
    let choices = pool("PPWWWD");
    assert_eq!(weighted_pick(&choices, None, 0), Some(Bird::PARROT));
    assert_eq!(weighted_pick(&choices, None, 1), Some(Bird::PARROT));
    assert_eq!(weighted_pick(&choices, None, 2), Some(Bird::WARBLER));
    assert_eq!(weighted_pick(&choices, None, 4), Some(Bird::WARBLER));
    assert_eq!(weighted_pick(&choices, None, 5), Some(Bird::DUCK));
    assert_eq!(weighted_pick(&choices, None, 6), None);
    assert_eq!(weighted_pick(&choices, None, u64::MAX), None);
}

#[test]
fn weighted_pick_skips_the_blacklist() {
    let choices = pool("PPWWWD");
    let blacklist = listed("W");
    assert_eq!(weighted_pick(&choices, Some(&blacklist), 1), Some(Bird::PARROT));
    assert_eq!(weighted_pick(&choices, Some(&blacklist), 2), Some(Bird::DUCK));
    assert_eq!(weighted_pick(&choices, Some(&blacklist), 3), None);
}

#[test]
fn weighted_pick_gives_no_weight_to_negative_counts() {
    let mut choices = pool("OO");
    choices.set(Bird::PARROT, -4);
    assert_eq!(eligible_total(&choices, None), 2);
    assert_eq!(weighted_pick(&choices, None, 0), Some(Bird::OWL));
    assert_eq!(weighted_pick(&choices, None, 1), Some(Bird::OWL));
    assert_eq!(weighted_pick(&choices, None, 2), None);
}

#[test]
fn eligible_total_adds_the_cards_off_the_blacklist() {
    let choices = pool("PPWWWDT");
    assert_eq!(eligible_total(&choices, None), 7);
    assert_eq!(eligible_total(&choices, Some(&listed("PT"))), 4);
    assert_eq!(eligible_total(&choices, Some(&listed("PWDT"))), 0);
    assert_eq!(eligible_total(&BirdCounts::new(), None), 0);
}

#[test]
fn weighted_choice_stays_off_the_blacklist() {
    let mut rng = StdRng::seed_from_u64(11);
    let choices = pool("PPPPPPPPWD");
    let blacklist = listed("P");
    let mut seen = BirdCounts::new();
    for _ in 0..200 {
        let bird = weighted_choice(&choices, Some(&blacklist), &mut rng).unwrap();
        assert_ne!(bird, Bird::PARROT);
        seen.add(bird, 1);
    }
    assert_eq!(seen.total(), 200);
    assert!(seen.get(Bird::WARBLER) > 0);
    assert!(seen.get(Bird::DUCK) > 0);
    assert!(choices.same(&pool("PPPPPPPPWD")));
}

#[test]
fn weighted_choice_of_one_species_gives_it() {
    let mut rng = StdRng::seed_from_u64(3);
    let choices = pool("RRRR");
    for _ in 0..50 {
        assert_eq!(weighted_choice(&choices, None, &mut rng), Some(Bird::ROBIN));
    }
}

#[test]
fn weighted_choice_follows_the_weights() {
    let mut rng = StdRng::seed_from_u64(5);
    let choices = pool("PPPPPPPPPW");
    let mut parrots = 0;
    for _ in 0..1000 {
        if weighted_choice(&choices, None, &mut rng) == Some(Bird::PARROT) {
            parrots += 1;
        }
    }
    assert!(parrots > 800);
    assert!(parrots < 980);
}

#[test]
fn weighted_choice_without_eligible_card_gives_none() {
    let mut rng = StdRng::seed_from_u64(3);
    assert_eq!(weighted_choice(&BirdCounts::new(), None, &mut rng), None);
    assert_eq!(weighted_choice(&pool("PP"), Some(&listed("P")), &mut rng), None);
}

#[test]
fn new_partial_cards_are_a_hand_of_eight() {
    let hand = PartialCards::new();
    assert_eq!(hand.total_cards, 8);
    assert!(hand.known_cards.is_empty());
    assert!(!hand.blacklisted_cards.contains(Bird::PARROT));
    assert!(hand.is_wf());
}

#[test]
fn batch_knows_one_species_or_none() {
    let known = PartialCards::batch(Some(Bird::OWL), 3);
    assert_eq!(known.total_cards, 3);
    assert!(known.known_cards.same(&pool("OOO")));
    let unknown = PartialCards::batch(None, 4);
    assert_eq!(unknown.total_cards, 4);
    assert!(unknown.known_cards.is_empty());
}

#[test]
fn partial_cards_with_too_many_known_are_not_well_formed() {
    let mut hand = PartialCards::new();
    hand.known_cards = pool("PPPPPPPPP");
    assert!(!hand.is_wf());
    hand.total_cards = 9;
    assert!(hand.is_wf());
    hand.known_cards.set(Bird::OWL, -1);
    assert!(!hand.is_wf());
}

#[test]
fn can_sample_needs_enough_eligible_cards() {
    let mut hand = PartialCards::new();
    hand.known_cards = pool("PP");
    hand.total_cards = 5;
    hand.blacklisted_cards = listed("W");
    assert!(hand.can_sample(&pool("WWWWTTT")));
    assert!(!hand.can_sample(&pool("WWWWTT")));
    assert!(hand.can_sample(&pool("PPP")));
}

#[test]
fn sample_fills_the_hand_from_the_pool() {
    let mut rng = StdRng::seed_from_u64(21);
    let mut hand = PartialCards::new();
    hand.known_cards = pool("PPO");
    hand.blacklisted_cards = listed("WD");
    hand.total_cards = 8;
    for _ in 0..50 {
        let before = pool("WWWWWWWWDDDDTTTFFRRM");
        let mut available = before;
        let sampled = hand.sample(&mut available, &mut rng);
        assert_eq!(sampled.total(), 8);
        assert!(sampled.is_wf());
        assert_eq!(sampled.get(Bird::WARBLER), 0);
        assert_eq!(sampled.get(Bird::DUCK), 0);
        assert_eq!(sampled.get(Bird::PARROT), 2);
        assert_eq!(sampled.get(Bird::OWL), 1);
        assert_eq!(available.total(), before.total() - 5);
        assert!(available.is_wf());
        for i in 0..8 {
            let bird = Bird::from_ordinal(i).unwrap();
            assert_eq!(
                sampled.get(bird),
                hand.known_cards.get(bird) + before.get(bird) - available.get(bird)
            );
        }
    }
}

#[test]
fn sample_of_a_fully_known_hand_draws_nothing() {
    let mut rng = StdRng::seed_from_u64(2);
    let mut hand = PartialCards::new();
    hand.known_cards = pool("PPOW");
    hand.total_cards = 4;
    let mut available = pool("TTT");
    let sampled = hand.sample(&mut available, &mut rng);
    assert!(sampled.same(&pool("PPOW")));
    assert!(available.same(&pool("TTT")));
}

#[test]
fn sample_can_empty_the_pool() {
    let mut rng = StdRng::seed_from_u64(2);
    let hand = PartialCards::batch(None, 3);
    let mut available = pool("TTM");
    let sampled = hand.sample(&mut available, &mut rng);
    assert!(sampled.same(&pool("TTM")));
    assert!(available.is_empty());
}

#[test]
fn give_up_and_take_in_keep_the_books() {
    let mut hand = PartialCards::new();
    hand.known_cards = pool("PPO");
    hand.give_up(Bird::PARROT, 3);
    assert_eq!(hand.total_cards, 5);
    assert_eq!(hand.known_cards.get(Bird::PARROT), 0);
    assert!(hand.blacklisted_cards.contains(Bird::PARROT));
    hand.blacklisted_cards.insert(Bird::WARBLER);
    hand.take_in(&pool("WWT"));
    assert_eq!(hand.total_cards, 8);
    assert!(hand.known_cards.same(&pool("OWWT")));
    assert!(!hand.blacklisted_cards.contains(Bird::WARBLER));
    assert!(hand.blacklisted_cards.contains(Bird::PARROT));
}
