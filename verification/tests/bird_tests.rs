use cubirds::bird::{Bird, SPECIES};
use cubirds::counts::{BirdCounts, BirdSet};

fn all_birds() -> Vec<Bird> {
    vec![
        Bird::PARROT,
        Bird::WARBLER,
        Bird::TOUCAN,
        Bird::FLAMINGO,
        Bird::ROBIN,
        Bird::MAGPIE,
        Bird::OWL,
        Bird::DUCK,
    ]
}

#[test]
fn tags_round_trip() {
    for bird in all_birds() {
        assert_eq!(Bird::from_char(bird.to_char()), Some(bird));
    }
    assert_eq!(Bird::from_char('x'), None);
    assert_eq!(Bird::from_char('p'), None);
}

#[test]
fn tags_are_the_initials() {
    let tags: Vec<char> = all_birds().iter().map(|b| b.to_char()).collect();
    assert_eq!(tags, vec!['P', 'W', 'T', 'F', 'R', 'M', 'O', 'D']);
}

#[test]
fn ordinals_follow_the_enumeration() {
    for (i, bird) in all_birds().into_iter().enumerate() {
        assert_eq!(bird.ordinal(), i);
        assert_eq!(Bird::from_ordinal(i), Some(bird));
    }
    assert_eq!(Bird::from_ordinal(SPECIES), None);
    assert_eq!(SPECIES, 8);
}

#[test]
fn from_string_reads_every_tag() {
    assert_eq!(
        Bird::from_string("PWTFRMOD"),
        Some(all_birds())
    );
    assert_eq!(Bird::from_string(""), Some(vec![]));
    assert_eq!(
        Bird::from_string("PPO"),
        Some(vec![Bird::PARROT, Bird::PARROT, Bird::OWL])
    );
}

#[test]
fn from_string_rejects_a_foreign_character() {
    assert_eq!(Bird::from_string("PWX"), None);
    assert_eq!(Bird::from_string(" "), None);
    assert_eq!(Bird::from_string("Pw"), None);
}

#[test]
fn information_gives_the_card_table() {
    let table = [
        (Bird::PARROT, 13, 4, 6),
        (Bird::WARBLER, 20, 6, 9),
        (Bird::TOUCAN, 10, 3, 4),
        (Bird::FLAMINGO, 7, 2, 3),
        (Bird::ROBIN, 20, 6, 9),
        (Bird::MAGPIE, 17, 5, 7),
        (Bird::OWL, 10, 3, 4),
        (Bird::DUCK, 13, 4, 6),
    ];
    let mut cards = 0;
    for (bird, copies, small, large) in table {
        let info = bird.information();
        assert_eq!(info.cards, copies);
        assert_eq!(info.small, small);
        assert_eq!(info.large, large);
        cards += info.cards;
    }
    assert_eq!(cards, 110);
}

#[test]
fn counts_start_empty() {
    let counts = BirdCounts::new();
    for bird in all_birds() {
        assert_eq!(counts.get(bird), 0);
    }
    assert_eq!(counts.total(), 0);
    assert!(counts.is_empty());
    assert!(counts.is_wf());
    assert_eq!(counts.species(), vec![]);
}

#[test]
fn counts_add_set_and_remove() {
    let mut counts = BirdCounts::new();
    counts.add(Bird::OWL, 3);
    counts.add(Bird::OWL, 2);
    counts.set(Bird::DUCK, 7);
    assert_eq!(counts.get(Bird::OWL), 5);
    assert_eq!(counts.get(Bird::DUCK), 7);
    assert_eq!(counts.total(), 12);
    assert_eq!(counts.remove(Bird::OWL), 5);
    assert_eq!(counts.get(Bird::OWL), 0);
    assert_eq!(counts.total(), 7);
    assert!(!counts.is_empty());
}

#[test]
fn counts_from_birds_counts_each_species() {
    let birds = Bird::from_string("WTWPWO").unwrap();
    let counts = BirdCounts::from_birds(&birds);
    assert_eq!(counts.get(Bird::WARBLER), 3);
    assert_eq!(counts.get(Bird::TOUCAN), 1);
    assert_eq!(counts.get(Bird::PARROT), 1);
    assert_eq!(counts.get(Bird::OWL), 1);
    assert_eq!(counts.get(Bird::DUCK), 0);
    assert_eq!(counts.total(), 6);
}

#[test]
fn counts_list_species_in_enumeration_order() {
    let counts = BirdCounts::from_birds(&Bird::from_string("DOOPR").unwrap());
    assert_eq!(
        counts.species(),
        vec![Bird::PARROT, Bird::ROBIN, Bird::OWL, Bird::DUCK]
    );
    assert_eq!(counts.kinds(1), 4);
    assert_eq!(counts.kinds(2), 1);
    assert_eq!(counts.kinds(3), 0);
}

#[test]
fn counts_add_all_and_subtract() {
    let mut counts = BirdCounts::from_birds(&Bird::from_string("PPW").unwrap());
    let other = BirdCounts::from_birds(&Bird::from_string("PWWT").unwrap());
    counts.add_all(&other);
    assert_eq!(counts.get(Bird::PARROT), 3);
    assert_eq!(counts.get(Bird::WARBLER), 3);
    assert_eq!(counts.get(Bird::TOUCAN), 1);
    counts.subtract(&other);
    assert!(counts.same(&BirdCounts::from_birds(&Bird::from_string("PPW").unwrap())));
    counts.subtract(&other);
    assert_eq!(counts.get(Bird::WARBLER), -1);
    assert!(!counts.is_wf());
}

#[test]
fn counts_subtract_above_stops_at_the_floor() {
    let mut counts = BirdCounts::from_birds(&Bird::from_string("PPW").unwrap());
    let small = BirdCounts::from_birds(&Bird::from_string("PW").unwrap());
    let large = BirdCounts::from_birds(&Bird::from_string("PT").unwrap());
    assert!(!counts.subtract_above(&large, 0));
    assert!(counts.same(&BirdCounts::from_birds(&Bird::from_string("PPW").unwrap())));
    assert!(counts.subtract_above(&small, 0));
    assert!(counts.same(&BirdCounts::from_birds(&Bird::from_string("P").unwrap())));
    assert!(counts.subtract_above(&large, -1));
    assert_eq!(counts.get(Bird::TOUCAN), -1);
}

#[test]
fn bird_set_inserts_and_removes() {
    let mut set = BirdSet::new();
    assert!(!set.contains(Bird::ROBIN));
    set.insert(Bird::ROBIN);
    set.insert(Bird::OWL);
    assert!(set.contains(Bird::ROBIN));
    assert!(set.contains(Bird::OWL));
    assert!(!set.contains(Bird::DUCK));
    set.remove(Bird::ROBIN);
    assert!(!set.contains(Bird::ROBIN));
    assert!(set.contains(Bird::OWL));
}
