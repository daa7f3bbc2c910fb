use rollercoaster::classify::{IdentityKey, LengthKey};
use rollercoaster::unique::Unique;
use rollercoaster::{Rollercoaster, VecProducer};

fn drain<R: Rollercoaster>(producer: &mut R) -> Vec<R::Item> {
    let mut collected = Vec::new();
    while let Some(item) = producer.produce_next() {
        collected.push(item);
    }
    collected
}

#[test]
fn it_returns_unique() {
    let mut unique = Unique::new(
        VecProducer::new(vec![5, 2, 6, 7, 3, 3, 2, 4, 5]),
        IdentityKey,
    );
    let result = drain(&mut unique);

    let mut unique_two = Unique::new(
        VecProducer::new(vec!["apple", "apple", "orange"]),
        LengthKey,
    );
    let result_two = drain(&mut unique_two);

    assert_eq!(result, vec![5, 2, 6, 7, 3, 4]);
    assert_eq!(result_two, vec!["apple", "orange"]);
}

#[test]
fn keeps_first_occurrences_in_order() {
    let mut unique = Unique::new(
        VecProducer::new(vec![1, 1, 4, 5, 2, 1, 4, 3, 2]),
        IdentityKey,
    );

    assert_eq!(drain(&mut unique), vec![1, 4, 5, 2, 3]);
}

#[test]
fn deduplicating_twice_equals_once() {
    let source = vec![1, 1, 4, 5, 2, 1, 4, 3, 2];

    let mut once = Unique::new(VecProducer::new(source.clone()), IdentityKey);
    let deduplicated = drain(&mut once);

    let mut twice = Unique::new(VecProducer::new(deduplicated.clone()), IdentityKey);

    assert_eq!(drain(&mut twice), deduplicated);
}

#[test]
fn first_key_occurrence_wins() {
    let mut unique = Unique::new(
        VecProducer::new(vec!["aa", "bbb", "cc", "dddd"]),
        LengthKey,
    );

    assert_eq!(drain(&mut unique), vec!["aa", "bbb", "dddd"]);
}

#[test]
fn empty_source_stays_empty() {
    let mut unique = Unique::new(VecProducer::new(Vec::<i32>::new()), IdentityKey);

    assert_eq!(unique.produce_next(), None);
    assert_eq!(unique.produce_next(), None);
}
