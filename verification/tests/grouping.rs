use rollercoaster::classify::{BlockKey, IdentityKey, WhitespaceKey};
use rollercoaster::grouping::GroupBy;
use rollercoaster::VecProducer;

#[test]
fn it_groups_correctly() {
    let mut grouped = GroupBy::new(
        VecProducer::new(vec![1, 2, 3, 4, 5, 6, 7, 8, 9, 10]),
        BlockKey { origin: 1, width: 3 },
    );

    let mut group: Vec<(Vec<i32>, i32)> = Vec::new();
    while let Some(g) = grouped.produce_next() {
        group.push((g.items, g.kind));
    }

    assert_eq!(
        group,
        vec![
            (vec![1, 2, 3], 0),
            (vec![4, 5, 6], 1),
            (vec![7, 8, 9], 2),
            (vec![10], 3),
        ]
    );
}

#[test]
fn groups_words_and_blanks() {
    let characters: Vec<char> = "This is a test!".chars().collect();
    let mut grouped = GroupBy::new(VecProducer::new(characters), WhitespaceKey);

    let mut words: Vec<String> = Vec::new();
    let mut kinds: Vec<bool> = Vec::new();
    while let Some(g) = grouped.produce_next() {
        words.push(g.items.into_iter().collect());
        kinds.push(g.kind);
    }

    assert_eq!(words, vec!["This", " ", "is", " ", "a", " ", "test!"]);
    assert_eq!(kinds, vec![false, true, false, true, false, true, false]);
}

#[test]
fn grouping_is_by_adjacency_not_by_key() {
    let mut grouped = GroupBy::new(VecProducer::new(vec![4, 7, 4]), IdentityKey);

    let mut group: Vec<(Vec<i32>, i32)> = Vec::new();
    while let Some(g) = grouped.produce_next() {
        group.push((g.items, g.kind));
    }

    assert_eq!(group, vec![(vec![4], 4), (vec![7], 7), (vec![4], 4)]);
}

#[test]
fn groups_reassemble_the_source() {
    let source = vec![3, 3, 1, 1, 1, 2, 9, 9, 3];
    let mut grouped = GroupBy::new(VecProducer::new(source.clone()), IdentityKey);

    let mut reassembled: Vec<i32> = Vec::new();
    let mut kinds: Vec<i32> = Vec::new();
    while let Some(g) = grouped.produce_next() {
        kinds.push(g.kind);
        reassembled.extend(g.items);
    }

    assert_eq!(reassembled, source);
    assert_eq!(kinds, vec![3, 1, 2, 9, 3]);
}

#[test]
fn runs_are_maximal() {
    let mut grouped = GroupBy::new(VecProducer::new(vec![5, 5, 5, 2, 2, 5]), IdentityKey);

    let mut kinds: Vec<i32> = Vec::new();
    while let Some(g) = grouped.produce_next() {
        assert!(!g.items.is_empty());
        for item in &g.items {
            assert_eq!(*item, g.kind);
        }
        kinds.push(g.kind);
    }

    for pair in kinds.windows(2) {
        assert_ne!(pair[0], pair[1]);
    }
    assert_eq!(kinds, vec![5, 2, 5]);
}

#[test]
fn empty_source_yields_no_group() {
    let mut grouped = GroupBy::new(VecProducer::new(Vec::<i32>::new()), IdentityKey);

    assert!(grouped.produce_next().is_none());
    assert!(grouped.produce_next().is_none());
}
