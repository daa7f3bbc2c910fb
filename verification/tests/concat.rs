use rollercoaster::concat::{Concat, ConcatSide};
use rollercoaster::{Rollercoaster, VecProducer};

fn drain<R: Rollercoaster>(producer: &mut R) -> Vec<R::Item> {
    let mut collected = Vec::new();
    while let Some(item) = producer.produce_next() {
        collected.push(item);
    }
    collected
}

#[test]
fn it_concats_both_ways() {
    let a = VecProducer::new(vec![1, 2, 3]);
    let b = VecProducer::new(vec![4, 5, 6]);
    let c = VecProducer::new(vec![7, 8, 9]);

    let mut chained = Concat::new(Concat::new(b, a, ConcatSide::Start), c, ConcatSide::End);

    assert_eq!(drain(&mut chained), vec![1, 2, 3, 4, 5, 6, 7, 8, 9]);
}

#[test]
fn prepend_then_append() {
    let base = VecProducer::new(vec![1, 2, 3]);
    let front = VecProducer::new(vec![4, 5, 6]);
    let back = VecProducer::new(vec![7, 8, 9]);

    let mut chained = Concat::new(
        Concat::new(base, front, ConcatSide::Start),
        back,
        ConcatSide::End,
    );

    assert_eq!(drain(&mut chained), vec![4, 5, 6, 1, 2, 3, 7, 8, 9]);
}

#[test]
fn prepending_equals_appending_the_other_way() {
    let mut prepended = Concat::new(
        VecProducer::new(vec![10, 20]),
        VecProducer::new(vec![30]),
        ConcatSide::Start,
    );
    let mut appended = Concat::new(
        VecProducer::new(vec![30]),
        VecProducer::new(vec![10, 20]),
        ConcatSide::End,
    );

    let from_prepend = drain(&mut prepended);

    assert_eq!(from_prepend, vec![30, 10, 20]);
    assert_eq!(from_prepend, drain(&mut appended));
}

#[test]
fn appending_keeps_source_order() {
    let mut appended = Concat::new(
        VecProducer::new(vec!["monads", "are", "just", "monoids"]),
        VecProducer::new(vec!["in", "the", "category", "of", "endofunctors"]),
        ConcatSide::End,
    );

    assert_eq!(
        drain(&mut appended).join(" "),
        "monads are just monoids in the category of endofunctors".to_string()
    );
}

#[test]
fn empty_sides_vanish() {
    let mut left_empty = Concat::new(
        VecProducer::new(Vec::<i32>::new()),
        VecProducer::new(vec![1, 2]),
        ConcatSide::End,
    );
    assert_eq!(drain(&mut left_empty), vec![1, 2]);

    let mut right_empty = Concat::new(
        VecProducer::new(vec![1, 2]),
        VecProducer::new(Vec::<i32>::new()),
        ConcatSide::End,
    );
    assert_eq!(drain(&mut right_empty), vec![1, 2]);

    let mut both_empty = Concat::new(
        VecProducer::new(Vec::<i32>::new()),
        VecProducer::new(Vec::<i32>::new()),
        ConcatSide::Start,
    );
    assert_eq!(both_empty.produce_next(), None);
}
