use rollercoaster::memory::Memory;
use rollercoaster::{Rollercoaster, VecProducer};

fn mock() -> Vec<&'static str> {
    vec!["a", "b", "c", "d", "e"]
}

fn drain<R: Rollercoaster>(producer: &mut R) -> Vec<R::Item> {
    let mut collected = Vec::new();
    while let Some(item) = producer.produce_next() {
        collected.push(item);
    }
    collected
}

#[test]
fn it_remembers() {
    let mut memory = Memory::new(VecProducer::new(mock()));

    while let Some(letter) = memory.produce_next() {
        if letter == "d" {
            memory.remember(letter);
            break;
        }
    }

    assert_eq!(drain(&mut memory), vec!["d", "e"]);
}

#[test]
fn it_forgets() {
    let mut memory = Memory::new(VecProducer::new(mock()));

    memory.remember("f");
    memory.remember("g");
    memory.forget();

    assert_eq!(drain(&mut memory), vec!["f", "a", "b", "c", "d", "e"]);
}

#[test]
fn stack_replays_in_reverse() {
    let mut memory = Memory::new(VecProducer::new(vec![10, 20]));

    memory.remember(1);
    memory.remember(2);
    memory.remember(3);

    assert_eq!(drain(&mut memory), vec![3, 2, 1, 10, 20]);
}

#[test]
fn remember_then_forget_is_a_noop() {
    let mut memory = Memory::new(VecProducer::new(vec![7, 8]));

    memory.remember(5);
    memory.forget();

    assert_eq!(drain(&mut memory), vec![7, 8]);
}

#[test]
fn forget_on_empty_buffer_is_a_noop() {
    let mut memory = Memory::new(VecProducer::new(vec![1, 2]));

    memory.forget();

    assert_eq!(drain(&mut memory), vec![1, 2]);
}

#[test]
fn clear_empties_the_buffer() {
    let mut memory = Memory::new(VecProducer::new(vec![9]));

    memory.remember(4);
    memory.remember(5);
    memory.clear();

    assert_eq!(drain(&mut memory), vec![9]);
}

#[test]
fn stays_exhausted() {
    let mut memory = Memory::new(VecProducer::new(Vec::<i32>::new()));

    assert_eq!(memory.produce_next(), None);
    assert_eq!(memory.produce_next(), None);

    memory.remember(3);
    assert_eq!(memory.produce_next(), Some(3));
    assert_eq!(memory.produce_next(), None);
}
