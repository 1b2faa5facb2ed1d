use std::mem::ManuallyDrop;

use allockator::fuzz::{Shared, SlabMachine, SlabSpawner};
use allockator::slab::SlabAlloc;
use allockator::stream::InputStream;
use allockator::values::{Action, Values};

fn input(numbers: &[u128]) -> InputStream {
    let mut bytes = Vec::new();
    for number in numbers {
        bytes.extend(number.to_le_bytes());
    }
    InputStream::new(&bytes)
}

fn slot_with(value: u128) -> Option<ManuallyDrop<u128>> {
    Some(ManuallyDrop::new(value))
}

fn cycle(machine: &mut SlabMachine, shared: &mut Shared, opcode: u8, numbers: &[u128]) {
    let mut stream = input(numbers);
    machine.cycle(shared, opcode, &mut stream);
    assert_eq!(stream.read_u8(), None);
}

#[test]
fn handles_are_kept_by_value() {
    let mut values = Values::new();
    assert!(values.take_at_most(u128::MAX).is_none());
    values.put(5, 'a');
    values.put(3, 'b');
    values.put(3, 'c');
    assert!(values.take_at_most(2).is_none());
    assert_eq!(values.take_at_most(9), Some((3, 'c', false)));
    assert_eq!(values.take_at_most(3), Some((3, 'b', true)));
    assert_eq!(values.take_at_most(4), None);
    assert_eq!(values.take_at_most(5), Some((5, 'a', true)));
    values.put(7, 'd');
    values.put(7, 'e');
    values.put(8, 'f');
    assert_eq!(values.take_smallest(), Some((7, vec!['d', 'e'])));
    assert_eq!(values.take_smallest(), Some((8, vec!['f'])));
    assert_eq!(values.take_smallest(), None);
}

#[test]
fn an_opcode_decides_what_to_do() {
    let mut values = Values::new();
    values.put(5, 'a');
    assert!(matches!(values.decide(9, &mut input(&[7])), Action::Store { value: 7 }));
    assert!(matches!(values.decide(1, &mut input(&[4])), Action::Rest));
    assert!(matches!(values.decide(2, &mut input(&[4])), Action::Rest));
    values.put(5, 'b');
    let action = values.decide(5, &mut input(&[5, 5]));
    assert!(matches!(action, Action::Replace { key: 5, handle: 'b', value: 5, keep: true }));
    let action = values.decide(255 - 1, &mut input(&[6, 5]));
    assert!(matches!(action, Action::Replace { key: 5, handle: 'a', value: 5, keep: false }));
    values.put(8, 'c');
    assert!(matches!(values.decide(4, &mut input(&[9])), Action::Discard { key: 8, handle: 'c' }));
    assert!(matches!(values.decide(4, &mut input(&[9])), Action::Rest));
}

#[test]
fn the_count_follows_the_slab() {
    let mut shared = Shared::new(SlabAlloc::new(1));
    let handle = shared.allocate().unwrap();
    assert!(shared.allocate().is_none());
    assert!(format!("{:?}", shared).contains("count: 1"));
    shared.dealloc(handle);
    assert!(format!("{:?}", shared).contains("count: 0"));
    assert!(shared.allocate().is_some());
}

#[test]
fn a_machine_stores_discards_and_replaces() {
    let mut shared = Shared::new(SlabAlloc::new(2));
    let mut machine = SlabMachine::new();
    cycle(&mut machine, &mut shared, 0, &[40]);
    cycle(&mut machine, &mut shared, 3, &[30]);
    // The slab is full.
    cycle(&mut machine, &mut shared, 6, &[20]);
    assert!(format!("{:?}", shared).contains("count: 2"));
    // Nothing is small enough.
    cycle(&mut machine, &mut shared, 1, &[29]);
    cycle(&mut machine, &mut shared, 2, &[29]);
    assert!(format!("{:?}", shared).contains("count: 2"));
    cycle(&mut machine, &mut shared, 2, &[35, 50]);
    assert!(format!("{:?}", shared).contains(&format!("data: {:?}", slot_with(50))));
    cycle(&mut machine, &mut shared, 4, &[49]);
    assert!(format!("{:?}", shared).contains("count: 1"));
    cycle(&mut machine, &mut shared, 4, &[49]);
    assert!(format!("{:?}", shared).contains("count: 1"));
    cycle(&mut machine, &mut shared, 4, &[50]);
    assert!(format!("{:?}", shared).contains("count: 0"));
}

#[test]
fn a_lone_value_that_replaces_itself_is_forgotten() {
    let mut shared = Shared::new(SlabAlloc::new(2));
    let mut machine = SlabMachine::new();
    cycle(&mut machine, &mut shared, 0, &[1]);
    cycle(&mut machine, &mut shared, 2, &[1, 1]);
    cycle(&mut machine, &mut shared, 1, &[1]);
    assert!(format!("{:?}", shared).contains("count: 1"));
    machine.close(&mut shared);
    assert!(format!("{:?}", shared).contains("count: 1"));
}

#[test]
fn one_of_two_values_that_replaces_itself_is_kept() {
    let mut shared = Shared::new(SlabAlloc::new(2));
    let mut machine = SlabMachine::new();
    cycle(&mut machine, &mut shared, 0, &[1]);
    cycle(&mut machine, &mut shared, 0, &[1]);
    cycle(&mut machine, &mut shared, 2, &[1, 1]);
    machine.close(&mut shared);
    assert!(format!("{:?}", shared).contains("count: 0"));
}

#[test]
fn closing_gives_back_the_smallest_value_first() {
    let mut shared = Shared::new(SlabAlloc::new(3));
    let mut machine = SlabMachine::new();
    cycle(&mut machine, &mut shared, 0, &[9]);
    cycle(&mut machine, &mut shared, 0, &[4]);
    cycle(&mut machine, &mut shared, 0, &[4]);
    machine.close(&mut shared);
    assert!(format!("{:?}", shared).contains("count: 0"));
    // The slots went back in the order 1, 2, 0.
    assert!(format!("{:?}", shared).contains("free_list: 0"));
    assert!(format!("{:?}", shared).contains(&format!("next: 2, data: {:?}", slot_with(9))));
    assert!(format!("{:?}", shared).contains(&format!("next: 3, data: {:?}", slot_with(4))));
    assert!(format!("{:?}", shared).contains(&format!("next: 1, data: {:?}", slot_with(4))));
}

#[test]
fn two_machines_share_a_slab() {
    let mut stream = InputStream::new(&[2, 0, 77]);
    let mut spawner = SlabSpawner::new();
    let mut first = spawner.spawn(&mut stream);
    let mut second = spawner.spawn(&mut stream);
    assert_eq!(stream.read_u8(), Some(77));
    let shared = spawner.slab.as_mut().unwrap();
    cycle(&mut first, shared, 0, &[5]);
    cycle(&mut second, shared, 0, &[5]);
    cycle(&mut second, shared, 0, &[6]);
    cycle(&mut first, shared, 2, &[5, 8]);
    cycle(&mut second, shared, 1, &[5]);
    cycle(&mut first, shared, 1, &[8]);
    assert!(format!("{:?}", shared).contains("count: 0"));
    first.close(shared);
    second.close(shared);
}

#[test]
fn many_cycles_end_with_an_empty_machine() {
    let mut state: u64 = 0x2545_f491_4f6c_dd1d;
    let mut bytes = Vec::new();
    for _ in 0..4000 {
        state ^= state << 13;
        state ^= state >> 7;
        state ^= state << 17;
        bytes.push((state >> 32) as u8);
    }
    let mut stream = InputStream::new(&bytes);
    let mut shared = Shared::new(SlabAlloc::new(17));
    let mut machine = SlabMachine::new();
    while let Some(opcode) = stream.read_u8() {
        machine.cycle(&mut shared, opcode, &mut stream);
    }
    machine.close(&mut shared);
    assert!(format!("{:?}", shared).contains("count: 0"));
}
