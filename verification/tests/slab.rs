use std::cell::Cell;
use std::mem::ManuallyDrop;
use std::rc::Rc;

use allockator::slab::SlabAlloc;

#[test]
fn alloc_one() {
    let mut allocator = SlabAlloc::<i32>::new(3);
    let slab_ptr = allocator.allocate().unwrap();

    *slab_ptr.pointer(&mut allocator) = Some(ManuallyDrop::new(9));
    assert_eq!(*slab_ptr.pointer(&mut allocator), Some(ManuallyDrop::new(9)));
    **slab_ptr.pointer(&mut allocator).as_mut().unwrap() = 5;
    assert_eq!(*slab_ptr.pointer(&mut allocator), Some(ManuallyDrop::new(5)));

    allocator.dealloc(slab_ptr);
}

#[test]
fn alloc_two_concomitant() {
    let mut allocator = SlabAlloc::<i32>::new(3);
    let slab_ptr_0 = allocator.allocate().unwrap();
    let slab_ptr_1 = allocator.allocate().unwrap();

    *slab_ptr_0.pointer(&mut allocator) = Some(ManuallyDrop::new(9));
    assert_eq!(*slab_ptr_0.pointer(&mut allocator), Some(ManuallyDrop::new(9)));
    *slab_ptr_1.pointer(&mut allocator) = Some(ManuallyDrop::new(5));
    assert_eq!(*slab_ptr_1.pointer(&mut allocator), Some(ManuallyDrop::new(5)));
    assert_eq!(*slab_ptr_0.pointer(&mut allocator), Some(ManuallyDrop::new(9)));
    **slab_ptr_0.pointer(&mut allocator).as_mut().unwrap() = 19;
    assert_eq!(*slab_ptr_0.pointer(&mut allocator), Some(ManuallyDrop::new(19)));
    assert_eq!(*slab_ptr_1.pointer(&mut allocator), Some(ManuallyDrop::new(5)));
    **slab_ptr_1.pointer(&mut allocator).as_mut().unwrap() = 10;
    assert_eq!(*slab_ptr_0.pointer(&mut allocator), Some(ManuallyDrop::new(19)));
    assert_eq!(*slab_ptr_1.pointer(&mut allocator), Some(ManuallyDrop::new(10)));

    allocator.dealloc(slab_ptr_0);
    allocator.dealloc(slab_ptr_1);
}

#[test]
fn alloc_again() {
    let mut allocator = SlabAlloc::<i32>::new(3);
    let slab_ptr = allocator.allocate().unwrap();

    *slab_ptr.pointer(&mut allocator) = Some(ManuallyDrop::new(9));
    assert_eq!(*slab_ptr.pointer(&mut allocator), Some(ManuallyDrop::new(9)));
    **slab_ptr.pointer(&mut allocator).as_mut().unwrap() = 5;
    assert_eq!(*slab_ptr.pointer(&mut allocator), Some(ManuallyDrop::new(5)));

    allocator.dealloc(slab_ptr);

    let slab_ptr = allocator.allocate().unwrap();

    *slab_ptr.pointer(&mut allocator) = Some(ManuallyDrop::new(-23));
    assert_eq!(*slab_ptr.pointer(&mut allocator), Some(ManuallyDrop::new(-23)));
    **slab_ptr.pointer(&mut allocator).as_mut().unwrap() = 58;
    assert_eq!(*slab_ptr.pointer(&mut allocator), Some(ManuallyDrop::new(58)));

    allocator.dealloc(slab_ptr);
}

#[test]
fn alloc_again_interleaving() {
    let mut allocator = SlabAlloc::<i32>::new(3);
    let slab_ptr_0 = allocator.allocate().unwrap();
    let slab_ptr_1 = allocator.allocate().unwrap();

    *slab_ptr_0.pointer(&mut allocator) = Some(ManuallyDrop::new(9));
    assert_eq!(*slab_ptr_0.pointer(&mut allocator), Some(ManuallyDrop::new(9)));
    *slab_ptr_1.pointer(&mut allocator) = Some(ManuallyDrop::new(5));
    assert_eq!(*slab_ptr_1.pointer(&mut allocator), Some(ManuallyDrop::new(5)));

    allocator.dealloc(slab_ptr_0);

    let slab_ptr_2 = allocator.allocate().unwrap();

    *slab_ptr_2.pointer(&mut allocator) = Some(ManuallyDrop::new(-23));
    assert_eq!(*slab_ptr_2.pointer(&mut allocator), Some(ManuallyDrop::new(-23)));
    *slab_ptr_1.pointer(&mut allocator) = Some(ManuallyDrop::new(5));
    assert_eq!(*slab_ptr_1.pointer(&mut allocator), Some(ManuallyDrop::new(5)));

    allocator.dealloc(slab_ptr_1);
    allocator.dealloc(slab_ptr_2);
}

#[test]
fn alloc_at_limit() {
    let mut allocator = SlabAlloc::<i32>::new(2);
    let slab_ptr_0 = allocator.allocate().unwrap();
    let slab_ptr_1 = allocator.allocate().unwrap();
    allocator.allocate().unwrap_err();

    *slab_ptr_0.pointer(&mut allocator) = Some(ManuallyDrop::new(9));
    assert_eq!(*slab_ptr_0.pointer(&mut allocator), Some(ManuallyDrop::new(9)));
    *slab_ptr_1.pointer(&mut allocator) = Some(ManuallyDrop::new(5));
    assert_eq!(*slab_ptr_1.pointer(&mut allocator), Some(ManuallyDrop::new(5)));
    assert_eq!(*slab_ptr_0.pointer(&mut allocator), Some(ManuallyDrop::new(9)));

    allocator.dealloc(slab_ptr_0);

    let slab_ptr_2 = allocator.allocate().unwrap();
    allocator.allocate().unwrap_err();

    *slab_ptr_2.pointer(&mut allocator) = Some(ManuallyDrop::new(19));
    assert_eq!(*slab_ptr_2.pointer(&mut allocator), Some(ManuallyDrop::new(19)));
    assert_eq!(*slab_ptr_1.pointer(&mut allocator), Some(ManuallyDrop::new(5)));

    allocator.dealloc(slab_ptr_1);
    allocator.dealloc(slab_ptr_2);

    let slab_ptr_3 = allocator.allocate().unwrap();
    let slab_ptr_4 = allocator.allocate().unwrap();
    allocator.allocate().unwrap_err();

    *slab_ptr_3.pointer(&mut allocator) = Some(ManuallyDrop::new(119));
    assert_eq!(*slab_ptr_3.pointer(&mut allocator), Some(ManuallyDrop::new(119)));
    *slab_ptr_4.pointer(&mut allocator) = Some(ManuallyDrop::new(115));
    assert_eq!(*slab_ptr_4.pointer(&mut allocator), Some(ManuallyDrop::new(115)));
    assert_eq!(*slab_ptr_3.pointer(&mut allocator), Some(ManuallyDrop::new(119)));

    allocator.dealloc(slab_ptr_3);
    allocator.dealloc(slab_ptr_4);
}

#[test]
fn an_empty_slab_has_nothing_to_hand_out() {
    let mut allocator = SlabAlloc::<u8>::new(0);
    assert_eq!(allocator.capacity(), 0);
    assert!(allocator.allocate().is_err());
    let error = allocator.allocate().unwrap_err();
    assert_eq!(format!("{:?}", error.clone()), format!("{:?}", error));
    assert!(allocator.try_flush_deallocs());
    allocator.flush_deallocs();
    assert!(allocator.allocate().is_err());
}

#[test]
fn slots_come_back_last_in_first_out() {
    let mut allocator = SlabAlloc::<u8>::new(3);
    let a = allocator.allocate().unwrap();
    let b = allocator.allocate().unwrap();
    *a.pointer(&mut allocator) = Some(ManuallyDrop::new(1));
    *b.pointer(&mut allocator) = Some(ManuallyDrop::new(2));
    allocator.dealloc(a);
    allocator.dealloc(b);
    let c = allocator.allocate().unwrap();
    let d = allocator.allocate().unwrap();
    let e = allocator.allocate().unwrap();
    assert_eq!(*c.pointer(&mut allocator), Some(ManuallyDrop::new(2)));
    assert_eq!(*d.pointer(&mut allocator), Some(ManuallyDrop::new(1)));
    assert_eq!(*e.pointer(&mut allocator), None);
    assert!(allocator.allocate().is_err());
}

#[test]
fn a_deferral_holds_slots_back() {
    let mut allocator = SlabAlloc::<u8>::new(2);
    let a = allocator.allocate().unwrap();
    let b = allocator.allocate().unwrap();
    *a.pointer(&mut allocator) = Some(ManuallyDrop::new(1));
    *b.pointer(&mut allocator) = Some(ManuallyDrop::new(2));

    let outer = allocator.defer_deallocs();
    let inner = allocator.defer_deallocs();
    allocator.dealloc(a);
    allocator.dealloc(b);
    assert!(!allocator.try_flush_deallocs());
    assert!(allocator.allocate().is_err());
    inner.release(&mut allocator);
    assert!(!allocator.try_flush_deallocs());
    assert!(allocator.allocate().is_err());
    outer.release(&mut allocator);
    assert!(allocator.try_flush_deallocs());

    let c = allocator.allocate().unwrap();
    let d = allocator.allocate().unwrap();
    assert_eq!(*c.pointer(&mut allocator), Some(ManuallyDrop::new(2)));
    assert_eq!(*d.pointer(&mut allocator), Some(ManuallyDrop::new(1)));
}

#[test]
fn a_flush_frees_garbage_in_spite_of_a_lost_deferral() {
    let mut allocator = SlabAlloc::<u8>::new(2);
    let a = allocator.allocate().unwrap();
    let b = allocator.allocate().unwrap();
    let _lost = allocator.defer_deallocs();
    allocator.dealloc(b);
    allocator.dealloc(a);
    assert!(allocator.allocate().is_err());
    allocator.flush_deallocs();
    assert!(!allocator.try_flush_deallocs());
    let c = allocator.allocate().unwrap();
    let d = allocator.allocate().unwrap();
    assert!(allocator.allocate().is_err());
    allocator.dealloc(c);
    allocator.dealloc(d);
    assert!(allocator.allocate().is_err());
}

#[test]
fn garbage_that_is_merged_is_what_was_taken() {
    let mut allocator = SlabAlloc::<u8>::new(4);
    let a = allocator.allocate().unwrap();
    let b = allocator.allocate().unwrap();
    let c = allocator.allocate().unwrap();
    let deferral = allocator.defer_deallocs();
    assert!(!allocator.try_flush_deallocs());
    allocator.dealloc(b);
    allocator.dealloc(c);
    allocator.dealloc(a);
    let before = format!("{:?}", allocator);
    assert!(before.contains("garbage_list: 0"));
    assert!(!allocator.try_flush_deallocs());
    assert_eq!(format!("{:?}", allocator), before);
    deferral.release(&mut allocator);
    assert!(format!("{:?}", allocator).contains("garbage_list: 4"));
}

#[test]
fn a_second_flush_finds_nothing() {
    let mut allocator = SlabAlloc::<u8>::new(2);
    let a = allocator.allocate().unwrap();
    let b = allocator.allocate().unwrap();
    let deferral = allocator.defer_deallocs();
    allocator.dealloc(a);
    allocator.dealloc(b);
    allocator.flush_deallocs();
    let once = format!("{:?}", allocator);
    assert!(once.contains("garbage_list: 2"));
    assert!(once.contains("free_list: 1"));
    allocator.flush_deallocs();
    assert_eq!(format!("{:?}", allocator), once);
    deferral.release(&mut allocator);
}

struct Counted(Rc<Cell<u32>>);

impl Drop for Counted {
    fn drop(&mut self) {
        self.0.set(self.0.get() + 1);
    }
}

#[test]
fn a_slab_drops_nothing_by_itself() {
    let drops = Rc::new(Cell::new(0));
    let mut allocator = SlabAlloc::<Counted>::new(1);
    let a = allocator.allocate().unwrap();
    *a.pointer(&mut allocator) = Some(ManuallyDrop::new(Counted(drops.clone())));
    *a.pointer(&mut allocator) = Some(ManuallyDrop::new(Counted(drops.clone())));
    assert_eq!(drops.get(), 0);
    **a.pointer(&mut allocator).as_mut().unwrap() = Counted(drops.clone());
    assert_eq!(drops.get(), 1);
    allocator.dealloc(a);
    let a = allocator.allocate().unwrap();
    *a.pointer(&mut allocator) = Some(ManuallyDrop::new(Counted(drops.clone())));
    drop(allocator);
    assert_eq!(drops.get(), 1);
}

#[test]
fn a_used_slab_hands_out_every_slot_again() {
    let mut allocator = SlabAlloc::<u8>::new(3);
    let a = allocator.allocate().unwrap();
    let b = allocator.allocate().unwrap();
    let c = allocator.allocate().unwrap();
    allocator.dealloc(b);
    allocator.dealloc(c);
    allocator.dealloc(a);
    let before = format!("{:?}", allocator);
    for value in 0..3 {
        let handle = allocator.allocate().unwrap();
        assert_eq!(*handle.pointer(&mut allocator), None);
        *handle.pointer(&mut allocator) = Some(ManuallyDrop::new(value));
    }
    assert!(allocator.allocate().is_err());
    assert!(before.contains("free_list: 0"));
}

#[test]
fn a_refused_request_changes_nothing() {
    let mut allocator = SlabAlloc::<u8>::new(2);
    let a = allocator.allocate().unwrap();
    let _b = allocator.allocate().unwrap();
    let full = format!("{:?}", allocator);
    assert!(allocator.allocate().is_err());
    assert_eq!(format!("{:?}", allocator), full);
    // One slot handed out and one held back leave no room either.
    let _deferral = allocator.defer_deallocs();
    allocator.dealloc(a);
    let held_back = format!("{:?}", allocator);
    assert!(allocator.allocate().is_err());
    assert!(allocator.allocate().is_err());
    assert_eq!(format!("{:?}", allocator), held_back);
}

#[test]
fn every_slot_is_handed_out_once() {
    let mut allocator = SlabAlloc::<usize>::new(100);
    let mut handles = Vec::new();
    for i in 0..100 {
        let handle = allocator.allocate().unwrap();
        assert_eq!(*handle.pointer(&mut allocator), None);
        *handle.pointer(&mut allocator) = Some(ManuallyDrop::new(i));
        handles.push(handle);
    }
    assert!(allocator.allocate().is_err());
    for (i, handle) in handles.iter().enumerate() {
        assert_eq!(*handle.pointer(&mut allocator), Some(ManuallyDrop::new(i)));
    }
}
