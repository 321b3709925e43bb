use memflow_efi_service::free_list::{ConcurrentStaticVec, DropPush};

#[test]
fn new_stack_is_empty() {
    let mut vec: ConcurrentStaticVec<usize, 4> = ConcurrentStaticVec::new();
    assert_eq!(vec.len(), 0);
    assert_eq!(vec.pop(), None);
    assert_eq!(vec.len(), 0);
}

#[test]
fn pop_returns_what_was_pushed_last() {
    let mut vec: ConcurrentStaticVec<usize, 4> = ConcurrentStaticVec::new();
    vec.push(10);
    vec.push(20);
    vec.push(30);
    assert_eq!(vec.len(), 3);
    assert_eq!(vec.pop(), Some(30));
    assert_eq!(vec.pop(), Some(20));
    vec.push(40);
    assert_eq!(vec.pop(), Some(40));
    assert_eq!(vec.pop(), Some(10));
    assert_eq!(vec.pop(), None);
}

#[test]
fn stack_from_an_array_is_full() {
    let mut vec: ConcurrentStaticVec<usize, 3> = ConcurrentStaticVec::new_from_const_array([7, 8, 9]);
    assert_eq!(vec.len(), 3);
    assert_eq!(vec.pop(), Some(9));
    assert_eq!(vec.pop(), Some(8));
    assert_eq!(vec.pop(), Some(7));
    assert_eq!(vec.pop(), None);
}

#[test]
fn popping_all_slots_and_pushing_them_back_restores_the_set() {
    let mut seeded = [0usize; 16];
    for (i, slot) in seeded.iter_mut().enumerate() {
        *slot = 100 + i;
    }
    let mut vec: ConcurrentStaticVec<usize, 16> = ConcurrentStaticVec::new_from_const_array(seeded);
    let mut popped = Vec::new();
    while let Some(slot) = vec.pop() {
        popped.push(slot);
    }
    assert_eq!(popped.len(), 16);
    assert_eq!(vec.len(), 0);
    for slot in popped.iter() {
        vec.push(*slot);
    }
    assert_eq!(vec.len(), 16);
    let mut restored = Vec::new();
    while let Some(slot) = vec.pop() {
        restored.push(slot);
    }
    restored.sort();
    assert_eq!(restored, seeded.to_vec());
}

#[test]
fn interleaved_pops_never_hand_out_a_slot_twice() {
    let mut vec: ConcurrentStaticVec<usize, 8> =
        ConcurrentStaticVec::new_from_const_array([0, 1, 2, 3, 4, 5, 6, 7]);
    let mut first = Vec::new();
    let mut second = Vec::new();
    for turn in 0..6 {
        let slot = vec.pop().unwrap();
        assert!(!first.contains(&slot));
        assert!(!second.contains(&slot));
        if turn % 2 == 0 {
            first.push(slot);
        } else {
            second.push(slot);
        }
    }
    let returned = first.pop().unwrap();
    vec.push(returned);
    let again = vec.pop().unwrap();
    assert_eq!(again, returned);
    assert!(!first.contains(&again));
    assert!(!second.contains(&again));
}

#[test]
fn holds_finds_the_values_on_the_stack() {
    let mut vec: ConcurrentStaticVec<usize, 4> = ConcurrentStaticVec::new();
    vec.push(3);
    vec.push(5);
    assert!(vec.holds(3));
    assert!(vec.holds(5));
    assert!(!vec.holds(4));
    assert_eq!(vec.pop(), Some(5));
    assert!(!vec.holds(5));
}

#[test]
fn handle_gives_its_value_back_on_release() {
    let mut vec: ConcurrentStaticVec<usize, 4> = ConcurrentStaticVec::new();
    vec.push(1);
    vec.push(2);
    let handle = DropPush::pop(&mut vec).unwrap();
    assert_eq!(*handle.deref(), 2);
    assert_eq!(vec.len(), 1);
    assert!(!vec.holds(2));
    handle.release(&mut vec);
    assert_eq!(vec.len(), 2);
    assert_eq!(vec.pop(), Some(2));
}

#[test]
fn handle_from_an_empty_stack_is_none() {
    let mut vec: ConcurrentStaticVec<usize, 4> = ConcurrentStaticVec::new();
    assert!(DropPush::pop(&mut vec).is_none());
}
