use douconel::Memory;

#[test]
fn fresh_slots_grow_the_buffer() {
    let mut mem: Memory<u32> = Memory::new();
    assert_eq!(mem.items().len(), 0);
    let a = mem.allocate(10);
    let b = mem.allocate(20);
    assert_eq!(a, 0);
    assert_eq!(b, 1);
    assert_eq!(*mem.deref(a), 10);
    assert_eq!(*mem.deref(b), 20);
    assert_eq!(mem.items(), vec![10, 20]);
}

#[test]
fn released_slots_are_reused() {
    let mut mem: Memory<&str> = Memory::new();
    let a = mem.allocate("first");
    let b = mem.allocate("second");
    mem.dealloc(a);
    let c = mem.allocate("third");
    assert_eq!(c, a, "the freed slot is handed out again");
    assert_eq!(*mem.deref(c), "third");
    assert_eq!(*mem.deref(b), "second");
    assert_eq!(mem.items().len(), 2);
}

#[test]
fn writing_through_a_slot_borrow() {
    let mut mem: Memory<u32> = Memory::new();
    let a = mem.allocate(1);
    *mem.deref_mut(a) = 5;
    assert_eq!(*mem.deref(a), 5);
    assert_eq!(mem.items(), vec![5]);
}

#[test]
fn release_order_drives_reuse_order() {
    let mut mem: Memory<u8> = Memory::new();
    let a = mem.allocate(1);
    let b = mem.allocate(2);
    let c = mem.allocate(3);
    mem.dealloc(a);
    mem.dealloc(c);
    // the most recently released slot comes back first
    assert_eq!(mem.allocate(9), c);
    assert_eq!(mem.allocate(8), a);
    assert_eq!(mem.allocate(7), 3);
    let _ = b;
}
