use bbring::RingBuffer;

#[test]
fn back_pressure() {
    // capacity 4 in two blocks of two
    let mut q = RingBuffer::<u32, 2, 2>::new();
    assert!(q.push(10).is_ok());
    assert!(q.push(11).is_ok());
    assert!(q.push(12).is_ok());
    assert!(q.push(13).is_ok());
    // the ring is full; the rejected value comes back intact
    assert_eq!(q.push(14), Err(14));
    // room opens block by block: one pop is not enough, draining the
    // consumer's whole block is
    assert_eq!(q.pop(), Some(10));
    assert_eq!(q.push(14), Err(14));
    assert_eq!(q.pop(), Some(11));
    assert!(q.push(14).is_ok());
    assert!(q.push(15).is_ok());
    assert_eq!(q.push(16), Err(16));
    assert_eq!(q.pop(), Some(12));
    assert_eq!(q.pop(), Some(13));
    assert_eq!(q.pop(), Some(14));
    assert_eq!(q.pop(), Some(15));
    assert_eq!(q.pop(), None);
}

#[test]
fn len_and_capacity() {
    let mut q = RingBuffer::<u8, 2, 2>::new();
    assert_eq!(q.capacity(), 4);
    assert!(q.is_empty());
    assert!(!q.is_full());
    assert_eq!(q.len(), 0);
    q.push(1).unwrap();
    assert_eq!(q.len(), 1);
    assert!(!q.is_empty());
    q.push(2).unwrap();
    assert_eq!(q.len(), 2);
    q.push(3).unwrap();
    assert_eq!(q.len(), 3);
    q.push(4).unwrap();
    assert_eq!(q.len(), 4);
    assert!(q.is_full());
    // the count never passes the capacity, whatever the interleaving
    assert!(q.push(5).is_err());
    assert_eq!(q.len(), 4);
    q.pop().unwrap();
    assert_eq!(q.len(), 3);
    q.pop().unwrap();
    q.push(5).unwrap();
    assert_eq!(q.len(), 3);
    let cap = q.capacity();
    while q.pop().is_some() {
        assert!(q.len() <= cap);
    }
    assert!(q.is_empty());
}

#[test]
fn round_trip() {
    // push then pop on an empty ring returns the value; popping the empty
    // ring returns nothing
    let mut q = RingBuffer::<u64, 4, 2>::new();
    assert_eq!(q.pop(), None);
    q.push(99).unwrap();
    assert_eq!(q.pop(), Some(99));
    assert_eq!(q.pop(), None);
    // again after wrapping a few laps
    for lap in 0..64u64 {
        q.push(lap).unwrap();
        assert_eq!(q.pop(), Some(lap));
    }
    assert_eq!(q.pop(), None);
}

#[test]
fn single_slot_blocks() {
    // the smallest ring: two blocks of one slot each
    let mut q = RingBuffer::<u16, 2, 1>::new();
    assert_eq!(q.capacity(), 2);
    q.push(1).unwrap();
    q.push(2).unwrap();
    assert_eq!(q.push(3), Err(3));
    assert_eq!(q.pop(), Some(1));
    q.push(3).unwrap();
    assert_eq!(q.pop(), Some(2));
    assert_eq!(q.pop(), Some(3));
    assert_eq!(q.pop(), None);
}

#[test]
fn fifo_across_laps() {
    // order holds while the cursors wrap the ring many times
    let mut q = RingBuffer::<usize, 4, 4>::new();
    let mut expected: usize = 0;
    for i in 0..10_000usize {
        while q.push(i).is_err() {
            assert_eq!(q.pop(), Some(expected));
            expected += 1;
        }
    }
    while let Some(x) = q.pop() {
        assert_eq!(x, expected);
        expected += 1;
    }
    assert_eq!(expected, 10_000);
}
