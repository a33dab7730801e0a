use stablessh::queue::{Queue, QueueError};

#[test]
fn test_add_sub() {
    let q = Queue::new(2);
    assert_eq!(q.add(0, 1), 1);
    assert_eq!(q.add(1, 1), 2);
    assert_eq!(q.add(1, 2), 3);
    assert_eq!(q.add(1, 3), 0);
    assert_eq!(q.sub(0, 1), 3);
    let q2 = Queue::new(32);
    assert_eq!(q2.add(u32::MAX, 1), 0);
    assert_eq!(q2.add(u32::MAX, u32::MAX), u32::MAX - 1);
}

#[test]
fn test_queue() {
    let mut q = Queue::new(2);
    assert_eq!(q.len(), 0);
    assert_eq!(q.head(), 1);
    assert_eq!(q.list(0).unwrap().len(), 0);
    assert!(matches!(q.list(1), Err(_)));
    assert!(matches!(q.list(2), Err(_)));
    assert!(matches!(q.list(3), Err(_)));
    assert!(matches!(q.push(vec![1]), Ok(1)));
    assert_eq!(q.len(), 1);
    assert_eq!(q.head(), 1);
    assert_eq!(q.list(0).unwrap().len(), 1);
    assert_eq!(q.list(0).unwrap()[0].0, 1);
    assert_eq!(q.list(1).unwrap().len(), 0);
    assert!(matches!(q.list(2), Err(_)));
    assert!(matches!(q.list(3), Err(_)));
    assert!(matches!(q.check(1), Ok(())));
    assert_eq!(q.len(), 0);
    assert_eq!(q.head(), 2);
    assert!(matches!(q.list(0), Err(_)));
    assert_eq!(q.list(1).unwrap().len(), 0);
    assert!(matches!(q.list(2), Err(_)));
    assert!(matches!(q.list(3), Err(_)));
    assert!(matches!(q.check(2), Err(_)));
    assert!(matches!(q.push(vec![2]), Ok(2)));
    assert!(matches!(q.push(vec![3]), Ok(3)));
    assert!(matches!(q.push(vec![4]), Ok(0)));
    assert!(matches!(q.push(vec![5]), Ok(1)));
    assert_eq!(q.len(), 4);
    assert_eq!(q.head(), 2);
    assert_eq!(q.list(1).unwrap().len(), 4);
    assert_eq!(q.list(1).unwrap()[0].0, 2);
    assert_eq!(q.list(2).unwrap().len(), 3);
    assert_eq!(q.list(2).unwrap()[0].0, 3);
    assert_eq!(q.list(3).unwrap().len(), 2);
    assert_eq!(q.list(3).unwrap()[0].0, 0);
    assert_eq!(q.list(0).unwrap().len(), 1);
    assert_eq!(q.list(0).unwrap()[0].0, 1);
    assert!(matches!(q.push(vec![6]), Err(_)));
    assert_eq!(q.len(), 4);
    assert_eq!(q.head(), 2);
    assert!(matches!(q.check(1), Ok(())));
    assert_eq!(q.len(), 0);
    assert_eq!(q.head(), 2);
    assert!(matches!(q.list(0), Err(_)));
    assert_eq!(q.list(1).unwrap().len(), 0);
    assert!(matches!(q.list(2), Err(_)));
    assert!(matches!(q.list(3), Err(_)));
    assert!(matches!(q.check(2), Err(_)));
    assert_eq!(q.len(), 0);
    assert_eq!(q.head(), 2);
}

#[test]
fn test_overflow() {
    let mut q = Queue::new(32);
    assert!(matches!(q.push(vec![1]), Ok(1)));
    assert_eq!(q.len(), 1);
    assert_eq!(q.head(), 1);
    assert!(matches!(q.check(1), Ok(())));
    assert_eq!(q.len(), 0);
    assert_eq!(q.head(), 2);
    assert!(matches!(q.check(2), Err(_)));
    assert_eq!(q.len(), 0);
    assert_eq!(q.head(), 2);
    assert!(matches!(q.push(vec![2]), Ok(2)));
}

#[test]
fn test_window_wrap() {
    // Two window bits: identifiers 0..3, and a full window of four chunks.
    let mut q = Queue::new(2);
    assert_eq!(q.push(vec![0xa]), Ok(1));
    assert_eq!(q.push(vec![0xb]), Ok(2));
    assert_eq!(q.push(vec![0xc]), Ok(3));
    assert_eq!(q.push(vec![0xd]), Ok(0));
    assert_eq!(q.push(vec![0xe]), Err(QueueError::Full));
    assert_eq!(q.check(1), Ok(()));
    assert_eq!(q.len(), 3);
    assert_eq!(q.head(), 2);
    let listed = q.list(1).unwrap();
    let ids: Vec<u32> = listed.iter().map(|p| p.0).collect();
    assert_eq!(ids, vec![2, 3, 0]);
}

#[test]
fn test_push_error_kinds() {
    let mut q = Queue::new(1);
    assert_eq!(q.push(vec![1]), Ok(1));
    assert_eq!(q.push(vec![2]), Ok(0));
    assert_eq!(q.push(vec![3]), Err(QueueError::Full));
    let mut q2 = Queue::new(2);
    assert_eq!(q2.push(vec![1]), Ok(1));
    assert_eq!(q2.check(3), Err(QueueError::InvalidAck));
    assert_eq!(q2.list(3), Err(QueueError::InvalidCursor));
}

#[test]
fn test_ack_idempotent() {
    // Acknowledging the same identifier twice fails the second time and
    // leaves the head where the first acknowledgement put it.
    let mut q = Queue::new(2);
    assert_eq!(q.push(vec![1]), Ok(1));
    assert_eq!(q.push(vec![2]), Ok(2));
    assert_eq!(q.check(1), Ok(()));
    assert_eq!(q.head(), 2);
    assert_eq!(q.len(), 1);
    assert_eq!(q.check(1), Err(QueueError::InvalidAck));
    assert_eq!(q.head(), 2);
    assert_eq!(q.len(), 1);
}

#[test]
fn test_list_then_ack_all() {
    // Acknowledging everything a listing returned, in order, leaves the
    // queue exactly as a single acknowledge-through of the last listed
    // identifier: empty, with the head one past it.
    let mut q = Queue::new(3);
    for p in 1u8..=5 {
        q.push(vec![p]).unwrap();
    }
    let listed = q.list(2).unwrap();
    let ids: Vec<u32> = listed.iter().map(|p| p.0).collect();
    assert_eq!(ids, vec![3, 4, 5]);
    for id in ids {
        q.check(id).unwrap();
    }
    let mut single = Queue::new(3);
    for p in 1u8..=5 {
        single.push(vec![p]).unwrap();
    }
    single.check(5).unwrap();
    assert_eq!(q.len(), single.len());
    assert_eq!(q.head(), single.head());
    assert_eq!(q.len(), 0);
    assert_eq!(q.head(), 6);
}
