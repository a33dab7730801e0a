use stablessh::ident::pubkey_to_id;
use stablessh::pool::{ConnPool, KillOutcome, PoolError};

#[test]
fn test_handle() {
    // Holding an entry suspends its idle accounting; releasing it stamps
    // the release time.
    let mut pool = ConnPool::new(10);
    let pubkey = vec![1, 2, 3];
    pool.insert(pubkey.clone(), None, 100);
    assert!(pool.hold(&pubkey));
    assert!(matches!(pool.last_active(&pubkey, 105), None));
    pool.release(&pubkey, 105);
    assert!(matches!(pool.last_active(&pubkey, 105), Some(_)));
    assert_eq!(pool.last_active(&pubkey, 112), Some(7));
}

#[test]
fn test_hold_kill_race() {
    // A kill while a session holds the entry is refused and changes
    // nothing; after the release it succeeds and the entry is gone.
    let mut pool = ConnPool::new(10);
    let pubkey = vec![9, 9, 9];
    pool.insert(pubkey.clone(), None, 0);
    assert!(pool.hold(&pubkey));
    assert_eq!(pool.kill(&pubkey), Ok(false));
    assert!(pool.get(&pubkey));
    pool.release(&pubkey, 1);
    assert_eq!(pool.kill(&pubkey), Ok(true));
    assert!(!pool.get(&pubkey));
    assert_eq!(pool.kill(&pubkey), Err(PoolError::NotFound));
}

#[test]
fn test_hold_is_exclusive() {
    let mut pool = ConnPool::new(10);
    let pubkey = vec![4];
    pool.insert(pubkey.clone(), None, 0);
    assert!(pool.hold(&pubkey));
    // A second hold while the first is live is refused.
    assert!(!pool.hold(&pubkey));
    pool.release(&pubkey, 3);
    assert!(pool.hold(&pubkey));
    // Holding an unknown key is refused too.
    assert!(!pool.hold(&vec![5]));
}

#[test]
fn test_collect() {
    let mut pool = ConnPool::new(10);
    pool.insert(vec![1], None, 100); // idle for 50 s at collect time
    pool.insert(vec![2], None, 145); // idle for 5 s
    pool.insert(vec![3], None, 100); // held: never collected
    pool.hold(&vec![3]);
    let removed = pool.collect(150);
    assert_eq!(removed, vec![vec![1]]);
    assert!(!pool.get(&vec![1]));
    assert!(pool.get(&vec![2]));
    assert!(pool.get(&vec![3]));
    // Exactly at the timeout the entry stays; one second later it goes.
    assert_eq!(pool.collect(155), Vec::<Vec<u8>>::new());
    assert_eq!(pool.collect(156), vec![vec![2]]);
}

#[test]
fn test_list_keys() {
    let mut pool = ConnPool::new(10);
    pool.insert(vec![1, 1], None, 0);
    pool.insert(vec![2, 2], None, 0);
    assert_eq!(pool.list(), vec![vec![1, 1], vec![2, 2]]);
    // Re-inserting a known key replaces its entry instead of adding one.
    pool.insert(vec![1, 1], None, 5);
    assert_eq!(pool.list(), vec![vec![1, 1], vec![2, 2]]);
}

#[test]
fn test_conn_row() {
    let mut pool = ConnPool::new(10);
    let pubkey = vec![0x01, 0xab];
    pool.insert(pubkey.clone(), Some("peer".to_string()), 100);
    let row = pool.conn_row(&pubkey, 107, 3).unwrap();
    assert_eq!(row.id, b"01ab".to_vec());
    assert_eq!(row.name, Some("peer".to_string()));
    assert_eq!(row.last_active, Some(7));
    assert_eq!(row.pkt_buf, 3);
    assert!(pool.conn_row(&vec![0xff], 107, 0).is_none());
    // While held, the row shows no idle age.
    pool.hold(&pubkey);
    let held_row = pool.conn_row(&pubkey, 120, 0).unwrap();
    assert_eq!(held_row.last_active, None);
}

#[test]
fn test_kill_by_id() {
    let mut pool = ConnPool::new(10);
    let pubkey = vec![0xde, 0xad];
    pool.insert(pubkey.clone(), None, 0);
    let id = pubkey_to_id(&pubkey);
    assert_eq!(id, b"dead".to_vec());
    assert_eq!(pool.kill_by_id(&b"beef".to_vec()), KillOutcome::NotFound);
    pool.hold(&pubkey);
    assert_eq!(pool.kill_by_id(&id), KillOutcome::InUse);
    pool.release(&pubkey, 1);
    assert_eq!(pool.kill_by_id(&id), KillOutcome::Killed);
    assert!(!pool.get(&pubkey));
}
