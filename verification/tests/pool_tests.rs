use kv_connector::error::SlotError;
use kv_connector::keys::{content_key, mix_key};
use kv_connector::matching::{find_hit, match_prefix, publish_keys};
use kv_connector::pool::{Block, BlockPool};
use kv_connector::slot::SlotManager;

#[test]
fn keys_are_exact() {
    assert_eq!(mix_key(0, 0), 1);
    assert_eq!(mix_key(1, 2), 1099511628214);
    assert_eq!(mix_key(u64::MAX, 0), 18446742974197923406);
    assert_eq!(content_key(5, &vec![]), 5);
    assert_eq!(content_key(1, &vec![2]), 1099511628214);
    assert_eq!(content_key(0, &vec![0, 0]), mix_key(1, 0));
    assert_ne!(content_key(0, &vec![1, 2]), content_key(0, &vec![2, 1]));
}

#[test]
fn new_pool_is_free() {
    let pool = BlockPool::new(3);
    assert_eq!(pool.capacity(), 3);
    assert_eq!(
        pool.get(2),
        Some(Block { id: 2, ref_count: 0, content_key: None, loading: false, save_pending: false })
    );
    assert_eq!(pool.get(3), None);
}

#[test]
fn allocate_takes_lowest_free_block() {
    let mut pool = BlockPool::new(3);
    pool.retain_all(&vec![0]);
    assert!(pool.set_save_pending(1, true));
    assert_eq!(pool.allocate(), Some(2));
    assert_eq!(pool.get(2).unwrap().ref_count, 1);
    assert_eq!(pool.allocate(), None);
    pool.release_all(&vec![0]);
    assert_eq!(pool.allocate(), Some(0));
    assert_eq!(BlockPool::new(0).allocate(), None);
}

#[test]
fn retain_and_release_count_occurrences() {
    let mut pool = BlockPool::new(3);
    assert!(pool.check_retain(&vec![0, 2, 2]));
    assert!(!pool.check_retain(&vec![0, 3]));
    pool.retain_all(&vec![0, 2, 2]);
    assert_eq!(pool.get(0).unwrap().ref_count, 1);
    assert_eq!(pool.get(1).unwrap().ref_count, 0);
    assert_eq!(pool.get(2).unwrap().ref_count, 2);
    pool.release_all(&vec![2, 9, 1, 0, 0]);
    assert_eq!(pool.get(0).unwrap().ref_count, 0);
    assert_eq!(pool.get(1).unwrap().ref_count, 0);
    assert_eq!(pool.get(2).unwrap().ref_count, 1);
}

#[test]
fn pending_saves_are_found() {
    let mut pool = BlockPool::new(3);
    assert!(!pool.has_pending_save(&vec![0, 1, 2, 3]));
    assert!(pool.set_save_pending(1, true));
    assert!(!pool.set_save_pending(3, true));
    assert!(pool.has_pending_save(&vec![0, 1]));
    assert!(!pool.has_pending_save(&vec![0, 2]));
    assert!(!pool.has_pending_save(&vec![]));
}

#[test]
fn published_keys_are_found_while_referenced() {
    let mut pool = BlockPool::new(4);
    let tokens = vec![1, 2, 3, 4, 5];
    publish_keys(&mut pool, &vec![2, 9, 1], 7, &tokens, 2, 5);
    assert_eq!(pool.get(2).unwrap().content_key, Some(content_key(7, &vec![1, 2])));
    assert_eq!(pool.get(1).unwrap().content_key, None);
    assert_eq!(pool.get(0).unwrap().content_key, None);
    let key = content_key(7, &vec![1, 2]);
    assert_eq!(find_hit(&pool, key), None);
    pool.retain_all(&vec![2]);
    assert_eq!(find_hit(&pool, key), Some(2));
    let m = match_prefix(&pool, 7, &tokens, 2, 0);
    assert_eq!((m.num_tokens, m.ready, m.blocks), (2, true, vec![2]));
    let m = match_prefix(&pool, 7, &tokens, 2, 1);
    assert_eq!((m.num_tokens, m.ready, m.blocks), (0, true, vec![]));
}

#[test]
fn slot_manager_keeps_its_registry() {
    assert!(SlotManager::new(0).is_none());
    let mut slots = SlotManager::new(4).unwrap();
    let r1 = "r1".to_string();
    let r2 = "r2".to_string();
    assert_eq!(slots.create_slot(&r1, 1, vec![1, 2, 3, 4, 5]), Ok(()));
    assert_eq!(slots.create_slot(&r2, 2, vec![]), Ok(()));
    assert_eq!(slots.create_slot(&r2, 2, vec![]), Err(SlotError::AlreadyExists(r2.clone())));
    assert_eq!(slots.find(&r2), Some(1));
    assert!(slots.lookup(&"r3".to_string()).is_none());
    assert_eq!(slots.advance(&"r3".to_string(), vec![1], 1), Err(SlotError::NotFound("r3".to_string())));
    assert_eq!(slots.advance(&r1, vec![6], 5), Err(SlotError::Overflow(r1.clone())));
    assert_eq!(slots.advance(&r1, vec![6, 7], 6), Err(SlotError::Overflow(r1.clone())));
    assert_eq!(slots.advance(&r2, vec![6], 1), Err(SlotError::Overflow(r2.clone())));
    assert_eq!(slots.advance(&r1, vec![6, 7], 5), Ok(()));
    assert_eq!(slots.advance(&r1, vec![], 0), Ok(()));
    let slot = slots.lookup(&r1).unwrap();
    assert_eq!(slot.num_computed_tokens, 5);
    assert_eq!(slot.block_ids, vec![6, 7]);
    slots.add_reserved(0, vec![3]);
    assert_eq!(slots.remove(&r1), Ok(vec![6, 7, 3]));
    assert_eq!(slots.remove(&r1), Err(SlotError::NotFound(r1.clone())));
    assert_eq!(slots.find(&r2), Some(0));
    assert_eq!(slots.take_reserved(0), vec![]);
}

#[test]
fn list_helpers_are_exact() {
    assert_eq!(BlockPool::count_occurrences(&vec![1, 2, 1, 1], 1), 3);
    assert_eq!(BlockPool::count_occurrences(&vec![1, 2, 1, 1], 3), 0);
    assert_eq!(BlockPool::count_occurrences(&vec![], 3), 0);
    assert!(BlockPool::check_ends_with(&vec![1, 2, 3], &vec![2, 3]));
    assert!(BlockPool::check_ends_with(&vec![1, 2, 3], &vec![]));
    assert!(BlockPool::check_ends_with(&vec![], &vec![]));
    assert!(!BlockPool::check_ends_with(&vec![1, 2, 3], &vec![1, 2]));
    assert!(!BlockPool::check_ends_with(&vec![3], &vec![2, 3]));
}

#[test]
fn blocks_awaiting_a_save_are_found() {
    let mut pool = BlockPool::new(3);
    assert!(pool.set_save_pending(1, true));
    assert!(!pool.check_none_awaits_save(&vec![0, 1]));
    assert!(pool.check_none_awaits_save(&vec![0, 2, 9]));
    pool.retain_all(&vec![1]);
    assert!(pool.check_none_awaits_save(&vec![0, 1]));
}
