use kv_connector::error::SlotError;
use kv_connector::leader::{KvConnectorLeader, KvbmRequest};
use kv_connector::metadata::{ScheduledRequest, SchedulerOutput, Transfer};

fn id(s: &str) -> String {
    s.to_string()
}

fn request(name: &str, salt_hash: u64) -> KvbmRequest {
    KvbmRequest { request_id: id(name), salt_hash }
}

fn ref_count(leader: &KvConnectorLeader, block: u64) -> u64 {
    leader.pool.get(block).unwrap().ref_count
}

fn total_refs(leader: &KvConnectorLeader) -> u64 {
    let mut sum = 0;
    for b in 0..leader.pool.capacity() as u64 {
        sum += ref_count(leader, b);
    }
    sum
}

/// A leader in which "r1" has computed its first four tokens in block 1.
fn leader_with_r1() -> KvConnectorLeader {
    let mut leader = KvConnectorLeader::new(4, 4).unwrap();
    leader.create_slot(request("r1", 7), vec![1, 2, 3, 4, 5, 6, 7, 8]).unwrap();
    leader.update_state_after_alloc(id("r1"), vec![1], 4).unwrap();
    leader
}

#[test]
fn new_refuses_blocks_without_tokens() {
    assert!(KvConnectorLeader::new(0, 4).is_none());
    assert!(KvConnectorLeader::new(1, 0).is_some());
}

#[test]
fn empty_cache_matches_nothing() {
    let mut leader = KvConnectorLeader::new(4, 8).unwrap();
    assert_eq!(leader.create_slot(request("r1", 7), vec![1, 2, 3, 4, 5, 6, 7, 8]), Ok(()));
    assert_eq!(leader.get_num_new_matched_tokens(id("r1"), 0), Ok((0, true)));
    assert_eq!(total_refs(&leader), 0);
}

#[test]
fn shared_prefix_is_matched_and_reserved() {
    let mut leader = leader_with_r1();
    assert_eq!(ref_count(&leader, 1), 1);
    leader.create_slot(request("r2", 7), vec![1, 2, 3, 4, 9, 9, 9, 9]).unwrap();
    assert_eq!(leader.get_num_new_matched_tokens(id("r2"), 0), Ok((4, true)));
    assert_eq!(ref_count(&leader, 1), 2);
    let slot = leader.slot_manager.lookup(&id("r2")).unwrap();
    assert_eq!(slot.reserved, vec![1]);
    assert!(slot.block_ids.is_empty());
}

#[test]
fn another_salt_does_not_match() {
    let mut leader = leader_with_r1();
    leader.create_slot(request("r2", 8), vec![1, 2, 3, 4, 9, 9, 9, 9]).unwrap();
    assert_eq!(leader.get_num_new_matched_tokens(id("r2"), 0), Ok((0, true)));
    assert_eq!(ref_count(&leader, 1), 1);
}

#[test]
fn another_prefix_does_not_match() {
    let mut leader = leader_with_r1();
    leader.create_slot(request("r2", 7), vec![1, 2, 3, 5, 5, 6, 7, 8]).unwrap();
    assert_eq!(leader.get_num_new_matched_tokens(id("r2"), 0), Ok((0, true)));
}

#[test]
fn partial_chunk_is_not_matched() {
    let mut leader = leader_with_r1();
    leader.create_slot(request("r2", 7), vec![1, 2, 3]).unwrap();
    assert_eq!(leader.get_num_new_matched_tokens(id("r2"), 0), Ok((0, true)));
    leader.create_slot(request("r3", 7), vec![]).unwrap();
    assert_eq!(leader.get_num_new_matched_tokens(id("r3"), 0), Ok((0, true)));
}

#[test]
fn matching_stops_at_first_miss_and_spans_chunks() {
    let mut leader = KvConnectorLeader::new(2, 8).unwrap();
    leader.create_slot(request("r1", 1), vec![10, 11, 12, 13, 14, 15]).unwrap();
    leader.update_state_after_alloc(id("r1"), vec![3, 5, 6], 6).unwrap();
    leader.create_slot(request("r2", 1), vec![10, 11, 12, 13, 99, 15, 16]).unwrap();
    assert_eq!(leader.get_num_new_matched_tokens(id("r2"), 0), Ok((4, true)));
    assert_eq!(leader.slot_manager.lookup(&id("r2")).unwrap().reserved, vec![3, 5]);
    leader.create_slot(request("r3", 1), vec![10, 11, 12, 13, 14, 15, 16]).unwrap();
    assert_eq!(leader.get_num_new_matched_tokens(id("r3"), 0), Ok((6, true)));
    // Beyond two computed tokens the match starts at the second block.
    leader.create_slot(request("r4", 1), vec![10, 11, 12, 13, 14, 15, 16]).unwrap();
    assert_eq!(leader.get_num_new_matched_tokens(id("r4"), 2), Ok((4, true)));
    assert_eq!(leader.slot_manager.lookup(&id("r4")).unwrap().reserved, vec![5, 6]);
    // From an unaligned count the match starts at the next block boundary.
    leader.create_slot(request("r5", 1), vec![10, 11, 12, 13, 14, 15, 16]).unwrap();
    assert_eq!(leader.get_num_new_matched_tokens(id("r5"), 1), Ok((4, true)));
    assert_eq!(leader.get_num_new_matched_tokens(id("r5"), 7), Ok((0, true)));
    assert_eq!(leader.get_num_new_matched_tokens(id("r5"), 700), Ok((0, true)));
}

#[test]
fn unknown_request_matches_nothing() {
    let mut leader = leader_with_r1();
    assert_eq!(leader.get_num_new_matched_tokens(id("nobody"), 0), Ok((0, true)));
    assert_eq!(total_refs(&leader), 1);
}

#[test]
fn loading_block_is_matched_but_not_ready() {
    let mut leader = leader_with_r1();
    assert!(leader.pool.set_loading(1, true));
    leader.create_slot(request("r2", 7), vec![1, 2, 3, 4]).unwrap();
    assert_eq!(leader.get_num_new_matched_tokens(id("r2"), 0), Ok((4, false)));
    assert!(leader.pool.set_loading(1, false));
    assert_eq!(leader.get_num_new_matched_tokens(id("r2"), 0), Ok((4, true)));
    assert!(!leader.pool.set_loading(99, true));
}

#[test]
fn matching_twice_gives_the_same_result() {
    let mut leader = leader_with_r1();
    leader.create_slot(request("r2", 7), vec![1, 2, 3, 4, 5, 6, 7, 8]).unwrap();
    let first = leader.get_num_new_matched_tokens(id("r2"), 0);
    let second = leader.get_num_new_matched_tokens(id("r2"), 0);
    assert_eq!(first, Ok((4, true)));
    assert_eq!(first, second);
    // The second call found the blocks reserved and reserved nothing more.
    assert_eq!(ref_count(&leader, 1), 2);
    assert_eq!(leader.slot_manager.lookup(&id("r2")).unwrap().reserved, vec![1]);
    assert_eq!(leader.request_finished(id("r2"), vec![]), Ok(false));
    assert_eq!(ref_count(&leader, 1), 1);
}

#[test]
fn matching_twice_gives_the_same_result_at_the_count_limit() {
    let mut leader = leader_with_r1();
    let mut block = leader.pool.get(1).unwrap();
    block.ref_count = u64::MAX - 1;
    leader.pool.blocks[1] = block;
    leader.create_slot(request("r2", 7), vec![1, 2, 3, 4]).unwrap();
    assert_eq!(leader.get_num_new_matched_tokens(id("r2"), 0), Ok((4, true)));
    assert_eq!(ref_count(&leader, 1), u64::MAX);
    assert_eq!(leader.get_num_new_matched_tokens(id("r2"), 0), Ok((4, true)));
    assert_eq!(ref_count(&leader, 1), u64::MAX);
    // A request that is refused is refused again.
    leader.create_slot(request("r3", 7), vec![1, 2, 3, 4]).unwrap();
    let refused = Err(SlotError::Overflow(id("r3")));
    assert_eq!(leader.get_num_new_matched_tokens(id("r3"), 0), refused);
    assert_eq!(leader.get_num_new_matched_tokens(id("r3"), 0), refused);
}

#[test]
fn a_new_match_is_reserved_after_the_old_one() {
    let mut leader = KvConnectorLeader::new(2, 8).unwrap();
    leader.create_slot(request("r1", 1), vec![10, 11, 12, 13]).unwrap();
    leader.update_state_after_alloc(id("r1"), vec![3, 5], 4).unwrap();
    leader.create_slot(request("r2", 1), vec![10, 11, 12, 13]).unwrap();
    assert_eq!(leader.get_num_new_matched_tokens(id("r2"), 2), Ok((2, true)));
    assert_eq!(leader.get_num_new_matched_tokens(id("r2"), 0), Ok((4, true)));
    assert_eq!(leader.slot_manager.lookup(&id("r2")).unwrap().reserved, vec![5, 3, 5]);
    assert_eq!(ref_count(&leader, 5), 3);
    assert_eq!(leader.get_num_new_matched_tokens(id("r2"), 2), Ok((2, true)));
    assert_eq!(ref_count(&leader, 5), 3);
    assert!(leader.check_wf());
}

#[test]
fn unreferenced_block_is_no_hit() {
    let mut leader = leader_with_r1();
    assert_eq!(leader.request_finished(id("r1"), vec![1]), Ok(false));
    assert_eq!(ref_count(&leader, 1), 0);
    leader.create_slot(request("r2", 7), vec![1, 2, 3, 4]).unwrap();
    assert_eq!(leader.get_num_new_matched_tokens(id("r2"), 0), Ok((0, true)));
    assert_eq!(ref_count(&leader, 1), 0);
}

#[test]
fn unknown_and_duplicate_requests_are_refused() {
    let mut leader = KvConnectorLeader::new(4, 4).unwrap();
    assert_eq!(
        leader.update_state_after_alloc(id("ghost"), vec![0], 4),
        Err(SlotError::NotFound(id("ghost")))
    );
    assert_eq!(leader.create_slot(request("r1", 7), vec![1, 2, 3, 4]), Ok(()));
    assert_eq!(
        leader.create_slot(request("r1", 9), vec![5]),
        Err(SlotError::AlreadyExists(id("r1")))
    );
    let slot = leader.slot_manager.lookup(&id("r1")).unwrap();
    assert_eq!(slot.salt_hash, 7);
    assert_eq!(slot.tokens, vec![1, 2, 3, 4]);
    assert_eq!(total_refs(&leader), 0);
}

#[test]
fn pending_save_delays_reuse() {
    let mut leader = KvConnectorLeader::new(4, 2).unwrap();
    leader.create_slot(request("r0", 1), vec![9, 9, 9, 9]).unwrap();
    leader.update_state_after_alloc(id("r0"), vec![0], 4).unwrap();
    leader.create_slot(request("r1", 7), vec![1, 2, 3, 4]).unwrap();
    leader.update_state_after_alloc(id("r1"), vec![1], 4).unwrap();
    assert!(leader.pool.set_save_pending(1, true));
    assert_eq!(leader.request_finished(id("r1"), vec![1]), Ok(true));
    assert_eq!(ref_count(&leader, 1), 0);
    // Block 1 is unreferenced, yet its save is in flight: no block is free.
    assert_eq!(leader.pool.allocate(), None);
    assert_eq!(leader.allocate_block(id("r0")), Err(SlotError::PoolExhausted(id("r0"))));
    // Nor can the scheduler commit the block to a request by itself.
    assert_eq!(
        leader.update_state_after_alloc(id("r0"), vec![1], 0),
        Err(SlotError::Overflow(id("r0")))
    );
    assert_eq!(ref_count(&leader, 1), 0);
    assert!(leader.pool.set_save_pending(1, false));
    assert_eq!(leader.allocate_block(id("r0")), Ok(1));
    assert_eq!(ref_count(&leader, 1), 1);
    assert_eq!(leader.pool.get(1).unwrap().content_key, None);
    assert_eq!(leader.slot_manager.lookup(&id("r0")).unwrap().reserved, vec![1]);
}

#[test]
fn finish_reports_pending_save_of_owned_blocks_only() {
    let mut leader = leader_with_r1();
    // A save on a block of the pool that the request does not own.
    assert!(leader.pool.set_save_pending(2, true));
    assert_eq!(leader.request_finished(id("r1"), vec![2, 77]), Ok(false));
    // A slot without blocks owns none, whatever the caller lists.
    leader.create_slot(request("r2", 7), vec![1, 2, 3, 4]).unwrap();
    assert_eq!(leader.request_finished(id("r2"), vec![2]), Ok(false));
    // A save on one of several owned blocks.
    leader.create_slot(request("r3", 7), vec![1, 2, 3, 4, 5, 6, 7, 8]).unwrap();
    leader.update_state_after_alloc(id("r3"), vec![0, 3], 8).unwrap();
    assert!(leader.pool.set_save_pending(3, true));
    assert_eq!(leader.request_finished(id("r3"), vec![]), Ok(true));
}

#[test]
fn finish_does_not_report_saves_of_reserved_blocks() {
    let mut leader = leader_with_r1();
    leader.create_slot(request("r2", 7), vec![1, 2, 3, 4]).unwrap();
    assert_eq!(leader.get_num_new_matched_tokens(id("r2"), 0), Ok((4, true)));
    assert!(leader.pool.set_save_pending(1, true));
    assert_eq!(leader.request_finished(id("r2"), vec![1]), Ok(false));
    assert_eq!(ref_count(&leader, 1), 1);
    assert_eq!(leader.request_finished(id("r1"), vec![1]), Ok(true));
}

#[test]
fn committed_blocks_are_referenced() {
    let mut leader = KvConnectorLeader::new(2, 6).unwrap();
    leader.create_slot(request("r1", 1), vec![1, 2, 3, 4]).unwrap();
    assert_eq!(leader.allocate_block(id("r1")), Ok(0));
    assert_eq!(leader.update_state_after_alloc(id("r1"), vec![0, 4, 4], 4), Ok(()));
    for b in [0u64, 4] {
        let block = leader.pool.get(b).unwrap();
        assert!(block.ref_count >= 1);
    }
    assert_eq!(ref_count(&leader, 4), 2);
    assert!(leader.check_wf());
}

#[test]
fn finish_twice_is_refused() {
    let mut leader = leader_with_r1();
    assert_eq!(leader.request_finished(id("r1"), vec![1]), Ok(false));
    assert_eq!(leader.request_finished(id("r1"), vec![1]), Err(SlotError::NotFound(id("r1"))));
    assert_eq!(leader.request_finished(id("zz"), vec![]), Err(SlotError::NotFound(id("zz"))));
}

#[test]
fn round_trip_leaves_no_reference() {
    let mut leader = leader_with_r1();
    let before: Vec<u64> = (0..4).map(|b| ref_count(&leader, b)).collect();
    assert_eq!(before, vec![0, 1, 0, 0]);
    leader.create_slot(request("r2", 3), vec![4, 4, 4, 4, 5, 5, 5, 5]).unwrap();
    leader.update_state_after_alloc(id("r2"), vec![1, 2, 2], 8).unwrap();
    assert_eq!(total_refs(&leader), 4);
    assert_eq!(ref_count(&leader, 2), 2);
    assert_eq!(leader.request_finished(id("r2"), vec![1, 2, 2]), Ok(false));
    let after: Vec<u64> = (0..4).map(|b| ref_count(&leader, b)).collect();
    assert_eq!(after, before);
}

#[test]
fn reservation_becomes_the_committed_allocation() {
    let mut leader = leader_with_r1();
    leader.create_slot(request("r2", 7), vec![1, 2, 3, 4, 5, 6, 7, 8]).unwrap();
    assert_eq!(leader.get_num_new_matched_tokens(id("r2"), 0), Ok((4, true)));
    assert_eq!(ref_count(&leader, 1), 2);
    assert_eq!(leader.update_state_after_alloc(id("r2"), vec![1], 4), Ok(()));
    assert_eq!(ref_count(&leader, 1), 2);
    let slot = leader.slot_manager.lookup(&id("r2")).unwrap();
    assert_eq!(slot.block_ids, vec![1]);
    assert_eq!(slot.num_computed_tokens, 4);
    assert!(slot.reserved.is_empty());
    assert_eq!(leader.request_finished(id("r2"), vec![1]), Ok(false));
    assert_eq!(ref_count(&leader, 1), 1);
}

#[test]
fn allocation_update_is_refused_without_change() {
    let mut leader = leader_with_r1();
    let overflow = Err(SlotError::Overflow(id("r1")));
    // more tokens than the request has
    assert_eq!(leader.update_state_after_alloc(id("r1"), vec![2, 3], 5), overflow);
    // blocks that do not cover the tokens
    assert_eq!(leader.update_state_after_alloc(id("r1"), vec![], 1), overflow);
    // a block that the pool lacks
    assert_eq!(leader.update_state_after_alloc(id("r1"), vec![4], 4), overflow);
    let slot = leader.slot_manager.lookup(&id("r1")).unwrap();
    assert_eq!(slot.num_computed_tokens, 4);
    assert_eq!(slot.block_ids, vec![1]);
    assert_eq!(total_refs(&leader), 1);
    assert_eq!(leader.update_state_after_alloc(id("r1"), vec![2], 4), Ok(()));
    let slot = leader.slot_manager.lookup(&id("r1")).unwrap();
    assert_eq!(slot.num_computed_tokens, 8);
    assert_eq!(slot.block_ids, vec![1, 2]);
    assert!(slot.num_computed_tokens as usize <= slot.tokens.len());
    assert!(slot.block_ids.len() as u64 * 4 >= slot.num_computed_tokens);
}

#[test]
fn saturated_reference_count_is_refused() {
    let mut leader = leader_with_r1();
    let mut block = leader.pool.get(1).unwrap();
    block.ref_count = u64::MAX;
    leader.pool.blocks[1] = block;
    leader.create_slot(request("r2", 7), vec![1, 2, 3, 4]).unwrap();
    assert_eq!(
        leader.get_num_new_matched_tokens(id("r2"), 0),
        Err(SlotError::Overflow(id("r2")))
    );
    assert_eq!(
        leader.update_state_after_alloc(id("r2"), vec![1], 4),
        Err(SlotError::Overflow(id("r2")))
    );
    assert_eq!(ref_count(&leader, 1), u64::MAX);
}

#[test]
fn allocate_block_needs_a_slot() {
    let mut leader = KvConnectorLeader::new(4, 2).unwrap();
    assert_eq!(leader.allocate_block(id("r1")), Err(SlotError::NotFound(id("r1"))));
    leader.create_slot(request("r1", 7), vec![1, 2, 3, 4, 5]).unwrap();
    assert_eq!(leader.allocate_block(id("r1")), Ok(0));
    assert_eq!(leader.allocate_block(id("r1")), Ok(1));
    assert_eq!(leader.allocate_block(id("r1")), Err(SlotError::PoolExhausted(id("r1"))));
    assert_eq!(leader.update_state_after_alloc(id("r1"), vec![0, 1], 5), Ok(()));
    assert_eq!(total_refs(&leader), 2);
    assert_eq!(leader.request_finished(id("r1"), vec![0, 1]), Ok(false));
    assert_eq!(total_refs(&leader), 0);
}

#[test]
fn metadata_tags_blocks_by_position() {
    let mut leader = KvConnectorLeader::new(2, 8).unwrap();
    leader.create_slot(request("r1", 1), vec![1, 2, 3, 4, 5, 6, 7, 8, 9]).unwrap();
    leader.update_state_after_alloc(id("r1"), vec![4, 5, 6], 4).unwrap();
    leader.create_slot(request("r2", 1), vec![1, 2]).unwrap();
    assert!(leader.pool.set_loading(5, true));
    let output = SchedulerOutput {
        requests: vec![
            ScheduledRequest { request_id: id("r1"), num_scheduled_tokens: 5, new_block_ids: vec![7, 0] },
            ScheduledRequest { request_id: id("r2"), num_scheduled_tokens: 2, new_block_ids: vec![3] },
        ],
    };
    let metadata = leader.build_connector_metadata(output).unwrap();
    let got: Vec<(String, u64, Transfer)> =
        metadata.ops.iter().map(|o| (o.request_id.clone(), o.block_id, o.op)).collect();
    assert_eq!(
        got,
        vec![
            (id("r1"), 4, Transfer::NoOp),
            (id("r1"), 5, Transfer::Load),
            (id("r1"), 6, Transfer::Save),
            (id("r1"), 7, Transfer::Save),
            (id("r1"), 0, Transfer::NoOp),
            (id("r2"), 3, Transfer::Save),
        ]
    );
    // Compiling the instructions changes nothing and gives the same again.
    let again = leader
        .build_connector_metadata(SchedulerOutput {
            requests: vec![ScheduledRequest {
                request_id: id("r2"),
                num_scheduled_tokens: 1,
                new_block_ids: vec![3],
            }],
        })
        .unwrap();
    assert_eq!(again.ops.len(), 1);
    assert_eq!(again.ops[0].op, Transfer::NoOp);
    assert_eq!(leader.slot_manager.lookup(&id("r1")).unwrap().block_ids, vec![4, 5, 6]);
}

#[test]
fn metadata_refuses_first_unknown_request() {
    let leader = leader_with_r1();
    let output = SchedulerOutput {
        requests: vec![
            ScheduledRequest { request_id: id("r1"), num_scheduled_tokens: 1, new_block_ids: vec![] },
            ScheduledRequest { request_id: id("a"), num_scheduled_tokens: 1, new_block_ids: vec![] },
            ScheduledRequest { request_id: id("b"), num_scheduled_tokens: 1, new_block_ids: vec![] },
        ],
    };
    match leader.build_connector_metadata(output) {
        Err(e) => assert_eq!(e, SlotError::NotFound(id("a"))),
        Ok(_) => panic!("a request without a slot was accepted"),
    }
    let empty = leader.build_connector_metadata(SchedulerOutput { requests: vec![] }).unwrap();
    assert!(empty.ops.is_empty());
}

#[test]
fn cancelled_reservation_is_released() {
    let mut leader = leader_with_r1();
    leader.create_slot(request("r2", 7), vec![1, 2, 3, 4]).unwrap();
    assert_eq!(leader.get_num_new_matched_tokens(id("r2"), 0), Ok((4, true)));
    assert_eq!(leader.allocate_block(id("r2")), Ok(0));
    assert_eq!(total_refs(&leader), 3);
    assert_eq!(leader.cancel_reservation(id("r2")), Ok(()));
    assert_eq!(total_refs(&leader), 1);
    assert!(leader.slot_manager.lookup(&id("r2")).unwrap().reserved.is_empty());
    assert_eq!(leader.cancel_reservation(id("zz")), Err(SlotError::NotFound(id("zz"))));
}

#[test]
fn well_formedness_is_checked() {
    let mut leader = leader_with_r1();
    assert!(leader.check_wf());
    leader.slot_manager.slots[0].num_computed_tokens = 9;
    assert!(!leader.check_wf());
    leader.slot_manager.slots[0].num_computed_tokens = 8;
    assert!(!leader.check_wf());
    leader.slot_manager.slots[0].num_computed_tokens = 4;
    assert!(leader.check_wf());
    let mut held = leader.pool.get(1).unwrap();
    held.ref_count = 0;
    leader.pool.blocks[1] = held;
    assert!(!leader.check_wf());
    held.ref_count = 5;
    leader.pool.blocks[1] = held;
    assert!(leader.check_wf());
    let mut block = leader.pool.get(2).unwrap();
    block.id = 3;
    leader.pool.blocks[2] = block;
    assert!(!leader.check_wf());
    let mut other = leader_with_r1();
    other.create_slot(request("r2", 7), vec![1]).unwrap();
    other.slot_manager.slots[1].request_id = id("r1");
    assert!(!other.check_wf());
}
