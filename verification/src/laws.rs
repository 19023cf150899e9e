use crate::leader::{lemma_reserving_keeps_matches, KvConnectorLeader};
use crate::matching::{
    lemma_match_alike, lemma_published_keeps_counts, matched_blocks, matched_tokens, none_loading,
};
use crate::pool::{
    can_retain, lemma_occurrences_bound, lemma_occurrences_member, occurrences, release_all_spec,
    retain_all_spec, sum_refs, Block, BlockId,
};
use crate::slot::{lemma_position, position, SlotManager, SlotView};
use vstd::prelude::*;

verus! {

/// In a well-formed registry every live slot has computed no more tokens
/// than the request has, and its blocks cover the computed tokens.
pub proof fn lemma_slot_bounds(manager: SlotManager, id: Seq<char>)
    requires
        manager.wf(),
        manager.has(id),
    ensures
        manager.slot_of(id).request_id == id,
        manager.slot_of(id).num_computed_tokens <= manager.slot_of(id).tokens.len(),
        manager.slot_of(id).block_ids.len() * manager.block_size >= manager.slot_of(
            id,
        ).num_computed_tokens,
{
    lemma_position(manager@, id);
    assert(manager@[position(manager@, id)].wf(manager.block_size as nat));
}

/// Pools whose blocks carry the same reference counts have the same total.
pub proof fn lemma_sum_refs_same(a: Seq<Block>, b: Seq<Block>)
    requires
        a.len() == b.len(),
        forall|i: int| 0 <= i < a.len() ==> (#[trigger] a[i]).ref_count == b[i].ref_count,
    ensures
        sum_refs(a) == sum_refs(b),
    decreases a.len(),
{
    if a.len() > 0 {
        assert forall|i: int| 0 <= i < a.drop_last().len() implies (
        #[trigger] a.drop_last()[i]).ref_count == b.drop_last()[i].ref_count by {
            assert(a[i].ref_count == b[i].ref_count);
        }
        lemma_sum_refs_same(a.drop_last(), b.drop_last());
        assert(a[a.len() - 1].ref_count == b[a.len() - 1].ref_count);
    }
}

/// A slot that is created, has blocks reserved for it, is then given blocks
/// for any number of its tokens and at last ended leaves every reference
/// count, and so the pool's total, as it was before the slot was created.
pub proof fn lemma_round_trip_keeps_references(
    blocks: Seq<Block>,
    request_id: Seq<char>,
    salt_hash: u64,
    tokens: Seq<u32>,
    reserved: Seq<BlockId>,
    block_ids: Seq<BlockId>,
    num_tokens: nat,
    block_size: nat,
)
    requires
        blocks.len() <= usize::MAX,
        can_retain(blocks, reserved),
        can_retain(retain_all_spec(blocks, reserved), block_ids),
    ensures
        ({
            let created = SlotView::fresh(request_id, salt_hash, tokens);
            let matched = created.with_reserved(reserved);
            let after_match = retain_all_spec(blocks, reserved);
            let committed = matched.with_reserved(Seq::empty()).advanced(block_ids, num_tokens);
            let after_alloc = KvConnectorLeader::pool_after_alloc(
                after_match,
                matched,
                block_ids,
                num_tokens,
                block_size,
            );
            let after_finish = release_all_spec(after_alloc, committed.held());
            &&& after_finish.len() == blocks.len()
            &&& forall|i: int|
                0 <= i < blocks.len() ==> (#[trigger] after_finish[i]).ref_count
                    == blocks[i].ref_count
            &&& sum_refs(after_finish) == sum_refs(blocks)
        }),
{
    let created = SlotView::fresh(request_id, salt_hash, tokens);
    let matched = created.with_reserved(reserved);
    let after_match = retain_all_spec(blocks, reserved);
    let committed = matched.with_reserved(Seq::empty()).advanced(block_ids, num_tokens);
    let retained = retain_all_spec(after_match, block_ids);
    let settled = release_all_spec(retained, reserved);
    let after_alloc = KvConnectorLeader::pool_after_alloc(
        after_match,
        matched,
        block_ids,
        num_tokens,
        block_size,
    );
    let after_finish = release_all_spec(after_alloc, committed.held());
    lemma_published_keeps_counts(
        settled,
        matched.block_ids + block_ids,
        salt_hash,
        tokens,
        block_size,
        0,
        0,
        matched.num_computed_tokens + num_tokens,
    );
    assert(committed.held() =~= block_ids);
    assert forall|i: int| 0 <= i < blocks.len() implies (#[trigger] after_finish[i]).ref_count
        == blocks[i].ref_count by {
        let held = occurrences(reserved, i as u64);
        let given = occurrences(block_ids, i as u64);
        lemma_occurrences_member(reserved, i as u64);
        lemma_occurrences_bound(reserved, i as u64);
        lemma_occurrences_member(block_ids, i as u64);
        lemma_occurrences_bound(block_ids, i as u64);
        if held > 0 {
            let k = choose|k: int| 0 <= k < reserved.len() && reserved[k] == i as u64;
            assert(reserved[k] < blocks.len());
        }
        assert(after_match[i].ref_count == blocks[i].ref_count + held);
        if given > 0 {
            let k = choose|k: int| 0 <= k < block_ids.len() && block_ids[k] == i as u64;
            assert(block_ids[k] < after_match.len());
        }
        assert(retained[i].ref_count == blocks[i].ref_count + held + given);
        assert(settled[i].ref_count == blocks[i].ref_count + given);
        assert(after_alloc[i].ref_count == settled[i].ref_count);
    }
    lemma_sum_refs_same(after_finish, blocks);
}

/// Matching is repeatable: once the blocks of a match are reserved, the
/// same request is matched to the same blocks, with the same number of
/// tokens and the same readiness.
pub proof fn lemma_matching_is_repeatable(
    blocks: Seq<Block>,
    salt_hash: u64,
    tokens: Seq<u32>,
    block_size: nat,
    pos: nat,
)
    requires
        blocks.len() <= usize::MAX,
        can_retain(blocks, matched_blocks(blocks, salt_hash, tokens, block_size, pos)),
    ensures
        ({
            let hits = matched_blocks(blocks, salt_hash, tokens, block_size, pos);
            let reserved = retain_all_spec(blocks, hits);
            &&& matched_blocks(reserved, salt_hash, tokens, block_size, pos) == hits
            &&& matched_tokens(reserved, salt_hash, tokens, block_size, pos) == matched_tokens(
                blocks,
                salt_hash,
                tokens,
                block_size,
                pos,
            )
            &&& none_loading(reserved, hits) == none_loading(blocks, hits)
        }),
{
    let hits = matched_blocks(blocks, salt_hash, tokens, block_size, pos);
    lemma_reserving_keeps_matches(blocks, salt_hash, tokens, block_size, pos);
    lemma_match_alike(
        blocks,
        retain_all_spec(blocks, hits),
        salt_hash,
        tokens,
        block_size,
        pos,
    );
}

} // verus!
