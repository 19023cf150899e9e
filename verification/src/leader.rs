use crate::error::SlotError;
use crate::matching::{
    answer_alike, first_chunk_start, lemma_match_alike, lemma_matched_blocks_referenced,
    lemma_published_keeps_counts, match_prefix, matched_blocks, matched_tokens, none_loading, publish_keys, published,
    PrefixMatch,
};
use crate::pool::{
    any_save_pending, can_retain, ends_with, fresh_block, is_free, lemma_occurrences_bound,
    lemma_occurrences_concat, lemma_occurrences_member, none_awaits_save, occurrences,
    release_all_spec, retain_all_spec, Block, BlockId, BlockPool,
};
use crate::slot::{
    holders, lemma_holders_prefix, lemma_holders_push, lemma_holders_remove,
    lemma_holders_update, lemma_position_same_ids, position, SlotManager, SlotView,
};
use vstd::prelude::*;

verus! {

/// A request as the scheduler names it: its id and its caching namespace.
#[derive(Clone, Debug)]
pub struct KvbmRequest {
    pub request_id: String,
    pub salt_hash: u64,
}

/// Every block is referred to at least as often as the slots hold it,
/// committed or reserved.
pub open spec fn counts_cover(blocks: Seq<Block>, slots: Seq<SlotView>) -> bool {
    forall|b: int|
        0 <= b < blocks.len() ==> (#[trigger] blocks[b]).ref_count >= holders(slots, b as BlockId)
}

/// The request-facing coordinator of the slot registry and the block pool.
pub struct KvConnectorLeader {
    pub slot_manager: SlotManager,
    pub pool: BlockPool,
}

impl KvConnectorLeader {
    /// The registry and the pool are well formed, and every block is
    /// referred to at least as often as the slots hold it.
    pub open spec fn wf(&self) -> bool {
        &&& self.slot_manager.wf()
        &&& self.pool.wf()
        &&& counts_cover(self.pool.blocks@, self.slot_manager@)
    }

    /// Whether the leader is well formed.
    pub fn check_wf(&self) -> (ok: bool)
        ensures
            ok == self.wf(),
    {
        self.slot_manager.check_wf() && self.pool.check_wf() && self.check_counts()
    }

    /// Whether every block is referred to at least as often as the slots
    /// hold it.
    pub fn check_counts(&self) -> (ok: bool)
        ensures
            ok == counts_cover(self.pool.blocks@, self.slot_manager@),
    {
        let blocks: usize = self.pool.blocks.len();
        let slots: usize = self.slot_manager.slots.len();
        let mut b: usize = 0;
        while b < blocks
            invariant
                b <= blocks,
                blocks == self.pool.blocks@.len(),
                slots == self.slot_manager.slots@.len(),
                forall|j: int|
                    0 <= j < b ==> (#[trigger] self.pool.blocks@[j]).ref_count >= holders(
                        self.slot_manager@,
                        j as BlockId,
                    ),
            decreases blocks - b,
        {
            let limit: u64 = self.pool.blocks[b].ref_count;
            let mut total: u128 = 0;
            let mut k: usize = 0;
            assert(self.slot_manager@.take(0) =~= Seq::<SlotView>::empty());
            while k < slots
                invariant
                    k <= slots,
                    b < blocks,
                    blocks == self.pool.blocks@.len(),
                    slots == self.slot_manager.slots@.len(),
                    limit == self.pool.blocks@[b as int].ref_count,
                    total <= limit,
                    total == holders(self.slot_manager@.take(k as int), b as BlockId),
                decreases slots - k,
            {
                let slot = &self.slot_manager.slots[k];
                let committed: usize = BlockPool::count_occurrences(&slot.block_ids, b as u64);
                let reserved: usize = BlockPool::count_occurrences(&slot.reserved, b as u64);
                proof {
                    assert(slot@ == self.slot_manager@[k as int]);
                    assert(self.slot_manager@.take(k + 1).drop_last() =~= self.slot_manager@.take(
                        k as int,
                    ));
                    assert(self.slot_manager@.take(k + 1).last() == slot@);
                    lemma_holders_prefix(self.slot_manager@, k + 1, b as BlockId);
                }
                total = total + (committed as u128) + (reserved as u128);
                if total > limit as u128 {
                    return false;
                }
                k = k + 1;
            }
            assert(self.slot_manager@.take(slots as int) =~= self.slot_manager@);
            b = b + 1;
        }
        true
    }

    /// The tokens of a block, as a number.
    pub open spec fn block_size(&self) -> nat {
        self.slot_manager.block_size as nat
    }

    /// The blocks that answer for the request's tokens beyond the first
    /// `num_computed`; none where no slot is live under the id.
    pub open spec fn match_blocks(&self, id: Seq<char>, num_computed: nat) -> Seq<BlockId> {
        if self.slot_manager.has(id) {
            let slot = self.slot_manager.slot_of(id);
            matched_blocks(
                self.pool.blocks@,
                slot.salt_hash,
                slot.tokens,
                self.block_size(),
                first_chunk_start(num_computed, self.block_size()),
            )
        } else {
            Seq::empty()
        }
    }

    /// The number of tokens that those blocks hold.
    pub open spec fn match_tokens(&self, id: Seq<char>, num_computed: nat) -> nat {
        if self.slot_manager.has(id) {
            let slot = self.slot_manager.slot_of(id);
            matched_tokens(
                self.pool.blocks@,
                slot.salt_hash,
                slot.tokens,
                self.block_size(),
                first_chunk_start(num_computed, self.block_size()),
            )
        } else {
            0
        }
    }

    /// Whether the data of all those blocks is resident.
    pub open spec fn match_ready(&self, id: Seq<char>, num_computed: nat) -> bool {
        none_loading(self.pool.blocks@, self.match_blocks(id, num_computed))
    }

    /// Whether the blocks of the match are what was last reserved for the
    /// request: its reserved blocks end with them.
    pub open spec fn match_reserved(&self, id: Seq<char>, num_computed: nat) -> bool {
        self.slot_manager.has(id) && ends_with(
            self.slot_manager.slot_of(id).reserved,
            self.match_blocks(id, num_computed),
        )
    }

    /// Whether the match cannot be reserved: its blocks are not what was
    /// last reserved for the request, and a reference count would pass its
    /// limit.
    pub open spec fn match_refused(&self, id: Seq<char>, num_computed: nat) -> bool {
        &&& self.slot_manager.has(id)
        &&& !self.match_reserved(id, num_computed)
        &&& !can_retain(self.pool.blocks@, self.match_blocks(id, num_computed))
    }

    /// What a matching call answers in this state: the number of matched
    /// tokens and their readiness, or nothing where the call is refused.
    pub open spec fn match_outcome(&self, id: Seq<char>, num_computed: nat) -> Option<(nat, bool)> {
        if self.match_refused(id, num_computed) {
            None
        } else {
            Some((self.match_tokens(id, num_computed), self.match_ready(id, num_computed)))
        }
    }

    /// A leader over an empty registry and a pool of `capacity` free blocks
    /// of `block_size` tokens each; `None` where a block would hold no token.
    pub fn new(block_size: u64, capacity: usize) -> (r: Option<KvConnectorLeader>)
        ensures
            r.is_some() == (block_size > 0),
            r.is_some() ==> {
                let l = r.unwrap();
                &&& l.wf()
                &&& l.slot_manager.block_size == block_size
                &&& l.slot_manager@ == Seq::<SlotView>::empty()
                &&& l.pool.blocks@.len() == capacity
                &&& forall|i: int|
                    0 <= i < capacity ==> #[trigger] l.pool.blocks@[i] == (Block {
                        id: i as u64,
                        ref_count: 0,
                        content_key: None,
                        loading: false,
                        save_pending: false,
                    })
            },
    {
        match SlotManager::new(block_size) {
            None => None,
            Some(slot_manager) => {
                let leader = KvConnectorLeader { slot_manager, pool: BlockPool::new(capacity) };
                assert(counts_cover(leader.pool.blocks@, leader.slot_manager@));
                Some(leader)
            },
        }
    }

    /// Registers a slot for the request with the tokens known of it.
    /// Refused with `AlreadyExists` exactly where a slot is live under the
    /// id. The pool is not touched.
    pub fn create_slot(&mut self, request: KvbmRequest, tokens: Vec<u32>) -> (r: Result<
        (),
        SlotError,
    >)
        requires
            old(self).wf(),
        ensures
            final(self).wf(),
            final(self).block_size() == old(self).block_size(),
            final(self).pool.blocks@ == old(self).pool.blocks@,
            old(self).slot_manager.has(request.request_id@) ==> r == Err::<(), SlotError>(
                SlotError::AlreadyExists(request.request_id),
            ) && final(self).slot_manager@ == old(self).slot_manager@,
            !old(self).slot_manager.has(request.request_id@) ==> r.is_ok() && final(self).slot_manager@ == old(self).slot_manager@.push(
                SlotView::fresh(request.request_id@, request.salt_hash, tokens@),
            ),
    {
        let ghost fresh = SlotView::fresh(request.request_id@, request.salt_hash, tokens@);
        let r = self.slot_manager.create_slot(&request.request_id, request.salt_hash, tokens);
        proof {
            if r.is_ok() {
                lemma_cover_after_create(old(self).pool.blocks@, old(self).slot_manager@, fresh);
            }
        }
        r
    }

    /// Hands the request a free block of the pool, reserved for it until its
    /// next allocation update or its end. Refused with `NotFound` where no
    /// slot is live under the id, and with `PoolExhausted` where no block is
    /// free; a block that is referred to, or still being saved, is not free.
    pub fn allocate_block(&mut self, request_id: String) -> (r: Result<BlockId, SlotError>)
        requires
            old(self).wf(),
        ensures
            final(self).wf(),
            final(self).block_size() == old(self).block_size(),
            match r {
                Ok(b) => {
                    &&& old(self).slot_manager.has(request_id@)
                    &&& b < old(self).pool.blocks@.len()
                    &&& is_free(old(self).pool.blocks@[b as int])
                    &&& forall|j: int| 0 <= j < b ==> !is_free(#[trigger] old(self).pool.blocks@[j])
                    &&& final(self).pool.blocks@ == old(self).pool.blocks@.update(
                        b as int,
                        fresh_block(b),
                    )
                    &&& final(self).slot_manager@ == old(self).slot_manager@.update(
                        position(old(self).slot_manager@, request_id@),
                        old(self).slot_manager.slot_of(request_id@).with_reserved(
                            old(self).slot_manager.slot_of(request_id@).reserved.push(b),
                        ),
                    )
                },
                Err(e) => {
                    &&& final(self).pool.blocks@ == old(self).pool.blocks@
                    &&& final(self).slot_manager@ == old(self).slot_manager@
                    &&& !old(self).slot_manager.has(request_id@) ==> e == SlotError::NotFound(
                        request_id,
                    )
                    &&& old(self).slot_manager.has(request_id@) ==> e == SlotError::PoolExhausted(
                        request_id,
                    ) && forall|j: int|
                        0 <= j < old(self).pool.blocks@.len() ==> !is_free(
                            #[trigger] old(self).pool.blocks@[j],
                        )
                },
            },
    {
        let i: usize = match self.slot_manager.find(&request_id) {
            Some(i) => i,
            None => {
                return Err(SlotError::NotFound(request_id));
            },
        };
        match self.pool.allocate() {
            None => Err(SlotError::PoolExhausted(request_id)),
            Some(b) => {
                let mut one: Vec<BlockId> = Vec::new();
                one.push(b);
                assert(old(self).slot_manager@[i as int].reserved + one@ =~= old(self).slot_manager@[i as int].reserved.push(b));
                self.slot_manager.add_reserved(i, one);
                proof {
                    lemma_cover_after_allocate(
                        old(self).pool.blocks@,
                        old(self).slot_manager@,
                        i as int,
                        b,
                    );
                }
                Ok(b)
            },
        }
    }

    /// Reports how many tokens of the request beyond its first
    /// `num_computed_tokens` are backed by cache blocks, in whole blocks from
    /// the first block boundary on, and whether their data is resident. The
    /// matched blocks are reserved for the request: each gets one reference
    /// more and joins the slot's reserved blocks, unless those already end
    /// with the matched blocks, in which case nothing changes. A request
    /// without a slot has no known token: nothing is matched and nothing
    /// changes. Refused with `Overflow`, and without any change, where the
    /// blocks are yet to be reserved and a reference count would pass its
    /// limit.
    ///
    /// Asked again with the same arguments, the call gives the same result:
    /// it finds the same blocks, finds them reserved, and is refused exactly
    /// where it was refused before.
    pub fn get_num_new_matched_tokens(&mut self, request_id: String, num_computed_tokens: u64) -> (r:
        Result<(u64, bool), SlotError>)
        requires
            old(self).wf(),
        ensures
            final(self).wf(),
            final(self).block_size() == old(self).block_size(),
            !old(self).slot_manager.has(request_id@) ==> r == Ok::<(u64, bool), SlotError>(
                (0u64, true),
            ) && final(self).pool.blocks@ == old(self).pool.blocks@ && final(self).slot_manager@
                == old(self).slot_manager@,
            old(self).match_refused(request_id@, num_computed_tokens as nat) ==> r == Err::<
                (u64, bool),
                SlotError,
            >(SlotError::Overflow(request_id)) && final(self).pool.blocks@ == old(self).pool.blocks@
                && final(self).slot_manager@ == old(self).slot_manager@,
            old(self).match_reserved(request_id@, num_computed_tokens as nat) ==> r == Ok::<
                (u64, bool),
                SlotError,
            >(
                (
                    old(self).match_tokens(request_id@, num_computed_tokens as nat) as u64,
                    old(self).match_ready(request_id@, num_computed_tokens as nat),
                ),
            ) && old(self).match_tokens(request_id@, num_computed_tokens as nat) <= u64::MAX
                && final(self).pool.blocks@ == old(self).pool.blocks@ && final(self).slot_manager@
                == old(self).slot_manager@,
            old(self).slot_manager.has(request_id@) && !old(self).match_reserved(
                request_id@,
                num_computed_tokens as nat,
            ) && !old(self).match_refused(request_id@, num_computed_tokens as nat) ==> {
                let hits = old(self).match_blocks(request_id@, num_computed_tokens as nat);
                let slot = old(self).slot_manager.slot_of(request_id@);
                &&& r == Ok::<(u64, bool), SlotError>(
                    (
                        old(self).match_tokens(request_id@, num_computed_tokens as nat) as u64,
                        old(self).match_ready(request_id@, num_computed_tokens as nat),
                    ),
                )
                &&& old(self).match_tokens(request_id@, num_computed_tokens as nat) <= u64::MAX
                &&& final(self).pool.blocks@ == retain_all_spec(old(self).pool.blocks@, hits)
                &&& final(self).slot_manager@ == old(self).slot_manager@.update(
                    position(old(self).slot_manager@, request_id@),
                    slot.with_reserved(slot.reserved + hits),
                )
            },
            match r {
                Ok(found) => old(self).match_outcome(request_id@, num_computed_tokens as nat)
                    == Some((found.0 as nat, found.1)),
                Err(e) => old(self).match_outcome(request_id@, num_computed_tokens as nat).is_none()
                    && e == SlotError::Overflow(request_id),
            },
            final(self).match_outcome(request_id@, num_computed_tokens as nat) == old(self).match_outcome(request_id@, num_computed_tokens as nat),
            final(self).match_blocks(request_id@, num_computed_tokens as nat) == old(self).match_blocks(request_id@, num_computed_tokens as nat),
            final(self).match_tokens(request_id@, num_computed_tokens as nat) == old(self).match_tokens(request_id@, num_computed_tokens as nat),
            final(self).match_ready(request_id@, num_computed_tokens as nat) == old(self).match_ready(request_id@, num_computed_tokens as nat),
            final(self).match_refused(request_id@, num_computed_tokens as nat) == old(self).match_refused(request_id@, num_computed_tokens as nat),
            r.is_ok() && old(self).slot_manager.has(request_id@) ==> final(self).match_reserved(
                request_id@,
                num_computed_tokens as nat,
            ),
    {
        let i: usize = match self.slot_manager.find(&request_id) {
            Some(i) => i,
            None => {
                proof {
                    reveal(none_loading);
                }
                return Ok((0, true));
            },
        };
        let m: PrefixMatch = match_prefix(
            &self.pool,
            self.slot_manager.slots[i].salt_hash,
            &self.slot_manager.slots[i].tokens,
            self.slot_manager.block_size,
            num_computed_tokens,
        );
        assert(self.slot_manager.slots@[i as int]@ == self.slot_manager@[i as int]);
        assert(m.blocks@ == old(self).match_blocks(request_id@, num_computed_tokens as nat));
        if BlockPool::check_ends_with(&self.slot_manager.slots[i].reserved, &m.blocks) {
            return Ok((m.num_tokens, m.ready));
        }
        if !self.pool.check_retain(&m.blocks) {
            return Err(SlotError::Overflow(request_id));
        }
        self.pool.retain_all(&m.blocks);
        let PrefixMatch { num_tokens, ready, blocks } = m;
        self.slot_manager.add_reserved(i, blocks);
        proof {
            let slot = old(self).slot_manager.slot_of(request_id@);
            lemma_cover_after_reserve(
                old(self).pool.blocks@,
                old(self).slot_manager@,
                i as int,
                blocks@,
            );
            lemma_reserving_keeps_matches(
                old(self).pool.blocks@,
                slot.salt_hash,
                slot.tokens,
                self.block_size(),
                first_chunk_start(num_computed_tokens as nat, self.block_size()),
            );
            lemma_position_same_ids(old(self).slot_manager@, self.slot_manager@, request_id@);
            assert((slot.reserved + blocks@).subrange(
                slot.reserved.len() as int,
                (slot.reserved + blocks@).len() as int,
            ) =~= blocks@);
            lemma_match_alike(
                old(self).pool.blocks@,
                self.pool.blocks@,
                slot.salt_hash,
                slot.tokens,
                self.block_size(),
                first_chunk_start(num_computed_tokens as nat, self.block_size()),
            );
        }
        Ok((num_tokens, ready))
    }

    /// The pool after a slot committed `block_ids` for `n` more tokens: one
    /// reference more for each of them, one fewer for each block the slot
    /// had reserved, and the blocks that back whole computed chunks hold
    /// the content keys of those chunks.
    pub open spec fn pool_after_alloc(
        blocks: Seq<Block>,
        slot: SlotView,
        block_ids: Seq<BlockId>,
        n: nat,
        block_size: nat,
    ) -> Seq<Block> {
        published(
            release_all_spec(retain_all_spec(blocks, block_ids), slot.reserved),
            slot.block_ids + block_ids,
            slot.salt_hash,
            slot.tokens,
            block_size,
            0,
            0,
            slot.num_computed_tokens + n,
        )
    }

    /// Records that the scheduler gave the request `block_ids` for
    /// `num_external_tokens` more tokens. The blocks are committed to the
    /// slot, each with one reference more; what the slot had reserved is
    /// released, so a reservation of the same blocks becomes the committed
    /// allocation; and the blocks that back whole computed chunks take the
    /// content keys of those chunks. Refused with `NotFound` where no slot is
    /// live under the id; with `Overflow` where the slot lacks the tokens,
    /// the blocks would not cover them, the pool lacks one of the blocks, a
    /// reference count would pass its limit, or one of the blocks is
    /// unreferenced with a save still in flight. A refused call changes
    /// nothing. After the call every one of `block_ids` is referred to.
    pub fn update_state_after_alloc(
        &mut self,
        request_id: String,
        block_ids: Vec<BlockId>,
        num_external_tokens: u64,
    ) -> (r: Result<(), SlotError>)
        requires
            old(self).wf(),
        ensures
            final(self).wf(),
            final(self).block_size() == old(self).block_size(),
            !old(self).slot_manager.has(request_id@) ==> r == Err::<(), SlotError>(
                SlotError::NotFound(request_id),
            ) && final(self).pool.blocks@ == old(self).pool.blocks@ && final(self).slot_manager@
                == old(self).slot_manager@,
            old(self).slot_manager.has(request_id@) && !old(self).can_commit(
                request_id@,
                block_ids@,
                num_external_tokens as nat,
            ) ==> r == Err::<(), SlotError>(SlotError::Overflow(request_id)) && final(self).pool.blocks@ == old(self).pool.blocks@ && final(self).slot_manager@ == old(self).slot_manager@,
            old(self).slot_manager.has(request_id@) && old(self).can_commit(
                request_id@,
                block_ids@,
                num_external_tokens as nat,
            ) ==> {
                let slot = old(self).slot_manager.slot_of(request_id@);
                &&& r.is_ok()
                &&& final(self).slot_manager@ == old(self).slot_manager@.update(
                    position(old(self).slot_manager@, request_id@),
                    slot.with_reserved(Seq::empty()).advanced(
                        block_ids@,
                        num_external_tokens as nat,
                    ),
                )
                &&& final(self).pool.blocks@ == Self::pool_after_alloc(
                    old(self).pool.blocks@,
                    slot,
                    block_ids@,
                    num_external_tokens as nat,
                    old(self).block_size(),
                )
                &&& forall|k: int|
                    0 <= k < block_ids@.len() ==> (#[trigger] block_ids@[k]) < final(self).pool.blocks@.len() && final(self).pool.blocks@[block_ids@[k] as int].ref_count
                        >= 1
            },
    {
        let i: usize = match self.slot_manager.find(&request_id) {
            Some(i) => i,
            None => {
                return Err(SlotError::NotFound(request_id));
            },
        };
        if !self.slot_manager.check_advance(i, &block_ids, num_external_tokens) {
            return Err(SlotError::Overflow(request_id));
        }
        if !self.pool.check_retain(&block_ids) {
            return Err(SlotError::Overflow(request_id));
        }
        if !self.pool.check_none_awaits_save(&block_ids) {
            return Err(SlotError::Overflow(request_id));
        }
        proof {
            lemma_cover_after_commit(
                old(self).pool.blocks@,
                old(self).slot_manager@,
                i as int,
                block_ids@,
                num_external_tokens as nat,
                self.block_size(),
            );
        }
        self.pool.retain_all(&block_ids);
        let reserved: Vec<BlockId> = self.slot_manager.take_reserved(i);
        self.pool.release_all(&reserved);
        let ghost committed = block_ids@;
        self.slot_manager.advance_at(i, block_ids, num_external_tokens);
        assert(self.slot_manager@ =~= old(self).slot_manager@.update(
            i as int,
            old(self).slot_manager@[i as int].with_reserved(Seq::empty()).advanced(
                committed,
                num_external_tokens as nat,
            ),
        ));
        assert(self.slot_manager.slots@[i as int]@ == self.slot_manager@[i as int]);
        assert(self.slot_manager@[i as int].wf(self.block_size()));
        publish_keys(
            &mut self.pool,
            &self.slot_manager.slots[i].block_ids,
            self.slot_manager.slots[i].salt_hash,
            &self.slot_manager.slots[i].tokens,
            self.slot_manager.block_size,
            self.slot_manager.slots[i].num_computed_tokens,
        );
        Ok(())
    }

    /// Whether the slot of `id` and the pool can take `block_ids` for `n`
    /// more tokens: the slot has the tokens, the blocks then cover what is
    /// computed, the pool has every block, no reference count passes its
    /// limit, and none of the blocks is an unreferenced one whose save is
    /// still in flight.
    pub open spec fn can_commit(&self, id: Seq<char>, block_ids: Seq<BlockId>, n: nat) -> bool {
        &&& self.slot_manager.slot_of(id).can_advance(block_ids, n, self.block_size())
        &&& can_retain(self.pool.blocks@, block_ids)
        &&& none_awaits_save(self.pool.blocks@, block_ids)
    }

    /// Gives up what is reserved for the request and not committed: one
    /// reference fewer on each reserved block, and none is reserved after.
    /// This is the way back for a request that was matched, or handed
    /// blocks, and then not admitted. Refused with `NotFound`, and without
    /// any change, exactly where no slot is live under the id.
    pub fn cancel_reservation(&mut self, request_id: String) -> (r: Result<(), SlotError>)
        requires
            old(self).wf(),
        ensures
            final(self).wf(),
            final(self).block_size() == old(self).block_size(),
            !old(self).slot_manager.has(request_id@) ==> r == Err::<(), SlotError>(
                SlotError::NotFound(request_id),
            ) && final(self).pool.blocks@ == old(self).pool.blocks@ && final(self).slot_manager@
                == old(self).slot_manager@,
            old(self).slot_manager.has(request_id@) ==> {
                let slot = old(self).slot_manager.slot_of(request_id@);
                &&& r.is_ok()
                &&& final(self).pool.blocks@ == release_all_spec(
                    old(self).pool.blocks@,
                    slot.reserved,
                )
                &&& final(self).slot_manager@ == old(self).slot_manager@.update(
                    position(old(self).slot_manager@, request_id@),
                    slot.with_reserved(Seq::empty()),
                )
            },
    {
        let i: usize = match self.slot_manager.find(&request_id) {
            Some(i) => i,
            None => {
                return Err(SlotError::NotFound(request_id));
            },
        };
        let reserved: Vec<BlockId> = self.slot_manager.take_reserved(i);
        self.pool.release_all(&reserved);
        proof {
            lemma_cover_after_cancel(old(self).pool.blocks@, old(self).slot_manager@, i as int);
        }
        Ok(())
    }

    /// Ends the request: deletes its slot and takes one reference off each
    /// block for every time the slot held it, committed or reserved. Returns
    /// whether a save is still in flight on a block that the slot owned,
    /// that is on one of its committed blocks; such a block must not be
    /// reused before the save drains. The slot's own record decides: the
    /// caller's `block_ids` are not consulted. Refused with `NotFound`, and
    /// without any change, exactly where no slot is live under the id.
    pub fn request_finished(&mut self, request_id: String, block_ids: Vec<BlockId>) -> (r: Result<
        bool,
        SlotError,
    >)
        requires
            old(self).wf(),
        ensures
            final(self).wf(),
            final(self).block_size() == old(self).block_size(),
            !final(self).slot_manager.has(request_id@),
            !old(self).slot_manager.has(request_id@) ==> r == Err::<bool, SlotError>(
                SlotError::NotFound(request_id),
            ) && final(self).pool.blocks@ == old(self).pool.blocks@ && final(self).slot_manager@
                == old(self).slot_manager@,
            old(self).slot_manager.has(request_id@) ==> {
                let slot = old(self).slot_manager.slot_of(request_id@);
                &&& r == Ok::<bool, SlotError>(
                    any_save_pending(old(self).pool.blocks@, slot.block_ids),
                )
                &&& final(self).pool.blocks@ == release_all_spec(
                    old(self).pool.blocks@,
                    slot.held(),
                )
                &&& final(self).slot_manager@ == old(self).slot_manager@.remove(
                    position(old(self).slot_manager@, request_id@),
                )
            },
    {
        let i: usize = match self.slot_manager.find(&request_id) {
            Some(i) => i,
            None => {
                return Err(SlotError::NotFound(request_id));
            },
        };
        let pending: bool = self.pool.has_pending_save(&self.slot_manager.slots[i].block_ids);
        assert(self.slot_manager.slots@[i as int]@ == self.slot_manager@[i as int]);
        match self.slot_manager.remove(&request_id) {
            Err(e) => Err(e),
            Ok(held) => {
                self.pool.release_all(&held);
                proof {
                    lemma_cover_after_finish(
                        old(self).pool.blocks@,
                        old(self).slot_manager@,
                        i as int,
                    );
                }
                Ok(pending)
            },
        }
    }
}

/// A slot without blocks leaves every count covered.
pub proof fn lemma_cover_after_create(blocks: Seq<Block>, slots: Seq<SlotView>, fresh: SlotView)
    requires
        counts_cover(blocks, slots),
        fresh.block_ids.len() == 0,
        fresh.reserved.len() == 0,
    ensures
        counts_cover(blocks, slots.push(fresh)),
{
    assert forall|b: int| 0 <= b < blocks.len() implies (#[trigger] blocks[b]).ref_count >= holders(
        slots.push(fresh),
        b as BlockId,
    ) by {
        lemma_holders_push(slots, fresh, b as BlockId);
    }
}

/// A free block, handed out with one reference and reserved by one slot,
/// leaves every count covered.
pub proof fn lemma_cover_after_allocate(
    blocks: Seq<Block>,
    slots: Seq<SlotView>,
    i: int,
    given: BlockId,
)
    requires
        counts_cover(blocks, slots),
        blocks.len() <= usize::MAX,
        0 <= i < slots.len(),
        given < blocks.len(),
        blocks[given as int].ref_count == 0,
    ensures
        counts_cover(
            blocks.update(given as int, fresh_block(given)),
            slots.update(i, slots[i].with_reserved(slots[i].reserved.push(given))),
        ),
{
    let after = blocks.update(given as int, fresh_block(given));
    let slot = slots[i].with_reserved(slots[i].reserved.push(given));
    assert forall|b: int| 0 <= b < after.len() implies (#[trigger] after[b]).ref_count >= holders(
        slots.update(i, slot),
        b as BlockId,
    ) by {
        lemma_holders_update(slots, i, slot, b as BlockId);
        assert(slots[i].reserved.push(given).drop_last() =~= slots[i].reserved);
        assert(blocks[b].ref_count >= holders(slots, b as BlockId));
    }
}

/// Blocks that are retained and reserved by one slot leave every count
/// covered.
pub proof fn lemma_cover_after_reserve(
    blocks: Seq<Block>,
    slots: Seq<SlotView>,
    i: int,
    more: Seq<BlockId>,
)
    requires
        counts_cover(blocks, slots),
        blocks.len() <= usize::MAX,
        0 <= i < slots.len(),
        can_retain(blocks, more),
    ensures
        counts_cover(
            retain_all_spec(blocks, more),
            slots.update(i, slots[i].with_reserved(slots[i].reserved + more)),
        ),
{
    let after = retain_all_spec(blocks, more);
    let slot = slots[i].with_reserved(slots[i].reserved + more);
    assert forall|b: int| 0 <= b < after.len() implies (#[trigger] after[b]).ref_count >= holders(
        slots.update(i, slot),
        b as BlockId,
    ) by {
        lemma_holders_update(slots, i, slot, b as BlockId);
        lemma_occurrences_concat(slots[i].reserved, more, b as BlockId);
        lemma_retained_count(blocks, more, b);
        assert(blocks[b].ref_count >= holders(slots, b as BlockId));
    }
}

/// Where the blocks of `ids` can be retained, each count rises by the
/// number of times that `ids` lists the block.
pub proof fn lemma_retained_count(blocks: Seq<Block>, ids: Seq<BlockId>, b: int)
    requires
        blocks.len() <= usize::MAX,
        can_retain(blocks, ids),
        0 <= b < blocks.len(),
    ensures
        retain_all_spec(blocks, ids)[b].ref_count == blocks[b].ref_count + occurrences(
            ids,
            b as BlockId,
        ),
{
    lemma_occurrences_member(ids, b as BlockId);
    lemma_occurrences_bound(ids, b as BlockId);
    if occurrences(ids, b as BlockId) > 0 {
        let k = choose|k: int| 0 <= k < ids.len() && ids[k] == b as BlockId;
        assert(ids[k] < blocks.len());
    }
}

/// Reservations that are released and forgotten leave every count covered.
pub proof fn lemma_cover_after_cancel(blocks: Seq<Block>, slots: Seq<SlotView>, i: int)
    requires
        counts_cover(blocks, slots),
        blocks.len() <= usize::MAX,
        0 <= i < slots.len(),
    ensures
        counts_cover(
            release_all_spec(blocks, slots[i].reserved),
            slots.update(i, slots[i].with_reserved(Seq::empty())),
        ),
{
    let after = release_all_spec(blocks, slots[i].reserved);
    let slot = slots[i].with_reserved(Seq::empty());
    assert forall|b: int| 0 <= b < after.len() implies (#[trigger] after[b]).ref_count >= holders(
        slots.update(i, slot),
        b as BlockId,
    ) by {
        lemma_holders_update(slots, i, slot, b as BlockId);
        assert(blocks[b].ref_count >= holders(slots, b as BlockId));
    }
}

/// A slot that ends, with one reference taken off for everything it held,
/// leaves every count covered.
pub proof fn lemma_cover_after_finish(blocks: Seq<Block>, slots: Seq<SlotView>, i: int)
    requires
        counts_cover(blocks, slots),
        blocks.len() <= usize::MAX,
        0 <= i < slots.len(),
    ensures
        counts_cover(release_all_spec(blocks, slots[i].held()), slots.remove(i)),
{
    let after = release_all_spec(blocks, slots[i].held());
    assert forall|b: int| 0 <= b < after.len() implies (#[trigger] after[b]).ref_count >= holders(
        slots.remove(i),
        b as BlockId,
    ) by {
        lemma_holders_remove(slots, i, b as BlockId);
        lemma_holders_update(slots, i, slots[i], b as BlockId);
        lemma_occurrences_concat(slots[i].block_ids, slots[i].reserved, b as BlockId);
        assert(blocks[b].ref_count >= holders(slots, b as BlockId));
    }
}

/// Blocks that are committed to a slot, with its reservations released,
/// leave every count covered, and each of them is referred to.
pub proof fn lemma_cover_after_commit(
    blocks: Seq<Block>,
    slots: Seq<SlotView>,
    i: int,
    block_ids: Seq<BlockId>,
    n: nat,
    block_size: nat,
)
    requires
        counts_cover(blocks, slots),
        blocks.len() <= usize::MAX,
        0 <= i < slots.len(),
        can_retain(blocks, block_ids),
    ensures
        ({
            let after = KvConnectorLeader::pool_after_alloc(
                blocks,
                slots[i],
                block_ids,
                n,
                block_size,
            );
            let slot = slots[i].with_reserved(Seq::empty()).advanced(block_ids, n);
            &&& after.len() == blocks.len()
            &&& counts_cover(after, slots.update(i, slot))
            &&& forall|k: int|
                0 <= k < block_ids.len() ==> (#[trigger] block_ids[k]) < after.len()
                    && after[block_ids[k] as int].ref_count >= 1
        }),
{
    let after = KvConnectorLeader::pool_after_alloc(blocks, slots[i], block_ids, n, block_size);
    let slot = slots[i].with_reserved(Seq::empty()).advanced(block_ids, n);
    let retained = retain_all_spec(blocks, block_ids);
    let settled = release_all_spec(retained, slots[i].reserved);
    lemma_published_keeps_counts(
        settled,
        slots[i].block_ids + block_ids,
        slots[i].salt_hash,
        slots[i].tokens,
        block_size,
        0,
        0,
        slots[i].num_computed_tokens + n,
    );
    assert forall|b: int| 0 <= b < after.len() implies (#[trigger] after[b]).ref_count >= holders(
        slots.update(i, slot),
        b as BlockId,
    ) && after[b].ref_count >= occurrences(block_ids, b as BlockId) by {
        lemma_holders_update(slots, i, slot, b as BlockId);
        lemma_occurrences_concat(slots[i].block_ids, block_ids, b as BlockId);
        lemma_retained_count(blocks, block_ids, b);
        assert(blocks[b].ref_count >= holders(slots, b as BlockId));
        assert(after[b].ref_count == settled[b].ref_count);
    }
    assert forall|k: int| 0 <= k < block_ids.len() implies (#[trigger] block_ids[k]) < after.len()
        && after[block_ids[k] as int].ref_count >= 1 by {
        let b = block_ids[k];
        assert(b < blocks.len());
        lemma_occurrences_member(block_ids, b);
        assert(after[b as int].ref_count >= occurrences(block_ids, b as int as BlockId));
    }
}

/// Reserving the blocks of a match changes no answer of the pool: each of
/// them was referred to before, and no other block is touched.
pub proof fn lemma_reserving_keeps_matches(
    blocks: Seq<Block>,
    salt: u64,
    tokens: Seq<u32>,
    block_size: nat,
    pos: nat,
)
    requires
        blocks.len() <= u64::MAX,
        can_retain(blocks, matched_blocks(blocks, salt, tokens, block_size, pos)),
    ensures
        answer_alike(
            blocks,
            retain_all_spec(blocks, matched_blocks(blocks, salt, tokens, block_size, pos)),
        ),
{
    let hits = matched_blocks(blocks, salt, tokens, block_size, pos);
    let after = retain_all_spec(blocks, hits);
    lemma_matched_blocks_referenced(blocks, salt, tokens, block_size, pos);
    assert forall|i: int| 0 <= i < blocks.len() implies (#[trigger] blocks[i]).content_key
        == after[i].content_key && blocks[i].loading == after[i].loading && (blocks[i].ref_count
        > 0) == (after[i].ref_count > 0) by {
        lemma_occurrences_member(hits, i as u64);
        lemma_occurrences_bound(hits, i as u64);
        if occurrences(hits, i as u64) > 0 {
            let k = choose|k: int| 0 <= k < hits.len() && hits[k] == i as u64;
            assert(hits[k] < blocks.len());
            assert(blocks[hits[k] as int].ref_count > 0);
        }
    }
}

} // verus!
