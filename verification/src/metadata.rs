use crate::error::SlotError;
use crate::leader::KvConnectorLeader;
use crate::pool::{Block, BlockId, BlockPool};
use crate::slot::{position, SlotView};
use vstd::prelude::*;

verus! {

/// What the execution engine must do with a block around a step.
#[derive(Clone, Copy, Debug, PartialEq, Eq)]
pub enum Transfer {
    /// Load the block's data from a colder tier before the step.
    Load,
    /// Save the block's freshly computed data after the step.
    Save,
    /// Nothing.
    NoOp,
}

/// One request of a step, as the scheduler reports it.
#[derive(Debug)]
pub struct ScheduledRequest {
    pub request_id: String,
    /// How many tokens the step computes for the request.
    pub num_scheduled_tokens: u64,
    /// The blocks newly given to the request for the step.
    pub new_block_ids: Vec<BlockId>,
}

/// What a scheduled request holds, as mathematical values.
pub ghost struct ScheduledView {
    pub request_id: Seq<char>,
    pub num_scheduled_tokens: nat,
    pub new_block_ids: Seq<BlockId>,
}

impl View for ScheduledRequest {
    type V = ScheduledView;

    open spec fn view(&self) -> ScheduledView {
        ScheduledView {
            request_id: self.request_id@,
            num_scheduled_tokens: self.num_scheduled_tokens as nat,
            new_block_ids: self.new_block_ids@,
        }
    }
}

/// The requests that are active in one step.
#[derive(Debug)]
pub struct SchedulerOutput {
    pub requests: Vec<ScheduledRequest>,
}

impl View for SchedulerOutput {
    type V = Seq<ScheduledView>;

    open spec fn view(&self) -> Seq<ScheduledView> {
        Seq::new(self.requests@.len(), |i: int| self.requests@[i]@)
    }
}

/// One instruction of a step: a block of a request and what to do with it.
#[derive(Debug)]
pub struct BlockOp {
    pub request_id: String,
    pub block_id: BlockId,
    pub op: Transfer,
}

/// What an instruction holds, as mathematical values.
pub ghost struct BlockOpView {
    pub request_id: Seq<char>,
    pub block_id: BlockId,
    pub op: Transfer,
}

impl View for BlockOp {
    type V = BlockOpView;

    open spec fn view(&self) -> BlockOpView {
        BlockOpView { request_id: self.request_id@, block_id: self.block_id, op: self.op }
    }
}

/// The instructions of one step, request after request in the scheduler's
/// order, and block after block within a request.
#[derive(Debug)]
pub struct KvConnectorMetadata {
    pub ops: Vec<BlockOp>,
}

impl View for KvConnectorMetadata {
    type V = Seq<BlockOpView>;

    open spec fn view(&self) -> Seq<BlockOpView> {
        ops_view(self.ops@)
    }
}

/// The instructions of a list, each by its view.
pub open spec fn ops_view(ops: Seq<BlockOp>) -> Seq<BlockOpView> {
    Seq::new(ops.len(), |i: int| ops[i]@)
}

/// What to do with the block `b` that stands at `index` among a request's
/// blocks, of which the first `loaded` back computed tokens and the first
/// `saved` are whole once the step is done: a block of computed tokens is
/// loaded where its data is still on the way, a block that the step
/// completes is saved, and the others are left alone.
pub open spec fn tag_of(blocks: Seq<Block>, loaded: nat, saved: nat, index: int, b: BlockId) -> Transfer {
    if index < loaded {
        if b < blocks.len() && blocks[b as int].loading {
            Transfer::Load
        } else {
            Transfer::NoOp
        }
    } else if index < saved {
        Transfer::Save
    } else {
        Transfer::NoOp
    }
}

/// The instructions for `count` blocks of `ids` that stand from `offset` on
/// among a request's blocks.
pub open spec fn tagged(
    blocks: Seq<Block>,
    request_id: Seq<char>,
    ids: Seq<BlockId>,
    offset: nat,
    loaded: nat,
    saved: nat,
    count: nat,
) -> Seq<BlockOpView> {
    Seq::new(
        count,
        |j: int|
            BlockOpView {
                request_id,
                block_id: ids[j],
                op: tag_of(blocks, loaded, saved, offset + j, ids[j]),
            },
    )
}

/// The instructions for one request: one for each block of its slot and
/// then for each block newly given to it.
pub open spec fn request_ops(
    blocks: Seq<Block>,
    slot: SlotView,
    req: ScheduledView,
    block_size: nat,
) -> Seq<BlockOpView> {
    let loaded = slot.num_computed_tokens / block_size;
    let saved = (slot.num_computed_tokens + req.num_scheduled_tokens) / block_size;
    tagged(
        blocks,
        req.request_id,
        slot.block_ids,
        0,
        loaded,
        saved,
        slot.block_ids.len(),
    ) + tagged(
        blocks,
        req.request_id,
        req.new_block_ids,
        slot.block_ids.len(),
        loaded,
        saved,
        req.new_block_ids.len(),
    )
}

/// The instructions for all of `reqs`, in their order.
pub open spec fn all_ops(
    blocks: Seq<Block>,
    slots: Seq<SlotView>,
    reqs: Seq<ScheduledView>,
    block_size: nat,
) -> Seq<BlockOpView>
    decreases reqs.len(),
{
    if reqs.len() == 0 {
        Seq::empty()
    } else {
        all_ops(blocks, slots, reqs.drop_last(), block_size) + request_ops(
            blocks,
            slots[position(slots, reqs.last().request_id)],
            reqs.last(),
            block_size,
        )
    }
}

/// Appends the instructions for the blocks of `ids`.
fn push_ops(
    ops: &mut Vec<BlockOp>,
    pool: &BlockPool,
    request_id: &String,
    ids: &Vec<BlockId>,
    offset: usize,
    loaded: u128,
    saved: u128,
)
    ensures
        ops_view(final(ops)@) == ops_view(old(ops)@) + tagged(
            pool.blocks@,
            request_id@,
            ids@,
            offset as nat,
            loaded as nat,
            saved as nat,
            ids@.len(),
        ),
{
    let n: usize = ids.len();
    let capacity: usize = pool.blocks.len();
    let mut j: usize = 0;
    assert(ops_view(ops@) =~= ops_view(old(ops)@) + tagged(
        pool.blocks@,
        request_id@,
        ids@,
        offset as nat,
        loaded as nat,
        saved as nat,
        0,
    ));
    while j < n
        invariant
            j <= n,
            n == ids@.len(),
            capacity == pool.blocks@.len(),
            ops_view(ops@) == ops_view(old(ops)@) + tagged(
                pool.blocks@,
                request_id@,
                ids@,
                offset as nat,
                loaded as nat,
                saved as nat,
                j as nat,
            ),
        decreases n - j,
    {
        let b: BlockId = ids[j];
        let index: u128 = (offset as u128) + (j as u128);
        let op: Transfer = if index < loaded {
            if b < capacity as u64 && pool.blocks[b as usize].loading {
                Transfer::Load
            } else {
                Transfer::NoOp
            }
        } else if index < saved {
            Transfer::Save
        } else {
            Transfer::NoOp
        };
        let ghost before = ops@;
        let ghost left = ops_view(old(ops)@) + tagged(
            pool.blocks@,
            request_id@,
            ids@,
            offset as nat,
            loaded as nat,
            saved as nat,
            j as nat,
        );
        let ghost right = ops_view(old(ops)@) + tagged(
            pool.blocks@,
            request_id@,
            ids@,
            offset as nat,
            loaded as nat,
            saved as nat,
            (j + 1) as nat,
        );
        assert(op == tag_of(pool.blocks@, loaded as nat, saved as nat, offset + j, b));
        ops.push(BlockOp { request_id: request_id.clone(), block_id: b, op });
        proof {
            assert(ops_view(before) == left);
            assert(before.len() == left.len());
            assert(ops_view(ops@).len() == right.len());
            assert forall|i: int| 0 <= i < right.len() implies ops_view(ops@)[i] == right[i] by {
                if i < before.len() {
                    assert(ops@[i] == before[i]);
                    assert(ops_view(before)[i] == before[i]@);
                    assert(left[i] == right[i]);
                } else {
                    assert(ops@[i]@ == right[i]);
                }
            }
            assert(ops_view(ops@) =~= right);
        }
        j = j + 1;
    }
}

impl KvConnectorLeader {
    /// Compiles the instructions of one step from the slots, the pool and
    /// what the scheduler reports, and changes nothing. Every request of
    /// the step must have a slot: the first that has none is refused with
    /// `NotFound`.
    pub fn build_connector_metadata(&self, scheduler_output: SchedulerOutput) -> (r: Result<
        KvConnectorMetadata,
        SlotError,
    >)
        requires
            self.wf(),
        ensures
            r.is_ok() <==> forall|k: int|
                0 <= k < scheduler_output@.len() ==> self.slot_manager.has(
                    (#[trigger] scheduler_output@[k]).request_id,
                ),
            match r {
                Ok(metadata) => metadata@ == all_ops(
                    self.pool.blocks@,
                    self.slot_manager@,
                    scheduler_output@,
                    self.block_size(),
                ),
                Err(e) => exists|k: int|
                    {
                        &&& 0 <= k < scheduler_output@.len()
                        &&& !self.slot_manager.has((#[trigger] scheduler_output@[k]).request_id)
                        &&& e == SlotError::NotFound(scheduler_output.requests@[k].request_id)
                        &&& forall|j: int|
                            0 <= j < k ==> self.slot_manager.has(
                                (#[trigger] scheduler_output@[j]).request_id,
                            )
                    },
            },
    {
        let n: usize = scheduler_output.requests.len();
        let block_size: u128 = self.slot_manager.block_size as u128;
        let mut ops: Vec<BlockOp> = Vec::new();
        let mut k: usize = 0;
        assert(scheduler_output@.take(0) =~= Seq::<ScheduledView>::empty());
        assert(ops_view(ops@) =~= Seq::<BlockOpView>::empty());
        while k < n
            invariant
                k <= n,
                n == scheduler_output.requests@.len(),
                self.wf(),
                block_size == self.slot_manager.block_size,
                forall|j: int|
                    0 <= j < k ==> self.slot_manager.has(
                        (#[trigger] scheduler_output@[j]).request_id,
                    ),
                ops_view(ops@) == all_ops(
                    self.pool.blocks@,
                    self.slot_manager@,
                    scheduler_output@.take(k as int),
                    self.block_size(),
                ),
            decreases n - k,
        {
            let req: &ScheduledRequest = &scheduler_output.requests[k];
            assert(req@ == scheduler_output@[k as int]);
            let i: usize = match self.slot_manager.find(&req.request_id) {
                Some(i) => i,
                None => {
                    return Err(SlotError::NotFound(req.request_id.clone()));
                },
            };
            let slot = &self.slot_manager.slots[i];
            assert(slot@ == self.slot_manager@[i as int]);
            let loaded: u128 = (slot.num_computed_tokens as u128) / block_size;
            let saved: u128 = ((slot.num_computed_tokens as u128) + (
            req.num_scheduled_tokens as u128)) / block_size;
            push_ops(&mut ops, &self.pool, &req.request_id, &slot.block_ids, 0, loaded, saved);
            push_ops(
                &mut ops,
                &self.pool,
                &req.request_id,
                &req.new_block_ids,
                slot.block_ids.len(),
                loaded,
                saved,
            );
            proof {
                assert(scheduler_output@.take(k + 1).drop_last() =~= scheduler_output@.take(
                    k as int,
                ));
                assert(scheduler_output@.take(k + 1).last() == req@);
            }
            k = k + 1;
        }
        assert(scheduler_output@.take(n as int) =~= scheduler_output@);
        Ok(KvConnectorMetadata { ops })
    }
}

} // verus!
