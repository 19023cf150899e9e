use crate::error::SlotError;
use crate::pool::{occurrences, BlockId};
use vstd::prelude::*;

verus! {

/// The cache state of one request.
#[derive(Debug)]
pub struct Slot {
    pub request_id: String,
    /// The caching namespace of the request.
    pub salt_hash: u64,
    /// The tokens of the request, as far as they are known.
    pub tokens: Vec<u32>,
    /// How many leading tokens are computed.
    pub num_computed_tokens: u64,
    /// The blocks that back the request, in token order.
    pub block_ids: Vec<BlockId>,
    /// The blocks reserved for the request and not yet committed.
    pub reserved: Vec<BlockId>,
}

/// What a slot holds, as mathematical values.
pub ghost struct SlotView {
    pub request_id: Seq<char>,
    pub salt_hash: u64,
    pub tokens: Seq<u32>,
    pub num_computed_tokens: nat,
    pub block_ids: Seq<BlockId>,
    pub reserved: Seq<BlockId>,
}

impl View for Slot {
    type V = SlotView;

    open spec fn view(&self) -> SlotView {
        SlotView {
            request_id: self.request_id@,
            salt_hash: self.salt_hash,
            tokens: self.tokens@,
            num_computed_tokens: self.num_computed_tokens as nat,
            block_ids: self.block_ids@,
            reserved: self.reserved@,
        }
    }
}

impl SlotView {
    /// The computed tokens are tokens of the request, and the blocks cover them.
    pub open spec fn wf(self, block_size: nat) -> bool {
        &&& self.num_computed_tokens <= self.tokens.len()
        &&& self.block_ids.len() * block_size >= self.num_computed_tokens
    }

    /// A slot as it is created: nothing computed, no block.
    pub open spec fn fresh(request_id: Seq<char>, salt_hash: u64, tokens: Seq<u32>) -> SlotView {
        SlotView {
            request_id,
            salt_hash,
            tokens,
            num_computed_tokens: 0,
            block_ids: Seq::empty(),
            reserved: Seq::empty(),
        }
    }

    /// The slot after `block_ids` were appended and `n` more tokens computed.
    pub open spec fn advanced(self, block_ids: Seq<BlockId>, n: nat) -> SlotView {
        SlotView {
            num_computed_tokens: self.num_computed_tokens + n,
            block_ids: self.block_ids + block_ids,
            ..self
        }
    }

    /// Whether the slot can take `block_ids` and `n` more computed tokens:
    /// the tokens exist, and the blocks then cover them.
    pub open spec fn can_advance(self, block_ids: Seq<BlockId>, n: nat, block_size: nat) -> bool {
        &&& self.num_computed_tokens + n <= self.tokens.len()
        &&& (self.block_ids.len() + block_ids.len()) * block_size >= self.num_computed_tokens + n
    }

    /// The slot with another list of reserved blocks.
    pub open spec fn with_reserved(self, reserved: Seq<BlockId>) -> SlotView {
        SlotView { reserved, ..self }
    }

    /// How often the slot holds the block `b`, committed or reserved.
    pub open spec fn held_count(self, b: BlockId) -> nat {
        occurrences(self.block_ids, b) + occurrences(self.reserved, b)
    }

    /// Every block on which the slot holds a reference: the committed ones,
    /// then the reserved ones.
    pub open spec fn held(self) -> Seq<BlockId> {
        self.block_ids + self.reserved
    }
}

/// The index of the slot of `id` in `slots`, or their number where none has it.
pub open spec fn position(slots: Seq<SlotView>, id: Seq<char>) -> int
    decreases slots.len(),
{
    if slots.len() == 0 {
        0
    } else {
        let p = position(slots.drop_last(), id);
        if p < slots.len() - 1 {
            p
        } else if slots.last().request_id == id {
            slots.len() - 1
        } else {
            slots.len() as int
        }
    }
}

/// `position` names the first slot with the id, and no slot before it has it.
pub proof fn lemma_position(slots: Seq<SlotView>, id: Seq<char>)
    ensures
        0 <= position(slots, id) <= slots.len(),
        position(slots, id) < slots.len() ==> slots[position(slots, id)].request_id == id,
        forall|j: int| 0 <= j < position(slots, id) ==> (#[trigger] slots[j]).request_id != id,
    decreases slots.len(),
{
    if slots.len() > 0 {
        lemma_position(slots.drop_last(), id);
        let p = position(slots.drop_last(), id);
        assert forall|j: int| 0 <= j < position(slots, id) implies (#[trigger] slots[j]).request_id
            != id by {
            if j < slots.len() - 1 {
                assert(slots.drop_last()[j] == slots[j]);
            }
        }
        if p < slots.len() - 1 {
            assert(slots.drop_last()[p] == slots[p]);
        }
    }
}

/// Slots that carry the same request ids place every id alike.
pub proof fn lemma_position_same_ids(a: Seq<SlotView>, b: Seq<SlotView>, id: Seq<char>)
    requires
        a.len() == b.len(),
        forall|i: int| 0 <= i < a.len() ==> (#[trigger] a[i]).request_id == b[i].request_id,
    ensures
        position(a, id) == position(b, id),
    decreases a.len(),
{
    if a.len() > 0 {
        assert forall|i: int| 0 <= i < a.drop_last().len() implies (
        #[trigger] a.drop_last()[i]).request_id == b.drop_last()[i].request_id by {
            assert(a[i].request_id == b[i].request_id);
        }
        lemma_position_same_ids(a.drop_last(), b.drop_last(), id);
        assert(a[a.len() - 1].request_id == b[a.len() - 1].request_id);
    }
}

/// How often the slots hold the block `b`, all together.
pub open spec fn holders(slots: Seq<SlotView>, b: BlockId) -> nat
    decreases slots.len(),
{
    if slots.len() == 0 {
        0
    } else {
        holders(slots.drop_last(), b) + slots.last().held_count(b)
    }
}

/// One more slot holds what the others hold and what it holds itself.
pub proof fn lemma_holders_push(slots: Seq<SlotView>, slot: SlotView, b: BlockId)
    ensures
        holders(slots.push(slot), b) == holders(slots, b) + slot.held_count(b),
{
    assert(slots.push(slot).drop_last() =~= slots);
}

/// A changed slot changes what the slots hold by what it holds more or less.
pub proof fn lemma_holders_update(slots: Seq<SlotView>, i: int, slot: SlotView, b: BlockId)
    requires
        0 <= i < slots.len(),
    ensures
        holders(slots, b) >= slots[i].held_count(b),
        holders(slots.update(i, slot), b) == holders(slots, b) - slots[i].held_count(b)
            + slot.held_count(b),
    decreases slots.len(),
{
    if i == slots.len() - 1 {
        assert(slots.update(i, slot).drop_last() =~= slots.drop_last());
    } else {
        lemma_holders_update(slots.drop_last(), i, slot, b);
        assert(slots.update(i, slot).drop_last() =~= slots.drop_last().update(i, slot));
    }
}

/// Without one of them the slots hold what that one held less.
pub proof fn lemma_holders_remove(slots: Seq<SlotView>, i: int, b: BlockId)
    requires
        0 <= i < slots.len(),
    ensures
        holders(slots.remove(i), b) == holders(slots, b) - slots[i].held_count(b),
    decreases slots.len(),
{
    if i == slots.len() - 1 {
        assert(slots.remove(i) =~= slots.drop_last());
    } else {
        lemma_holders_remove(slots.drop_last(), i, b);
        assert(slots.remove(i).drop_last() =~= slots.drop_last().remove(i));
        assert(slots.remove(i).last() == slots.last());
    }
}

/// The first slots hold no more than all of them.
pub proof fn lemma_holders_prefix(slots: Seq<SlotView>, k: int, b: BlockId)
    requires
        0 <= k <= slots.len(),
    ensures
        holders(slots.take(k), b) <= holders(slots, b),
    decreases slots.len(),
{
    if k == slots.len() {
        assert(slots.take(k) =~= slots);
    } else {
        lemma_holders_prefix(slots.drop_last(), k, b);
        assert(slots.take(k) =~= slots.drop_last().take(k));
    }
}

/// The registry of all slots, one for each live request id.
pub struct SlotManager {
    pub slots: Vec<Slot>,
    /// How many tokens one block holds.
    pub block_size: u64,
}

impl SlotManager {
    /// The slots, in the order of their creation.
    pub open spec fn view(&self) -> Seq<SlotView> {
        Seq::new(self.slots@.len(), |i: int| self.slots@[i]@)
    }

    /// Whether a slot is live under `id`.
    pub open spec fn has(&self, id: Seq<char>) -> bool {
        position(self@, id) < self@.len()
    }

    /// The slot that is live under `id`.
    pub open spec fn slot_of(&self, id: Seq<char>) -> SlotView
        recommends
            self.has(id),
    {
        self@[position(self@, id)]
    }

    /// A block holds at least one token, no two slots share a request id,
    /// and every slot is well formed.
    pub open spec fn wf(&self) -> bool {
        &&& self.block_size > 0
        &&& forall|i: int, j: int|
            0 <= i < j < self@.len() ==> (#[trigger] self@[i]).request_id
                != (#[trigger] self@[j]).request_id
        &&& forall|i: int| 0 <= i < self@.len() ==> (#[trigger] self@[i]).wf(self.block_size as nat)
    }

    /// An empty registry for blocks of `block_size` tokens; `None` where a
    /// block would hold no token.
    pub fn new(block_size: u64) -> (r: Option<SlotManager>)
        ensures
            r.is_some() == (block_size > 0),
            r.is_some() ==> r.unwrap().wf() && r.unwrap()@ == Seq::<SlotView>::empty()
                && r.unwrap().block_size == block_size,
    {
        if block_size == 0 {
            None
        } else {
            let m = SlotManager { slots: Vec::new(), block_size };
            assert(m@ =~= Seq::<SlotView>::empty());
            Some(m)
        }
    }

    /// Whether the registry is well formed.
    pub fn check_wf(&self) -> (ok: bool)
        ensures
            ok == self.wf(),
    {
        if self.block_size == 0 {
            return false;
        }
        let n: usize = self.slots.len();
        let mut i: usize = 0;
        while i < n
            invariant
                i <= n,
                n == self.slots@.len(),
                self.block_size > 0,
                forall|a: int, b: int|
                    0 <= a < b < i ==> (#[trigger] self@[a]).request_id
                        != (#[trigger] self@[b]).request_id,
                forall|a: int| 0 <= a < i ==> (#[trigger] self@[a]).wf(self.block_size as nat),
            decreases n - i,
        {
            let slot: &Slot = &self.slots[i];
            assert(slot@ == self@[i as int]);
            if slot.num_computed_tokens > slot.tokens.len() as u64 {
                return false;
            }
            let count: u128 = slot.block_ids.len() as u128;
            assert(count * self.block_size <= 0xFFFF_FFFF_FFFF_FFFF * 0xFFFF_FFFF_FFFF_FFFF)
                by (nonlinear_arith)
                requires
                    0 <= count <= 0xFFFF_FFFF_FFFF_FFFF,
                    0 <= self.block_size <= 0xFFFF_FFFF_FFFF_FFFF,
            ;
            if count * (self.block_size as u128) < slot.num_computed_tokens as u128 {
                return false;
            }
            let mut j: usize = 0;
            while j < i
                invariant
                    j <= i < n,
                    n == self.slots@.len(),
                    forall|a: int|
                        0 <= a < j ==> (#[trigger] self@[a]).request_id != self@[i as int].request_id,
                decreases i - j,
            {
                if self.slots[j].request_id == self.slots[i].request_id {
                    assert(self@[j as int].request_id == self@[i as int].request_id);
                    return false;
                }
                j = j + 1;
            }
            i = i + 1;
        }
        true
    }

    /// The index of the slot of `request_id`, if one is live.
    pub fn find(&self, request_id: &String) -> (r: Option<usize>)
        ensures
            match r {
                Some(i) => self.has(request_id@) && i == position(self@, request_id@),
                None => !self.has(request_id@),
            },
    {
        let n: usize = self.slots.len();
        let mut i: usize = 0;
        while i < n
            invariant
                i <= n,
                n == self.slots@.len(),
                forall|j: int| 0 <= j < i ==> (#[trigger] self@[j]).request_id != request_id@,
            decreases n - i,
        {
            if self.slots[i].request_id == *request_id {
                proof {
                    lemma_position(self@, request_id@);
                    assert(self@[i as int].request_id == request_id@);
                }
                return Some(i);
            }
            i = i + 1;
        }
        proof {
            lemma_position(self@, request_id@);
        }
        None
    }

    /// The slot of `request_id`, if one is live.
    pub fn lookup(&self, request_id: &String) -> (r: Option<&Slot>)
        ensures
            r.is_some() == self.has(request_id@),
            r.is_some() ==> r.unwrap()@ == self.slot_of(request_id@),
    {
        match self.find(request_id) {
            Some(i) => Some(&self.slots[i]),
            None => None,
        }
    }

    /// Registers a slot for `request_id` with nothing computed and no block.
    /// Refused with `AlreadyExists` exactly where a slot is live under the id.
    pub fn create_slot(&mut self, request_id: &String, salt_hash: u64, tokens: Vec<u32>) -> (r:
        Result<(), SlotError>)
        requires
            old(self).wf(),
        ensures
            final(self).wf(),
            final(self).block_size == old(self).block_size,
            old(self).has(request_id@) ==> r == Err::<(), SlotError>(
                SlotError::AlreadyExists(*request_id),
            ) && final(self)@ == old(self)@,
            !old(self).has(request_id@) ==> r.is_ok() && final(self)@ == old(self)@.push(
                SlotView::fresh(request_id@, salt_hash, tokens@),
            ),
    {
        match self.find(request_id) {
            Some(_) => Err(SlotError::AlreadyExists(request_id.clone())),
            None => {
                proof {
                    lemma_position(self@, request_id@);
                }
                let slot = Slot {
                    request_id: request_id.clone(),
                    salt_hash,
                    tokens,
                    num_computed_tokens: 0,
                    block_ids: Vec::new(),
                    reserved: Vec::new(),
                };
                assert(slot@ == SlotView::fresh(request_id@, salt_hash, tokens@));
                self.slots.push(slot);
                assert(self@ =~= old(self)@.push(SlotView::fresh(request_id@, salt_hash, tokens@)));
                Ok(())
            },
        }
    }

    /// Appends `block_ids` to the slot's blocks and counts `num_new_tokens`
    /// more tokens as computed. Refused with `NotFound` where no slot is live
    /// under the id, and with `Overflow` where the slot lacks the tokens or the
    /// blocks would not cover them; a refused call changes nothing.
    pub fn advance(&mut self, request_id: &String, block_ids: Vec<BlockId>, num_new_tokens: u64) -> (r:
        Result<(), SlotError>)
        requires
            old(self).wf(),
        ensures
            final(self).wf(),
            final(self).block_size == old(self).block_size,
            !old(self).has(request_id@) ==> r == Err::<(), SlotError>(
                SlotError::NotFound(*request_id),
            ) && final(self)@ == old(self)@,
            old(self).has(request_id@) && !old(self).slot_of(request_id@).can_advance(
                block_ids@,
                num_new_tokens as nat,
                old(self).block_size as nat,
            ) ==> r == Err::<(), SlotError>(SlotError::Overflow(*request_id)) && final(self)@ == old(self)@,
            old(self).has(request_id@) && old(self).slot_of(request_id@).can_advance(
                block_ids@,
                num_new_tokens as nat,
                old(self).block_size as nat,
            ) ==> r.is_ok() && final(self)@ == old(self)@.update(
                position(old(self)@, request_id@),
                old(self).slot_of(request_id@).advanced(block_ids@, num_new_tokens as nat),
            ),
    {
        let i: usize = match self.find(request_id) {
            Some(i) => i,
            None => {
                return Err(SlotError::NotFound(request_id.clone()));
            },
        };
        if !self.check_advance(i, &block_ids, num_new_tokens) {
            return Err(SlotError::Overflow(request_id.clone()));
        }
        self.advance_at(i, block_ids, num_new_tokens);
        Ok(())
    }

    /// Advances the slot at `index`, which can take the blocks and tokens.
    pub fn advance_at(&mut self, index: usize, block_ids: Vec<BlockId>, num_new_tokens: u64)
        requires
            old(self).wf(),
            index < old(self)@.len(),
            old(self)@[index as int].can_advance(
                block_ids@,
                num_new_tokens as nat,
                old(self).block_size as nat,
            ),
            old(self)@[index as int].num_computed_tokens + num_new_tokens <= u64::MAX,
        ensures
            final(self).wf(),
            final(self).block_size == old(self).block_size,
            final(self)@ == old(self)@.update(
                index as int,
                old(self)@[index as int].advanced(block_ids@, num_new_tokens as nat),
            ),
    {
        let mut slot: Slot = self.slots.remove(index);
        assert(slot@ == old(self)@[index as int]);
        let mut added: Vec<BlockId> = block_ids;
        slot.block_ids.append(&mut added);
        slot.num_computed_tokens = slot.num_computed_tokens + num_new_tokens;
        self.slots.insert(index, slot);
        assert(self@ =~= old(self)@.update(
            index as int,
            old(self)@[index as int].advanced(block_ids@, num_new_tokens as nat),
        ));
    }

    /// Whether the slot at `index` can take `block_ids` and `num_new_tokens`
    /// more computed tokens.
    pub fn check_advance(&self, index: usize, block_ids: &Vec<BlockId>, num_new_tokens: u64) -> (ok:
        bool)
        requires
            self.wf(),
            index < self@.len(),
        ensures
            ok == self@[index as int].can_advance(
                block_ids@,
                num_new_tokens as nat,
                self.block_size as nat,
            ),
            ok ==> self@[index as int].num_computed_tokens + num_new_tokens <= u64::MAX,
    {
        let slot: &Slot = &self.slots[index];
        assert(slot@ == self@[index as int]);
        assert(slot@.wf(self.block_size as nat));
        let room: u64 = (slot.tokens.len() as u64) - slot.num_computed_tokens;
        if num_new_tokens > room {
            return false;
        }
        let total: u128 = (slot.num_computed_tokens as u128) + (num_new_tokens as u128);
        let count: u128 = (slot.block_ids.len() as u128) + (block_ids.len() as u128);
        if count >= total {
            assert(count * self.block_size >= total) by (nonlinear_arith)
                requires
                    count >= total >= 0,
                    self.block_size >= 1,
            ;
            return true;
        }
        assert(count * self.block_size <= 0xFFFF_FFFF_FFFF_FFFF * 0xFFFF_FFFF_FFFF_FFFF)
            by (nonlinear_arith)
            requires
                0 <= count <= 0xFFFF_FFFF_FFFF_FFFF,
                0 <= self.block_size <= 0xFFFF_FFFF_FFFF_FFFF,
        ;
        count * (self.block_size as u128) >= total
    }

    /// Adds `more` to the reserved blocks of the slot at `index`.
    pub fn add_reserved(&mut self, index: usize, more: Vec<BlockId>)
        requires
            old(self).wf(),
            index < old(self)@.len(),
        ensures
            final(self).wf(),
            final(self).block_size == old(self).block_size,
            final(self)@ == old(self)@.update(
                index as int,
                old(self)@[index as int].with_reserved(old(self)@[index as int].reserved + more@),
            ),
    {
        let mut slot: Slot = self.slots.remove(index);
        let mut added: Vec<BlockId> = more;
        slot.reserved.append(&mut added);
        self.slots.insert(index, slot);
        assert(self@ =~= old(self)@.update(
            index as int,
            old(self)@[index as int].with_reserved(old(self)@[index as int].reserved + more@),
        ));
    }

    /// Empties the reserved blocks of the slot at `index` and hands them back.
    pub fn take_reserved(&mut self, index: usize) -> (before: Vec<BlockId>)
        requires
            old(self).wf(),
            index < old(self)@.len(),
        ensures
            final(self).wf(),
            final(self).block_size == old(self).block_size,
            before@ == old(self)@[index as int].reserved,
            final(self)@ == old(self)@.update(
                index as int,
                old(self)@[index as int].with_reserved(Seq::empty()),
            ),
    {
        let mut slot: Slot = self.slots.remove(index);
        let before: Vec<BlockId> = slot.reserved;
        slot.reserved = Vec::new();
        self.slots.insert(index, slot);
        assert(self@ =~= old(self)@.update(
            index as int,
            old(self)@[index as int].with_reserved(Seq::empty()),
        ));
        before
    }

    /// Deletes the slot of `request_id` and hands back every block on which
    /// it held a reference, committed ones first, for the caller to release.
    /// Refused with `NotFound` exactly where no slot is live under the id, so
    /// a second removal fails.
    pub fn remove(&mut self, request_id: &String) -> (r: Result<Vec<BlockId>, SlotError>)
        requires
            old(self).wf(),
        ensures
            final(self).wf(),
            final(self).block_size == old(self).block_size,
            !final(self).has(request_id@),
            match r {
                Ok(blocks) => {
                    &&& old(self).has(request_id@)
                    &&& blocks@ == old(self).slot_of(request_id@).held()
                    &&& final(self)@ == old(self)@.remove(position(old(self)@, request_id@))
                },
                Err(e) => {
                    &&& !old(self).has(request_id@)
                    &&& e == SlotError::NotFound(*request_id)
                    &&& final(self)@ == old(self)@
                },
            },
    {
        let i: usize = match self.find(request_id) {
            Some(i) => i,
            None => {
                return Err(SlotError::NotFound(request_id.clone()));
            },
        };
        let slot: Slot = self.slots.remove(i);
        let mut blocks: Vec<BlockId> = slot.block_ids;
        let mut reserved: Vec<BlockId> = slot.reserved;
        blocks.append(&mut reserved);
        assert(self@ =~= old(self)@.remove(i as int));
        proof {
            lemma_position(old(self)@, request_id@);
            lemma_position(self@, request_id@);
            let p = position(self@, request_id@);
            if p < self@.len() {
                if p < i {
                    assert(old(self)@[p].request_id == request_id@);
                } else {
                    assert(old(self)@[p + 1].request_id == request_id@);
                }
            }
        }
        Ok(blocks)
    }
}

} // verus!
