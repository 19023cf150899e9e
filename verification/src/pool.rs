use vstd::prelude::*;

verus! {

/// Identifier of one cache block: its index in the pool.
pub type BlockId = u64;

/// One fixed-size chunk of cache, as the pool accounts for it.
#[derive(Clone, Copy, Debug, PartialEq, Eq)]
pub struct Block {
    pub id: BlockId,
    /// How many holders (committed owners and reservations) refer to the block.
    pub ref_count: u64,
    /// The rolling key of the tokens whose activations the block holds, if any.
    pub content_key: Option<u64>,
    /// The block's data is still being fetched from a colder tier.
    pub loading: bool,
    /// A save of the block's data is still in flight.
    pub save_pending: bool,
}

/// How often `b` occurs in `ids`.
pub open spec fn occurrences(ids: Seq<BlockId>, b: BlockId) -> nat
    decreases ids.len(),
{
    if ids.len() == 0 {
        0
    } else {
        occurrences(ids.drop_last(), b) + if ids.last() == b {
            1nat
        } else {
            0nat
        }
    }
}

/// The sum of the reference counts of `blocks`.
pub open spec fn sum_refs(blocks: Seq<Block>) -> nat
    decreases blocks.len(),
{
    if blocks.len() == 0 {
        0
    } else {
        sum_refs(blocks.drop_last()) + blocks.last().ref_count as nat
    }
}

/// A block that may be handed out: nobody refers to it and no save is in flight.
pub open spec fn is_free(b: Block) -> bool {
    b.ref_count == 0 && !b.save_pending
}

/// A block as `allocate` hands it out: one reference, no content.
pub open spec fn fresh_block(id: BlockId) -> Block {
    Block { id, ref_count: 1, content_key: None, loading: false, save_pending: false }
}

/// `b` with `n` references more.
pub open spec fn retained(b: Block, n: nat) -> Block {
    Block { ref_count: (b.ref_count + n) as u64, ..b }
}

/// `b` with `n` references fewer, never below zero.
pub open spec fn released(b: Block, n: nat) -> Block {
    Block {
        ref_count: if b.ref_count >= n {
            (b.ref_count - n) as u64
        } else {
            0
        },
        ..b
    }
}

/// Every block of `ids` exists and can take as many references more as `ids` is long.
pub open spec fn can_retain(blocks: Seq<Block>, ids: Seq<BlockId>) -> bool {
    forall|i: int|
        0 <= i < ids.len() ==> (#[trigger] ids[i]) < blocks.len() && blocks[ids[i] as int].ref_count
            + ids.len() <= u64::MAX
}

/// `blocks` after one reference more for every occurrence in `ids`.
pub open spec fn retain_all_spec(blocks: Seq<Block>, ids: Seq<BlockId>) -> Seq<Block> {
    Seq::new(blocks.len(), |b: int| retained(blocks[b], occurrences(ids, b as u64)))
}

/// `blocks` after one reference fewer for every occurrence in `ids`.
pub open spec fn release_all_spec(blocks: Seq<Block>, ids: Seq<BlockId>) -> Seq<Block> {
    Seq::new(blocks.len(), |b: int| released(blocks[b], occurrences(ids, b as u64)))
}

/// Some block of `ids` exists in `blocks` with a save in flight.
pub open spec fn any_save_pending(blocks: Seq<Block>, ids: Seq<BlockId>) -> bool {
    exists|i: int|
        0 <= i < ids.len() && (#[trigger] ids[i]) < blocks.len() && blocks[ids[i] as int].save_pending
}

/// `list` ends with the ids of `tail`, in their order.
pub open spec fn ends_with(list: Seq<BlockId>, tail: Seq<BlockId>) -> bool {
    tail.len() <= list.len() && list.subrange(list.len() - tail.len(), list.len() as int) == tail
}

/// A block that nobody refers to while a save of it is still in flight: it
/// must not be put to use again before the save drains.
pub open spec fn awaits_save(b: Block) -> bool {
    b.ref_count == 0 && b.save_pending
}

/// No block of `ids` that the pool has is unreferenced with a save in flight.
pub open spec fn none_awaits_save(blocks: Seq<Block>, ids: Seq<BlockId>) -> bool {
    forall|i: int|
        0 <= i < ids.len() && (#[trigger] ids[i]) < blocks.len() ==> !awaits_save(
            blocks[ids[i] as int],
        )
}

/// No id occurs more often in a list than the list is long.
pub proof fn lemma_occurrences_bound(ids: Seq<BlockId>, b: BlockId)
    ensures
        occurrences(ids, b) <= ids.len(),
    decreases ids.len(),
{
    if ids.len() > 0 {
        lemma_occurrences_bound(ids.drop_last(), b);
    }
}

/// The occurrences in two lists, one after the other, add up.
pub proof fn lemma_occurrences_concat(a: Seq<BlockId>, c: Seq<BlockId>, b: BlockId)
    ensures
        occurrences(a + c, b) == occurrences(a, b) + occurrences(c, b),
    decreases c.len(),
{
    if c.len() == 0 {
        assert(a + c =~= a);
    } else {
        assert((a + c).drop_last() =~= a + c.drop_last());
        lemma_occurrences_concat(a, c.drop_last(), b);
    }
}

/// An id that occurs in no position of `ids` is counted zero times, and one
/// that is counted occurs in some position.
pub proof fn lemma_occurrences_member(ids: Seq<BlockId>, b: BlockId)
    ensures
        occurrences(ids, b) > 0 <==> exists|i: int| 0 <= i < ids.len() && ids[i] == b,
    decreases ids.len(),
{
    if ids.len() > 0 {
        lemma_occurrences_member(ids.drop_last(), b);
        if occurrences(ids, b) > 0 {
            if ids.last() == b {
                assert(ids[ids.len() - 1] == b);
            } else {
                let i = choose|i: int| 0 <= i < ids.drop_last().len() && ids.drop_last()[i] == b;
                assert(ids[i] == b);
            }
        }
        if exists|i: int| 0 <= i < ids.len() && ids[i] == b {
            let i = choose|i: int| 0 <= i < ids.len() && ids[i] == b;
            if i < ids.len() - 1 {
                assert(ids.drop_last()[i] == b);
            }
        }
    }
}

/// The arena of all cache blocks, indexed by block id. It alone owns the
/// blocks and their reference counts.
pub struct BlockPool {
    pub blocks: Vec<Block>,
}

impl BlockPool {
    /// Every block sits at the index that its id names.
    pub open spec fn wf(&self) -> bool {
        &&& self.blocks@.len() <= usize::MAX
        &&& forall|i: int| 0 <= i < self.blocks@.len() ==> (#[trigger] self.blocks@[i]).id == i
    }

    /// The pool's total outstanding reference count.
    pub open spec fn total_refs(&self) -> nat {
        sum_refs(self.blocks@)
    }

    /// A pool of `capacity` blocks, all free and without content.
    pub fn new(capacity: usize) -> (pool: BlockPool)
        ensures
            pool.wf(),
            pool.blocks@.len() == capacity,
            forall|i: int|
                0 <= i < capacity ==> #[trigger] pool.blocks@[i] == (Block {
                    id: i as u64,
                    ref_count: 0,
                    content_key: None,
                    loading: false,
                    save_pending: false,
                }),
    {
        let mut blocks: Vec<Block> = Vec::new();
        let mut i: usize = 0;
        while i < capacity
            invariant
                i <= capacity,
                blocks@.len() == i,
                forall|j: int|
                    0 <= j < i ==> #[trigger] blocks@[j] == (Block {
                        id: j as u64,
                        ref_count: 0,
                        content_key: None,
                        loading: false,
                        save_pending: false,
                    }),
            decreases capacity - i,
        {
            blocks.push(
                Block {
                    id: i as u64,
                    ref_count: 0,
                    content_key: None,
                    loading: false,
                    save_pending: false,
                },
            );
            i = i + 1;
        }
        BlockPool { blocks }
    }

    /// Whether the pool is well formed.
    pub fn check_wf(&self) -> (ok: bool)
        ensures
            ok == self.wf(),
    {
        let n: usize = self.blocks.len();
        let mut i: usize = 0;
        while i < n
            invariant
                i <= n,
                n == self.blocks@.len(),
                forall|j: int| 0 <= j < i ==> (#[trigger] self.blocks@[j]).id == j,
            decreases n - i,
        {
            if self.blocks[i].id != i as u64 {
                return false;
            }
            i = i + 1;
        }
        true
    }

    /// The number of blocks in the pool.
    pub fn capacity(&self) -> (n: usize)
        ensures
            n == self.blocks@.len(),
    {
        self.blocks.len()
    }

    /// The block with the given id, if the pool has one.
    pub fn get(&self, id: BlockId) -> (r: Option<Block>)
        ensures
            r == if id < self.blocks@.len() {
                Some(self.blocks@[id as int])
            } else {
                None
            },
    {
        if id < self.blocks.len() as u64 {
            Some(self.blocks[id as usize])
        } else {
            None
        }
    }

    /// Hands out the free block with the lowest id, with one reference and no
    /// content. A block that is referred to, or whose save is still in
    /// flight, is never handed out; `None` says that no block is free.
    pub fn allocate(&mut self) -> (r: Option<BlockId>)
        requires
            old(self).wf(),
        ensures
            final(self).wf(),
            match r {
                Some(id) => {
                    &&& id < old(self).blocks@.len()
                    &&& is_free(old(self).blocks@[id as int])
                    &&& forall|j: int| 0 <= j < id ==> !is_free(#[trigger] old(self).blocks@[j])
                    &&& final(self).blocks@ == old(self).blocks@.update(id as int, fresh_block(id))
                },
                None => {
                    &&& forall|j: int|
                        0 <= j < old(self).blocks@.len() ==> !is_free(
                            #[trigger] old(self).blocks@[j],
                        )
                    &&& final(self).blocks@ == old(self).blocks@
                },
            },
    {
        let n: usize = self.blocks.len();
        let mut i: usize = 0;
        while i < n
            invariant
                i <= n,
                n == self.blocks@.len(),
                self.wf(),
                self.blocks@ == old(self).blocks@,
                forall|j: int| 0 <= j < i ==> !is_free(#[trigger] self.blocks@[j]),
            decreases n - i,
        {
            let b: Block = self.blocks[i];
            if b.ref_count == 0 && !b.save_pending {
                self.blocks.set(
                    i,
                    Block {
                        id: i as u64,
                        ref_count: 1,
                        content_key: None,
                        loading: false,
                        save_pending: false,
                    },
                );
                return Some(i as u64);
            }
            i = i + 1;
        }
        None
    }

    /// Whether `retain_all` can take `ids`.
    pub fn check_retain(&self, ids: &Vec<BlockId>) -> (ok: bool)
        ensures
            ok == can_retain(self.blocks@, ids@),
    {
        let n: usize = ids.len();
        let mut i: usize = 0;
        while i < n
            invariant
                i <= n,
                n == ids@.len(),
                forall|j: int|
                    0 <= j < i ==> (#[trigger] ids@[j]) < self.blocks@.len()
                        && self.blocks@[ids@[j] as int].ref_count + n <= u64::MAX,
            decreases n - i,
        {
            let id: BlockId = ids[i];
            if id >= self.blocks.len() as u64 {
                return false;
            }
            if self.blocks[id as usize].ref_count > u64::MAX - (n as u64) {
                return false;
            }
            i = i + 1;
        }
        true
    }

    /// One reference more on a block for each time `ids` lists it.
    pub fn retain_all(&mut self, ids: &Vec<BlockId>)
        requires
            old(self).wf(),
            can_retain(old(self).blocks@, ids@),
        ensures
            final(self).wf(),
            final(self).blocks@ == retain_all_spec(old(self).blocks@, ids@),
    {
        let n: usize = ids.len();
        let mut i: usize = 0;
        assert(ids@.take(0) =~= Seq::<BlockId>::empty());
        assert(self.blocks@ =~= retain_all_spec(old(self).blocks@, ids@.take(0)));
        let m: usize = self.blocks.len();
        while i < n
            invariant
                i <= n,
                n == ids@.len(),
                m == old(self).blocks@.len(),
                can_retain(old(self).blocks@, ids@),
                self.blocks@ == retain_all_spec(old(self).blocks@, ids@.take(i as int)),
            decreases n - i,
        {
            let id: BlockId = ids[i];
            proof {
                lemma_occurrences_bound(ids@.take(i as int), id);
                assert(ids@.take(i + 1).drop_last() =~= ids@.take(i as int));
                assert(ids@[i as int] < old(self).blocks@.len());
                assert(self.blocks@[id as int] == retained(
                    old(self).blocks@[id as int],
                    occurrences(ids@.take(i as int), id),
                ));
            }
            let b: Block = self.blocks[id as usize];
            self.blocks.set(id as usize, Block { ref_count: b.ref_count + 1, ..b });
            i = i + 1;
            assert(self.blocks@ =~= retain_all_spec(old(self).blocks@, ids@.take(i as int)));
        }
        assert(ids@.take(n as int) =~= ids@);
    }

    /// One reference fewer on a block for each time `ids` lists it; a count
    /// stays at zero once it is there, and ids that the pool lacks are passed over.
    pub fn release_all(&mut self, ids: &Vec<BlockId>)
        requires
            old(self).wf(),
        ensures
            final(self).wf(),
            final(self).blocks@ == release_all_spec(old(self).blocks@, ids@),
    {
        let n: usize = ids.len();
        let mut i: usize = 0;
        assert(ids@.take(0) =~= Seq::<BlockId>::empty());
        assert(self.blocks@ =~= release_all_spec(old(self).blocks@, ids@.take(0)));
        while i < n
            invariant
                i <= n,
                n == ids@.len(),
                self.blocks@ == release_all_spec(old(self).blocks@, ids@.take(i as int)),
            decreases n - i,
        {
            let id: BlockId = ids[i];
            proof {
                assert(ids@.take(i + 1).drop_last() =~= ids@.take(i as int));
            }
            if id < self.blocks.len() as u64 {
                let b: Block = self.blocks[id as usize];
                if b.ref_count > 0 {
                    self.blocks.set(id as usize, Block { ref_count: b.ref_count - 1, ..b });
                }
            }
            i = i + 1;
            assert(self.blocks@ =~= release_all_spec(old(self).blocks@, ids@.take(i as int)));
        }
        assert(ids@.take(n as int) =~= ids@);
    }

    /// Whether no block that `ids` lists is unreferenced with a save in flight.
    pub fn check_none_awaits_save(&self, ids: &Vec<BlockId>) -> (ok: bool)
        ensures
            ok == none_awaits_save(self.blocks@, ids@),
    {
        let n: usize = ids.len();
        let mut i: usize = 0;
        while i < n
            invariant
                i <= n,
                n == ids@.len(),
                forall|j: int|
                    0 <= j < i && (#[trigger] ids@[j]) < self.blocks@.len() ==> !awaits_save(
                        self.blocks@[ids@[j] as int],
                    ),
            decreases n - i,
        {
            let id: BlockId = ids[i];
            if id < self.blocks.len() as u64 {
                let b: Block = self.blocks[id as usize];
                if b.ref_count == 0 && b.save_pending {
                    return false;
                }
            }
            i = i + 1;
        }
        true
    }

    /// Whether `list` ends with the ids of `tail`.
    pub fn check_ends_with(list: &Vec<BlockId>, tail: &Vec<BlockId>) -> (ok: bool)
        ensures
            ok == ends_with(list@, tail@),
    {
        let n: usize = list.len();
        let m: usize = tail.len();
        if m > n {
            return false;
        }
        let offset: usize = n - m;
        let mut i: usize = 0;
        while i < m
            invariant
                i <= m,
                n == list@.len(),
                m == tail@.len(),
                offset == n - m,
                forall|j: int| 0 <= j < i ==> list@[offset + j] == tail@[j],
            decreases m - i,
        {
            if list[offset + i] != tail[i] {
                assert(list@.subrange(offset as int, n as int)[i as int] != tail@[i as int]);
                return false;
            }
            i = i + 1;
        }
        assert(list@.subrange(offset as int, n as int) =~= tail@);
        true
    }

    /// How often `ids` lists the block `b`.
    pub fn count_occurrences(ids: &Vec<BlockId>, b: BlockId) -> (n: usize)
        ensures
            n == occurrences(ids@, b),
    {
        let len: usize = ids.len();
        let mut n: usize = 0;
        let mut i: usize = 0;
        assert(ids@.take(0) =~= Seq::<BlockId>::empty());
        while i < len
            invariant
                i <= len,
                len == ids@.len(),
                n <= i,
                n == occurrences(ids@.take(i as int), b),
            decreases len - i,
        {
            assert(ids@.take(i + 1).drop_last() =~= ids@.take(i as int));
            if ids[i] == b {
                n = n + 1;
            }
            i = i + 1;
        }
        assert(ids@.take(len as int) =~= ids@);
        n
    }

    /// Whether a save is in flight on any block that `ids` lists.
    pub fn has_pending_save(&self, ids: &Vec<BlockId>) -> (r: bool)
        ensures
            r == any_save_pending(self.blocks@, ids@),
    {
        let n: usize = ids.len();
        let mut i: usize = 0;
        while i < n
            invariant
                i <= n,
                n == ids@.len(),
                forall|j: int|
                    0 <= j < i ==> !((#[trigger] ids@[j]) < self.blocks@.len()
                        && self.blocks@[ids@[j] as int].save_pending),
            decreases n - i,
        {
            let id: BlockId = ids[i];
            if id < self.blocks.len() as u64 {
                if self.blocks[id as usize].save_pending {
                    return true;
                }
            }
            i = i + 1;
        }
        false
    }

    /// Records that a save of the block has started (`true`) or drained
    /// (`false`). Returns whether the pool has the block.
    pub fn set_save_pending(&mut self, id: BlockId, pending: bool) -> (known: bool)
        requires
            old(self).wf(),
        ensures
            final(self).wf(),
            known == (id < old(self).blocks@.len()),
            known ==> final(self).blocks@ == old(self).blocks@.update(
                id as int,
                (Block { save_pending: pending, ..old(self).blocks@[id as int] }),
            ),
            !known ==> final(self).blocks@ == old(self).blocks@,
    {
        if id < self.blocks.len() as u64 {
            let b: Block = self.blocks[id as usize];
            self.blocks.set(id as usize, Block { save_pending: pending, ..b });
            true
        } else {
            false
        }
    }

    /// Records that a load into the block has started (`true`) or finished
    /// (`false`). Returns whether the pool has the block.
    pub fn set_loading(&mut self, id: BlockId, loading: bool) -> (known: bool)
        requires
            old(self).wf(),
        ensures
            final(self).wf(),
            known == (id < old(self).blocks@.len()),
            known ==> final(self).blocks@ == old(self).blocks@.update(
                id as int,
                (Block { loading: loading, ..old(self).blocks@[id as int] }),
            ),
            !known ==> final(self).blocks@ == old(self).blocks@,
    {
        if id < self.blocks.len() as u64 {
            let b: Block = self.blocks[id as usize];
            self.blocks.set(id as usize, Block { loading: loading, ..b });
            true
        } else {
            false
        }
    }
}

} // verus!
