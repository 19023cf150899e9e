use crate::keys::{advance_key, fold_key, lemma_fold_key_empty};
use crate::pool::{Block, BlockId, BlockPool};
use vstd::prelude::*;

verus! {

/// A block answers for `key`: it holds that content and somebody refers to
/// it. A block that nobody refers to may be reclaimed and never answers.
pub open spec fn is_hit(b: Block, key: u64) -> bool {
    b.content_key == Some(key) && b.ref_count > 0
}

/// The index of the first block that answers for `key`, or the number of
/// blocks where none does.
#[verifier::opaque]
pub open spec fn first_hit(blocks: Seq<Block>, key: u64) -> int
    decreases blocks.len(),
{
    if blocks.len() == 0 {
        0
    } else {
        let r = first_hit(blocks.drop_last(), key);
        if r < blocks.len() - 1 {
            r
        } else if is_hit(blocks.last(), key) {
            blocks.len() - 1
        } else {
            blocks.len() as int
        }
    }
}

/// `first_hit` names a block that answers, and none before it does.
pub proof fn lemma_first_hit(blocks: Seq<Block>, key: u64)
    ensures
        0 <= first_hit(blocks, key) <= blocks.len(),
        first_hit(blocks, key) < blocks.len() ==> is_hit(blocks[first_hit(blocks, key)], key),
        forall|j: int| 0 <= j < first_hit(blocks, key) ==> !is_hit(#[trigger] blocks[j], key),
    decreases blocks.len(),
{
    reveal(first_hit);
    if blocks.len() > 0 {
        lemma_first_hit(blocks.drop_last(), key);
        let p = first_hit(blocks.drop_last(), key);
        assert forall|j: int| 0 <= j < first_hit(blocks, key) implies !is_hit(
            #[trigger] blocks[j],
            key,
        ) by {
            if j < blocks.len() - 1 {
                assert(blocks.drop_last()[j] == blocks[j]);
            }
        }
        if p < blocks.len() - 1 {
            assert(blocks.drop_last()[p] == blocks[p]);
        }
    }
}

/// The first position at or after `num_computed` where a block begins.
pub open spec fn first_chunk_start(num_computed: nat, block_size: nat) -> nat {
    if block_size == 0 || num_computed % block_size == 0 {
        num_computed
    } else {
        (num_computed - num_computed % block_size + block_size) as nat
    }
}

/// The blocks that answer for the chunks of `tokens` from position `pos` on:
/// chunk after chunk, each under the rolling key of all tokens up to its end,
/// until a chunk is incomplete or no block answers for it.
#[verifier::opaque]
pub open spec fn matched_blocks(
    blocks: Seq<Block>,
    salt: u64,
    tokens: Seq<u32>,
    block_size: nat,
    pos: nat,
) -> Seq<BlockId>
    decreases tokens.len() - pos,
{
    if block_size == 0 || pos + block_size > tokens.len() {
        Seq::empty()
    } else {
        let h = first_hit(blocks, fold_key(salt, tokens.take((pos + block_size) as int)));
        if h >= blocks.len() {
            Seq::empty()
        } else {
            seq![h as BlockId] + matched_blocks(blocks, salt, tokens, block_size, pos + block_size)
        }
    }
}

/// The number of tokens in the chunks that `matched_blocks` answers for.
#[verifier::opaque]
pub open spec fn matched_tokens(
    blocks: Seq<Block>,
    salt: u64,
    tokens: Seq<u32>,
    block_size: nat,
    pos: nat,
) -> nat
    decreases tokens.len() - pos,
{
    if block_size == 0 || pos + block_size > tokens.len() {
        0
    } else {
        let h = first_hit(blocks, fold_key(salt, tokens.take((pos + block_size) as int)));
        if h >= blocks.len() {
            0
        } else {
            block_size + matched_tokens(blocks, salt, tokens, block_size, pos + block_size)
        }
    }
}

/// No block of `ids` is still being loaded.
#[verifier::opaque]
pub open spec fn none_loading(blocks: Seq<Block>, ids: Seq<BlockId>) -> bool {
    forall|k: int|
        0 <= k < ids.len() && (#[trigger] ids[k]) < blocks.len() ==> !blocks[ids[k] as int].loading
}

/// One step of the match, written out.
pub proof fn lemma_match_step(
    blocks: Seq<Block>,
    salt: u64,
    tokens: Seq<u32>,
    block_size: nat,
    pos: nat,
)
    ensures
        ({
            let h = first_hit(blocks, fold_key(salt, tokens.take((pos + block_size) as int)));
            let stop = block_size == 0 || pos + block_size > tokens.len() || h >= blocks.len();
            &&& 0 <= h <= blocks.len()
            &&& !stop ==> is_hit(blocks[h], fold_key(salt, tokens.take((pos + block_size) as int)))
            &&& stop ==> matched_blocks(blocks, salt, tokens, block_size, pos) == Seq::<
                BlockId,
            >::empty() && matched_tokens(blocks, salt, tokens, block_size, pos) == 0
            &&& !stop ==> matched_blocks(blocks, salt, tokens, block_size, pos) == seq![
                h as BlockId,
            ] + matched_blocks(blocks, salt, tokens, block_size, pos + block_size)
                && matched_tokens(blocks, salt, tokens, block_size, pos) == block_size
                + matched_tokens(blocks, salt, tokens, block_size, pos + block_size)
        }),
{
    reveal(matched_blocks);
    reveal(matched_tokens);
    lemma_first_hit(blocks, fold_key(salt, tokens.take((pos + block_size) as int)));
}

/// One more block in a list leaves it free of loading blocks exactly where
/// it was so before and the new block is not loading.
pub proof fn lemma_none_loading_push(blocks: Seq<Block>, ids: Seq<BlockId>, b: BlockId)
    requires
        b < blocks.len(),
    ensures
        none_loading(blocks, ids.push(b)) == (none_loading(blocks, ids) && !blocks[b as int].loading),
{
    reveal(none_loading);
    let more = ids.push(b);
    if none_loading(blocks, more) {
        assert(more[ids.len() as int] == b);
        assert forall|k: int| 0 <= k < ids.len() && (#[trigger] ids[k]) < blocks.len() implies !blocks[ids[k] as int].loading by {
            assert(more[k] == ids[k]);
        }
    }
    if none_loading(blocks, ids) && !blocks[b as int].loading {
        assert forall|k: int| 0 <= k < more.len() && (#[trigger] more[k]) < blocks.len() implies !blocks[more[k] as int].loading by {
            if k < ids.len() {
                assert(more[k] == ids[k]);
            }
        }
    }
}

/// A match that has come as far as `pos` goes one chunk further.
pub proof fn lemma_match_extend(
    blocks: Seq<Block>,
    salt: u64,
    tokens: Seq<u32>,
    block_size: nat,
    first: nat,
    pos: nat,
    found: Seq<BlockId>,
    b: BlockId,
)
    requires
        block_size > 0,
        pos + block_size <= tokens.len(),
        b < blocks.len(),
        b == first_hit(blocks, fold_key(salt, tokens.take((pos + block_size) as int))),
        matched_blocks(blocks, salt, tokens, block_size, first) == found + matched_blocks(
            blocks,
            salt,
            tokens,
            block_size,
            pos,
        ),
    ensures
        matched_blocks(blocks, salt, tokens, block_size, first) == found.push(b) + matched_blocks(
            blocks,
            salt,
            tokens,
            block_size,
            pos + block_size,
        ),
        matched_tokens(blocks, salt, tokens, block_size, pos) == block_size + matched_tokens(
            blocks,
            salt,
            tokens,
            block_size,
            pos + block_size,
        ),
{
    lemma_match_step(blocks, salt, tokens, block_size, pos);
    let rest = matched_blocks(blocks, salt, tokens, block_size, pos + block_size);
    assert(found + (seq![b] + rest) =~= found.push(b) + rest);
}

/// A cache hit is a block that exists and that somebody refers to: no block
/// with a reference count of zero is ever among the matched blocks.
pub proof fn lemma_matched_blocks_referenced(
    blocks: Seq<Block>,
    salt: u64,
    tokens: Seq<u32>,
    block_size: nat,
    pos: nat,
)
    requires
        blocks.len() <= u64::MAX,
    ensures
        forall|k: int|
            0 <= k < matched_blocks(blocks, salt, tokens, block_size, pos).len() ==> {
                let b = #[trigger] matched_blocks(blocks, salt, tokens, block_size, pos)[k];
                b < blocks.len() && blocks[b as int].ref_count > 0
            },
    decreases tokens.len() - pos,
{
    lemma_match_step(blocks, salt, tokens, block_size, pos);
    let key = fold_key(salt, tokens.take((pos + block_size) as int));
    let h = first_hit(blocks, key);
    let all = matched_blocks(blocks, salt, tokens, block_size, pos);
    if !(block_size == 0 || pos + block_size > tokens.len() || h >= blocks.len()) {
        lemma_matched_blocks_referenced(blocks, salt, tokens, block_size, pos + block_size);
        let rest = matched_blocks(blocks, salt, tokens, block_size, pos + block_size);
        assert forall|k: int| 0 <= k < all.len() implies {
            let b = #[trigger] all[k];
            b < blocks.len() && blocks[b as int].ref_count > 0
        } by {
            if k > 0 {
                assert(all[k] == rest[k - 1]);
            }
        }
    }
}

/// The matched tokens are whole chunks, and tokens of the request after `pos`.
pub proof fn lemma_matched_tokens_bound(
    blocks: Seq<Block>,
    salt: u64,
    tokens: Seq<u32>,
    block_size: nat,
    pos: nat,
)
    ensures
        pos + matched_tokens(blocks, salt, tokens, block_size, pos) <= tokens.len() || matched_tokens(
            blocks,
            salt,
            tokens,
            block_size,
            pos,
        ) == 0,
        block_size > 0 ==> matched_tokens(blocks, salt, tokens, block_size, pos) % block_size == 0,
        matched_tokens(blocks, salt, tokens, block_size, pos) == matched_blocks(
            blocks,
            salt,
            tokens,
            block_size,
            pos,
        ).len() * block_size,
    decreases tokens.len() - pos,
{
    lemma_match_step(blocks, salt, tokens, block_size, pos);
    if !(block_size == 0 || pos + block_size > tokens.len()) {
        let key = fold_key(salt, tokens.take((pos + block_size) as int));
        if first_hit(blocks, key) < blocks.len() {
            lemma_matched_tokens_bound(blocks, salt, tokens, block_size, pos + block_size);
            let rest = matched_tokens(blocks, salt, tokens, block_size, pos + block_size);
            let n = matched_blocks(blocks, salt, tokens, block_size, pos + block_size).len();
            assert((1 + n) * block_size == block_size + n * block_size) by (nonlinear_arith);
            assert((block_size + rest) % block_size == 0) by (nonlinear_arith)
                requires
                    block_size > 0,
                    rest == n * block_size,
            ;
        } else {
            assert(0nat % block_size == 0);
        }
    } else if block_size > 0 {
        assert(0nat % block_size == 0);
    }
}

/// Two pools answer alike where block for block they hold the same content,
/// are referred to or not alike, and load alike.
pub open spec fn answer_alike(a: Seq<Block>, b: Seq<Block>) -> bool {
    &&& a.len() == b.len()
    &&& forall|i: int|
        0 <= i < a.len() ==> (#[trigger] a[i]).content_key == b[i].content_key && a[i].loading
            == b[i].loading && (a[i].ref_count > 0) == (b[i].ref_count > 0)
}

/// Pools that answer alike have the same first block for every key.
pub proof fn lemma_first_hit_alike(a: Seq<Block>, b: Seq<Block>, key: u64)
    requires
        answer_alike(a, b),
    ensures
        first_hit(a, key) == first_hit(b, key),
    decreases a.len(),
{
    reveal(first_hit);
    if a.len() > 0 {
        assert(answer_alike(a.drop_last(), b.drop_last())) by {
            assert forall|i: int| 0 <= i < a.drop_last().len() implies (
            #[trigger] a.drop_last()[i]).content_key == b.drop_last()[i].content_key
                && a.drop_last()[i].loading == b.drop_last()[i].loading && (
            a.drop_last()[i].ref_count > 0) == (b.drop_last()[i].ref_count > 0) by {
                assert(a[i].content_key == b[i].content_key);
            }
        }
        lemma_first_hit_alike(a.drop_last(), b.drop_last(), key);
        assert(a[a.len() - 1].content_key == b[a.len() - 1].content_key);
    }
}

/// Pools that answer alike match every request alike.
pub proof fn lemma_match_alike(
    a: Seq<Block>,
    b: Seq<Block>,
    salt: u64,
    tokens: Seq<u32>,
    block_size: nat,
    pos: nat,
)
    requires
        answer_alike(a, b),
    ensures
        matched_blocks(a, salt, tokens, block_size, pos) == matched_blocks(
            b,
            salt,
            tokens,
            block_size,
            pos,
        ),
        matched_tokens(a, salt, tokens, block_size, pos) == matched_tokens(
            b,
            salt,
            tokens,
            block_size,
            pos,
        ),
        forall|ids: Seq<BlockId>| none_loading(a, ids) == none_loading(b, ids),
    decreases tokens.len() - pos,
{
    lemma_match_step(a, salt, tokens, block_size, pos);
    lemma_match_step(b, salt, tokens, block_size, pos);
    if !(block_size == 0 || pos + block_size > tokens.len()) {
        let key = fold_key(salt, tokens.take((pos + block_size) as int));
        lemma_first_hit_alike(a, b, key);
        if first_hit(a, key) < a.len() {
            lemma_match_alike(a, b, salt, tokens, block_size, pos + block_size);
        }
    }
    assert forall|ids: Seq<BlockId>| none_loading(a, ids) == none_loading(b, ids) by {
        reveal(none_loading);
        if none_loading(a, ids) {
            assert forall|k: int| 0 <= k < ids.len() && (#[trigger] ids[k]) < b.len() implies !b[ids[k] as int].loading by {
                assert(a[ids[k] as int].loading == b[ids[k] as int].loading);
            }
        }
        if none_loading(b, ids) {
            assert forall|k: int| 0 <= k < ids.len() && (#[trigger] ids[k]) < a.len() implies !a[ids[k] as int].loading by {
                assert(a[ids[k] as int].loading == b[ids[k] as int].loading);
            }
        }
    }
}

/// The first block of the pool that answers for `key`, if any does.
pub fn find_hit(pool: &BlockPool, key: u64) -> (r: Option<BlockId>)
    ensures
        match r {
            Some(b) => b < pool.blocks@.len() && b == first_hit(pool.blocks@, key),
            None => first_hit(pool.blocks@, key) >= pool.blocks@.len(),
        },
{
    let n: usize = pool.blocks.len();
    let mut i: usize = 0;
    while i < n
        invariant
            i <= n,
            n == pool.blocks@.len(),
            forall|j: int| 0 <= j < i ==> !is_hit(#[trigger] pool.blocks@[j], key),
        decreases n - i,
    {
        let b: Block = pool.blocks[i];
        let same: bool = match b.content_key {
            Some(k) => k == key,
            None => false,
        };
        if same && b.ref_count > 0 {
            proof {
                lemma_first_hit(pool.blocks@, key);
                assert(is_hit(pool.blocks@[i as int], key));
            }
            return Some(i as u64);
        }
        i = i + 1;
    }
    proof {
        lemma_first_hit(pool.blocks@, key);
    }
    None
}

/// `b` holding the content of `key`.
pub open spec fn with_key(b: Block, key: u64) -> Block {
    Block { content_key: Some(key), ..b }
}

/// `blocks` after the blocks of `ids` took the content keys of the chunks
/// they back: the block at index `chunk` of `ids` that of the chunk that
/// starts at `pos`, and so on for every whole chunk within the first `limit`
/// tokens. Ids that the pool lacks are passed over, and nothing is done
/// where `tokens` has fewer than `limit` tokens.
#[verifier::opaque]
pub open spec fn published(
    blocks: Seq<Block>,
    ids: Seq<BlockId>,
    salt: u64,
    tokens: Seq<u32>,
    block_size: nat,
    chunk: nat,
    pos: nat,
    limit: nat,
) -> Seq<Block>
    decreases limit - pos,
{
    if block_size == 0 || limit > tokens.len() || pos + block_size > limit || chunk >= ids.len() {
        blocks
    } else {
        let b = ids[chunk as int];
        let key = fold_key(salt, tokens.take((pos + block_size) as int));
        let next = if b < blocks.len() {
            blocks.update(b as int, with_key(blocks[b as int], key))
        } else {
            blocks
        };
        published(next, ids, salt, tokens, block_size, chunk + 1, pos + block_size, limit)
    }
}

/// Taking content keys changes no reference count, no flag and no id.
pub proof fn lemma_published_keeps_counts(
    blocks: Seq<Block>,
    ids: Seq<BlockId>,
    salt: u64,
    tokens: Seq<u32>,
    block_size: nat,
    chunk: nat,
    pos: nat,
    limit: nat,
)
    ensures
        published(blocks, ids, salt, tokens, block_size, chunk, pos, limit).len() == blocks.len(),
        forall|i: int|
            0 <= i < blocks.len() ==> {
                let after = #[trigger] published(
                    blocks,
                    ids,
                    salt,
                    tokens,
                    block_size,
                    chunk,
                    pos,
                    limit,
                )[i];
                &&& after.id == blocks[i].id
                &&& after.ref_count == blocks[i].ref_count
                &&& after.loading == blocks[i].loading
                &&& after.save_pending == blocks[i].save_pending
            },
    decreases limit - pos,
{
    reveal(published);
    if !(block_size == 0 || limit > tokens.len() || pos + block_size > limit || chunk
        >= ids.len()) {
        let b = ids[chunk as int];
        let key = fold_key(salt, tokens.take((pos + block_size) as int));
        let next = if b < blocks.len() {
            blocks.update(b as int, with_key(blocks[b as int], key))
        } else {
            blocks
        };
        lemma_published_keeps_counts(
            next,
            ids,
            salt,
            tokens,
            block_size,
            chunk + 1,
            pos + block_size,
            limit,
        );
        let end = published(blocks, ids, salt, tokens, block_size, chunk, pos, limit);
        assert forall|i: int| 0 <= i < blocks.len() implies {
            let after = #[trigger] end[i];
            &&& after.id == blocks[i].id
            &&& after.ref_count == blocks[i].ref_count
            &&& after.loading == blocks[i].loading
            &&& after.save_pending == blocks[i].save_pending
        } by {
            assert(next[i].ref_count == blocks[i].ref_count);
        }
    }
}

/// Gives the blocks of `ids` the content keys of the chunks they back, for
/// every whole chunk within the first `limit` tokens.
pub fn publish_keys(
    pool: &mut BlockPool,
    ids: &Vec<BlockId>,
    salt: u64,
    tokens: &Vec<u32>,
    block_size: u64,
    limit: u64,
)
    requires
        old(pool).wf(),
    ensures
        final(pool).wf(),
        final(pool).blocks@ == published(
            old(pool).blocks@,
            ids@,
            salt,
            tokens@,
            block_size as nat,
            0,
            0,
            limit as nat,
        ),
{
    let count: usize = ids.len();
    let len: usize = tokens.len();
    if block_size == 0 || limit > len as u64 {
        proof {
            reveal(published);
        }
        return ;
    }
    let end: usize = limit as usize;
    let mut chunk: usize = 0;
    let mut pos: usize = 0;
    proof {
        lemma_fold_key_empty(salt);
    }
    assert(tokens@.take(0) =~= Seq::<u32>::empty());
    let mut key: u64 = salt;
    while chunk < count && (end - pos) as u64 >= block_size
        invariant
            block_size > 0,
            count == ids@.len(),
            chunk <= count,
            end == limit,
            pos <= end <= tokens@.len(),
            key == fold_key(salt, tokens@.take(pos as int)),
            pool.wf(),
            published(old(pool).blocks@, ids@, salt, tokens@, block_size as nat, 0, 0, limit as nat)
                == published(
                pool.blocks@,
                ids@,
                salt,
                tokens@,
                block_size as nat,
                chunk as nat,
                pos as nat,
                limit as nat,
            ),
        decreases end - pos,
    {
        proof {
            reveal(published);
        }
        let next: usize = pos + (block_size as usize);
        let next_key: u64 = advance_key(salt, key, tokens, pos, next);
        let b: BlockId = ids[chunk];
        if b < pool.blocks.len() as u64 {
            let block: Block = pool.blocks[b as usize];
            pool.blocks.set(b as usize, Block { content_key: Some(next_key), ..block });
        }
        chunk = chunk + 1;
        pos = next;
        key = next_key;
    }
    proof {
        reveal(published);
    }
}

/// What a prefix match found.
pub struct PrefixMatch {
    /// The number of tokens in the matched chunks.
    pub num_tokens: u64,
    /// Whether the data of every matched block is resident.
    pub ready: bool,
    /// The matched blocks, one for each chunk, in token order.
    pub blocks: Vec<BlockId>,
}

/// Matches the tokens of a request beyond its first `num_computed` against
/// the pool, greedily and in whole chunks from the first block boundary on.
pub fn match_prefix(
    pool: &BlockPool,
    salt: u64,
    tokens: &Vec<u32>,
    block_size: u64,
    num_computed: u64,
) -> (m: PrefixMatch)
    ensures
        m.blocks@ == matched_blocks(
            pool.blocks@,
            salt,
            tokens@,
            block_size as nat,
            first_chunk_start(num_computed as nat, block_size as nat),
        ),
        m.num_tokens == matched_tokens(
            pool.blocks@,
            salt,
            tokens@,
            block_size as nat,
            first_chunk_start(num_computed as nat, block_size as nat),
        ),
        m.ready == none_loading(pool.blocks@, m.blocks@),
{
    let len: usize = tokens.len();
    let ghost bs = block_size as nat;
    let ghost first = first_chunk_start(num_computed as nat, bs);
    if block_size == 0 {
        proof {
            lemma_match_step(pool.blocks@, salt, tokens@, bs, first);
            reveal(none_loading);
        }
        return PrefixMatch { num_tokens: 0, ready: true, blocks: Vec::new() };
    }
    let rem: u64 = num_computed % block_size;
    let gap: u64 = if rem == 0 {
        0
    } else {
        block_size - rem
    };
    if num_computed > len as u64 || gap > (len as u64) - num_computed {
        proof {
            lemma_match_step(pool.blocks@, salt, tokens@, bs, first);
            reveal(none_loading);
        }
        return PrefixMatch { num_tokens: 0, ready: true, blocks: Vec::new() };
    }
    let start: usize = (num_computed + gap) as usize;
    assert(start == first);
    match_from(pool, salt, tokens, block_size, start)
}

/// Matches the chunks of `tokens` from position `start` on against the pool.
pub fn match_from(
    pool: &BlockPool,
    salt: u64,
    tokens: &Vec<u32>,
    block_size: u64,
    start: usize,
) -> (m: PrefixMatch)
    ensures
        m.blocks@ == matched_blocks(pool.blocks@, salt, tokens@, block_size as nat, start as nat),
        m.num_tokens == matched_tokens(pool.blocks@, salt, tokens@, block_size as nat, start as nat),
        m.ready == none_loading(pool.blocks@, m.blocks@),
{
    let len: usize = tokens.len();
    let ghost bs = block_size as nat;
    let ghost first = start as nat;
    if block_size == 0 || start > len {
        proof {
            lemma_match_step(pool.blocks@, salt, tokens@, bs, first);
            reveal(none_loading);
        }
        return PrefixMatch { num_tokens: 0, ready: true, blocks: Vec::new() };
    }
    proof {
        lemma_fold_key_empty(salt);
    }
    assert(tokens@.take(0) =~= Seq::<u32>::empty());
    let mut key: u64 = advance_key(salt, salt, tokens, 0, start);
    let mut pos: usize = start;
    let mut ready: bool = true;
    let mut acc: Vec<BlockId> = Vec::new();
    let mut done: bool = false;
    let m: usize = pool.blocks.len();
    assert(none_loading(pool.blocks@, acc@)) by {
        reveal(none_loading);
    }
    assert(acc@ + matched_blocks(pool.blocks@, salt, tokens@, bs, first) =~= matched_blocks(
        pool.blocks@,
        salt,
        tokens@,
        bs,
        first,
    ));
    while !done && (len - pos) as u64 >= block_size
        invariant
            block_size > 0,
            bs == block_size,
            m == pool.blocks@.len(),
            len == tokens@.len(),
            start == first,
            start <= pos <= len,
            key == fold_key(salt, tokens@.take(pos as int)),
            matched_blocks(pool.blocks@, salt, tokens@, bs, first) == acc@ + matched_blocks(
                pool.blocks@,
                salt,
                tokens@,
                bs,
                pos as nat,
            ),
            matched_tokens(pool.blocks@, salt, tokens@, bs, first) == (pos - start) + matched_tokens(
                pool.blocks@,
                salt,
                tokens@,
                bs,
                pos as nat,
            ),
            done ==> matched_blocks(pool.blocks@, salt, tokens@, bs, pos as nat).len() == 0
                && matched_tokens(pool.blocks@, salt, tokens@, bs, pos as nat) == 0,
            ready == none_loading(pool.blocks@, acc@),
        decreases (if done { 0int } else { 1int }) + len - pos,
    {
        let next: usize = pos + (block_size as usize);
        let next_key: u64 = advance_key(salt, key, tokens, pos, next);
        match find_hit(pool, next_key) {
            None => {
                proof {
                    lemma_match_step(pool.blocks@, salt, tokens@, bs, pos as nat);
                }
                done = true;
            },
            Some(b) => {
                let ghost before = acc@;
                acc.push(b);
                let loading: bool = pool.blocks[b as usize].loading;
                proof {
                    lemma_match_extend(
                        pool.blocks@,
                        salt,
                        tokens@,
                        bs,
                        first,
                        pos as nat,
                        before,
                        b,
                    );
                    lemma_none_loading_push(pool.blocks@, before, b);
                }
                if loading {
                    ready = false;
                }
                pos = next;
                key = next_key;
            },
        }
    }
    proof {
        lemma_match_step(pool.blocks@, salt, tokens@, bs, pos as nat);
    }
    assert(matched_blocks(pool.blocks@, salt, tokens@, bs, pos as nat).len() == 0);
    assert(acc@ + matched_blocks(pool.blocks@, salt, tokens@, bs, pos as nat) =~= acc@);
    PrefixMatch { num_tokens: (pos - start) as u64, ready, blocks: acc }
}

} // verus!
