use vstd::prelude::*;

verus! {

/// The content key of a token sequence extended by one token.
#[verifier::opaque]
pub open spec fn mix(key: u64, token: u32) -> u64 {
    ((key as int * 1099511628211 + token as int + 1) % 0x1_0000_0000_0000_0000) as u64
}

/// The rolling content key of `tokens` in the namespace `salt`: the salt,
/// extended by every token in order.
#[verifier::opaque]
pub open spec fn fold_key(salt: u64, tokens: Seq<u32>) -> u64
    decreases tokens.len(),
{
    if tokens.len() == 0 {
        salt
    } else {
        mix(fold_key(salt, tokens.drop_last()), tokens.last())
    }
}

/// One more token brought into a rolling key.
pub proof fn lemma_fold_key_step(salt: u64, tokens: Seq<u32>, n: int)
    requires
        0 <= n < tokens.len(),
    ensures
        fold_key(salt, tokens.take(n + 1)) == mix(fold_key(salt, tokens.take(n)), tokens[n]),
{
    reveal(fold_key);
    assert(tokens.take(n + 1).drop_last() =~= tokens.take(n));
}

/// The rolling key of no tokens is the salt.
pub proof fn lemma_fold_key_empty(salt: u64)
    ensures
        fold_key(salt, Seq::<u32>::empty()) == salt,
{
    reveal(fold_key);
}

/// Brings one token into a rolling key.
pub fn mix_key(key: u64, token: u32) -> (r: u64)
    ensures
        r == mix(key, token),
{
    reveal(mix);
    let wide: u128 = (key as u128) * 1099511628211u128 + (token as u128) + 1u128;
    (wide % 0x1_0000_0000_0000_0000u128) as u64
}

/// Extends the rolling key of the first `from` tokens to that of the first `to`.
pub fn advance_key(salt: u64, key: u64, tokens: &Vec<u32>, from: usize, to: usize) -> (r: u64)
    requires
        from <= to <= tokens@.len(),
        key == fold_key(salt, tokens@.take(from as int)),
    ensures
        r == fold_key(salt, tokens@.take(to as int)),
{
    let mut k: u64 = key;
    let mut j: usize = from;
    while j < to
        invariant
            from <= j <= to <= tokens@.len(),
            k == fold_key(salt, tokens@.take(j as int)),
        decreases to - j,
    {
        proof {
            lemma_fold_key_step(salt, tokens@, j as int);
        }
        k = mix_key(k, tokens[j]);
        j = j + 1;
    }
    k
}

/// The rolling content key of a whole token sequence.
pub fn content_key(salt: u64, tokens: &Vec<u32>) -> (r: u64)
    ensures
        r == fold_key(salt, tokens@),
{
    proof {
        lemma_fold_key_empty(salt);
    }
    assert(tokens@.take(0) =~= Seq::<u32>::empty());
    assert(tokens@.take(tokens@.len() as int) =~= tokens@);
    advance_key(salt, salt, tokens, 0, tokens.len())
}

} // verus!
