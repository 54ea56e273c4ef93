use vstd::prelude::*;

use sha2::Digest;

verus! {

/// The SHA-256 digest of `input`. The digest is a pure function of the input
/// bytes; no shorter statement of its value exists, so it is left as a name
/// that the `sha256` wrapper's contract applies.
pub uninterp spec fn sha256_of(input: Seq<u8>) -> Seq<u8>;

/// Relies on sha2's Sha256: the digest is 32 bytes and depends on the input
/// bytes alone.
#[verifier::external_body]
fn sha256(input: &Vec<u8>) -> (r: Vec<u8>)
    ensures
        r@ == sha256_of(input@),
        r@.len() == 32,
{
    let mut hasher = sha2::Sha256::new();
    hasher.update(input.as_slice());
    hasher.finalize().to_vec()
}

/// One link of the rolling chain: the previous accumulator is extended by the
/// digest of the new batch, and the concatenation is hashed again.
pub open spec fn chain_step(prev: Seq<u8>, batch: Seq<u8>) -> Seq<u8> {
    sha256_of(prev + sha256_of(batch))
}

/// The rolling chain over a whole ordered run of batches, folded left to
/// right from the accumulator `prev`.
pub open spec fn chain_fold(prev: Seq<u8>, batches: Seq<Seq<u8>>) -> Seq<u8>
    decreases batches.len(),
{
    if batches.len() == 0 {
        prev
    } else {
        chain_fold(chain_step(prev, batches[0]), batches.drop_first())
    }
}

/// Extends the rolling chain by one batch.
pub fn chain_extend(prev: &Vec<u8>, batch: &Vec<u8>) -> (r: Vec<u8>)
    ensures
        r@ == chain_step(prev@, batch@),
        r@.len() == 32,
{
    let batch_digest = sha256(batch);
    let mut buf: Vec<u8> = Vec::new();
    let mut i: usize = 0;
    while i < prev.len()
        invariant
            i <= prev@.len(),
            buf@ == prev@.subrange(0, i as int),
        decreases prev@.len() - i,
    {
        buf.push(prev[i]);
        i = i + 1;
    }
    assert(buf@ =~= prev@);
    let mut j: usize = 0;
    while j < batch_digest.len()
        invariant
            j <= batch_digest@.len(),
            buf@ == prev@ + batch_digest@.subrange(0, j as int),
        decreases batch_digest@.len() - j,
    {
        buf.push(batch_digest[j]);
        j = j + 1;
    }
    assert(buf@ =~= prev@ + sha256_of(batch@));
    sha256(&buf)
}

/// Folding a run of batches and then a second run extends the chain exactly
/// as folding the concatenated run at once: the accumulator returned for a
/// prefix is a valid resumption point for the rest.
pub proof fn lemma_chain_fold_append(prev: Seq<u8>, xs: Seq<Seq<u8>>, ys: Seq<Seq<u8>>)
    ensures
        chain_fold(prev, xs + ys) == chain_fold(chain_fold(prev, xs), ys),
    decreases xs.len(),
{
    if xs.len() == 0 {
        assert(xs + ys =~= ys);
    } else {
        assert((xs + ys).drop_first() =~= xs.drop_first() + ys);
        assert((xs + ys)[0] == xs[0]);
        lemma_chain_fold_append(chain_step(prev, xs[0]), xs.drop_first(), ys);
    }
}

} // verus!
