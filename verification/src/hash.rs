//! Hashing of node data and of subtrees.

use crate::id::UniqueGenerator;
use crate::noderef::NodeRef;
use crate::tree::Tree;
use crate::NodeId;
use vstd::bytes::{spec_u64_to_le_bytes, u64_to_le_bytes};
use vstd::prelude::*;

verus! {

/// The XXH64 digest of `input` under `seed`.
pub uninterp spec fn xxh64_digest(input: Seq<u8>, seed: u64) -> u64;

/// Calls `xxhash_rust::xxh64::xxh64`, the one-shot XXH64 function. The
/// contract names its result: the digest is a function of the input bytes and
/// the seed alone.
#[verifier::external_body]
pub(crate) fn xxh64(input: &Vec<u8>, seed: u64) -> (digest: u64)
    ensures
        digest == xxh64_digest(input@, seed),
{
    xxhash_rust::xxh64::xxh64(input.as_slice(), seed)
}

/// The words laid out one after the other, each as eight bytes, least
/// significant byte first.
pub open spec fn words_bytes(words: Seq<u64>) -> Seq<u8>
    decreases words.len(),
{
    if words.len() == 0 {
        Seq::empty()
    } else {
        words_bytes(words.drop_last()) + spec_u64_to_le_bytes(words.last())
    }
}

/// The hash of a node's own data.
pub open spec fn data_hash(data: Seq<u8>) -> u64 {
    xxh64_digest(data, 0)
}

/// The hash of a subtree, made of the subtree hashes of the root's children,
/// in order, and of the hash of the root's own data.
pub open spec fn subtree_hash(child_hashes: Seq<u64>, data_hash: u64) -> u64 {
    xxh64_digest(words_bytes(child_hashes.push(data_hash)), 0)
}

/// Hashes the data of a node.
pub fn hash_data(data: &Vec<u8>) -> (h: u64)
    ensures
        h == data_hash(data@),
{
    xxh64(data, 0)
}

/// The digest of the words, laid out as bytes.
pub fn hash_words(words: &Vec<u64>) -> (h: u64)
    ensures
        h == xxh64_digest(words_bytes(words@), 0),
{
    let mut buffer: Vec<u8> = Vec::new();
    let mut k: usize = 0;
    while k < words.len()
        invariant
            k <= words.len(),
            buffer@ == words_bytes(words@.take(k as int)),
        decreases words.len() - k,
    {
        let mut word: Vec<u8> = u64_to_le_bytes(words[k]);
        proof {
            assert(words@.take(k + 1).drop_last() == words@.take(k as int));
        }
        buffer.append(&mut word);
        k += 1;
    }
    proof {
        assert(words@.take(k as int) == words@);
    }
    xxh64(&buffer, 0)
}

/// Folds the subtree hashes of a node's children, in order, and then the hash
/// of the node's own data into one subtree hash.
pub fn hash_subtree(child_hashes: &Vec<u64>, data_hash: u64) -> (h: u64)
    ensures
        h == subtree_hash(child_hashes@, data_hash),
{
    let mut words: Vec<u64> = child_hashes.clone();
    words.push(data_hash);
    hash_words(&words)
}

/// Update the subtree hashes, starting from a node up to the top of its
/// tree: the hash of `node` is made anew from its data and the cached hashes
/// of its children, then the hash of its parent, and so on. Hashes that were
/// right stay right. With a handle that names no node nothing is changed.
pub fn update_subtree_hash<G>(tree: &mut Tree<G>, node: NodeRef) where
    G: UniqueGenerator<Output = NodeId>,

    requires
        old(tree).wf(),
    ensures
        final(tree).wf(),
        if old(tree)@.contains(node) {
            old(tree)@.rehashed_from(final(tree)@, node)
        } else {
            final(tree)@ == old(tree)@
        },
        forall|r: NodeRef| #[trigger]
            old(tree)@.contains(r) && old(tree)@.hash_ok(r) ==> final(tree)@.hash_ok(r),
{
    tree.update_subtree_hash(node);
}

} // verus!
