use vstd::prelude::*;
use crate::digest::{hashable, sha256, sha256_digest, MAX_MESSAGE_LEN};
use crate::errors::LedgerError;

verus! {

/// The size of a node above the leaves: that of a SHA-256 digest.
pub const DIGEST_LEN: usize = 32;

/// The parent of two nodes: the SHA-256 digest of the left node followed by
/// the right one.
pub open spec fn merge_nodes(left: Seq<u8>, right: Seq<u8>) -> Seq<u8> {
    sha256(left + right)
}

/// The node at index `i` of the complete binary tree over `leaves`. The
/// tree is laid out as a heap of `2n - 1` nodes: the `n` leaves stand last,
/// in order, and node `i` before them is the parent of the nodes `2i + 1`
/// and `2i + 2`. With an odd count one leaf stands a level higher than the
/// others; no leaf is used twice.
pub open spec fn tree_node(leaves: Seq<Seq<u8>>, i: int) -> Seq<u8>
    decreases 2 * leaves.len() - i,
{
    let n = leaves.len() as int;
    if i < 0 || i >= 2 * n - 1 {
        Seq::empty()
    } else if i >= n - 1 {
        leaves[i - (n - 1)]
    } else {
        merge_nodes(tree_node(leaves, 2 * i + 1), tree_node(leaves, 2 * i + 2))
    }
}

/// The root of the tree over `leaves`; the empty byte string for no leaves.
pub open spec fn merkle_root(leaves: Seq<Seq<u8>>) -> Seq<u8> {
    if leaves.len() == 0 {
        Seq::empty()
    } else {
        tree_node(leaves, 0)
    }
}

/// The two children of the inner node `i` can be hashed together.
pub open spec fn node_hashable(leaves: Seq<Seq<u8>>, i: int) -> bool {
    hashable(tree_node(leaves, 2 * i + 1).len() + tree_node(leaves, 2 * i + 2).len())
}

/// Every inner node of the tree can be computed.
pub open spec fn tree_hashable(leaves: Seq<Seq<u8>>) -> bool {
    forall|i: int| 0 <= i < leaves.len() - 1 ==> #[trigger] node_hashable(leaves, i)
}

/// What computing the root gives: the root, or why there is none.
pub open spec fn root_result(leaves: Seq<Seq<u8>>) -> Result<Seq<u8>, LedgerError> {
    if 2 * leaves.len() - 1 > usize::MAX {
        Err(LedgerError::Overflow)
    } else if !tree_hashable(leaves) {
        Err(LedgerError::SerializationFailure)
    } else {
        Ok(merkle_root(leaves))
    }
}

/// The byte strings of a list, each by its view.
pub open spec fn leaves_view(v: Seq<Vec<u8>>) -> Seq<Seq<u8>> {
    v.map_values(|leaf: Vec<u8>| leaf@)
}

/// The parent of two nodes, where the two can be hashed together: 32
/// bytes.
pub fn merge(left: &Vec<u8>, right: &Vec<u8>) -> (r: Result<Vec<u8>, LedgerError>)
    ensures
        match r {
            Ok(parent) => hashable(left@.len() + right@.len()) && parent@ == merge_nodes(
                left@,
                right@,
            ) && parent@.len() == DIGEST_LEN,
            Err(e) => !hashable(left@.len() + right@.len()) && e
                == LedgerError::SerializationFailure,
        },
{
    if left.len() as u128 + right.len() as u128 >= MAX_MESSAGE_LEN as u128 {
        return Err(LedgerError::SerializationFailure);
    }
    let mut input = vstd::slice::slice_to_vec(left.as_slice());
    let mut tail = vstd::slice::slice_to_vec(right.as_slice());
    input.append(&mut tail);
    Ok(sha256_digest(input.as_slice()))
}

/// The root of the complete binary tree over `leaves`: the leaf itself
/// where there is one leaf, a digest of 32 bytes where there are more.
pub fn compute_root(leaves: &Vec<Vec<u8>>) -> (r: Result<Vec<u8>, LedgerError>)
    ensures
        match r {
            Ok(root) => root_result(leaves_view(leaves@)) == Ok::<Seq<u8>, LedgerError>(root@) && (
            leaves@.len() == 1 ==> root@ == leaves@[0]@) && (leaves@.len() >= 2 ==> root@.len()
                == DIGEST_LEN),
            Err(e) => root_result(leaves_view(leaves@)) == Err::<Seq<u8>, LedgerError>(e),
        },
{
    let n = leaves.len();
    let ghost all = leaves_view(leaves@);
    if n == 0 {
        return Ok(Vec::new());
    }
    if n - 1 > usize::MAX / 2 {
        return Err(LedgerError::Overflow);
    }
    assert(2 * n - 1 <= usize::MAX) by {
        assert(usize::MAX == 0xffff_ffff || usize::MAX == 0xffff_ffff_ffff_ffff);
    }
    // `nodes` holds the nodes in reverse: `nodes[j]` is node `2n - 2 - j`.
    let mut nodes: Vec<Vec<u8>> = Vec::new();
    let mut j: usize = 0;
    while j < n
        invariant
            j <= n,
            0 < n && 2 * n - 1 <= usize::MAX,
            n == leaves@.len(),
            all == leaves_view(leaves@),
            nodes@.len() == j,
            forall|m: int|
                0 <= m < j ==> (#[trigger] nodes@[m])@ == tree_node(all, 2 * n - 2 - m),
        decreases n - j,
    {
        nodes.push(vstd::slice::slice_to_vec(leaves[n - 1 - j].as_slice()));
        proof {
            assert(all[n - 1 - j] == leaves@[n - 1 - j]@);
        }
        j += 1;
    }
    let total = n + (n - 1);
    let mut len: usize = n;
    while len < total
        invariant
            n <= len <= total,
            total == 2 * n - 1,
            0 < n && 2 * n - 1 <= usize::MAX,
            n == leaves@.len(),
            all == leaves_view(leaves@),
            nodes@.len() == len,
            forall|m: int|
                0 <= m < len ==> (#[trigger] nodes@[m])@ == tree_node(all, 2 * n - 2 - m),
            forall|m: int| n <= m < len ==> (#[trigger] nodes@[m])@.len() == DIGEST_LEN,
            forall|i: int| total - len <= i < n - 1 ==> #[trigger] node_hashable(all, i),
        decreases total - len,
    {
        // The node to compute is `i = total - 1 - len`; its children
        // `2i + 1` and `2i + 2` stand at `nodes[total - 2 - 2i]` and
        // `nodes[total - 3 - 2i]`.
        let i = total - 1 - len;
        let left = total - 2 - 2 * i;
        let right = total - 3 - 2 * i;
        match merge(&nodes[left], &nodes[right]) {
            Ok(parent) => {
                nodes.push(parent);
            },
            Err(e) => {
                assert(!node_hashable(all, i as int));
                return Err(e);
            },
        }
        len += 1;
    }
    assert(n == 1 ==> tree_node(all, 0) == all[0]);
    Ok(vstd::slice::slice_to_vec(nodes[total - 1].as_slice()))
}

} // verus!
