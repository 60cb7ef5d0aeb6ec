//! The Merkle tree: construction, root, proof generation and verification.

use crate::encoding::{canonical_bytes, encodings, serialize_scalar, Scalar};
use crate::hash::hash;
use crate::laws::{lemma_path_length, lemma_round_trip};
use crate::model::{
    fold_root, next_level, nodes, parent_count, parent_node, replay, sibling_path, sibling_pos,
    tree_height,
};
use vstd::prelude::*;
use vstd::slice::slice_to_vec;

verus! {

/// Why a tree or a proof could not be produced.
#[derive(Clone, Copy, Debug, PartialEq, Eq, Structural)]
pub enum MerkleError {
    /// A tree was asked for over no values at all.
    EmptyInput,
    /// A proof was asked for an index that is not below the number of leaves.
    IndexOutOfRange,
}

/// A binary hash tree over an ordered, non-empty sequence of leaves. It is
/// never changed after construction.
pub struct MerkleTree {
    leaves: Vec<Vec<u8>>,
    root: Vec<u8>,
}

impl View for MerkleTree {
    type V = Seq<Seq<u8>>;

    /// A tree is modelled by its leaves; the root follows from them.
    closed spec fn view(&self) -> Seq<Seq<u8>> {
        nodes(self.leaves@)
    }
}

/// Index of the node that is hashed together with the node at `index`, the
/// node itself where it is the unpaired last node of its level.
fn sibling_index(index: usize, len: usize) -> (pos: usize)
    requires
        index < len,
    ensures
        pos == sibling_pos(index as int, len as int),
        pos < len,
{
    if index % 2 != 0 {
        index - 1
    } else if index + 1 < len {
        index + 1
    } else {
        index
    }
}

/// Builds the level above `level`.
fn level_up(level: &Vec<Vec<u8>>) -> (next: Vec<Vec<u8>>)
    ensures
        nodes(next@) == next_level(nodes(level@)),
        next@.len() == parent_count(level@.len()),
{
    let len = level.len();
    let count = len / 2 + len % 2;
    let mut next: Vec<Vec<u8>> = Vec::new();
    let mut k: usize = 0;
    while k < count
        invariant
            len == level.len(),
            count == parent_count(len as nat),
            k <= count,
            next@.len() == k,
            forall|j: int| 0 <= j < k ==> (#[trigger] next@[j])@ == parent_node(nodes(level@), j),
        decreases count - k,
    {
        let left = 2 * k;
        let right = sibling_index(left, len);
        let digest = hash(level[left].as_slice(), level[right].as_slice());
        next.push(digest);
        k += 1;
    }
    next
}

/// Folds `leaves` level by level down to the root.
fn compute_root(leaves: &Vec<Vec<u8>>) -> (root: Vec<u8>)
    requires
        leaves.len() > 0,
    ensures
        root@ == fold_root(nodes(leaves@)),
{
    let mut current_level = leaves.clone();
    proof {
        assert(nodes(current_level@) =~= nodes(leaves@));
    }
    while current_level.len() > 1
        invariant
            current_level.len() > 0,
            fold_root(nodes(current_level@)) == fold_root(nodes(leaves@)),
        decreases current_level.len(),
    {
        current_level = level_up(&current_level);
    }
    current_level[0].clone()
}

/// Whether two byte strings are the same.
fn bytes_equal(a: &[u8], b: &[u8]) -> (same: bool)
    ensures
        same == (a@ == b@),
{
    if a.len() != b.len() {
        return false;
    }
    let mut i: usize = 0;
    while i < a.len()
        invariant
            a.len() == b.len(),
            i <= a.len(),
            forall|j: int| 0 <= j < i ==> a@[j] == b@[j],
        decreases a.len() - i,
    {
        if a[i] != b[i] {
            return false;
        }
        i += 1;
    }
    proof {
        assert(a@ =~= b@);
    }
    true
}

impl MerkleTree {
    #[verifier::type_invariant]
    closed spec fn well_formed(&self) -> bool {
        &&& self.leaves@.len() > 0
        &&& self.root@ == fold_root(nodes(self.leaves@))
    }

    /// Builds the tree over the canonical encodings of `values`, in order.
    /// Fails exactly when there are no values.
    pub fn new(values: Vec<Scalar>) -> (built: Result<MerkleTree, MerkleError>)
        ensures
            values@.len() == 0 ==> built == Err::<MerkleTree, MerkleError>(MerkleError::EmptyInput),
            values@.len() > 0 ==> built is Ok && built->Ok_0@ == encodings(values@),
    {
        let mut leaves: Vec<Vec<u8>> = Vec::new();
        let mut i: usize = 0;
        while i < values.len()
            invariant
                i <= values.len(),
                leaves@.len() == i,
                forall|j: int| 0 <= j < i ==> (#[trigger] leaves@[j])@ == canonical_bytes(values@[j]@),
            decreases values.len() - i,
        {
            let bytes = serialize_scalar(&values[i]);
            leaves.push(bytes);
            i += 1;
        }
        Self::from_leaves(leaves)
    }

    /// Builds the tree over `leaves`, which are kept as they are. Fails
    /// exactly when there are no leaves.
    pub fn from_leaves(leaves: Vec<Vec<u8>>) -> (built: Result<MerkleTree, MerkleError>)
        ensures
            leaves@.len() == 0 ==> built == Err::<MerkleTree, MerkleError>(MerkleError::EmptyInput),
            leaves@.len() > 0 ==> built is Ok && built->Ok_0@ == nodes(leaves@),
    {
        if leaves.len() == 0 {
            return Err(MerkleError::EmptyInput);
        }
        let root = compute_root(&leaves);
        Ok(MerkleTree { leaves, root })
    }

    /// The root: the commitment to the whole ordered sequence of leaves.
    pub fn root(&self) -> (root: &[u8])
        ensures
            root@ == fold_root(self@),
            self@.len() > 0,
    {
        proof {
            use_type_invariant(self);
        }
        self.root.as_slice()
    }

    /// The authentication path of the leaf at `index`: one sibling for every
    /// level below the root, bottom to top. Fails exactly when `index` is not
    /// the index of a leaf.
    pub fn generate_proof(&self, index: usize) -> (path: Result<Vec<Vec<u8>>, MerkleError>)
        ensures
            index >= self@.len() ==> path == Err::<Vec<Vec<u8>>, MerkleError>(
                MerkleError::IndexOutOfRange,
            ),
            index < self@.len() ==> path is Ok && nodes(path->Ok_0@) == sibling_path(
                self@,
                index as int,
            ),
            index < self@.len() ==> path->Ok_0@.len() == tree_height(self@.len()),
            index < self@.len() ==> replay(self@[index as int], index as int, nodes(path->Ok_0@))
                == fold_root(self@),
    {
        proof {
            use_type_invariant(self);
        }
        if index >= self.leaves.len() {
            return Err(MerkleError::IndexOutOfRange);
        }
        let mut proof: Vec<Vec<u8>> = Vec::new();
        let mut current_index = index;
        let mut current_level = self.leaves.clone();
        proof {
            assert(nodes(current_level@) =~= self@);
        }
        while current_level.len() > 1
            invariant
                current_index < current_level.len(),
                nodes(proof@) + sibling_path(nodes(current_level@), current_index as int)
                    == sibling_path(self@, index as int),
            decreases current_level.len(),
        {
            let sibling = sibling_index(current_index, current_level.len());
            proof.push(current_level[sibling].clone());
            current_index /= 2;
            current_level = level_up(&current_level);
        }
        proof {
            lemma_path_length(self@, index as int);
            lemma_round_trip(self@, index as int);
        }
        Ok(proof)
    }

    /// Whether replaying `proof` from the canonical encoding of `value`,
    /// taken to stand at `index`, arrives at `root`.
    pub fn verify_proof(root: &[u8], index: usize, value: &Scalar, proof: &[Vec<u8>]) -> (ok: bool)
        ensures
            ok == (replay(canonical_bytes(value@), index as int, nodes(proof@)) == root@),
    {
        let leaf = serialize_scalar(value);
        Self::verify_leaf(root, index, leaf.as_slice(), proof)
    }

    /// Whether replaying `proof` from the leaf bytes `leaf`, taken to stand at
    /// `index`, arrives at `root`.
    pub fn verify_leaf(root: &[u8], index: usize, leaf: &[u8], proof: &[Vec<u8>]) -> (ok: bool)
        ensures
            ok == (replay(leaf@, index as int, nodes(proof@)) == root@),
    {
        let mut current_hash = slice_to_vec(leaf);
        let mut current_index = index;
        let mut i: usize = 0;
        proof {
            assert(nodes(proof@).skip(0) =~= nodes(proof@));
        }
        while i < proof.len()
            invariant
                i <= proof.len(),
                replay(current_hash@, current_index as int, nodes(proof@).skip(i as int))
                    == replay(leaf@, index as int, nodes(proof@)),
            decreases proof.len() - i,
        {
            let sibling = &proof[i];
            proof {
                let rest = nodes(proof@).skip(i as int);
                assert(rest.drop_first() =~= nodes(proof@).skip(i + 1));
            }
            if current_index % 2 == 0 {
                current_hash = hash(current_hash.as_slice(), sibling.as_slice());
            } else {
                current_hash = hash(sibling.as_slice(), current_hash.as_slice());
            }
            current_index /= 2;
            i += 1;
        }
        bytes_equal(current_hash.as_slice(), root)
    }
}

} // verus!
