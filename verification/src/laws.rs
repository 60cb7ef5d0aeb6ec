//! What holds of every tree, path and replay.

use crate::encoding::{
    canonical_bytes, encodings, le_bytes_of, le_value, scalar_order, Scalar, ENCODED_LEN,
};
use crate::hash::pair_digest;
use crate::model::{
    combine, fold_root, next_level, parent_count, replay, sibling_path, sibling_pos, tree_height,
};
use vstd::arithmetic::power2::{lemma_pow2_unfold, pow2};
use vstd::prelude::*;

verus! {

/// Combining a node with its sibling gives its parent.
pub proof fn lemma_combine_is_parent(level: Seq<Seq<u8>>, index: int)
    requires
        0 <= index < level.len(),
        level.len() > 1,
    ensures
        0 <= index / 2 < next_level(level).len(),
        combine(level[index], index, level[sibling_pos(index, level.len() as int)])
            == next_level(level)[index / 2],
{
}

/// A path has one entry for every level below the root, also where the node
/// is the unpaired last one of an odd-sized level.
pub proof fn lemma_path_length(level: Seq<Seq<u8>>, index: int)
    ensures
        sibling_path(level, index).len() == tree_height(level.len()),
    decreases level.len(),
{
    if level.len() > 1 {
        lemma_path_length(next_level(level), index / 2);
    }
}

/// Replaying the path of a node from that node arrives at the root.
pub proof fn lemma_round_trip(level: Seq<Seq<u8>>, index: int)
    requires
        0 <= index < level.len(),
    ensures
        replay(level[index], index, sibling_path(level, index)) == fold_root(level),
    decreases level.len(),
{
    if level.len() > 1 {
        let above = next_level(level);
        lemma_combine_is_parent(level, index);
        lemma_round_trip(above, index / 2);
        assert(sibling_path(level, index).drop_first() =~= sibling_path(above, index / 2));
    }
}

/// For every non-empty sequence of values and every index into it, the path
/// of the indexed value, replayed from that value's encoding, arrives at the
/// root of the tree over the values.
pub proof fn lemma_round_trip_of_values(values: Seq<Scalar>, index: int)
    requires
        0 <= index < values.len(),
    ensures
        replay(
            canonical_bytes(values[index]@),
            index,
            sibling_path(encodings(values), index),
        ) == fold_root(encodings(values)),
{
    lemma_round_trip(encodings(values), index);
}

/// A replay arrives at one digest only: where it arrives at `root`, it does
/// not arrive at any other claimed root.
pub proof fn lemma_other_root_rejected(
    leaf: Seq<u8>,
    index: int,
    path: Seq<Seq<u8>>,
    root: Seq<u8>,
    claimed: Seq<u8>,
)
    requires
        replay(leaf, index, path) == root,
        claimed != root,
    ensures
        replay(leaf, index, path) != claimed,
{
}

/// Two different inputs to the hash with one digest.
pub open spec fn is_collision(
    left: Seq<u8>,
    right: Seq<u8>,
    other_left: Seq<u8>,
    other_right: Seq<u8>,
) -> bool {
    &&& left != other_left || right != other_right
    &&& pair_digest(left, right) == pair_digest(other_left, other_right)
}

/// Whether the hash has a collision at all.
pub open spec fn collision_exists() -> bool {
    exists|a: Seq<u8>, b: Seq<u8>, c: Seq<u8>, d: Seq<u8>| is_collision(a, b, c, d)
}

/// A changed leaf or a changed path entry is noticed unless the hash
/// collides: two replays from the same index over paths of one length that
/// differ in the leaf or in some entry arrive at the same digest only where
/// two different inputs to the hash have one digest.
pub proof fn lemma_tampering_needs_collision(
    leaf: Seq<u8>,
    path: Seq<Seq<u8>>,
    other_leaf: Seq<u8>,
    other_path: Seq<Seq<u8>>,
    index: int,
)
    requires
        path.len() == other_path.len(),
        leaf != other_leaf || path != other_path,
        replay(leaf, index, path) == replay(other_leaf, index, other_path),
    ensures
        collision_exists(),
    decreases path.len(),
{
    if path.len() == 0 {
        assert(path =~= other_path);
    } else {
        let up = combine(leaf, index, path[0]);
        let other_up = combine(other_leaf, index, other_path[0]);
        let rest = path.drop_first();
        let other_rest = other_path.drop_first();
        if up == other_up && (leaf != other_leaf || path[0] != other_path[0]) {
            if index % 2 == 0 {
                assert(is_collision(leaf, path[0], other_leaf, other_path[0]));
            } else {
                assert(is_collision(path[0], leaf, other_path[0], other_leaf));
            }
        } else {
            if up == other_up && rest == other_rest {
                assert(path =~= seq![path[0]] + rest);
                assert(other_path =~= seq![other_path[0]] + other_rest);
            }
            lemma_tampering_needs_collision(up, rest, other_up, other_rest, index / 2);
        }
    }
}

/// Replays from two different digests over one path arrive at the same
/// digest only where the hash collides, whatever the two indices are.
pub proof fn lemma_merging_needs_collision(
    current: Seq<u8>,
    index: int,
    other_current: Seq<u8>,
    other_index: int,
    path: Seq<Seq<u8>>,
)
    requires
        current != other_current,
        replay(current, index, path) == replay(other_current, other_index, path),
    ensures
        collision_exists(),
    decreases path.len(),
{
    if path.len() > 0 {
        let sibling = path[0];
        let up = combine(current, index, sibling);
        let other_up = combine(other_current, other_index, sibling);
        if up == other_up {
            if index % 2 == 0 {
                if other_index % 2 == 0 {
                    assert(is_collision(current, sibling, other_current, sibling));
                } else {
                    assert(is_collision(current, sibling, sibling, other_current));
                }
            } else {
                if other_index % 2 == 0 {
                    assert(is_collision(sibling, current, other_current, sibling));
                } else {
                    assert(is_collision(sibling, current, sibling, other_current));
                }
            }
        } else {
            lemma_merging_needs_collision(
                up,
                index / 2,
                other_up,
                other_index / 2,
                path.drop_first(),
            );
        }
    }
}

/// Whether a replay comes, on some level, to a digest that equals the path
/// entry it is about to be combined with.
pub open spec fn meets_own_sibling(current: Seq<u8>, index: int, path: Seq<Seq<u8>>) -> bool
    decreases path.len(),
{
    path.len() > 0 && (current == path[0] || meets_own_sibling(
        combine(current, index, path[0]),
        index / 2,
        path.drop_first(),
    ))
}

/// A changed index is noticed unless the hash collides or the replay meets
/// a sibling equal to its own digest: replays of one leaf over one path from
/// two different positions of the bottom level arrive at the same digest
/// only in these two cases.
pub proof fn lemma_wrong_index_needs_collision(
    leaf: Seq<u8>,
    path: Seq<Seq<u8>>,
    index: int,
    other_index: int,
)
    requires
        0 <= index < pow2(path.len()),
        0 <= other_index < pow2(path.len()),
        index != other_index,
        replay(leaf, index, path) == replay(leaf, other_index, path),
    ensures
        collision_exists() || meets_own_sibling(leaf, index, path),
    decreases path.len(),
{
    if path.len() == 0 {
        assert(pow2(0) == 1) by {
            vstd::arithmetic::power2::lemma2_to64();
        }
    } else {
        lemma_pow2_unfold(path.len());
        let sibling = path[0];
        let up = combine(leaf, index, sibling);
        let other_up = combine(leaf, other_index, sibling);
        let rest = path.drop_first();
        if leaf != sibling {
            if index % 2 == other_index % 2 {
                lemma_wrong_index_needs_collision(up, rest, index / 2, other_index / 2);
            } else if up == other_up {
                if index % 2 == 0 {
                    assert(is_collision(leaf, sibling, sibling, leaf));
                } else {
                    assert(is_collision(sibling, leaf, leaf, sibling));
                }
            } else {
                lemma_merging_needs_collision(up, index / 2, other_up, other_index / 2, rest);
            }
        }
    }
}

/// A proof of full length that is accepted for a tree's root at the index of
/// a leaf is that leaf's own path, and the leaf it was replayed from is that
/// leaf, unless the hash collides.
pub proof fn lemma_accepted_proof_is_genuine(
    leaves: Seq<Seq<u8>>,
    index: int,
    leaf: Seq<u8>,
    path: Seq<Seq<u8>>,
)
    requires
        0 <= index < leaves.len(),
        path.len() == tree_height(leaves.len()),
        replay(leaf, index, path) == fold_root(leaves),
    ensures
        collision_exists() || (leaf == leaves[index] && path == sibling_path(leaves, index)),
{
    lemma_round_trip(leaves, index);
    lemma_path_length(leaves, index);
    if leaf != leaves[index] || path != sibling_path(leaves, index) {
        lemma_tampering_needs_collision(
            leaf,
            path,
            leaves[index],
            sibling_path(leaves, index),
            index,
        );
    }
}

/// An encoding of `len` bytes has `len` bytes.
pub proof fn lemma_le_bytes_length(value: nat, len: nat)
    ensures
        le_bytes_of(value, len).len() == len,
    decreases len,
{
    if len > 0 {
        lemma_le_bytes_length(value / 256, (len - 1) as nat);
    }
}

/// Bytes are the encoding of the integer that they hold.
pub proof fn lemma_le_bytes_of_value(bytes: Seq<u8>)
    ensures
        le_bytes_of(le_value(bytes), bytes.len()) == bytes,
    decreases bytes.len(),
{
    if bytes.len() > 0 {
        let rest = bytes.drop_first();
        lemma_le_bytes_of_value(rest);
        assert(le_value(bytes) / 256 == le_value(rest));
        assert(le_value(bytes) % 256 == bytes[0]);
        assert(seq![bytes[0]] + rest =~= bytes);
    }
}

/// Every scalar is encoded in 32 bytes.
pub proof fn lemma_encoding_length(le_bytes: Seq<u8>)
    ensures
        canonical_bytes(le_bytes).len() == ENCODED_LEN,
{
    lemma_le_bytes_length(le_value(le_bytes) % scalar_order(), ENCODED_LEN as nat);
}

/// A scalar held as an integer below the field order is encoded as the
/// bytes that hold it.
pub proof fn lemma_reduced_scalar_is_its_encoding(value: Scalar)
    requires
        le_value(value@) < scalar_order(),
    ensures
        canonical_bytes(value@) == value@,
{
    lemma_le_bytes_of_value(value@);
    vstd::arithmetic::div_mod::lemma_small_mod(le_value(value@), scalar_order());
}

/// Two sequences of values that agree entry by entry give the same leaves,
/// the same root and, for every index, the same path.
pub proof fn lemma_deterministic(first: Seq<Scalar>, second: Seq<Scalar>, index: int)
    requires
        first.len() == second.len(),
        forall|i: int| 0 <= i < first.len() ==> first[i]@ == second[i]@,
    ensures
        encodings(first) == encodings(second),
        fold_root(encodings(first)) == fold_root(encodings(second)),
        sibling_path(encodings(first), index) == sibling_path(encodings(second), index),
{
    assert(encodings(first) =~= encodings(second));
}

/// The root of a tree of one leaf is that leaf: nothing is hashed, and the
/// path of the leaf is empty.
pub proof fn lemma_singleton(leaf: Seq<u8>)
    ensures
        fold_root(seq![leaf]) == leaf,
        sibling_path(seq![leaf], 0) == Seq::<Seq<u8>>::empty(),
        tree_height(1) == 0,
{
}

/// In a tree of two leaves each leaf is the other's path, and the root is
/// the digest of the pair.
pub proof fn lemma_two_leaves(a: Seq<u8>, b: Seq<u8>)
    ensures
        fold_root(seq![a, b]) == pair_digest(a, b),
        sibling_path(seq![a, b], 0) == seq![b],
        sibling_path(seq![a, b], 1) == seq![a],
        replay(a, 0, seq![b]) == pair_digest(a, b),
        replay(b, 1, seq![a]) == pair_digest(a, b),
{
    let level = seq![a, b];
    let above = next_level(level);
    assert(fold_root(level) == fold_root(above));
    assert(sibling_path(above, 0) =~= Seq::<Seq<u8>>::empty());
    assert(seq![b].drop_first() =~= Seq::<Seq<u8>>::empty());
    assert(seq![a].drop_first() =~= Seq::<Seq<u8>>::empty());
    assert(replay(combine(b, 1, a), 0, Seq::<Seq<u8>>::empty()) == pair_digest(a, b));
}

/// In a tree of three leaves the third leaf is hashed with itself before it
/// meets the digest of the first two.
pub proof fn lemma_three_leaves(a: Seq<u8>, b: Seq<u8>, c: Seq<u8>)
    ensures
        fold_root(seq![a, b, c]) == pair_digest(pair_digest(a, b), pair_digest(c, c)),
        sibling_path(seq![a, b, c], 2) == seq![c, pair_digest(a, b)],
{
    let level = seq![a, b, c];
    let above = next_level(level);
    assert(above =~= seq![pair_digest(a, b), pair_digest(c, c)]);
    lemma_two_leaves(pair_digest(a, b), pair_digest(c, c));
}

/// The height of a tree of more than one leaf is the least `h` with
/// `leaf_count <= 2^h`, the base-two logarithm of the count rounded up.
pub proof fn lemma_height_is_log2_ceiling(leaf_count: nat)
    requires
        leaf_count > 1,
    ensures
        tree_height(leaf_count) >= 1,
        pow2((tree_height(leaf_count) - 1) as nat) < leaf_count <= pow2(tree_height(leaf_count)),
    decreases leaf_count,
{
    let above = parent_count(leaf_count);
    lemma_pow2_unfold(tree_height(leaf_count));
    if above > 1 {
        lemma_height_is_log2_ceiling(above);
        lemma_pow2_unfold(tree_height(above));
    } else {
        assert(pow2(0) == 1) by {
            vstd::arithmetic::power2::lemma2_to64();
        }
    }
}

} // verus!
