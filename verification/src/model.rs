//! The mathematical model of the tree: levels of digests, the fold that
//! yields the root, authentication paths and their replay.

use crate::hash::pair_digest;
use vstd::prelude::*;

verus! {

/// The byte strings held by a sequence of buffers.
pub open spec fn nodes(buffers: Seq<Vec<u8>>) -> Seq<Seq<u8>> {
    Seq::new(buffers.len(), |i: int| buffers[i]@)
}

/// Position of the node that is hashed together with the node at `index` in
/// a level of `len` nodes. The last node of an odd-sized level has no
/// neighbour and is paired with itself.
pub open spec fn sibling_pos(index: int, len: int) -> int {
    if index % 2 != 0 {
        index - 1
    } else if index + 1 < len {
        index + 1
    } else {
        index
    }
}

/// Number of nodes in the level above a level of `len` nodes.
pub open spec fn parent_count(len: nat) -> nat {
    (len + 1) / 2
}

/// The `k`-th node of the level above `level`.
pub open spec fn parent_node(level: Seq<Seq<u8>>, k: int) -> Seq<u8> {
    pair_digest(level[2 * k], level[sibling_pos(2 * k, level.len() as int)])
}

/// The level above `level`: consecutive pairs hashed left to right, an
/// unpaired last node hashed with itself.
pub open spec fn next_level(level: Seq<Seq<u8>>) -> Seq<Seq<u8>> {
    Seq::new(parent_count(level.len()), |k: int| parent_node(level, k))
}

/// The root above `level`. A level of one node is its own root; nothing is
/// hashed. The empty level has no root, and the empty string stands for it.
pub open spec fn fold_root(level: Seq<Seq<u8>>) -> Seq<u8>
    decreases level.len(),
{
    if level.len() == 0 {
        Seq::empty()
    } else if level.len() == 1 {
        level[0]
    } else {
        fold_root(next_level(level))
    }
}

/// Number of levels below the root in a tree of `leaf_count` leaves.
pub open spec fn tree_height(leaf_count: nat) -> nat
    decreases leaf_count,
{
    if leaf_count <= 1 {
        0
    } else {
        1 + tree_height(parent_count(leaf_count))
    }
}

/// The authentication path of the node at `index` of `level`: its sibling on
/// every level from `level` up to, but not including, the root.
pub open spec fn sibling_path(level: Seq<Seq<u8>>, index: int) -> Seq<Seq<u8>>
    decreases level.len(),
{
    if level.len() <= 1 {
        Seq::empty()
    } else {
        seq![level[sibling_pos(index, level.len() as int)]] + sibling_path(
            next_level(level),
            index / 2,
        )
    }
}

/// One step of a replay: the parent of `current`, which stands at `index` of
/// its level, given its sibling.
pub open spec fn combine(current: Seq<u8>, index: int, sibling: Seq<u8>) -> Seq<u8> {
    if index % 2 == 0 {
        pair_digest(current, sibling)
    } else {
        pair_digest(sibling, current)
    }
}

/// The digest reached from `current` at `index` by combining it with each
/// entry of `path` in turn, bottom to top.
pub open spec fn replay(current: Seq<u8>, index: int, path: Seq<Seq<u8>>) -> Seq<u8>
    decreases path.len(),
{
    if path.len() == 0 {
        current
    } else {
        replay(combine(current, index, path[0]), index / 2, path.drop_first())
    }
}

} // verus!
