//! Where a folder stands in a tree: the way to it from the top.

use crate::numbering::folders_before;
use crate::types::{FolderNode, FolderView};
use vstd::prelude::*;

verus! {

/// Whether `way` leads to a folder below `f`: to child `way[0]`, from there to its child
/// `way[1]`, and so on. No way at all leads to `f` itself.
pub open spec fn leads(f: FolderView, way: Seq<int>) -> bool
    decreases way.len(),
{
    way.len() == 0 || (0 <= way[0] < f.children.len() && leads(f.children[way[0]], way.skip(1)))
}

/// The folder that `way` leads to.
pub open spec fn folder_at(f: FolderView, way: Seq<int>) -> FolderView
    decreases way.len(),
{
    if way.len() == 0 {
        f
    } else {
        folder_at(f.children[way[0]], way.skip(1))
    }
}

/// A way into child `k` goes on from there.
pub proof fn lemma_way_into(f: FolderView, k: int, way: Seq<int>)
    requires
        0 <= k < f.children.len(),
        leads(f.children[k], way),
    ensures
        leads(f, seq![k] + way),
        folder_at(f, seq![k] + way) == folder_at(f.children[k], way),
{
    assert((seq![k] + way).skip(1) =~= way);
}

/// The number of the folder that `way` leads to: a folder comes in front of everything
/// below it, and behind everything in the children before it.
pub open spec fn number_at(f: FolderView, way: Seq<int>) -> int
    decreases way.len(),
{
    if way.len() == 0 {
        0
    } else {
        1 + folders_before(f, way[0]) + number_at(f.children[way[0]], way.skip(1))
    }
}

/// The same ways, in a tree as it is held.
pub open spec fn node_leads(node: FolderNode, way: Seq<int>) -> bool
    decreases way.len(),
{
    way.len() == 0 || (0 <= way[0] < node.children@.len() && node_leads(
        node.children@[way[0]],
        way.skip(1),
    ))
}

pub open spec fn node_at_end(node: FolderNode, way: Seq<int>) -> FolderNode
    decreases way.len(),
{
    if way.len() == 0 {
        node
    } else {
        node_at_end(node.children@[way[0]], way.skip(1))
    }
}

pub proof fn lemma_node_way_into(node: FolderNode, k: int, way: Seq<int>)
    requires
        0 <= k < node.children@.len(),
        node_leads(node.children@[k], way),
    ensures
        node_leads(node, seq![k] + way),
        node_at_end(node, seq![k] + way) == node_at_end(node.children@[k], way),
        number_at(node@, seq![k] + way) == 1 + folders_before(node@, k) + number_at(
            node.children@[k]@,
            way,
        ),
{
    assert((seq![k] + way).skip(1) =~= way);
    assert(node@.children[k] == node.children@[k]@);
}

} // verus!
