//! The directory tree, kept in a `Tree` of the id_tree crate, and what is
//! stated of that crate.
//!
//! A tree is described by its slots: slot `i` holds the node that was the
//! `i`-th to be put into the tree, as the index of its parent (-1 for the
//! node without a parent), its size and the indices of its children in
//! their order. A node id is described by the key of the tree that gave it
//! out and the index of its slot.

use id_tree::InsertBehavior;
use id_tree::Node;
use id_tree::NodeId;
use id_tree::NodeIdError;
use id_tree::Tree;
use vstd::prelude::*;

verus! {

/// The `Tree` of the id_tree crate. Nothing is known of what is inside a
/// tree but what the functions below state.
#[verifier::external_type_specification]
#[verifier::external_body]
#[verifier::reject_recursive_types(T)]
pub struct ExTree<T>(Tree<T>);

/// The `NodeId` of the id_tree crate.
#[verifier::external_type_specification]
#[verifier::external_body]
pub struct ExNodeId(NodeId);

/// The `NodeIdError` of the id_tree crate.
#[verifier::external_type_specification]
#[verifier::external_body]
pub struct ExNodeIdError(NodeIdError);

/// The slots of a tree. A slot is `None` after its node was removed.
pub uninterp spec fn tree_nodes(tree: Tree<u64>) -> Seq<Option<(int, u64, Seq<int>)>>;

/// The key by which a tree tells its own node ids from those of other
/// trees.
pub uninterp spec fn tree_key(tree: Tree<u64>) -> int;

/// The key of the tree that gave the id out, and the index of its slot.
pub uninterp spec fn id_slot(id: NodeId) -> (int, int);

/// The children of slot `v`.
pub open spec fn slot_children(nodes: Seq<Option<(int, u64, Seq<int>)>>, v: int) -> Seq<int> {
    match nodes[v] {
        Some((_, _, children)) => children,
        None => Seq::empty(),
    }
}

/// The size of the node of slot `v`.
pub open spec fn slot_size(nodes: Seq<Option<(int, u64, Seq<int>)>>, v: int) -> int {
    match nodes[v] {
        Some((_, size, _)) => size as int,
        None => 0,
    }
}

/// The parent of slot `v`.
pub open spec fn slot_parent(nodes: Seq<Option<(int, u64, Seq<int>)>>, v: int) -> int {
    match nodes[v] {
        Some((parent, _, _)) => parent,
        None => -1,
    }
}

/// Whether every slot of the tree holds a node.
pub open spec fn is_full(nodes: Seq<Option<(int, u64, Seq<int>)>>) -> bool {
    forall|i: int| 0 <= i < nodes.len() ==> (#[trigger] nodes[i]) is Some
}

/// Whether `id` is an id of `tree` for one of its slots.
pub open spec fn owns(tree: Tree<u64>, id: NodeId) -> bool {
    id_slot(id).0 == tree_key(tree) && 0 <= id_slot(id).1 < tree_nodes(tree).len()
}

/// The slot with one more child at the end of its children.
pub open spec fn with_child(slot: Option<(int, u64, Seq<int>)>, child: int) -> Option<
    (int, u64, Seq<int>),
> {
    match slot {
        Some((parent, size, children)) => Some((parent, size, children.push(child))),
        None => None,
    }
}

/// The slots after a node of size `size` was put under the node of slot
/// `parent`, or as the first node where `parent` is -1.
pub open spec fn with_node(nodes: Seq<Option<(int, u64, Seq<int>)>>, parent: int, size: u64) -> Seq<
    Option<(int, u64, Seq<int>)>,
> {
    let fresh = Some((parent, size, Seq::<int>::empty()));
    if 0 <= parent < nodes.len() {
        nodes.update(parent, with_child(nodes[parent], nodes.len() as int)).push(fresh)
    } else {
        nodes.push(fresh)
    }
}

/// The indices of the slots of a list of ids.
pub open spec fn id_indices(ids: Seq<NodeId>) -> Seq<int> {
    Seq::new(ids.len(), |i: int| id_slot(ids[i]).1)
}

/// Whether every node stands in a later slot than its parent: each child of
/// slot `i` has an index above `i` and below the number of slots.
pub open spec fn is_ordered(nodes: Seq<Option<(int, u64, Seq<int>)>>) -> bool {
    forall|i: int, k: int|
        0 <= i < nodes.len() && 0 <= k < slot_children(nodes, i).len() ==> i < (
        #[trigger] slot_children(nodes, i)[k]) < nodes.len()
}

/// The nodes below slot `v` and `v` itself in pre-order: a node comes
/// before its children, and the children come in their order, each with all
/// that is below it. Defined for ordered trees.
pub open spec fn pre_order(nodes: Seq<Option<(int, u64, Seq<int>)>>, v: int) -> Seq<int>
    decreases nodes.len() - v, 1nat, 0nat,
{
    if 0 <= v < nodes.len() {
        seq![v] + pre_order_all(nodes, v, slot_children(nodes, v))
    } else {
        Seq::empty()
    }
}

/// The pre-orders of the nodes `list`, one after the other. The nodes are
/// children of slot `v`; one that does not stand in a later slot than `v`
/// is left out, as is one that stands in no slot.
pub open spec fn pre_order_all(
    nodes: Seq<Option<(int, u64, Seq<int>)>>,
    v: int,
    list: Seq<int>,
) -> Seq<int>
    decreases nodes.len() - v, 0nat, list.len(),
{
    if list.len() == 0 {
        Seq::empty()
    } else if v < list[0] < nodes.len() {
        pre_order(nodes, list[0]) + pre_order_all(nodes, v, list.drop_first())
    } else {
        pre_order_all(nodes, v, list.drop_first())
    }
}

/// A tree without a node.
///
/// Trusted: `Tree::new` of the id_tree crate builds a tree with no node and
/// no root.
#[verifier::external_body]
pub(crate) fn new_tree() -> (tree: Tree<u64>)
    ensures
        tree_nodes(tree).len() == 0,
{
    Tree::new()
}

/// Puts a node of size `size` into the tree: under `parent`, or as the root
/// of a tree that has no node yet.
///
/// Trusted: `Tree::insert` of the id_tree crate with `UnderNode` or
/// `AsRoot`. Where no slot is free the node gets a new slot at the end; its
/// id is appended to the children of the parent and the parent's id becomes
/// its parent. Under a valid parent the call succeeds.
#[verifier::external_body]
pub(crate) fn insert_node(tree: &mut Tree<u64>, size: u64, parent: Option<&NodeId>) -> (r: Result<
    NodeId,
    NodeIdError,
>)
    requires
        is_full(tree_nodes(*old(tree))),
        parent matches Some(p) ==> owns(*old(tree), *p),
        parent is None ==> tree_nodes(*old(tree)).len() == 0,
    ensures
        r is Ok,
        tree_key(*final(tree)) == tree_key(*old(tree)),
        tree_nodes(*final(tree)) == with_node(
            tree_nodes(*old(tree)),
            match parent {
                Some(p) => id_slot(*p).1,
                None => -1,
            },
            size,
        ),
        id_slot(r->Ok_0) == (tree_key(*old(tree)), tree_nodes(*old(tree)).len() as int),
{
    match parent {
        Some(p) => tree.insert(Node::new(size), InsertBehavior::UnderNode(p)),
        None => tree.insert(Node::new(size), InsertBehavior::AsRoot),
    }
}

/// The index of the slot of the parent, or -1 where there is no parent.
pub open spec fn parent_index(parent: Option<NodeId>) -> int {
    match parent {
        Some(id) => id_slot(id).1,
        None => -1,
    }
}

/// What the node of `id` holds: the id of its parent, if it has one, its
/// size and the ids of its children in their order.
///
/// Trusted: `Tree::get` of the id_tree crate, and of the node that it gives
/// `Node::parent`, `Node::data` and `Node::children`, each copied out.
/// `Tree::get` fails for an id of another tree and for the id of a node
/// that was removed. An index beyond the slots of the id's own tree makes
/// the crate stop the program, so such an id is not admitted. The ids that
/// a node of a tree holds are ids of that tree.
#[verifier::external_body]
pub(crate) fn read_node(tree: &Tree<u64>, id: &NodeId) -> (r: Result<
    (Option<NodeId>, u64, Vec<NodeId>),
    NodeIdError,
>)
    requires
        id_slot(*id).0 == tree_key(*tree) ==> 0 <= id_slot(*id).1 < tree_nodes(*tree).len(),
    ensures
        match r {
            Ok((parent, size, children)) => {
                &&& owns(*tree, *id)
                &&& tree_nodes(*tree)[id_slot(*id).1] == Some(
                    (parent_index(parent), size, id_indices(children@)),
                )
                &&& parent matches Some(above) ==> id_slot(above).0 == tree_key(*tree) && id_slot(
                    above,
                ).1 >= 0
                &&& forall|i: int|
                    0 <= i < children@.len() ==> (#[trigger] id_slot(children@[i])).0 == tree_key(
                        *tree,
                    )
            },
            Err(_) => !owns(*tree, *id) || tree_nodes(*tree)[id_slot(*id).1] is None,
        },
{
    tree.get(id).map(|node| (node.parent().cloned(), *node.data(), node.children().clone()))
}

/// A copy of an id stands for the same slot of the same tree.
///
/// Trusted: `clone` of `NodeId`, which the id_tree crate derives.
pub assume_specification[ <NodeId as Clone>::clone ](id: &NodeId) -> (copy: NodeId)
    ensures
        id_slot(copy) == id_slot(*id),
;

/// The ids of the nodes below `root` and of `root` itself, in pre-order.
///
/// Trusted: `Tree::traverse_pre_order_ids` of the id_tree crate, which
/// fails where `Tree::get` fails and else walks the tree from `root`: each node
/// before its children, the children in their order. The walk is collected
/// into a vector. Only trees are admitted in which every slot holds a node
/// and every child stands in a later slot than its parent.
#[verifier::external_body]
pub(crate) fn pre_order_ids(tree: &Tree<u64>, root: &NodeId) -> (r: Result<Vec<NodeId>, NodeIdError>)
    requires
        id_slot(*root).0 == tree_key(*tree) ==> 0 <= id_slot(*root).1 < tree_nodes(*tree).len(),
        is_full(tree_nodes(*tree)),
        is_ordered(tree_nodes(*tree)),
    ensures
        match r {
            Ok(ids) => owns(*tree, *root) && id_indices(ids@) == pre_order(
                tree_nodes(*tree),
                id_slot(*root).1,
            ) && forall|i: int|
                0 <= i < ids@.len() ==> (#[trigger] id_slot(ids@[i])).0 == tree_key(*tree),
            Err(_) => !owns(*tree, *root) || tree_nodes(*tree)[id_slot(*root).1] is None,
        },
{
    tree.traverse_pre_order_ids(root).map(|ids| ids.collect())
}

} // verus!
