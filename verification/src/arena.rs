//! Documents as mathematical values: a list of nodes that name their
//! children by identity, and the trees that such a list stands for.

use vstd::prelude::*;

use crate::tree::Tree;
use crate::value::Value;

verus! {

/// One node of a document.
pub struct NodeView {
    pub identity: u128,
    pub class: Seq<char>,
    pub name: Seq<char>,
    pub properties: Map<Seq<char>, Value>,
    pub children: Seq<u128>,
}

/// A document: its nodes in the order in which they were added, and the
/// identity of its root.
pub struct DocumentView {
    pub root: u128,
    pub nodes: Seq<NodeView>,
}

/// No node of the list has the null identity.
pub open spec fn none_null(nodes: Seq<NodeView>) -> bool {
    forall|i: int| 0 <= i < nodes.len() ==> (#[trigger] nodes[i]).identity != 0
}

/// No two nodes of the list have the same identity.
pub open spec fn all_distinct(nodes: Seq<NodeView>) -> bool {
    forall|i: int, j: int|
        0 <= i < j < nodes.len() ==> (#[trigger] nodes[i]).identity != (#[trigger] nodes[j]).identity
}

impl DocumentView {
    /// The node at place `i` has the identity `id`.
    pub open spec fn at(self, id: u128, i: int) -> bool {
        0 <= i < self.nodes.len() && self.nodes[i].identity == id
    }

    /// Some node has the identity `id`: the identity resolves.
    pub open spec fn has(self, id: u128) -> bool {
        exists|i: int| self.at(id, i)
    }

    /// The place of the node with the identity `id`.
    pub open spec fn position(self, id: u128) -> int {
        choose|i: int| self.at(id, i)
    }

    /// The identities of the nodes.
    pub open spec fn identities(self) -> Set<u128> {
        Set::new(|id: u128| self.has(id))
    }

    /// A child that resolves stands after its parent.
    pub open spec fn children_follow(self) -> bool {
        forall|i: int, k: int, j: int|
            0 <= i < self.nodes.len() && 0 <= k < self.nodes[i].children.len() && #[trigger] self.at(
                self.nodes[i].children[k],
                j,
            ) ==> i < j
    }

    /// No node has the null identity, no two nodes share one, and a child
    /// that resolves stands after its parent. So no node stands below
    /// itself.
    pub open spec fn wf(self) -> bool {
        &&& none_null(self.nodes)
        &&& all_distinct(self.nodes)
        &&& self.children_follow()
    }

    /// No node has the null identity, and no two nodes share one.
    pub open spec fn wf_but_order(self) -> bool {
        &&& none_null(self.nodes)
        &&& all_distinct(self.nodes)
    }

    /// The node at place `i` names `id` as its child at place `k`.
    pub open spec fn names(self, i: int, k: int, id: u128) -> bool {
        &&& 0 <= i < self.nodes.len()
        &&& 0 <= k < self.nodes[i].children.len()
        &&& self.nodes[i].children[k] == id
    }

    /// No identity is named as a child twice, the root is named by no
    /// node, and every other node is named by one: each node but the root
    /// has one parent, and the root has none.
    pub open spec fn tree_shaped(self) -> bool {
        &&& forall|i: int, k: int, j: int, m: int, id: u128|
            #[trigger] self.names(i, k, id) && #[trigger] self.names(j, m, id) ==> i == j && k == m
        &&& forall|i: int, k: int| !#[trigger] self.names(i, k, self.root)
        &&& forall|j: int|
            0 <= j < self.nodes.len() ==> self.nodes[j].identity == self.root
                || #[trigger] self.named_in(j, 0, self.nodes.len() as int)
    }

    /// The `tree.size()` nodes from place `start` on are the nodes of
    /// `tree`, and stand to each other as the nodes of a tree do: they name
    /// as children only nodes of `tree` other than its root, none twice,
    /// and each of them but the first is named by one of them.
    pub open spec fn grafted(self, start: int, tree: Tree) -> bool {
        &&& 0 <= start
        &&& start + tree.size() <= self.nodes.len()
        &&& forall|i: int|
            start <= i < start + tree.size() ==> tree.identities().contains(
                (#[trigger] self.nodes[i]).identity,
            )
        &&& forall|i: int, k: int, id: u128|
            start <= i < start + tree.size() && #[trigger] self.names(i, k, id)
                ==> tree.identities().contains(id) && id != tree.identity
        &&& forall|i: int, k: int, j: int, m: int, id: u128|
            start <= i < start + tree.size() && start <= j < start + tree.size()
                && #[trigger] self.names(i, k, id) && #[trigger] self.names(j, m, id) ==> i == j
                && k == m
        &&& forall|j: int|
            start < j < start + tree.size() ==> #[trigger] self.named_in(
                j,
                start,
                start + tree.size(),
            )
    }

    /// A node at one of the places from `from` up to `to` names the node at
    /// place `j` as a child.
    pub open spec fn named_in(self, j: int, from: int, to: int) -> bool {
        exists|i: int, k: int| from <= i < to && self.names(i, k, self.nodes[j].identity)
    }

    /// The node at place `j` is the root of one of the first `count` of
    /// `trees`.
    pub open spec fn heads(self, j: int, trees: Seq<Tree>, count: int) -> bool {
        exists|c: int| 0 <= c < count && self.nodes[j].identity == (#[trigger] trees[c]).identity
    }

    /// The node at place `i` is owned by one of the first `count` of
    /// `trees`.
    pub open spec fn owned_among(self, i: int, trees: Seq<Tree>, count: int) -> bool {
        exists|c: int| 0 <= c < count && self.owned(i, #[trigger] trees[c])
    }

    /// The node at place `i` belongs to `tree`, and names as children only
    /// nodes of `tree` other than its root.
    pub open spec fn owned(self, i: int, tree: Tree) -> bool {
        &&& tree.identities().contains(self.nodes[i].identity)
        &&& forall|k: int, id: u128| #[trigger]
            self.names(i, k, id) ==> tree.identities().contains(id) && id != tree.identity
    }

    /// Every child of every node from place `start` on resolves.
    pub open spec fn closed_from(self, start: int) -> bool {
        forall|i: int, k: int|
            start <= i < self.nodes.len() && 0 <= k < self.nodes[i].children.len() ==> self.has(
                #[trigger] self.nodes[i].children[k],
            )
    }

    /// Every child of every node resolves.
    pub open spec fn closed(self) -> bool {
        self.closed_from(0)
    }

    /// `later` has at least the nodes of this document, and after place
    /// `bound` the same node at each of its places.
    pub open spec fn kept_above(self, later: DocumentView, bound: int) -> bool {
        &&& self.nodes.len() <= later.nodes.len()
        &&& forall|i: int| bound < i < self.nodes.len() ==> later.nodes[i] == self.nodes[i]
    }

    /// The tree below the node at place `i`: the node, and under it the
    /// trees of those of its children that resolve, in their order.
    pub open spec fn tree_at(self, i: int) -> Tree
        decreases self.nodes.len() - i, self.nodes[i].children.len() + 1,
    {
        if 0 <= i < self.nodes.len() {
            Tree {
                identity: self.nodes[i].identity,
                class: self.nodes[i].class,
                name: self.nodes[i].name,
                properties: self.nodes[i].properties,
                children: self.forest_above(i, self.nodes[i].children),
            }
        } else {
            arbitrary()
        }
    }

    /// The trees below those of `ids` that resolve to a place after
    /// `bound`, in the order of `ids`.
    pub open spec fn forest_above(self, bound: int, ids: Seq<u128>) -> Seq<Tree>
        decreases self.nodes.len() - bound, ids.len(),
    {
        if ids.len() == 0 || bound >= self.nodes.len() {
            Seq::empty()
        } else {
            let rest = self.forest_above(bound, ids.drop_last());
            if self.has(ids.last()) && bound < self.position(ids.last()) {
                rest.push(self.tree_at(self.position(ids.last())))
            } else {
                rest
            }
        }
    }

    /// The trees below those of `ids` that resolve, in the order of `ids`.
    pub open spec fn forest(self, ids: Seq<u128>) -> Seq<Tree> {
        self.forest_above(-1, ids)
    }

    /// The tree below the node with the identity `id`.
    pub open spec fn tree_of(self, id: u128) -> Tree {
        self.tree_at(self.position(id))
    }

    /// The trees below the children of the root, in their order; none where
    /// the root does not resolve.
    pub open spec fn top_level(self) -> Seq<Tree> {
        if self.has(self.root) {
            self.tree_of(self.root).children
        } else {
            Seq::empty()
        }
    }
}

/// Where no two nodes share an identity, an identity resolves to one place.
pub proof fn lemma_place(document: DocumentView, id: u128, i: int)
    requires
        document.wf_but_order(),
        document.at(id, i),
    ensures
        document.has(id),
        document.position(id) == i,
{
    let j = document.position(id);
    assert(document.at(id, j));
    if i < j {
        assert(document.nodes[i].identity != document.nodes[j].identity);
    } else if j < i {
        assert(document.nodes[j].identity != document.nodes[i].identity);
    }
}

/// In a well-formed document an identity resolves to one place.
pub proof fn lemma_position(document: DocumentView, id: u128, i: int)
    requires
        document.wf(),
        document.at(id, i),
    ensures
        document.has(id),
        document.position(id) == i,
{
    lemma_place(document, id, i);
}

/// What is kept of a document keeps its trees: where every child resolves
/// after place `bound`, the tree at a place after `bound` is the same in a
/// later document that kept the nodes after `bound`.
pub proof fn lemma_tree_kept(earlier: DocumentView, later: DocumentView, bound: int, i: int)
    requires
        earlier.wf(),
        later.wf(),
        earlier.kept_above(later, bound),
        earlier.closed_from(bound + 1),
        -1 <= bound < i < earlier.nodes.len(),
    ensures
        later.tree_at(i) == earlier.tree_at(i),
    decreases earlier.nodes.len() - i, earlier.nodes[i].children.len() + 1,
{
    let ids = earlier.nodes[i].children;
    assert forall|k: int| 0 <= k < ids.len() implies earlier.has(#[trigger] ids[k])
        && earlier.position(ids[k]) > i by {
        assert(earlier.has(earlier.nodes[i].children[k]));
        let j = earlier.position(ids[k]);
        assert(earlier.at(earlier.nodes[i].children[k], j));
    }
    lemma_forest_kept(earlier, later, bound, i, ids);
}

/// The same of the trees below a list of identities that all resolve after
/// place `above`.
pub proof fn lemma_forest_kept(
    earlier: DocumentView,
    later: DocumentView,
    bound: int,
    above: int,
    ids: Seq<u128>,
)
    requires
        earlier.wf(),
        later.wf(),
        earlier.kept_above(later, bound),
        earlier.closed_from(bound + 1),
        -1 <= bound <= above < earlier.nodes.len(),
        forall|k: int|
            0 <= k < ids.len() ==> earlier.has(#[trigger] ids[k]) && earlier.position(ids[k])
                > above,
    ensures
        later.forest_above(above, ids) == earlier.forest_above(above, ids),
    decreases earlier.nodes.len() - above, ids.len(),
{
    if ids.len() > 0 {
        lemma_forest_kept(earlier, later, bound, above, ids.drop_last());
        let id = ids.last();
        assert(id == ids[ids.len() - 1]);
        let j = earlier.position(id);
        assert(earlier.at(id, j));
        assert(later.at(id, j));
        lemma_position(later, id, j);
        lemma_tree_kept(earlier, later, bound, j);
    }
}

/// The trees below a list of identities are those below its front,
/// followed by those below its back.
pub proof fn lemma_forest_joined(
    document: DocumentView,
    above: int,
    front: Seq<u128>,
    back: Seq<u128>,
)
    ensures
        document.forest_above(above, front + back) == document.forest_above(above, front)
            + document.forest_above(above, back),
    decreases back.len(),
{
    if above >= document.nodes.len() {
    } else if back.len() == 0 {
        assert(front + back =~= front);
        assert(document.forest_above(above, front) + Seq::<Tree>::empty()
            =~= document.forest_above(above, front));
    } else {
        assert((front + back).drop_last() =~= front + back.drop_last());
        assert((front + back).last() == back.last());
        lemma_forest_joined(document, above, front, back.drop_last());
        let first = document.forest_above(above, front);
        let second = document.forest_above(above, back.drop_last());
        let tree = document.tree_at(document.position(back.last()));
        assert((first + second).push(tree) =~= first + second.push(tree));
    }
}

/// Where each identity of a list that resolves does so after place `above`,
/// the trees below the list are those that resolve at all.
pub proof fn lemma_forest_of(document: DocumentView, above: int, ids: Seq<u128>)
    requires
        -1 <= above,
        forall|k: int|
            0 <= k < ids.len() && document.has(#[trigger] ids[k]) ==> document.position(ids[k])
                > above,
    ensures
        document.forest_above(above, ids) == document.forest(ids),
    decreases ids.len(),
{
    if ids.len() > 0 {
        assert(ids.last() == ids[ids.len() - 1]);
        assert forall|k: int|
            0 <= k < ids.drop_last().len() && document.has(
                #[trigger] ids.drop_last()[k],
            ) implies document.position(ids.drop_last()[k]) > above by {
            assert(ids.drop_last()[k] == ids[k]);
        }
        lemma_forest_of(document, above, ids.drop_last());
        if document.has(ids.last()) {
            assert(document.at(ids.last(), document.position(ids.last())));
        }
    }
}

/// In a well-formed document the trees below the children of the root are
/// those below the children that resolve.
pub proof fn lemma_top_level(document: DocumentView)
    requires
        document.wf(),
        document.has(document.root),
    ensures
        document.top_level() == document.forest(
            document.nodes[document.position(document.root)].children,
        ),
{
    let place = document.position(document.root);
    assert(document.at(document.root, place));
    let ids = document.nodes[place].children;
    assert forall|k: int| 0 <= k < ids.len() && document.has(#[trigger] ids[k]) implies document.position(
        ids[k],
    ) > place by {
        let j = document.position(ids[k]);
        assert(document.at(document.nodes[place].children[k], j));
    }
    lemma_forest_of(document, place, ids);
}

} // verus!
