//! Trees as mathematical values, and what it means for one tree to be a
//! clone of another.

use vstd::prelude::*;

use crate::value::{sanitized, unique_id_key, Value};

verus! {

/// A node with everything below it.
pub struct Tree {
    pub identity: u128,
    pub class: Seq<char>,
    pub name: Seq<char>,
    pub properties: Map<Seq<char>, Value>,
    pub children: Seq<Tree>,
}

/// `copy` holds what a clone keeps of the properties `source`: under every
/// key but that of the stamp the sanitized value, and under the key of the
/// stamp nothing, or a stamp that the source did not hold there.
pub open spec fn properties_cloned(
    source: Map<Seq<char>, Value>,
    copy: Map<Seq<char>, Value>,
) -> bool {
    &&& forall|key: Seq<char>|
        key != unique_id_key() ==> (#[trigger] copy.contains_key(key) <==> source.contains_key(
            key,
        ))
    &&& forall|key: Seq<char>|
        key != unique_id_key() && source.contains_key(key) ==> #[trigger] copy[key] == sanitized(
            source[key],
        )
    &&& copy.contains_key(unique_id_key()) ==> {
        &&& source.contains_key(unique_id_key())
        &&& copy[unique_id_key()] is UniqueId
        &&& copy[unique_id_key()] != source[unique_id_key()]
    }
}

/// `copy` is a clone of the one node `source`, whatever stands below them.
pub open spec fn node_cloned(source: Tree, copy: Tree) -> bool {
    &&& copy.class == source.class
    &&& copy.name == source.name
    &&& properties_cloned(source.properties, copy.properties)
    &&& copy.children.len() == source.children.len()
}

/// `copy` is a clone of `source`: node for node, child for child in the same
/// order. Identities play no part in it.
pub open spec fn cloned(source: Tree, copy: Tree) -> bool
    decreases copy,
{
    &&& node_cloned(source, copy)
    &&& forall|i: int|
        0 <= i < copy.children.len() ==> cloned(source.children[i], #[trigger] copy.children[i])
}

/// The trees of `copies` are the clones of those of `sources`, one for one.
pub open spec fn cloned_all(sources: Seq<Tree>, copies: Seq<Tree>) -> bool {
    &&& copies.len() == sources.len()
    &&& forall|i: int| 0 <= i < copies.len() ==> cloned(sources[i], #[trigger] copies[i])
}

/// `after` is `before` under other identities: node for node the same
/// class, name and properties, and the same children in the same order.
pub open spec fn reidentified(before: Tree, after: Tree) -> bool
    decreases after,
{
    &&& after.class == before.class
    &&& after.name == before.name
    &&& after.properties == before.properties
    &&& after.children.len() == before.children.len()
    &&& forall|i: int|
        0 <= i < after.children.len() ==> reidentified(
            before.children[i],
            #[trigger] after.children[i],
        )
}

/// A clone under other identities is a clone still.
pub proof fn lemma_reidentified_clone(source: Tree, copy: Tree, after: Tree)
    requires
        cloned(source, copy),
        reidentified(copy, after),
    ensures
        cloned(source, after),
    decreases after,
{
    assert forall|i: int| 0 <= i < after.children.len() implies cloned(
        source.children[i],
        #[trigger] after.children[i],
    ) by {
        assert(cloned(source.children[i], copy.children[i]));
        assert(reidentified(copy.children[i], after.children[i]));
        lemma_reidentified_clone(source.children[i], copy.children[i], after.children[i]);
    }
}

/// `left` and `right` have the same class and name, as many children, and
/// child for child the same again.
pub open spec fn same_shape(left: Tree, right: Tree) -> bool
    decreases right,
{
    &&& right.class == left.class
    &&& right.name == left.name
    &&& right.children.len() == left.children.len()
    &&& forall|i: int|
        0 <= i < right.children.len() ==> same_shape(left.children[i], #[trigger] right.children[i])
}

/// The trees of `left` and `right` have the same shape, one for one.
pub open spec fn same_shape_all(left: Seq<Tree>, right: Seq<Tree>) -> bool {
    &&& right.len() == left.len()
    &&& forall|i: int| 0 <= i < right.len() ==> same_shape(left[i], #[trigger] right[i])
}

/// Two maps hold the same under every key but that of the stamp.
pub open spec fn same_but_stamp(left: Map<Seq<char>, Value>, right: Map<Seq<char>, Value>) -> bool {
    forall|key: Seq<char>|
        key != unique_id_key() ==> {
            &&& #[trigger] left.contains_key(key) <==> right.contains_key(key)
            &&& left.contains_key(key) ==> left[key] == right[key]
        }
}

/// `left` and `right` differ in nothing but identities and stamps.
pub open spec fn alike(left: Tree, right: Tree) -> bool
    decreases right,
{
    &&& right.class == left.class
    &&& right.name == left.name
    &&& same_but_stamp(left.properties, right.properties)
    &&& right.children.len() == left.children.len()
    &&& forall|i: int|
        0 <= i < right.children.len() ==> alike(left.children[i], #[trigger] right.children[i])
}

/// The trees of `left` and `right` are alike, one for one.
pub open spec fn alike_all(left: Seq<Tree>, right: Seq<Tree>) -> bool {
    &&& right.len() == left.len()
    &&& forall|i: int| 0 <= i < right.len() ==> alike(left[i], #[trigger] right[i])
}

impl Tree {
    /// `path` leads from this node down to a node: it names a child of
    /// this node by its place, then a child of that child, and so on.
    pub open spec fn leads(self, path: Seq<int>) -> bool
        decreases path.len(),
    {
        if path.len() == 0 {
            true
        } else {
            &&& 0 <= path[0] < self.children.len()
            &&& self.children[path[0]].leads(path.drop_first())
        }
    }

    /// The node that `path` leads to, with everything below it.
    pub open spec fn follow(self, path: Seq<int>) -> Tree
        decreases path.len(),
    {
        if path.len() == 0 {
            self
        } else {
            self.children[path[0]].follow(path.drop_first())
        }
    }

    /// The identities of all nodes of the tree.
    pub open spec fn identities(self) -> Set<u128>
        decreases self,
    {
        forest_identities(self.children).insert(self.identity)
    }

    /// Every node has an identity of its own, and none the null identity.
    pub open spec fn well_identified(self) -> bool
        decreases self,
    {
        &&& self.identity != 0
        &&& !forest_identities(self.children).contains(self.identity)
        &&& forest_well_identified(self.children)
    }

    /// The number of nodes.
    pub open spec fn size(self) -> nat
        decreases self,
    {
        1 + forest_size(self.children)
    }
}

/// The identities of all nodes of the trees.
pub open spec fn forest_identities(trees: Seq<Tree>) -> Set<u128>
    decreases trees,
{
    if trees.len() == 0 {
        Set::empty()
    } else {
        forest_identities(trees.drop_last()).union(trees.last().identities())
    }
}

/// Every node of the trees has an identity of its own, and none the null
/// identity.
pub open spec fn forest_well_identified(trees: Seq<Tree>) -> bool
    decreases trees,
{
    if trees.len() == 0 {
        true
    } else {
        &&& forest_well_identified(trees.drop_last())
        &&& trees.last().well_identified()
        &&& forest_identities(trees.drop_last()).disjoint(trees.last().identities())
    }
}

/// The number of nodes of the trees.
pub open spec fn forest_size(trees: Seq<Tree>) -> nat
    decreases trees,
{
    if trees.len() == 0 {
        0
    } else {
        forest_size(trees.drop_last()) + trees.last().size()
    }
}

/// What the first trees of a forest are to the whole: the tree at place
/// `i` adds its identities and its size to those of the trees before it.
pub proof fn lemma_forest_take(trees: Seq<Tree>, i: int)
    requires
        0 <= i < trees.len(),
    ensures
        forest_identities(trees.take(i + 1)) == forest_identities(trees.take(i)).union(
            trees[i].identities(),
        ),
        forest_identities(trees.take(i + 1)).subset_of(forest_identities(trees)),
        forest_size(trees.take(i + 1)) == forest_size(trees.take(i)) + trees[i].size(),
        forest_size(trees.take(i + 1)) <= forest_size(trees),
        forest_well_identified(trees) ==> {
            &&& forest_well_identified(trees.take(i))
            &&& forest_well_identified(trees.take(i + 1))
            &&& trees[i].well_identified()
            &&& forest_identities(trees.take(i)).disjoint(trees[i].identities())
        },
    decreases trees.len(),
{
    assert(trees.take(i + 1).drop_last() =~= trees.take(i));
    assert(trees.take(i + 1).last() == trees[i]);
    if i == trees.len() - 1 {
        assert(trees.take(i + 1) =~= trees);
    } else {
        let front = trees.drop_last();
        assert(front.take(i + 1) =~= trees.take(i + 1));
        assert(front.take(i) =~= trees.take(i));
        lemma_forest_take(front, i);
    }
}

/// The trees of a forest whose nodes have identities of their own share no
/// identity, and each holds its identities among those of the forest.
pub proof fn lemma_forest_apart(trees: Seq<Tree>, i: int, j: int)
    requires
        0 <= i < trees.len(),
        0 <= j < trees.len(),
    ensures
        trees[i].identities().subset_of(forest_identities(trees)),
        forest_well_identified(trees) && i != j ==> trees[i].identities().disjoint(
            trees[j].identities(),
        ),
{
    lemma_forest_take(trees, i);
    if forest_well_identified(trees) && i != j {
        let (low, high) = if i < j {
            (i, j)
        } else {
            (j, i)
        };
        lemma_forest_take(trees, high);
        let front = trees.take(high);
        assert(front[low] == trees[low]);
        lemma_forest_take(front, low);
        assert(trees[low].identities().subset_of(forest_identities(front)));
    }
}

/// A path that is one step longer leads one child further down.
pub proof fn lemma_follow_on(tree: Tree, path: Seq<int>, k: int)
    requires
        tree.leads(path),
        0 <= k < tree.follow(path).children.len(),
    ensures
        tree.leads(path.push(k)),
        tree.follow(path.push(k)) == tree.follow(path).children[k],
    decreases path.len(),
{
    let longer = path.push(k);
    if path.len() == 0 {
        assert(longer.drop_first() =~= Seq::<int>::empty());
        assert(longer[0] == k);
        assert(tree.children[k].leads(longer.drop_first()));
        assert(tree.children[k].follow(longer.drop_first()) == tree.children[k]);
        assert(tree.follow(path) == tree);
    } else {
        assert(longer.drop_first() =~= path.drop_first().push(k));
        assert(longer[0] == path[0]);
        lemma_follow_on(tree.children[path[0]], path.drop_first(), k);
        assert(tree.follow(longer) == tree.children[path[0]].follow(longer.drop_first()));
        assert(tree.follow(path) == tree.children[path[0]].follow(path.drop_first()));
    }
}

} // verus!
