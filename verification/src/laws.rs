//! What holds of every clone.

use vstd::prelude::*;

use crate::arena::{lemma_forest_joined, lemma_position, DocumentView};
use crate::orchestrator::is_clone_of;
use crate::tree::{
    alike, alike_all, cloned, cloned_all, forest_size, lemma_follow_on, lemma_forest_take,
    node_cloned, same_shape, same_shape_all, Tree,
};
use crate::value::{unique_id_key, Value, NO_REFERENCE};

verus! {

/// A clone is a clone node for node: a path leads to a node of the source
/// exactly if it leads to a node of the clone, and the node that it leads to
/// in the clone has the class, the name and the number of children of the
/// node that it leads to in the source, and its properties cloned. So every
/// node of the source has its counterpart in the clone, at the same place
/// among its siblings, and the clone has no node besides.
pub proof fn lemma_clone_node_for_node(source: Tree, copy: Tree, path: Seq<int>)
    requires
        cloned(source, copy),
    ensures
        source.leads(path) <==> copy.leads(path),
        copy.leads(path) ==> cloned(source.follow(path), copy.follow(path)),
        copy.leads(path) ==> node_cloned(source.follow(path), copy.follow(path)),
    decreases path.len(),
{
    if path.len() > 0 && 0 <= path[0] < copy.children.len() {
        assert(cloned(source.children[path[0]], copy.children[path[0]]));
        lemma_clone_node_for_node(
            source.children[path[0]],
            copy.children[path[0]],
            path.drop_first(),
        );
    }
}

/// No reference survives cloning: a property of a node of a clone that is a
/// reference names no node.
pub proof fn lemma_references_nulled(source: Tree, copy: Tree, path: Seq<int>, key: Seq<char>)
    requires
        cloned(source, copy),
        copy.leads(path),
        copy.follow(path).properties.contains_key(key),
        copy.follow(path).properties[key] is Reference,
    ensures
        copy.follow(path).properties[key] == Value::Reference(NO_REFERENCE),
{
    lemma_clone_node_for_node(source, copy, path);
    let from = source.follow(path).properties;
    let to = copy.follow(path).properties;
    if key != unique_id_key() {
        assert(to.contains_key(key) <==> from.contains_key(key));
        assert(to[key] == crate::value::sanitized(from[key]));
    }
}

/// No stamp survives cloning: where a node of the source has a property
/// under the key of the stamp, its counterpart in the clone has none there,
/// or a stamp that is not the value that the source holds there.
pub proof fn lemma_stamp_renewed(source: Tree, copy: Tree, path: Seq<int>)
    requires
        cloned(source, copy),
        source.leads(path),
        source.follow(path).properties.contains_key(unique_id_key()),
    ensures
        copy.leads(path),
        !copy.follow(path).properties.contains_key(unique_id_key()) || {
            &&& copy.follow(path).properties[unique_id_key()] is UniqueId
            &&& copy.follow(path).properties[unique_id_key()] != source.follow(
                path,
            ).properties[unique_id_key()]
        },
{
    lemma_clone_node_for_node(source, copy, path);
}

/// A node of a clone has a property under a key other than that of the
/// stamp exactly if its counterpart in the source has one, and the value is
/// that of the source unless it is a reference.
pub proof fn lemma_values_kept(source: Tree, copy: Tree, path: Seq<int>, key: Seq<char>)
    requires
        cloned(source, copy),
        source.leads(path),
        key != unique_id_key(),
    ensures
        copy.leads(path),
        copy.follow(path).properties.contains_key(key) <==> source.follow(
            path,
        ).properties.contains_key(key),
        source.follow(path).properties.contains_key(key) && !(source.follow(
            path,
        ).properties[key] is Reference) ==> copy.follow(path).properties[key] == source.follow(
            path,
        ).properties[key],
{
    lemma_clone_node_for_node(source, copy, path);
    let from = source.follow(path).properties;
    let to = copy.follow(path).properties;
    assert(to.contains_key(key) <==> from.contains_key(key));
    if from.contains_key(key) {
        assert(to[key] == crate::value::sanitized(from[key]));
    }
}

/// A clone has the shape of its source.
pub proof fn lemma_clone_same_shape(source: Tree, copy: Tree)
    requires
        cloned(source, copy),
    ensures
        same_shape(source, copy),
    decreases copy,
{
    assert forall|i: int| 0 <= i < copy.children.len() implies same_shape(
        source.children[i],
        #[trigger] copy.children[i],
    ) by {
        assert(cloned(source.children[i], copy.children[i]));
        lemma_clone_same_shape(source.children[i], copy.children[i]);
    }
}

/// A clone has as many nodes as its source.
pub proof fn lemma_clone_same_size(source: Tree, copy: Tree)
    requires
        cloned(source, copy),
    ensures
        copy.size() == source.size(),
    decreases copy, 1int,
{
    lemma_clones_same_size_below(source, copy, copy.children.len() as int);
    assert(copy.children.take(copy.children.len() as int) =~= copy.children);
    assert(source.children.take(copy.children.len() as int) =~= source.children);
}

/// The first `count` children of a clone have together as many nodes as
/// the first `count` children of its source.
proof fn lemma_clones_same_size_below(source: Tree, copy: Tree, count: int)
    requires
        cloned(source, copy),
        0 <= count <= copy.children.len(),
    ensures
        forest_size(copy.children.take(count)) == forest_size(source.children.take(count)),
    decreases copy, 0int, count,
{
    if count > 0 {
        lemma_clones_same_size_below(source, copy, count - 1);
        assert(cloned(source.children[count - 1], copy.children[count - 1]));
        lemma_clone_same_size(source.children[count - 1], copy.children[count - 1]);
        lemma_forest_take(copy.children, count - 1);
        lemma_forest_take(source.children, count - 1);
    }
}

/// The clones of a list of trees have together as many nodes as those
/// trees.
pub proof fn lemma_clones_same_size(sources: Seq<Tree>, copies: Seq<Tree>)
    requires
        cloned_all(sources, copies),
    ensures
        forest_size(copies) == forest_size(sources),
    decreases copies.len(),
{
    if copies.len() > 0 {
        assert(cloned(sources.last(), copies.last()));
        lemma_clone_same_size(sources.last(), copies.last());
        assert forall|i: int| 0 <= i < copies.drop_last().len() implies cloned(
            sources.drop_last()[i],
            #[trigger] copies.drop_last()[i],
        ) by {
            assert(copies.drop_last()[i] == copies[i]);
        }
        lemma_clones_same_size(sources.drop_last(), copies.drop_last());
    }
}

/// Having the same shape carries over from tree to tree.
pub proof fn lemma_same_shape_transitive(first: Tree, second: Tree, third: Tree)
    requires
        same_shape(first, second),
        same_shape(second, third),
    ensures
        same_shape(first, third),
    decreases third,
{
    assert forall|i: int| 0 <= i < third.children.len() implies same_shape(
        first.children[i],
        #[trigger] third.children[i],
    ) by {
        assert(same_shape(first.children[i], second.children[i]));
        assert(same_shape(second.children[i], third.children[i]));
        lemma_same_shape_transitive(first.children[i], second.children[i], third.children[i]);
    }
}

/// Cloning a clone gives its shape again: what stands below the root of
/// the clone `second` of a clone `first` of `source` has the shape of what
/// stands below the root of `first`, and of what stands below the root of
/// `source`; and `second` has as many nodes as `first`.
pub proof fn lemma_reclone(source: DocumentView, first: DocumentView, second: DocumentView)
    requires
        is_clone_of(first, source),
        is_clone_of(second, first),
    ensures
        same_shape_all(first.top_level(), second.top_level()),
        same_shape_all(source.top_level(), second.top_level()),
        second.nodes.len() == first.nodes.len(),
{
    let from = source.top_level();
    let once = first.top_level();
    let twice = second.top_level();
    assert forall|i: int| 0 <= i < twice.len() implies same_shape(once[i], #[trigger] twice[i])
        && same_shape(from[i], twice[i]) by {
        assert(cloned(once[i], twice[i]));
        assert(cloned(from[i], once[i]));
        lemma_clone_same_shape(once[i], twice[i]);
        lemma_clone_same_shape(from[i], once[i]);
        lemma_same_shape_transitive(from[i], once[i], twice[i]);
    }
    lemma_clones_same_size(once, twice);
}

/// Two clones of one tree differ in nothing but identities and stamps.
pub proof fn lemma_clones_alike(source: Tree, one: Tree, other: Tree)
    requires
        cloned(source, one),
        cloned(source, other),
    ensures
        alike(one, other),
    decreases other,
{
    assert forall|key: Seq<char>| key != unique_id_key() implies {
        &&& #[trigger] one.properties.contains_key(key) <==> other.properties.contains_key(key)
        &&& one.properties.contains_key(key) ==> one.properties[key] == other.properties[key]
    } by {
        assert(one.properties.contains_key(key) <==> source.properties.contains_key(key));
        assert(other.properties.contains_key(key) <==> source.properties.contains_key(key));
        if source.properties.contains_key(key) {
            assert(one.properties[key] == crate::value::sanitized(source.properties[key]));
            assert(other.properties[key] == crate::value::sanitized(source.properties[key]));
        }
    }
    assert forall|i: int| 0 <= i < other.children.len() implies alike(
        one.children[i],
        #[trigger] other.children[i],
    ) by {
        assert(cloned(source.children[i], one.children[i]));
        assert(cloned(source.children[i], other.children[i]));
        lemma_clones_alike(source.children[i], one.children[i], other.children[i]);
    }
}

/// The size of the batches plays no part in a clone: whatever stands below
/// the roots of two clones of one document, made with whatever batch sizes,
/// is alike tree for tree, in the same order.
pub proof fn lemma_batch_size_plays_no_part(
    source: DocumentView,
    one: DocumentView,
    other: DocumentView,
)
    requires
        is_clone_of(one, source),
        is_clone_of(other, source),
    ensures
        alike_all(one.top_level(), other.top_level()),
        one.nodes.len() == other.nodes.len(),
{
    let from = source.top_level();
    let left = one.top_level();
    let right = other.top_level();
    assert forall|i: int| 0 <= i < right.len() implies alike(left[i], #[trigger] right[i]) by {
        assert(cloned(from[i], left[i]));
        assert(cloned(from[i], right[i]));
        lemma_clones_alike(from[i], left[i], right[i]);
    }
    lemma_clones_same_size(from, left);
    lemma_clones_same_size(from, right);
}

/// No identity of a clone is an identity of its source, none is the null
/// identity, and no two nodes of a clone have the same.
pub proof fn lemma_identities_new(source: DocumentView, copy: DocumentView)
    requires
        is_clone_of(copy, source),
    ensures
        forall|identity: u128| copy.has(identity) ==> !source.has(identity),
        !copy.has(0),
        forall|i: int, j: int|
            0 <= i < j < copy.nodes.len() ==> copy.nodes[i].identity != copy.nodes[j].identity,
{
    assert forall|identity: u128| copy.has(identity) implies !source.has(identity) by {
        assert(copy.identities().contains(identity));
        assert(!source.identities().contains(identity));
    }
    if copy.has(0) {
        assert(copy.at(0, copy.position(0)));
    }
}

/// In a clone every node but the root has exactly one parent, and stands
/// in the list of its children at exactly one place; the root has no
/// parent.
pub proof fn lemma_one_parent(source: DocumentView, copy: DocumentView, j: int)
    requires
        is_clone_of(copy, source),
        0 <= j < copy.nodes.len(),
    ensures
        copy.nodes[j].identity == copy.root ==> forall|i: int, k: int|
            !copy.names(i, k, copy.nodes[j].identity),
        copy.nodes[j].identity != copy.root ==> exists|i: int, k: int|
            {
                &&& #[trigger] copy.names(i, k, copy.nodes[j].identity)
                &&& forall|other: int, place: int|
                    copy.names(other, place, copy.nodes[j].identity) ==> other == i && place == k
            },
{
    if copy.nodes[j].identity != copy.root {
        assert(copy.named_in(j, 0, copy.nodes.len() as int));
        let (i, k) = choose|i: int, k: int|
            0 <= i < copy.nodes.len() && copy.names(i, k, copy.nodes[j].identity);
        assert(copy.names(i, k, copy.nodes[j].identity));
    }
}

/// A child that does not resolve leaves no trace: the trees below a list of
/// identities are those below the list without an identity that names no
/// node.
pub proof fn lemma_dangling_passed_over(document: DocumentView, ids: Seq<u128>, i: int)
    requires
        0 <= i < ids.len(),
        !document.has(ids[i]),
    ensures
        document.forest(ids) == document.forest(ids.remove(i)),
{
    let front = ids.take(i);
    let lone = seq![ids[i]];
    let back = ids.skip(i + 1);
    assert(ids =~= (front + lone) + back);
    assert(ids.remove(i) =~= front + back);
    lemma_forest_joined(document, -1, front + lone, back);
    lemma_forest_joined(document, -1, front, lone);
    lemma_forest_joined(document, -1, front, back);
    assert(lone.drop_last() =~= Seq::<u128>::empty());
    assert(document.forest_above(-1, lone.drop_last()) =~= Seq::<Tree>::empty());
    assert(document.forest_above(-1, lone) =~= Seq::<Tree>::empty());
    assert(document.forest(front) + Seq::<Tree>::empty() =~= document.forest(front));
}

/// Where every child resolves, the tree below a node shows each child of
/// the node, in the order of the children, with what stands below it:
/// cloning drops no slot.
pub proof fn lemma_closed_shows_children(document: DocumentView, i: int)
    requires
        document.wf(),
        document.closed(),
        0 <= i < document.nodes.len(),
    ensures
        document.tree_at(i).children.len() == document.nodes[i].children.len(),
        forall|k: int|
            0 <= k < document.nodes[i].children.len() ==> (
            #[trigger] document.tree_at(i).children[k]) == document.tree_of(
                document.nodes[i].children[k],
            ),
{
    lemma_closed_prefix(document, i, document.nodes[i].children.len() as int);
    assert(document.nodes[i].children.take(document.nodes[i].children.len() as int)
        =~= document.nodes[i].children);
}

/// The same of the first `n` children of the node at place `i`.
proof fn lemma_closed_prefix(document: DocumentView, i: int, n: int)
    requires
        document.wf(),
        document.closed(),
        0 <= i < document.nodes.len(),
        0 <= n <= document.nodes[i].children.len(),
    ensures
        document.forest_above(i, document.nodes[i].children.take(n)).len() == n,
        forall|k: int|
            0 <= k < n ==> (#[trigger] document.forest_above(
                i,
                document.nodes[i].children.take(n),
            )[k]) == document.tree_of(document.nodes[i].children[k]),
    decreases n,
{
    let ids = document.nodes[i].children;
    if n > 0 {
        lemma_closed_prefix(document, i, n - 1);
        assert(ids.take(n).drop_last() =~= ids.take(n - 1));
        assert(ids.take(n).last() == ids[n - 1]);
        assert(document.has(document.nodes[i].children[n - 1]));
        let j = document.position(ids[n - 1]);
        assert(document.at(document.nodes[i].children[n - 1], j));
        let shorter = document.forest_above(i, ids.take(n - 1));
        let longer = document.forest_above(i, ids.take(n));
        assert(longer == shorter.push(document.tree_at(j)));
        assert forall|k: int| 0 <= k < n implies (#[trigger] longer[k]) == document.tree_of(
            ids[k],
        ) by {
            if k < n - 1 {
                assert(longer[k] == shorter[k]);
            }
        }
    } else {
        assert(ids.take(0) =~= Seq::<u128>::empty());
    }
}

/// A path leads from one of the trees below the root to the node at place
/// `j`.
pub open spec fn reached(document: DocumentView, j: int) -> bool {
    exists|top: int, path: Seq<int>|
        {
            &&& 0 <= top < document.top_level().len()
            &&& (#[trigger] document.top_level()[top].leads(path))
            &&& document.top_level()[top].follow(path) == document.tree_at(j)
        }
}

/// A clone has no node besides its root and those that stand below it: a
/// path leads from the root to every other node, so each is the counterpart
/// of a node of the source.
pub proof fn lemma_every_node_reached(source: DocumentView, copy: DocumentView, j: int)
    requires
        is_clone_of(copy, source),
        0 <= j < copy.nodes.len(),
        copy.nodes[j].identity != copy.root,
    ensures
        reached(copy, j),
    decreases j,
{
    let id = copy.nodes[j].identity;
    let root_at = copy.position(copy.root);
    assert(copy.at(copy.root, root_at));
    assert(copy.at(id, j));
    lemma_position(copy, id, j);
    assert(copy.named_in(j, 0, copy.nodes.len() as int));
    let (i, k) = choose|i: int, k: int| 0 <= i < copy.nodes.len() && copy.names(i, k, id);
    assert(copy.at(copy.nodes[i].children[k], j));
    assert(i < j);
    lemma_closed_shows_children(copy, i);
    assert(copy.tree_at(i).children[k] == copy.tree_at(j));
    if copy.nodes[i].identity == copy.root {
        lemma_position(copy, copy.root, i);
        let top = k;
        let path = Seq::<int>::empty();
        assert(copy.top_level()[top].leads(path));
        assert(copy.top_level()[top].follow(path) == copy.tree_at(j));
    } else {
        lemma_every_node_reached(source, copy, i);
        let (top, path) = choose|top: int, path: Seq<int>|
            {
                &&& 0 <= top < copy.top_level().len()
                &&& (#[trigger] copy.top_level()[top].leads(path))
                &&& copy.top_level()[top].follow(path) == copy.tree_at(i)
            };
        lemma_follow_on(copy.top_level()[top], path, k);
        assert(copy.top_level()[top].leads(path.push(k)));
        assert(copy.top_level()[top].follow(path.push(k)) == copy.tree_at(j));
    }
}

/// No node of a clone holds a reference to a node: a property of any node
/// of the document that is a reference names no node.
pub proof fn lemma_no_reference_left(
    source: DocumentView,
    copy: DocumentView,
    j: int,
    key: Seq<char>,
)
    requires
        is_clone_of(copy, source),
        0 <= j < copy.nodes.len(),
        copy.nodes[j].properties.contains_key(key),
        copy.nodes[j].properties[key] is Reference,
    ensures
        copy.nodes[j].properties[key] == Value::Reference(NO_REFERENCE),
{
    if copy.nodes[j].identity == copy.root {
        assert(copy.at(copy.root, j));
        lemma_position(copy, copy.root, j);
    } else {
        lemma_every_node_reached(source, copy, j);
        let (top, path) = choose|top: int, path: Seq<int>|
            {
                &&& 0 <= top < copy.top_level().len()
                &&& (#[trigger] copy.top_level()[top].leads(path))
                &&& copy.top_level()[top].follow(path) == copy.tree_at(j)
            };
        assert(cloned(source.top_level()[top], copy.top_level()[top]));
        lemma_references_nulled(source.top_level()[top], copy.top_level()[top], path, key);
    }
}

/// The clone of a document whose root has no children, or does not
/// resolve, is a root without children and nothing else.
pub proof fn lemma_empty_source(source: DocumentView, copy: DocumentView)
    requires
        is_clone_of(copy, source),
        !source.has(source.root) || source.nodes[source.position(source.root)].children.len() == 0,
    ensures
        copy.top_level().len() == 0,
        copy.nodes[copy.position(copy.root)].children.len() == 0,
        copy.nodes.len() == 1,
{
    let place = copy.position(copy.root);
    assert(copy.at(copy.root, place));
    lemma_closed_shows_children(copy, place);
    if source.has(source.root) {
        assert(source.nodes[source.position(source.root)].children =~= Seq::empty());
    }
    assert(source.top_level().len() == 0);
    assert(copy.top_level() =~= Seq::empty());
}

} // verus!
