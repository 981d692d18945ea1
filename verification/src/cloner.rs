//! The subtree cloner: from a node of a document to the description of an
//! equal node, and of everything below it, under new identities.

use vstd::prelude::*;

use crate::arena::{DocumentView, NodeView};
use crate::builder::{trees, NodeBuilder};
use crate::document::{Document, Node};
use crate::outside::{clone_each, draw_identity, stamp_now};
use crate::properties::{key_at, lemma_map_of, Pair, Properties};
use crate::tree::{cloned, cloned_all, properties_cloned, Tree};
use crate::value::{
    is_unique_id_key, restamp, sanitize, sanitized, unique_id_key, GenerationError, UniqueStamp,
    Value,
};

verus! {

/// `copy` holds the sanitized values of the first `count` of `pairs`, but
/// for the stamp.
pub open spec fn copied_up_to(pairs: Seq<Pair>, count: int, copy: Map<Seq<char>, Value>) -> bool {
    &&& forall|key: Seq<char>| #[trigger]
        copy.contains_key(key) <==> key != unique_id_key() && exists|j: int|
            j < count && key_at(pairs, key, j)
    &&& forall|j: int|
        0 <= j < count && j < pairs.len() && pairs[j].0 != unique_id_key() ==> copy[(
        #[trigger] pairs[j]).0] == sanitized(pairs[j].1)
}

/// `node` is the node of `document` that has its identity.
pub open spec fn node_of(document: DocumentView, node: NodeView) -> bool {
    &&& document.has(node.identity)
    &&& document.nodes[document.position(node.identity)] == node
}

/// Asks for a new stamp.
fn generate() -> (outcome: Result<UniqueStamp, GenerationError>) {
    match stamp_now() {
        Ok(stamp) => Ok(stamp),
        Err(_) => Err(GenerationError),
    }
}

/// The properties of the clone of a node with the properties `properties`:
/// each value sanitized under its key, and under the key of the stamp, if
/// the node has one, a new stamp, or nothing where none could be had.
pub fn clone_properties(builder: NodeBuilder, properties: &Properties) -> (cloned: NodeBuilder)
    requires
        builder.wf(),
        properties.wf(),
        builder@.properties == Map::<Seq<char>, Value>::empty(),
    ensures
        cloned.wf(),
        properties_cloned(properties@, cloned@.properties),
        cloned@ == (Tree { properties: cloned@.properties, ..builder@ }),
{
    let mut cloned = builder;
    let mut i: usize = 0;
    proof {
        lemma_map_of(properties.pairs());
    }
    while i < properties.len()
        invariant
            i <= properties.pairs().len(),
            properties.wf(),
            cloned.wf(),
            cloned@ == (Tree { properties: cloned@.properties, ..builder@ }),
            copied_up_to(properties.pairs(), i as int, cloned@.properties),
        decreases properties.pairs().len() - i,
    {
        let key = properties.key(i);
        let ghost before = cloned@.properties;
        if !is_unique_id_key(key) {
            cloned = cloned.with_property(key, sanitize(key, properties.value(i)));
        }
        proof {
            let pairs = properties.pairs();
            let after = cloned@.properties;
            lemma_map_of(pairs);
            assert forall|k: Seq<char>| #[trigger]
                after.contains_key(k) <==> k != unique_id_key() && exists|j: int|
                    j < i + 1 && key_at(pairs, k, j) by {
                if after.contains_key(k) {
                    if before.contains_key(k) {
                        let j = choose|j: int| j < i && key_at(pairs, k, j);
                        assert(j < i + 1 && key_at(pairs, k, j));
                    } else {
                        assert(key_at(pairs, k, i as int));
                    }
                }
                if k != unique_id_key() && exists|j: int| j < i + 1 && key_at(pairs, k, j) {
                    let j = choose|j: int| j < i + 1 && key_at(pairs, k, j);
                    if j < i {
                        assert(before.contains_key(k));
                    }
                }
            }
            assert forall|j: int|
                0 <= j < i + 1 && j < pairs.len() && pairs[j].0 != unique_id_key() implies after[(
            #[trigger] pairs[j]).0] == sanitized(pairs[j].1) by {
                if j < i {
                    assert(before[pairs[j].0] == sanitized(pairs[j].1));
                }
            }
        }
        i += 1;
    }
    if properties.contains_key("UniqueId") {
        let previous = properties.get("UniqueId").unwrap();
        match restamp(previous, generate()) {
            Some(stamp) => {
                cloned = cloned.with_property("UniqueId", stamp);
            },
            None => {},
        }
    }
    proof {
        let pairs = properties.pairs();
        let copy = cloned@.properties;
        lemma_map_of(pairs);
        assert forall|key: Seq<char>| key != unique_id_key() implies (#[trigger] copy.contains_key(
            key,
        ) <==> properties@.contains_key(key)) by {
            if properties@.contains_key(key) {
                let j = choose|j: int| key_at(pairs, key, j);
                assert(j < pairs.len() && key_at(pairs, key, j));
            }
        }
        assert forall|key: Seq<char>|
            key != unique_id_key() && properties@.contains_key(key) implies #[trigger] copy[key]
            == sanitized(properties@[key]) by {
            let j = choose|j: int| key_at(pairs, key, j);
            assert(copy[pairs[j].0] == sanitized(pairs[j].1));
        }
    }
    cloned
}

/// Clones the node `instance` of `source_dom` and everything below it.
///
/// The clone has the class and the name of the node, its properties as
/// `clone_properties` copies them, and for each child that resolves in
/// `source_dom`, in the order of the children, the clone of that child; a
/// child that does not resolve is passed over. Each node of the clone gets
/// an identity drawn at random, of which nothing is known: `Mint::reidentify`
/// makes the identities of a clone new and distinct.
pub fn skibidi(instance: &Node, source_dom: &Document) -> (builder: NodeBuilder)
    requires
        source_dom.wf(),
        instance.wf(),
        node_of(source_dom@, instance@),
    ensures
        builder.wf(),
        cloned(source_dom@.tree_of(instance@.identity), builder@),
    decreases source_dom@.nodes.len() - source_dom@.position(instance@.identity),
{
    let ghost place = source_dom@.position(instance@.identity);
    let ghost source = source_dom@;
    proof {
        assert(source.at(instance@.identity, place));
    }
    let mut builder = NodeBuilder::new(instance.class()).with_name(instance.name());
    builder = clone_properties(builder, instance.properties());
    let ghost bare = builder@;
    let children = instance.children();
    let mut k: usize = 0;
    while k < children.len()
        invariant
            k <= children.len(),
            source_dom.wf(),
            source == source_dom@,
            source.at(instance@.identity, place),
            source.nodes[place] == instance@,
            children@ == instance@.children,
            builder.wf(),
            builder@ == (Tree { children: builder@.children, ..bare }),
            cloned_all(source.forest_above(place, children@.take(k as int)), builder@.children),
        decreases children.len() - k,
    {
        let ghost ids = children@.take(k as int + 1);
        proof {
            assert(ids.drop_last() =~= children@.take(k as int));
            assert(ids.last() == children@[k as int]);
        }
        match source_dom.get_by_ref(children[k]) {
            Some(child) => {
                proof {
                    let j = source.position(children@[k as int]);
                    assert(source.at(source.nodes[place].children[k as int], j));
                    assert(place < j);
                }
                builder = builder.with_child(skibidi(child, source_dom));
            },
            None => {},
        }
        k += 1;
    }
    proof {
        assert(children@.take(children@.len() as int) =~= children@);
        assert(source.tree_of(instance@.identity) == source.tree_at(place));
    }
    builder.with_referent(draw_identity())
}

/// What cloning the child `child_ref` of a node of `source` comes to: the
/// clone of the node that it names, with everything below it, and nothing
/// where it names no node.
pub open spec fn child_cloned(source: DocumentView, child_ref: u128, clone: Option<NodeBuilder>) -> bool {
    match clone {
        Some(builder) => source.has(child_ref) && builder.wf() && cloned(
            source.tree_of(child_ref),
            builder@,
        ),
        None => !source.has(child_ref),
    }
}

/// Clones the node of `source_dom` that `child_ref` names, with everything
/// below it, as `skibidi` does; there is nothing to clone where the identity
/// does not resolve.
pub fn clone_child(child_ref: u128, source_dom: &Document) -> (clone: Option<NodeBuilder>)
    requires
        source_dom.wf(),
    ensures
        child_cloned(source_dom@, child_ref, clone),
{
    match source_dom.get_by_ref(child_ref) {
        Some(child) => Some(skibidi(child, source_dom)),
        None => None,
    }
}

/// Clones one batch, its children handed out to a pool of workers: for each
/// identity of `batch` that resolves in `source_dom`, in the order of the
/// batch, the clone of the node that it names; an identity that does not
/// resolve is passed over.
pub fn process(batch: Vec<u128>, source_dom: &Document) -> (builders: Vec<NodeBuilder>)
    requires
        source_dom.wf(),
    ensures
        forall|i: int| 0 <= i < builders.len() ==> (#[trigger] builders[i]).wf(),
        cloned_all(source_dom@.forest(batch@), trees(builders@)),
{
    let ghost source = source_dom@;
    let ghost ids = batch@;
    let clones = clone_each(batch, source_dom);
    let mut builders: Vec<NodeBuilder> = Vec::new();
    proof {
        assert(trees(builders@) =~= Seq::empty());
        assert(ids.take(0) =~= Seq::empty());
    }
    for clone in walk: clones
        invariant
            source == source_dom@,
            source.wf(),
            walk.seq().len() == ids.len(),
            forall|i: int|
                0 <= i < ids.len() ==> child_cloned(source, ids[i], #[trigger] walk.seq()[i]),
            forall|i: int| 0 <= i < builders.len() ==> (#[trigger] builders[i]).wf(),
            cloned_all(source.forest(ids.take(walk.index() as int)), trees(builders@)),
        decreases clones.len() - walk.index(),
    {
        let ghost k = walk.index() as int;
        let ghost so_far = trees(builders@);
        proof {
            assert(ids.take(k + 1).drop_last() =~= ids.take(k));
            assert(ids.take(k + 1).last() == ids[k]);
            assert(child_cloned(source, ids[k], walk.seq()[k]));
        }
        match clone {
            Some(builder) => {
                builders.push(builder);
                proof {
                    assert(trees(builders@) =~= so_far.push(builder@));
                    assert(source.at(ids[k], source.position(ids[k])));
                }
            },
            None => {},
        }
    }
    proof {
        assert(ids.take(ids.len() as int) =~= ids);
    }
    builders
}

} // verus!
