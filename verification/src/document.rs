//! Documents: nodes that are found by their identity.

use std::collections::{HashMap, HashSet};
use vstd::prelude::*;

use crate::arena::{
    all_distinct, lemma_forest_kept, lemma_place, lemma_position, none_null, DocumentView,
    NodeView,
};
use crate::builder::{trees, NodeBuilder};
use crate::properties::Properties;
use crate::tree::{
    forest_identities, forest_size, forest_well_identified, lemma_forest_apart, lemma_forest_take,
};

verus! {

broadcast use vstd::std_specs::hash::group_hash_axioms;

/// One node of a document.
#[derive(Debug)]
pub struct Node {
    identity: u128,
    class: String,
    name: String,
    properties: Properties,
    children: Vec<u128>,
}

impl View for Node {
    type V = NodeView;

    closed spec fn view(&self) -> NodeView {
        NodeView {
            identity: self.identity,
            class: self.class@,
            name: self.name@,
            properties: self.properties@,
            children: self.children@,
        }
    }
}

impl Node {
    /// The properties are in key order.
    pub closed spec fn wf(&self) -> bool {
        self.properties.wf()
    }

    /// A node with the identities of its children, present or not.
    pub fn new(
        identity: u128,
        class: &str,
        name: &str,
        properties: Properties,
        children: Vec<u128>,
    ) -> (node: Node)
        requires
            properties.wf(),
        ensures
            node.wf(),
            node@ == (NodeView {
                identity,
                class: class@,
                name: name@,
                properties: properties@,
                children: children@,
            }),
    {
        Node { identity, class: class.to_owned(), name: name.to_owned(), properties, children }
    }

    /// The identity of the node.
    pub fn referent(&self) -> (identity: u128)
        ensures
            identity == self@.identity,
    {
        self.identity
    }

    /// The class tag of the node.
    pub fn class(&self) -> (class: &str)
        ensures
            class@ == self@.class,
    {
        self.class.as_str()
    }

    /// The display name of the node.
    pub fn name(&self) -> (name: &str)
        ensures
            name@ == self@.name,
    {
        self.name.as_str()
    }

    /// The properties of the node.
    pub fn properties(&self) -> (properties: &Properties)
        ensures
            properties@ == self@.properties,
            self.wf() ==> properties.wf(),
    {
        &self.properties
    }

    /// The identities of the children, in their order.
    pub fn children(&self) -> (children: &Vec<u128>)
        ensures
            children@ == self@.children,
    {
        &self.children
    }
}

/// Why a list of nodes is no document.
#[derive(Clone, Copy, Debug, PartialEq, Eq, Structural)]
pub enum DocumentError {
    /// A node has the null identity.
    NullIdentity,
    /// Two nodes have the same identity.
    DuplicateIdentity,
    /// A node stands before one that names it as a child, or names itself.
    ChildBeforeParent,
}

/// The views of a list of nodes.
pub open spec fn views(nodes: Seq<Node>) -> Seq<NodeView> {
    Seq::new(nodes.len(), |i: int| nodes[i]@)
}

/// A tree of nodes and the index that finds them.
#[derive(Debug)]
pub struct Document {
    root: u128,
    nodes: Vec<Node>,
    index: HashMap<u128, usize>,
}

impl View for Document {
    type V = DocumentView;

    closed spec fn view(&self) -> DocumentView {
        DocumentView { root: self.root, nodes: views(self.nodes@) }
    }
}

impl Document {
    /// The index finds every node, and nothing else.
    closed spec fn indexed(&self) -> bool {
        &&& forall|id: u128| #[trigger] self.index@.contains_key(id) ==> self@.at(id, self.index@[id] as int)
        &&& forall|i: int|
            0 <= i < self.nodes.len() ==> self.index@.contains_key(
                (#[trigger] self.nodes[i]).identity,
            )
    }

    /// The index finds every node and nothing else, and each node is well
    /// formed.
    pub closed spec fn sound(&self) -> bool {
        &&& self.indexed()
        &&& forall|i: int| 0 <= i < self.nodes.len() ==> (#[trigger] self.nodes[i]).wf()
    }

    /// The document is well formed as a mathematical value, and sound.
    pub open spec fn wf(&self) -> bool {
        &&& self@.wf()
        &&& self.sound()
    }

    /// A document has no more nodes than a machine can count.
    pub proof fn lemma_identities_finite(&self)
        requires
            self.wf(),
        ensures
            self@.identities().finite(),
            self@.identities().len() <= usize::MAX,
    {
        assert(self@.identities() =~= self.index@.dom()) by {
            assert forall|id: u128| self@.has(id) implies self.index@.contains_key(id) by {
                let i = self@.position(id);
                assert(self.index@.contains_key(self.nodes[i].identity));
            }
        }
        assert(self.index.len() == self.index@.len());
    }

    /// The document of the nodes `nodes`, in their order, with the root
    /// `root`. A child that names no node of the list is let stand, and so
    /// is a root that names none.
    pub fn from_nodes(root: u128, nodes: Vec<Node>) -> (outcome: Result<Document, DocumentError>)
        requires
            forall|i: int| 0 <= i < nodes.len() ==> (#[trigger] nodes[i]).wf(),
        ensures
            match outcome {
                Ok(document) => document.wf() && document@ == (DocumentView {
                    root,
                    nodes: views(nodes@),
                }),
                Err(DocumentError::NullIdentity) => !none_null(views(nodes@)),
                Err(DocumentError::DuplicateIdentity) => none_null(views(nodes@)) && !all_distinct(
                    views(nodes@),
                ),
                Err(DocumentError::ChildBeforeParent) => none_null(views(nodes@)) && all_distinct(
                    views(nodes@),
                ) && !(DocumentView { root, nodes: views(nodes@) }).children_follow(),
            },
    {
        let ghost listed = DocumentView { root, nodes: views(nodes@) };
        let mut i: usize = 0;
        while i < nodes.len()
            invariant
                i <= nodes.len(),
                listed == (DocumentView { root, nodes: views(nodes@) }),
                forall|j: int| 0 <= j < i ==> (#[trigger] listed.nodes[j]).identity != 0,
            decreases nodes.len() - i,
        {
            if nodes[i].identity == 0 {
                proof {
                    assert(listed.nodes[i as int].identity == 0);
                }
                return Err(DocumentError::NullIdentity);
            }
            i += 1;
        }
        let mut index: HashMap<u128, usize> = HashMap::new();
        let mut i: usize = 0;
        while i < nodes.len()
            invariant
                i <= nodes.len(),
                listed == (DocumentView { root, nodes: views(nodes@) }),
                none_null(listed.nodes),
                forall|id: u128| #[trigger]
                    index@.contains_key(id) ==> index@[id] < i && listed.at(id, index@[id] as int),
                forall|j: int| 0 <= j < i ==> index@.contains_key((#[trigger] listed.nodes[j]).identity),
                forall|a: int, b: int|
                    0 <= a < b < i ==> (#[trigger] listed.nodes[a]).identity != (
                    #[trigger] listed.nodes[b]).identity,
            decreases nodes.len() - i,
        {
            let identity = nodes[i].identity;
            if index.contains_key(&identity) {
                proof {
                    let j = index@[identity] as int;
                    assert(listed.nodes[j].identity == listed.nodes[i as int].identity);
                }
                return Err(DocumentError::DuplicateIdentity);
            }
            index.insert(identity, i);
            proof {
                assert(listed.nodes[i as int].identity == identity);
            }
            i += 1;
        }
        let mut i: usize = 0;
        while i < nodes.len()
            invariant
                i <= nodes.len(),
                listed == (DocumentView { root, nodes: views(nodes@) }),
                none_null(listed.nodes),
                all_distinct(listed.nodes),
                forall|id: u128| #[trigger]
                    index@.contains_key(id) ==> listed.at(id, index@[id] as int),
                forall|j: int|
                    0 <= j < nodes.len() ==> index@.contains_key(
                        (#[trigger] listed.nodes[j]).identity,
                    ),
                forall|a: int, k: int, b: int|
                    0 <= a < i && 0 <= k < listed.nodes[a].children.len() && #[trigger] listed.at(
                        listed.nodes[a].children[k],
                        b,
                    ) ==> a < b,
            decreases nodes.len() - i,
        {
            let children = &nodes[i].children;
            let mut k: usize = 0;
            while k < children.len()
                invariant
                    i < nodes.len(),
                    k <= children.len(),
                    listed == (DocumentView { root, nodes: views(nodes@) }),
                    children@ == listed.nodes[i as int].children,
                    none_null(listed.nodes),
                    all_distinct(listed.nodes),
                    forall|id: u128| #[trigger]
                        index@.contains_key(id) ==> listed.at(id, index@[id] as int),
                    forall|j: int|
                        0 <= j < nodes.len() ==> index@.contains_key(
                            (#[trigger] listed.nodes[j]).identity,
                        ),
                    forall|c: int, b: int|
                        0 <= c < k && #[trigger] listed.at(
                            #[trigger] listed.nodes[i as int].children[c],
                            b,
                        ) ==> i < b,
                decreases children.len() - k,
            {
                match index.get(&children[k]) {
                    Some(place) => {
                        proof {
                            assert(listed.wf_but_order());
                            lemma_place(listed, children@[k as int], *place as int);
                        }
                        if *place <= i {
                            proof {
                                assert(listed.at(
                                    listed.nodes[i as int].children[k as int],
                                    *place as int,
                                ));
                                assert(!listed.children_follow());
                            }
                            return Err(DocumentError::ChildBeforeParent);
                        }
                    },
                    None => {
                        proof {
                            assert forall|b: int|
                                listed.at(
                                    listed.nodes[i as int].children[k as int],
                                    b,
                                ) implies false by {
                                assert(index@.contains_key(listed.nodes[b].identity));
                            }
                        }
                    },
                }
                proof {
                    assert forall|c: int, b: int|
                        0 <= c < k + 1 && #[trigger] listed.at(
                            #[trigger] listed.nodes[i as int].children[c],
                            b,
                        ) implies i < b by {
                        if c == k {
                            if index@.contains_key(children@[k as int]) {
                                lemma_place(listed, children@[k as int], b);
                                lemma_place(
                                    listed,
                                    children@[k as int],
                                    index@[children@[k as int]] as int,
                                );
                            }
                        }
                    }
                }
                k += 1;
            }
            i += 1;
        }
        let document = Document { root, nodes, index };
        proof {
            assert(document@ == listed);
            assert(listed.children_follow());
            assert forall|j: int| 0 <= j < document.nodes.len() implies document.index@.contains_key(
                (#[trigger] document.nodes[j]).identity,
            ) by {
                assert(index@.contains_key(listed.nodes[j].identity));
            }
            assert(document.indexed());
        }
        Ok(document)
    }

    /// A document of one node: a root of class `class`, named after its
    /// class, with no properties and no children.
    pub fn with_root(identity: u128, class: &str) -> (document: Document)
        requires
            identity != 0,
        ensures
            document.wf(),
            document@.closed(),
            document@.tree_shaped(),
            document@ == (DocumentView {
                root: identity,
                nodes: seq![
                    NodeView {
                        identity,
                        class: class@,
                        name: class@,
                        properties: Map::empty(),
                        children: Seq::empty(),
                    },
                ],
            }),
    {
        let root = Node::new(identity, class, class, Properties::new(), Vec::new());
        let mut nodes: Vec<Node> = Vec::new();
        nodes.push(root);
        let mut index: HashMap<u128, usize> = HashMap::new();
        index.insert(identity, 0);
        let document = Document { root: identity, nodes, index };
        assert(document@.nodes =~= seq![root@]);
        assert(document@.at(identity, 0));
        document
    }

    /// Adds the node that `builder` describes, and after it everything
    /// below it, to the end of the document.
    fn append_subtree(&mut self, builder: NodeBuilder)
        requires
            old(self).wf(),
            builder.wf(),
            builder@.well_identified(),
            builder@.identities().disjoint(old(self)@.identities()),
        ensures
            final(self).wf(),
            final(self)@.root == old(self)@.root,
            final(self)@.nodes.len() == old(self)@.nodes.len() + builder@.size(),
            old(self)@.kept_above(final(self)@, -1),
            final(self)@.identities() == old(self)@.identities().union(builder@.identities()),
            final(self)@.at(builder@.identity, old(self)@.nodes.len() as int),
            final(self)@.tree_at(old(self)@.nodes.len() as int) == builder@,
            final(self)@.closed_from(old(self)@.nodes.len() as int),
            final(self)@.grafted(old(self)@.nodes.len() as int, builder@),
        decreases builder@.size(),
    {
        let ghost before = self@;
        let ghost whole = builder@;
        let (identity, class, name, properties, children) = builder.into_parts();
        let start = self.nodes.len();
        let mut ids: Vec<u128> = Vec::new();
        let mut n: usize = 0;
        while n < children.len()
            invariant
                n <= children.len(),
                ids@.len() == n,
                forall|i: int| 0 <= i < n ==> ids@[i] == (#[trigger] children@[i])@.identity,
            decreases children.len() - n,
        {
            ids.push(children[n].referent());
            n += 1;
        }
        let ghost below = trees(children@);
        self.index.insert(identity, start);
        self.nodes.push(Node { identity, class, name, properties, children: ids });
        let ghost parent = self@.nodes[start as int];
        proof {
            assert(!before.has(identity)) by {
                assert(whole.identities().contains(identity));
                assert(!before.identities().contains(identity));
            }
            assert(self@.nodes =~= before.nodes.push(parent));
            assert(self@.at(identity, start as int));
            assert(self@.identities() =~= before.identities().insert(identity)) by {
                assert forall|id: u128| self@.has(id) implies before.has(id) || id == identity by {
                    let i = self@.position(id);
                    if i < start {
                        assert(before.at(id, i));
                    }
                }
                assert forall|id: u128| before.has(id) implies self@.has(id) by {
                    let i = before.position(id);
                    assert(self@.at(id, i));
                }
            }
            assert(self@.wf()) by {
                assert forall|i: int, k: int, j: int|
                    0 <= i < self@.nodes.len() && 0 <= k < self@.nodes[i].children.len()
                        && #[trigger] self@.at(self@.nodes[i].children[k], j) implies i < j by {
                    if i < start && j < start {
                        assert(before.at(before.nodes[i].children[k], j));
                    } else if i == start {
                        let id = parent.children[k];
                        assert(id == below[k].identity);
                        lemma_forest_take(below, k);
                        assert(below[k].identities().contains(id));
                        assert(forest_identities(below).contains(id));
                        if j < start {
                            assert(before.at(id, j));
                            assert(before.identities().contains(id));
                        }
                    }
                }
            }
            assert(self.indexed());
            assert(forest_size(below.take(0)) == 0);
            assert(forest_identities(below.take(0)) =~= Set::empty());
            assert(parent.children.take(0) =~= Seq::empty());
            assert(below.take(0) =~= Seq::empty());
        }
        for child in iter: children
            invariant
                self.wf(),
                self@.root == before.root,
                before.wf(),
                start == before.nodes.len(),
                before.kept_above(self@, -1),
                self@.at(identity, start as int),
                self@.nodes[start as int] == parent,
                parent.children.len() == below.len(),
                iter.seq().len() == below.len(),
                below == trees(iter.seq()),
                forall|i: int| 0 <= i < iter.seq().len() ==> (#[trigger] iter.seq()[i]).wf(),
                forall|i: int| 0 <= i < below.len() ==> parent.children[i] == (#[trigger] below[i]).identity,
                whole == builder@,
                whole.children == below,
                whole.identity == identity,
                whole.well_identified(),
                whole.identities().disjoint(before.identities()),
                self@.nodes.len() == start + 1 + forest_size(below.take(iter.index() as int)),
                self@.identities() == before.identities().insert(identity).union(
                    forest_identities(below.take(iter.index() as int)),
                ),
                self@.closed_from(start + 1),
                self@.forest_above(start as int, parent.children.take(iter.index() as int))
                    == below.take(iter.index() as int),
                forall|i: int|
                    0 <= i < iter.index() ==> self@.has(#[trigger] parent.children[i])
                        && self@.position(parent.children[i]) > start,
                forall|i: int|
                    start < i < self@.nodes.len() ==> #[trigger] self@.owned_among(
                        i,
                        below,
                        iter.index() as int,
                    ),
                forall|i: int, k: int, j: int, m: int, id: u128|
                    start < i < self@.nodes.len() && start < j < self@.nodes.len()
                        && #[trigger] self@.names(i, k, id) && #[trigger] self@.names(j, m, id)
                        ==> i == j && k == m,
                forall|j: int|
                    start < j < self@.nodes.len() ==> #[trigger] self@.heads(
                        j,
                        below,
                        iter.index() as int,
                    ) || self@.named_in(j, start + 1, self@.nodes.len() as int),
            decreases children.len() - iter.index(),
        {
            let ghost k = iter.index() as int;
            let ghost earlier = self@;
            proof {
                lemma_forest_take(below, k);
                assert(child@ == below[k]);
                assert(child@.identities().disjoint(self@.identities())) by {
                    assert forall|id: u128|
                        child@.identities().contains(id) && self@.identities().contains(
                            id,
                        ) implies false by {
                        assert(forest_identities(below.take(k + 1)).contains(id));
                        assert(forest_identities(below).contains(id));
                        assert(whole.identities().contains(id));
                        assert(!before.identities().contains(id));
                    }
                }
                assert(child@.size() < whole.size());
            }
            self.append_subtree(child);
            proof {
                let later = self@;
                let place = earlier.nodes.len() as int;
                let id = parent.children[k];
                assert(earlier.kept_above(later, start as int));
                lemma_position(later, id, place);
                assert(later.at(identity, start as int));
                assert forall|i: int| 0 <= i < k implies later.has(#[trigger] parent.children[i])
                    && later.position(parent.children[i]) > start by {
                    let j = earlier.position(parent.children[i]);
                    assert(earlier.at(parent.children[i], j));
                    assert(later.at(parent.children[i], j));
                    lemma_position(later, parent.children[i], j);
                }
                assert(parent.children.take(k + 1).drop_last() =~= parent.children.take(k));
                assert(parent.children.take(k + 1).last() == id);
                assert forall|i: int| 0 <= i < parent.children.take(k).len() implies earlier.has(
                    #[trigger] parent.children.take(k)[i],
                ) && earlier.position(parent.children.take(k)[i]) > start by {
                    assert(parent.children.take(k)[i] == parent.children[i]);
                }
                lemma_forest_kept(
                    earlier,
                    later,
                    start as int,
                    start as int,
                    parent.children.take(k),
                );
                assert(below.take(k + 1) =~= below.take(k).push(below[k]));
                assert(later.closed_from(start + 1)) by {
                    assert forall|i: int, c: int|
                        start + 1 <= i < later.nodes.len() && 0 <= c
                            < later.nodes[i].children.len() implies later.has(
                        #[trigger] later.nodes[i].children[c],
                    ) by {
                        if i < place {
                            let target = earlier.nodes[i].children[c];
                            assert(earlier.has(target));
                            assert(earlier.identities().contains(target));
                            assert(later.identities().contains(target));
                        }
                    }
                }
                assert(before.kept_above(later, -1));
                assert(later.identities() =~= before.identities().insert(identity).union(
                    forest_identities(below.take(k + 1)),
                ));
                assert forall|i: int| start < i < later.nodes.len() implies #[trigger] later.owned_among(
                    i,
                    below,
                    k + 1,
                ) by {
                    if i < place {
                        assert(earlier.owned_among(i, below, k));
                        let c = choose|c: int| 0 <= c < k && earlier.owned(i, below[c]);
                        assert(later.nodes[i] == earlier.nodes[i]);
                        assert forall|m: int, id: u128| #[trigger]
                            later.names(i, m, id) implies below[c].identities().contains(id) && id
                            != below[c].identity by {
                            assert(earlier.names(i, m, id));
                        }
                        assert(later.owned(i, below[c]));
                    } else {
                        assert(later.owned(i, below[k]));
                    }
                }
                assert forall|i: int, n: int, j: int, m: int, id: u128|
                    start < i < later.nodes.len() && start < j < later.nodes.len()
                        && #[trigger] later.names(i, n, id) && #[trigger] later.names(
                        j,
                        m,
                        id,
                    ) implies i == j && n == m by {
                    if i < place && j < place {
                        assert(earlier.names(i, n, id) && earlier.names(j, m, id));
                    } else if i >= place && j >= place {
                    } else {
                        let (old_one, old_at) = if i < place {
                            (i, n)
                        } else {
                            (j, m)
                        };
                        assert(earlier.owned_among(old_one, below, k));
                        let c = choose|c: int| 0 <= c < k && earlier.owned(old_one, below[c]);
                        assert(earlier.names(old_one, old_at, id));
                        assert(below[c].identities().contains(id));
                        assert(below[k].identities().contains(id));
                        lemma_forest_apart(below, c, k);
                    }
                }
                assert forall|j: int| start < j < later.nodes.len() implies #[trigger] later.heads(
                    j,
                    below,
                    k + 1,
                ) || later.named_in(j, start + 1, later.nodes.len() as int) by {
                    if j < place {
                        assert(later.nodes[j] == earlier.nodes[j]);
                        assert(earlier.heads(j, below, k) || earlier.named_in(j, start + 1, place));
                        if earlier.heads(j, below, k) {
                            let c = choose|c: int|
                                0 <= c < k && earlier.nodes[j].identity == below[c].identity;
                            assert(0 <= c < k + 1 && later.nodes[j].identity == below[c].identity);
                        } else {
                            let (i, m) = choose|i: int, m: int|
                                start + 1 <= i < place && earlier.names(
                                    i,
                                    m,
                                    earlier.nodes[j].identity,
                                );
                            assert(later.nodes[i] == earlier.nodes[i]);
                            assert(later.names(i, m, later.nodes[j].identity));
                        }
                    } else if j == place {
                        assert(later.nodes[j].identity == below[k].identity);
                    } else {
                        assert(later.named_in(j, place, place + below[k].size()));
                        let (i, m) = choose|i: int, m: int|
                            place <= i < place + below[k].size() && later.names(
                                i,
                                m,
                                later.nodes[j].identity,
                            );
                        assert(start + 1 <= i < later.nodes.len() && later.names(
                            i,
                            m,
                            later.nodes[j].identity,
                        ));
                    }
                }
            }
        }
        proof {
            let m = below.len() as int;
            assert(below.take(m) =~= below);
            assert(parent.children.take(m) =~= parent.children);
            assert(self@.closed_from(start as int)) by {
                assert forall|i: int, c: int|
                    start <= i < self@.nodes.len() && 0 <= c
                        < self@.nodes[i].children.len() implies self@.has(
                    #[trigger] self@.nodes[i].children[c],
                ) by {
                    if i == start {
                        assert(self@.has(parent.children[c]));
                    }
                }
            }
            assert(self@.identities() =~= before.identities().union(whole.identities()));
            let grown = self@;
            let first = start as int;
            assert forall|i: int| first < i < grown.nodes.len() implies whole.identities().contains(
                (#[trigger] grown.nodes[i]).identity,
            ) && (forall|n: int, id: u128| #[trigger]
                grown.names(i, n, id) ==> whole.identities().contains(id) && id != whole.identity) by {
                assert(grown.owned_among(i, below, m));
                let c = choose|c: int| 0 <= c < m && grown.owned(i, below[c]);
                lemma_forest_apart(below, c, c);
            }
            assert forall|n: int, id: u128| #[trigger]
                grown.names(first, n, id) implies whole.identities().contains(id) && id
                != whole.identity by {
                assert(id == below[n].identity);
                lemma_forest_apart(below, n, n);
                assert(below[n].identities().contains(id));
            }
            assert forall|i: int, n: int, j: int, k: int, id: u128|
                first <= i < first + whole.size() && first <= j < first + whole.size()
                    && #[trigger] grown.names(i, n, id) && #[trigger] grown.names(
                    j,
                    k,
                    id,
                ) implies i == j && n == k by {
                if i == first && j == first {
                    if n != k {
                        lemma_forest_apart(below, n, k);
                        assert(below[n].identities().contains(id));
                        assert(below[k].identities().contains(id));
                    }
                } else if i > first && j > first {
                } else {
                    let (top_at, inner) = if i == first {
                        (n, j)
                    } else {
                        (k, i)
                    };
                    assert(grown.owned_among(inner, below, m));
                    let c = choose|c: int| 0 <= c < m && grown.owned(inner, below[c]);
                    assert(id == below[top_at].identity);
                    assert(below[top_at].identities().contains(id));
                    assert(below[c].identities().contains(id) && id != below[c].identity);
                    lemma_forest_apart(below, top_at, c);
                }
            }
            assert forall|j: int| first < j < first + whole.size() implies #[trigger] grown.named_in(
                j,
                first,
                first + whole.size(),
            ) by {
                assert(grown.heads(j, below, m) || grown.named_in(
                    j,
                    first + 1,
                    grown.nodes.len() as int,
                ));
                if grown.heads(j, below, m) {
                    let c = choose|c: int| 0 <= c < m && grown.nodes[j].identity == below[c].identity;
                    assert(grown.names(first, c, grown.nodes[j].identity));
                } else {
                    let (i, k) = choose|i: int, k: int|
                        first + 1 <= i < grown.nodes.len() && grown.names(
                            i,
                            k,
                            grown.nodes[j].identity,
                        );
                    assert(first <= i < first + whole.size() && grown.names(
                        i,
                        k,
                        grown.nodes[j].identity,
                    ));
                }
            }
            assert(grown.grafted(first, whole));
        }
    }

    /// Whether the nodes that `builder` describes can join the document and
    /// what `seen` holds: none has the null identity, one of the document or
    /// one of `seen`, and no two have the same. If so, their identities join
    /// `seen`.
    fn admits(&self, builder: &NodeBuilder, seen: &mut HashSet<u128>) -> (ok: bool)
        requires
            self.wf(),
            builder.wf(),
        ensures
            ok == (builder@.well_identified() && builder@.identities().disjoint(
                self@.identities(),
            ) && builder@.identities().disjoint(old(seen)@)),
            ok ==> final(seen)@ == old(seen)@.union(builder@.identities()),
        decreases builder@.size(),
    {
        let ghost whole = builder@;
        let ghost below = whole.children;
        let ghost held = self@.identities();
        let ghost seen_before = seen@;
        let count = builder.child_count();
        let mut k: usize = 0;
        proof {
            assert(below.take(0) =~= Seq::empty());
            assert(seen@ =~= seen_before.union(forest_identities(below.take(0))));
        }
        while k < count
            invariant
                k <= count,
                count == below.len(),
                self.wf(),
                builder.wf(),
                whole == builder@,
                below == whole.children,
                held == self@.identities(),
                seen_before == old(seen)@,
                forest_well_identified(below.take(k as int)),
                forest_identities(below.take(k as int)).disjoint(held),
                forest_identities(below.take(k as int)).disjoint(seen_before),
                seen@ == seen_before.union(forest_identities(below.take(k as int))),
            decreases count - k,
        {
            let child = builder.child(k);
            let ghost seen_so_far = seen@;
            proof {
                lemma_forest_take(below, k as int);
                assert(child@.size() < whole.size());
                if whole.well_identified() && whole.identities().disjoint(held)
                    && whole.identities().disjoint(seen_before) {
                    assert forall|id: u128| child@.identities().contains(id) implies {
                        &&& !held.contains(id)
                        &&& !seen_before.contains(id)
                        &&& !forest_identities(below.take(k as int)).contains(id)
                    } by {
                        assert(forest_identities(below.take(k as int + 1)).contains(id));
                        assert(forest_identities(below).contains(id));
                        assert(whole.identities().contains(id));
                    }
                    assert(child@.identities().disjoint(held));
                    assert(child@.identities().disjoint(seen_so_far));
                }
            }
            if !self.admits(child, seen) {
                return false;
            }
            proof {
                let longer = below.take(k as int + 1);
                assert(longer.drop_last() =~= below.take(k as int));
                assert(longer.last() == child@);
                assert(forest_well_identified(longer));
                assert(seen@ =~= seen_before.union(forest_identities(longer)));
            }
            k += 1;
        }
        proof {
            assert(below.take(count as int) =~= below);
        }
        let identity = builder.referent();
        if identity == 0 || self.index.contains_key(&identity) || seen.contains(&identity) {
            proof {
                if self.index@.contains_key(identity) {
                    assert(self@.at(identity, self.index@[identity] as int));
                    assert(held.contains(identity));
                }
                assert(whole.identities().contains(identity));
            }
            return false;
        }
        seen.insert(identity);
        proof {
            assert(!held.contains(identity)) by {
                if self@.has(identity) {
                    let i = self@.position(identity);
                    assert(self.index@.contains_key(self.nodes[i].identity));
                }
            }
            assert(seen@ =~= seen_before.union(whole.identities()));
        }
        true
    }

    /// Whether `attach` takes the subtree that `builder` describes: none of
    /// its nodes has the null identity or that of a node of the document,
    /// and no two have the same.
    pub fn accepts(&self, builder: &NodeBuilder) -> (ok: bool)
        requires
            self.wf(),
            builder.wf(),
        ensures
            ok == (builder@.well_identified() && builder@.identities().disjoint(
                self@.identities(),
            )),
    {
        let mut seen: HashSet<u128> = HashSet::new();
        self.admits(builder, &mut seen)
    }

    /// Attaches the subtree that `builder` describes as the last child of
    /// the root, its nodes under the identities that `builder` gives them.
    pub fn attach(&mut self, builder: NodeBuilder) -> (referent: u128)
        requires
            old(self).wf(),
            builder.wf(),
            old(self)@.has(old(self)@.root),
            builder@.well_identified(),
            builder@.identities().disjoint(old(self)@.identities()),
        ensures
            final(self).wf(),
            referent == builder@.identity,
            final(self)@.root == old(self)@.root,
            final(self)@.nodes.len() == old(self)@.nodes.len() + builder@.size(),
            final(self)@.identities() == old(self)@.identities().union(builder@.identities()),
            final(self)@.tree_of(referent) == builder@,
            forall|i: int|
                0 <= i < old(self)@.nodes.len() && i != old(self)@.position(old(self)@.root)
                    ==> final(self)@.nodes[i] == old(self)@.nodes[i],
            final(self)@.nodes[old(self)@.position(old(self)@.root)] == (NodeView {
                children: old(self)@.nodes[old(self)@.position(old(self)@.root)].children.push(
                    referent,
                ),
                ..old(self)@.nodes[old(self)@.position(old(self)@.root)]
            }),
            old(self)@.closed() ==> final(self)@.closed() && final(self)@.top_level() == old(
                self,
            )@.top_level().push(builder@),
            old(self)@.closed() && old(self)@.tree_shaped() ==> final(self)@.tree_shaped(),
    {
        let ghost before = self@;
        let ghost whole = builder@;
        let referent = builder.referent();
        let place = match self.index.get(&self.root) {
            Some(place) => *place,
            None => {
                proof {
                    let i = before.position(before.root);
                    assert(self.index@.contains_key(self.nodes[i].identity));
                }
                0
            },
        };
        proof {
            lemma_position(before, before.root, place as int);
            assert(whole.identities().contains(referent));
            assert(!before.identities().contains(referent));
        }
        self.nodes[place].children.push(referent);
        let ghost hung = self@;
        proof {
            assert(hung.nodes =~= before.nodes.update(place as int, hung.nodes[place as int]));
            assert forall|id: u128| hung.has(id) <==> before.has(id) by {
                if hung.has(id) {
                    assert(before.at(id, hung.position(id)));
                }
                if before.has(id) {
                    assert(hung.at(id, before.position(id)));
                }
            }
            assert(hung.identities() =~= before.identities());
            assert(hung.wf()) by {
                assert forall|i: int, k: int, j: int|
                    0 <= i < hung.nodes.len() && 0 <= k < hung.nodes[i].children.len()
                        && #[trigger] hung.at(hung.nodes[i].children[k], j) implies i < j by {
                    if i == place && k == before.nodes[i].children.len() {
                        assert(before.at(referent, j));
                    } else {
                        assert(before.at(before.nodes[i].children[k], j));
                    }
                }
            }
            assert(self.indexed()) by {
                assert forall|id: u128| #[trigger] self.index@.contains_key(id) implies hung.at(
                    id,
                    self.index@[id] as int,
                ) by {
                    assert(before.at(id, self.index@[id] as int));
                }
            }
        }
        self.append_subtree(builder);
        proof {
            let after = self@;
            let start = before.nodes.len() as int;
            let old_children = before.nodes[place as int].children;
            lemma_position(after, referent, start);
            assert(after.at(before.root, place as int));
            lemma_position(after, before.root, place as int);
            if before.closed() {
                assert(after.closed()) by {
                    assert forall|i: int, k: int|
                        0 <= i < after.nodes.len() && 0 <= k
                            < after.nodes[i].children.len() implies after.has(
                        #[trigger] after.nodes[i].children[k],
                    ) by {
                        if i < start {
                            let target = after.nodes[i].children[k];
                            if i == place && k == old_children.len() {
                                assert(after.has(referent));
                            } else {
                                assert(before.has(before.nodes[i].children[k]));
                                assert(before.identities().contains(target));
                                assert(after.identities().contains(target));
                            }
                        }
                    }
                }
                let new_children = after.nodes[place as int].children;
                assert(new_children.drop_last() =~= old_children);
                assert(new_children.last() == referent);
                assert forall|k: int| 0 <= k < old_children.len() implies before.has(
                    #[trigger] old_children[k],
                ) && before.position(old_children[k]) > place by {
                    assert(before.has(before.nodes[place as int].children[k]));
                    let j = before.position(old_children[k]);
                    assert(before.at(before.nodes[place as int].children[k], j));
                }
                assert(before.kept_above(after, place as int));
                lemma_forest_kept(before, after, place as int, place as int, old_children);
                if before.tree_shaped() {
                    assert forall|i: int, k: int, id: u128| #[trigger]
                        after.names(i, k, id) implies (i < start && before.names(i, k, id)
                        && before.has(id)) || (i == place && k == old_children.len() && id
                        == referent) || (i >= start && whole.identities().contains(id) && id
                        != referent) by {
                        if i < start {
                            if !(i == place && k == old_children.len()) {
                                assert(before.names(i, k, id));
                                assert(before.has(before.nodes[i].children[k]));
                            }
                        }
                    }
                    assert forall|i: int, k: int, j: int, m: int, id: u128|
                        #[trigger] after.names(i, k, id) && #[trigger] after.names(
                            j,
                            m,
                            id,
                        ) implies i == j && k == m by {
                        if before.has(id) {
                            assert(before.identities().contains(id));
                            assert(before.names(i, k, id) && before.names(j, m, id));
                        }
                    }
                    assert forall|i: int, k: int| !#[trigger] after.names(i, k, after.root) by {
                        if after.names(i, k, after.root) {
                            assert(before.identities().contains(before.root));
                            assert(before.names(i, k, before.root));
                        }
                    }
                    assert forall|j: int| 0 <= j < after.nodes.len() implies after.nodes[j].identity
                        == after.root || #[trigger] after.named_in(
                        j,
                        0,
                        after.nodes.len() as int,
                    ) by {
                        let id = after.nodes[j].identity;
                        if j < start {
                            assert(after.nodes[j].identity == before.nodes[j].identity);
                            if id != before.root {
                                assert(before.named_in(j, 0, start));
                                let (i, k) = choose|i: int, k: int|
                                    0 <= i < start && before.names(i, k, before.nodes[j].identity);
                                assert(after.names(i, k, id));
                            }
                        } else if j == start {
                            assert(after.names(place as int, old_children.len() as int, id));
                        } else {
                            assert(after.named_in(j, start, start + whole.size()));
                            let (i, k) = choose|i: int, k: int|
                                start <= i < start + whole.size() && after.names(i, k, id);
                            assert(0 <= i < after.nodes.len() && after.names(i, k, id));
                        }
                    }
                }
            }
        }
        referent
    }

    /// The identity of the root.
    pub fn root_ref(&self) -> (root: u128)
        ensures
            root == self@.root,
    {
        self.root
    }

    /// The node with the identity `referent`, if there is one.
    pub fn get_by_ref(&self, referent: u128) -> (found: Option<&Node>)
        requires
            self.wf(),
        ensures
            found is Some == self@.has(referent),
            found is Some ==> found->0.wf() && found->0@ == self@.nodes[self@.position(referent)],
    {
        match self.index.get(&referent) {
            Some(place) => {
                proof {
                    lemma_position(self@, referent, *place as int);
                }
                Some(&self.nodes[*place])
            },
            None => {
                proof {
                    if self@.has(referent) {
                        let i = self@.position(referent);
                        assert(self.index@.contains_key(self.nodes[i].identity));
                    }
                }
                None
            },
        }
    }
}

} // verus!
