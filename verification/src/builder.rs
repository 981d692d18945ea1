//! The description of a node and of everything below it, detached from any
//! document.

use vstd::prelude::*;

use crate::properties::Properties;
use crate::tree::Tree;
use crate::value::{Value, NO_REFERENCE};

verus! {

/// A node that is being put together, with its subtree.
#[derive(Debug)]
pub struct NodeBuilder {
    identity: u128,
    class: String,
    name: String,
    properties: Properties,
    children: Vec<NodeBuilder>,
}

impl View for NodeBuilder {
    type V = Tree;

    open spec fn view(&self) -> Tree {
        self.tree()
    }
}

/// The trees that a list of builders describes.
pub open spec fn trees(builders: Seq<NodeBuilder>) -> Seq<Tree> {
    Seq::new(builders.len(), |i: int| builders[i]@)
}

impl NodeBuilder {
    /// The tree that the builder describes.
    pub closed spec fn tree(&self) -> Tree
        decreases self,
    {
        Tree {
            identity: self.identity,
            class: self.class@,
            name: self.name@,
            properties: self.properties@,
            children: Seq::new(
                self.children.len() as nat,
                |i: int|
                    if 0 <= i < self.children.len() {
                        self.children[i].tree()
                    } else {
                        arbitrary()
                    },
            ),
        }
    }

    /// The properties of every node are in key order.
    pub closed spec fn wf(&self) -> bool
        decreases self,
    {
        &&& self.properties.wf()
        &&& forall|i: int| 0 <= i < self.children.len() ==> (#[trigger] self.children[i]).wf()
    }

    /// A node of class `class` that is named after its class, with no
    /// identity, no properties and no children.
    pub fn new(class: &str) -> (builder: NodeBuilder)
        ensures
            builder.wf(),
            builder@ == (Tree {
                identity: NO_REFERENCE,
                class: class@,
                name: class@,
                properties: Map::empty(),
                children: Seq::empty(),
            }),
    {
        let builder = NodeBuilder {
            identity: NO_REFERENCE,
            class: class.to_owned(),
            name: class.to_owned(),
            properties: Properties::new(),
            children: Vec::new(),
        };
        assert(builder.tree().children =~= Seq::empty());
        builder
    }

    /// The identity, the class, the name, the properties and the children.
    pub(crate) fn into_parts(self) -> (parts: (u128, String, String, Properties, Vec<NodeBuilder>))
        requires
            self.wf(),
        ensures
            parts.0 == self@.identity,
            parts.1@ == self@.class,
            parts.2@ == self@.name,
            parts.3@ == self@.properties,
            parts.3.wf(),
            trees(parts.4@) == self@.children,
            forall|i: int| 0 <= i < parts.4.len() ==> (#[trigger] parts.4[i]).wf(),
    {
        assert(trees(self.children@) =~= self.tree().children);
        (self.identity, self.class, self.name, self.properties, self.children)
    }

    /// The node of these parts.
    pub(crate) fn from_parts(
        identity: u128,
        class: String,
        name: String,
        properties: Properties,
        children: Vec<NodeBuilder>,
    ) -> (builder: NodeBuilder)
        requires
            properties.wf(),
            forall|i: int| 0 <= i < children.len() ==> (#[trigger] children[i]).wf(),
        ensures
            builder.wf(),
            builder@ == (Tree {
                identity,
                class: class@,
                name: name@,
                properties: properties@,
                children: trees(children@),
            }),
    {
        let builder = NodeBuilder { identity, class, name, properties, children };
        assert(trees(children@) =~= builder.tree().children);
        builder
    }

    /// The identity of the node.
    pub fn referent(&self) -> (identity: u128)
        ensures
            identity == self@.identity,
    {
        self.identity
    }

    /// The class tag of the node.
    pub fn class(&self) -> (class: &str)
        ensures
            class@ == self@.class,
    {
        self.class.as_str()
    }

    /// The display name of the node.
    pub fn name(&self) -> (name: &str)
        ensures
            name@ == self@.name,
    {
        self.name.as_str()
    }

    /// The properties of the node.
    pub fn properties(&self) -> (properties: &Properties)
        ensures
            properties@ == self@.properties,
            self.wf() ==> properties.wf(),
    {
        &self.properties
    }

    /// The number of children of the node.
    pub fn child_count(&self) -> (count: usize)
        ensures
            count == self@.children.len(),
    {
        self.children.len()
    }

    /// The child at place `i`.
    pub fn child(&self, i: usize) -> (child: &NodeBuilder)
        requires
            i < self@.children.len(),
        ensures
            child@ == self@.children[i as int],
            self.wf() ==> child.wf(),
    {
        &self.children[i]
    }

    /// The same node under the name `name`.
    pub fn with_name(self, name: &str) -> (builder: NodeBuilder)
        requires
            self.wf(),
        ensures
            builder.wf(),
            builder@ == (Tree { name: name@, ..self@ }),
    {
        let mut builder = self;
        builder.name = name.to_owned();
        assert(builder.tree().children =~= self.tree().children);
        builder
    }

    /// The same node with `value` under `key`, in place of what stood there.
    pub fn with_property(self, key: &str, value: Value) -> (builder: NodeBuilder)
        requires
            self.wf(),
        ensures
            builder.wf(),
            builder@ == (Tree { properties: self@.properties.insert(key@, value), ..self@ }),
    {
        let mut builder = self;
        builder.properties.insert(key.to_owned(), value);
        assert(builder.tree().children =~= self.tree().children);
        builder
    }

    /// The same node with `child` as its last child.
    pub fn with_child(self, child: NodeBuilder) -> (builder: NodeBuilder)
        requires
            self.wf(),
            child.wf(),
        ensures
            builder.wf(),
            builder@ == (Tree { children: self@.children.push(child@), ..self@ }),
    {
        let mut builder = self;
        builder.children.push(child);
        assert(builder.tree().children =~= self.tree().children.push(child.tree()));
        builder
    }

    /// The same node under the identity `referent`.
    pub fn with_referent(self, referent: u128) -> (builder: NodeBuilder)
        requires
            self.wf(),
        ensures
            builder.wf(),
            builder@ == (Tree { identity: referent, ..self@ }),
    {
        let mut builder = self;
        builder.identity = referent;
        assert(builder.tree().children =~= self.tree().children);
        builder
    }
}

} // verus!
