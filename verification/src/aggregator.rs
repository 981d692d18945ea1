//! The single writer of a clone: it alone adds to the document that is
//! being made, and settles the identity of every node that it adds.

use vstd::prelude::*;

use crate::arena::{lemma_position, DocumentView, NodeView};
use crate::builder::{trees, NodeBuilder};
use crate::document::Document;
use crate::mint::{taken, Mint};
use crate::tree::{forest_size, reidentified};
use crate::value::Value;

verus! {

/// The root of a clone: a node of class `DataModel`, named after its class,
/// with no properties.
pub open spec fn is_clone_root(root: NodeView) -> bool {
    &&& root.class == "DataModel"@
    &&& root.name == "DataModel"@
    &&& root.properties == Map::<Seq<char>, Value>::empty()
}

/// `document` is a tree below a root for clones: it is well formed, every
/// child resolves, every node but the root has one parent, and it has no
/// nodes but the root and those of the trees below it.
pub open spec fn is_clone_shaped(document: DocumentView) -> bool {
    &&& document.wf()
    &&& document.closed()
    &&& document.tree_shaped()
    &&& document.has(document.root)
    &&& is_clone_root(document.nodes[document.position(document.root)])
    &&& document.nodes.len() == 1 + forest_size(document.top_level())
}

/// A clone in the making, and the record of the identities issued for it.
#[derive(Debug)]
pub struct Aggregator {
    new_dom: Document,
    mint: Mint,
}

impl View for Aggregator {
    type V = DocumentView;

    closed spec fn view(&self) -> DocumentView {
        self.new_dom@
    }
}

impl Aggregator {
    /// The document is a tree, and each of its identities was issued for
    /// it.
    pub closed spec fn wf(&self) -> bool {
        &&& self.new_dom.wf()
        &&& self.mint.wf()
        &&& is_clone_shaped(self.new_dom@)
        &&& self.new_dom@.identities().subset_of(self.mint@)
    }

    /// No identity that was issued is the null identity or one of `source`.
    pub closed spec fn avoids(&self, source: DocumentView) -> bool {
        forall|identity: u128| #[trigger]
            self.mint@.contains(identity) ==> !taken(source, Set::empty(), identity)
    }

    /// What `wf` and `avoids` say of the document.
    pub proof fn lemma_document(&self, source: DocumentView)
        requires
            self.wf(),
            self.avoids(source),
        ensures
            is_clone_shaped(self@),
            self@.identities().disjoint(source.identities()),
    {
        assert forall|identity: u128|
            self@.identities().contains(identity) && source.identities().contains(
                identity,
            ) implies false by {
            assert(self.mint@.contains(identity));
            assert(!taken(source, Set::empty(), identity));
        }
    }

    /// A clone of `source_dom` that is nothing yet but a root.
    pub fn new(source_dom: &Document) -> (aggregator: Aggregator)
        requires
            source_dom.wf(),
        ensures
            aggregator.wf(),
            aggregator.avoids(source_dom@),
            aggregator@.top_level() == Seq::<crate::tree::Tree>::empty(),
    {
        let mut mint = Mint::new();
        let root_ref = mint.issue(source_dom);
        let new_dom = Document::with_root(root_ref, "DataModel");
        proof {
            assert(new_dom@.at(root_ref, 0));
            lemma_position(new_dom@, root_ref, 0);
            assert(new_dom@.identities() =~= set![root_ref]) by {
                assert forall|id: u128| new_dom@.has(id) implies id == root_ref by {
                    let i = new_dom@.position(id);
                    assert(new_dom@.at(id, i));
                }
            }
            assert(new_dom@.top_level() =~= Seq::empty());
        }
        Aggregator { new_dom, mint }
    }

    /// Attaches the subtrees of `builders` below the root, after what
    /// stands there, in their order, each under identities that
    /// `Mint::reidentify` settles for it.
    pub fn attach(&mut self, source_dom: &Document, builders: Vec<NodeBuilder>)
        requires
            old(self).wf(),
            old(self).avoids(source_dom@),
            source_dom.wf(),
            forall|i: int| 0 <= i < builders.len() ==> (#[trigger] builders[i]).wf(),
        ensures
            final(self).wf(),
            final(self).avoids(source_dom@),
            final(self)@.root == old(self)@.root,
            final(self)@.top_level().len() == old(self)@.top_level().len() + builders.len(),
            forall|i: int|
                0 <= i < old(self)@.top_level().len() ==> (#[trigger] final(self)@.top_level()[i])
                    == old(self)@.top_level()[i],
            forall|i: int|
                0 <= i < builders.len() ==> reidentified(
                    (#[trigger] builders[i])@,
                    final(self)@.top_level()[old(self)@.top_level().len() + i],
                ),
    {
        let ghost source = source_dom@;
        let ghost hung = self@.top_level();
        let ghost listed = builders@;
        let ghost given = trees(listed);
        let ghost root_ref = self@.root;
        for builder in walk: builders
            invariant
                source_dom.wf(),
                source == source_dom@,
                self.wf(),
                self.avoids(source),
                self@.root == root_ref,
                given == trees(walk.seq()),
                forall|i: int| 0 <= i < walk.seq().len() ==> (#[trigger] walk.seq()[i]).wf(),
                self@.top_level().len() == hung.len() + walk.index(),
                forall|i: int| 0 <= i < hung.len() ==> (#[trigger] self@.top_level()[i]) == hung[i],
                forall|i: int|
                    0 <= i < walk.index() ==> reidentified(
                        #[trigger] given[i],
                        self@.top_level()[hung.len() + i],
                    ),
            decreases builders.len() - walk.index(),
        {
            let ghost j = walk.index() as int;
            let ghost before = self.new_dom@;
            let ghost issued = self.mint@;
            let settled = self.mint.reidentify(source_dom, builder);
            proof {
                assert(builder@ == given[j]);
                assert(settled@.identities().disjoint(before.identities())) by {
                    assert forall|identity: u128|
                        settled@.identities().contains(identity) && before.identities().contains(
                            identity,
                        ) implies false by {
                        assert(issued.contains(identity));
                        assert(!taken(source, issued, identity));
                    }
                }
                assert forall|identity: u128| #[trigger]
                    self.mint@.contains(identity) implies !taken(
                    source,
                    Set::empty(),
                    identity,
                ) by {
                    if !issued.contains(identity) {
                        assert(settled@.identities().contains(identity));
                        assert(!taken(source, issued, identity));
                    }
                }
            }
            self.new_dom.attach(settled);
            proof {
                let grown = self.new_dom@.top_level();
                assert(self.new_dom@.at(root_ref, before.position(root_ref)));
                lemma_position(self.new_dom@, root_ref, before.position(root_ref));
                assert(grown.drop_last() =~= before.top_level());
                assert(grown.last() == settled@);
                assert forall|i: int| 0 <= i < j + 1 implies reidentified(
                    #[trigger] given[i],
                    grown[hung.len() + i],
                ) by {
                    if i < j {
                        assert(grown[hung.len() + i] == before.top_level()[hung.len() + i]);
                    }
                }
            }
        }
        proof {
            assert forall|i: int| 0 <= i < listed.len() implies reidentified(
                (#[trigger] listed[i])@,
                self@.top_level()[hung.len() + i],
            ) by {
                assert(given[i] == listed[i]@);
            }
        }
    }

    /// The clone as it stands.
    pub fn finish(self) -> (new_dom: Document)
        requires
            self.wf(),
        ensures
            new_dom.wf(),
            new_dom@ == self@,
    {
        self.new_dom
    }
}

} // verus!
