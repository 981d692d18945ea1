//! The issue of identities: each one new to the document that is cloned and
//! to everything issued before.

use std::collections::HashSet;
use vstd::prelude::*;
use vstd::set_lib::{lemma_len_subset, lemma_len_union};

use crate::arena::DocumentView;
use crate::builder::{trees, NodeBuilder};
use crate::document::Document;
use crate::outside::draw_identity;
use crate::tree::{
    forest_identities, forest_well_identified, lemma_forest_take, reidentified, Tree,
};

verus! {

broadcast use vstd::std_specs::hash::group_hash_axioms;

/// An identity that cannot be issued: the null identity, one of a node of
/// `source`, or one of `issued`.
pub open spec fn taken(source: DocumentView, issued: Set<u128>, identity: u128) -> bool {
    identity == 0 || source.has(identity) || issued.contains(identity)
}

/// How many steps lead from `from` up to `to`, counting round from the
/// largest identity to the null identity.
pub open spec fn steps(from: u128, to: u128) -> int {
    if to >= from {
        to - from
    } else {
        to - from + 0x1_0000_0000_0000_0000_0000_0000_0000_0000
    }
}

/// No identity of `tree` is taken.
pub open spec fn all_free(source: DocumentView, issued: Set<u128>, tree: Tree) -> bool {
    forall|identity: u128| #[trigger]
        tree.identities().contains(identity) ==> !taken(source, issued, identity)
}

/// The identities that cannot be issued.
spec fn all_taken(source: DocumentView, issued: Set<u128>) -> Set<u128> {
    source.identities().union(issued).insert(0)
}

/// The record of the identities that were issued.
#[derive(Debug)]
pub struct Mint {
    issued: HashSet<u128>,
}

impl View for Mint {
    type V = Set<u128>;

    closed spec fn view(&self) -> Set<u128> {
        self.issued@
    }
}

impl Mint {
    /// The record is finite.
    pub closed spec fn wf(&self) -> bool {
        self.issued@.finite()
    }

    /// A mint that has issued nothing.
    pub fn new() -> (mint: Mint)
        ensures
            mint.wf(),
            mint@ == Set::<u128>::empty(),
    {
        Mint { issued: HashSet::new() }
    }

    /// Whether `identity` can be issued.
    fn is_free(&self, source: &Document, identity: u128) -> (free: bool)
        requires
            source.wf(),
        ensures
            free == !taken(source@, self@, identity),
    {
        identity != 0 && source.get_by_ref(identity).is_none() && !self.issued.contains(&identity)
    }

    /// Issues `candidate`, or where that cannot be issued the first identity
    /// after it that can, counting round.
    pub fn settle(&mut self, source: &Document, candidate: u128) -> (identity: u128)
        requires
            old(self).wf(),
            source.wf(),
        ensures
            final(self).wf(),
            !taken(source@, old(self)@, identity),
            final(self)@ == old(self)@.insert(identity),
            forall|other: u128|
                steps(candidate, other) < steps(candidate, identity) ==> taken(
                    source@,
                    old(self)@,
                    other,
                ),
    {
        let ghost blocked = all_taken(source@, self@);
        proof {
            source.lemma_identities_finite();
            lemma_len_union(source@.identities(), self@);
            assert(self.issued.len() == self@.len());
            assert(blocked.len() <= source@.identities().len() + self@.len() + 1);
        }
        let mut identity = candidate;
        let ghost mut tried: Set<u128> = Set::empty();
        let mut free = self.is_free(source, identity);
        while !free
            invariant
                source.wf(),
                self.wf(),
                blocked == all_taken(source@, self@),
                blocked.finite(),
                blocked.len() <= 2 * usize::MAX + 1,
                tried.finite(),
                tried.subset_of(blocked),
                forall|other: u128| tried.contains(other) <==> steps(candidate, other) < tried.len(),
                steps(candidate, identity) == tried.len(),
                free == !taken(source@, self@, identity),
            decreases blocked.len() - tried.len(),
        {
            proof {
                assert(blocked.contains(identity));
                assert(!tried.contains(identity));
                tried = tried.insert(identity);
                lemma_len_subset(tried, blocked);
            }
            identity = if identity == u128::MAX {
                0
            } else {
                identity + 1
            };
            free = self.is_free(source, identity);
        }
        proof {
            assert forall|other: u128|
                steps(candidate, other) < steps(candidate, identity) implies taken(
                source@,
                self@,
                other,
            ) by {
                assert(tried.contains(other));
                assert(blocked.contains(other));
            }
        }
        self.issued.insert(identity);
        identity
    }

    /// Issues an identity drawn at random.
    pub fn issue(&mut self, source: &Document) -> (identity: u128)
        requires
            old(self).wf(),
            source.wf(),
        ensures
            final(self).wf(),
            !taken(source@, old(self)@, identity),
            final(self)@ == old(self)@.insert(identity),
    {
        let candidate = draw_identity();
        self.settle(source, candidate)
    }

    /// Settles the identities of a subtree: each node keeps the identity
    /// that it has where `settle` issues it, and gets the one that `settle`
    /// issues in its place where not; children come before their parent. So
    /// a subtree whose identities are its own and can all be issued comes
    /// back as it is.
    pub fn reidentify(&mut self, source: &Document, builder: NodeBuilder) -> (settled: NodeBuilder)
        requires
            old(self).wf(),
            source.wf(),
            builder.wf(),
        ensures
            final(self).wf(),
            settled.wf(),
            reidentified(builder@, settled@),
            settled@.well_identified(),
            all_free(source@, old(self)@, settled@),
            final(self)@ == old(self)@.union(settled@.identities()),
            builder@.well_identified() && all_free(source@, old(self)@, builder@) ==> settled@
                == builder@,
        decreases builder@.size(),
    {
        let ghost whole = builder@;
        let ghost issued = self@;
        let (identity, class, name, properties, children) = builder.into_parts();
        let ghost below = trees(children@);
        let mut settled: Vec<NodeBuilder> = Vec::new();
        proof {
            assert(trees(settled@) =~= Seq::empty());
            assert(below.take(0) =~= Seq::empty());
            assert(self@ =~= issued.union(forest_identities(trees(settled@))));
        }
        for child in walk: children
            invariant
                self.wf(),
                source.wf(),
                whole == builder@,
                below == whole.children,
                below == trees(walk.seq()),
                forall|i: int| 0 <= i < walk.seq().len() ==> (#[trigger] walk.seq()[i]).wf(),
                settled.len() == walk.index(),
                forall|i: int| 0 <= i < settled.len() ==> (#[trigger] settled[i]).wf(),
                forall|i: int|
                    0 <= i < settled.len() ==> reidentified(
                        below[i],
                        #[trigger] trees(settled@)[i],
                    ),
                forest_well_identified(trees(settled@)),
                self@ == issued.union(forest_identities(trees(settled@))),
                forall|identity: u128| #[trigger]
                    forest_identities(trees(settled@)).contains(identity) ==> !taken(
                        source@,
                        issued,
                        identity,
                    ),
                forest_well_identified(below.take(walk.index() as int)) && (forall|identity: u128|
                    #[trigger] forest_identities(below.take(walk.index() as int)).contains(identity)
                        ==> !taken(source@, issued, identity)) ==> trees(settled@) == below.take(
                    walk.index() as int,
                ),
            decreases children.len() - walk.index(),
        {
            let ghost k = walk.index() as int;
            let ghost so_far = trees(settled@);
            let ghost before = self@;
            proof {
                lemma_forest_take(below, k);
                assert(child@ == below[k]);
                assert(child@.size() < whole.size());
            }
            let next = self.reidentify(source, child);
            settled.push(next);
            proof {
                let grown = trees(settled@);
                assert(grown =~= so_far.push(next@));
                assert(grown.drop_last() =~= so_far);
                assert(grown.last() == next@);
                assert(forest_identities(so_far).disjoint(next@.identities())) by {
                    assert forall|id: u128|
                        forest_identities(so_far).contains(id) && next@.identities().contains(
                            id,
                        ) implies false by {
                        assert(before.contains(id));
                        assert(!taken(source@, before, id));
                    }
                }
                assert(self@ =~= issued.union(forest_identities(grown)));
                assert forall|id: u128| #[trigger]
                    forest_identities(grown).contains(id) implies !taken(
                    source@,
                    issued,
                    id,
                ) by {
                    if next@.identities().contains(id) {
                        assert(!taken(source@, before, id));
                    }
                }
                assert forall|i: int| 0 <= i < settled.len() implies reidentified(
                    below[i],
                    #[trigger] trees(settled@)[i],
                ) by {
                    if i < k {
                        assert(grown[i] == so_far[i]);
                    }
                }
                let longer = below.take(k + 1);
                if forest_well_identified(longer) && (forall|id: u128| #[trigger]
                    forest_identities(longer).contains(id) ==> !taken(source@, issued, id)) {
                    assert(longer.drop_last() =~= below.take(k));
                    assert(longer.last() == below[k]);
                    assert forall|id: u128| #[trigger]
                        forest_identities(below.take(k)).contains(id) implies !taken(
                        source@,
                        issued,
                        id,
                    ) by {
                        assert(forest_identities(longer).contains(id));
                    }
                    assert(so_far == below.take(k));
                    assert(all_free(source@, before, child@)) by {
                        assert forall|id: u128| #[trigger]
                            child@.identities().contains(id) implies !taken(
                            source@,
                            before,
                            id,
                        ) by {
                            assert(forest_identities(longer).contains(id));
                            assert(!forest_identities(below.take(k)).contains(id));
                        }
                    }
                    assert(next@ == child@);
                    assert(grown =~= longer);
                }
            }
        }
        let ghost held = self@;
        let referent = self.settle(source, identity);
        let settled_node = NodeBuilder::from_parts(referent, class, name, properties, settled);
        proof {
            let after = settled_node@;
            assert(below.take(below.len() as int) =~= below);
            assert(self@ =~= issued.union(after.identities()));
            assert(all_free(source@, issued, after)) by {
                assert forall|id: u128| #[trigger]
                    after.identities().contains(id) implies !taken(source@, issued, id) by {
                    if id == referent {
                        assert(!taken(source@, held, referent));
                    }
                }
            }
            if whole.well_identified() && all_free(source@, issued, whole) {
                assert forall|id: u128| #[trigger]
                    forest_identities(below).contains(id) implies !taken(source@, issued, id) by {
                    assert(whole.identities().contains(id));
                }
                assert(after.children == below);
                assert(whole.identities().contains(identity));
                assert(!taken(source@, held, identity));
                if referent != identity {
                    assert(steps(identity, identity) < steps(identity, referent));
                }
                assert(after == whole);
            }
        }
        settled_node
    }
}

} // verus!
