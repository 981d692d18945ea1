//! The clone orchestrator: from a document to its clone, batch by batch.

use vstd::prelude::*;

use crate::aggregator::{is_clone_shaped, Aggregator};
use crate::arena::{lemma_forest_joined, lemma_top_level, DocumentView};
use crate::builder::trees;
use crate::cloner::process;
use crate::document::Document;
use crate::tree::{cloned, cloned_all, lemma_reidentified_clone, reidentified};

verus! {

/// The number of children of the root that are cloned as one batch.
pub const BATCH: usize = 100;

/// The batches of a partition, one after the other.
pub open spec fn joined(parts: Seq<Vec<u128>>) -> Seq<u128>
    decreases parts.len(),
{
    if parts.len() == 0 {
        Seq::empty()
    } else {
        joined(parts.drop_last()) + parts.last()@
    }
}

/// `copy` is a clone of `source`: a tree below a root for clones, the trees
/// below that root the clones of the trees below the root of `source`, in
/// their order, and with no identity of `source`.
pub open spec fn is_clone_of(copy: DocumentView, source: DocumentView) -> bool {
    &&& is_clone_shaped(copy)
    &&& cloned_all(source.top_level(), copy.top_level())
    &&& copy.identities().disjoint(source.identities())
}

/// Cuts `children` into consecutive batches of `size` identities; the last
/// batch holds what is left.
pub fn batches(children: &Vec<u128>, size: usize) -> (parts: Vec<Vec<u128>>)
    requires
        size >= 1,
    ensures
        joined(parts@) == children@,
        forall|i: int| 0 <= i < parts.len() ==> 1 <= (#[trigger] parts[i]).len() <= size,
        forall|i: int| 0 <= i < parts.len() - 1 ==> (#[trigger] parts[i]).len() == size,
{
    let mut parts: Vec<Vec<u128>> = Vec::new();
    let mut part: Vec<u128> = Vec::new();
    let mut i: usize = 0;
    while i < children.len()
        invariant
            i <= children.len(),
            size >= 1,
            part.len() < size,
            joined(parts@) + part@ == children@.take(i as int),
            forall|j: int| 0 <= j < parts.len() ==> (#[trigger] parts[j]).len() == size,
        decreases children.len() - i,
    {
        let ghost taken_in = joined(parts@) + part@;
        part.push(children[i]);
        i += 1;
        proof {
            assert(children@.take(i as int) =~= taken_in.push(children@[i - 1]));
            assert(joined(parts@) + part@ =~= children@.take(i as int));
        }
        if part.len() == size {
            let ghost full = part@;
            let ghost front = parts@;
            parts.push(part);
            part = Vec::new();
            proof {
                assert(parts@.drop_last() =~= front);
                assert(parts@.last()@ == full);
                assert(joined(parts@) + part@ =~= joined(front) + full);
            }
        }
    }
    proof {
        assert(children@.take(children@.len() as int) =~= children@);
    }
    if part.len() > 0 {
        let ghost rest = part@;
        let ghost front = parts@;
        parts.push(part);
        proof {
            assert(parts@.drop_last() =~= front);
            assert(parts@.last()@ == rest);
        }
    } else {
        proof {
            assert(joined(parts@) + part@ =~= joined(parts@));
        }
    }
    parts
}

/// Clones the document `source_dom`, the children of its root in batches of
/// `batch`.
///
/// The clone has a root of its own, of class `DataModel`. Below it stand, in
/// the order of the children of the root of `source_dom`, the clones of
/// those children that resolve, each with everything below it; nothing where
/// the root of `source_dom` does not resolve. The clone has no other nodes,
/// and no identity of the clone is one of `source_dom`. The size of the
/// batches plays no part in the result.
pub fn sigma(source_dom: &Document, batch: usize) -> (new_dom: Document)
    requires
        source_dom.wf(),
        batch >= 1,
    ensures
        new_dom.wf(),
        is_clone_of(new_dom@, source_dom@),
{
    let ghost source = source_dom@;
    let mut aggregator = Aggregator::new(source_dom);
    match source_dom.get_by_ref(source_dom.root_ref()) {
        Some(source_root) => {
            let parts = batches(source_root.children(), batch);
            proof {
                lemma_top_level(source);
                assert(joined(parts@.take(0)) =~= Seq::empty());
            }
            for part in walk: parts
                invariant
                    source_dom.wf(),
                    source == source_dom@,
                    aggregator.wf(),
                    aggregator.avoids(source),
                    cloned_all(
                        source.forest(joined(walk.seq().take(walk.index() as int))),
                        aggregator@.top_level(),
                    ),
                decreases parts.len() - walk.index(),
            {
                let ghost done = joined(walk.seq().take(walk.index() as int));
                let ghost hung = aggregator@.top_level();
                let ghost batch_ids = part@;
                let builders = process(part, source_dom);
                let ghost clones = trees(builders@);
                aggregator.attach(source_dom, builders);
                proof {
                    let next = walk.seq().take(walk.index() as int + 1);
                    assert(next.drop_last() =~= walk.seq().take(walk.index() as int));
                    assert(next.last()@ == batch_ids);
                    lemma_forest_joined(source, -1, done, batch_ids);
                    let sources = source.forest(done) + source.forest(batch_ids);
                    let grown = aggregator@.top_level();
                    assert forall|i: int| 0 <= i < grown.len() implies cloned(
                        sources[i],
                        #[trigger] grown[i],
                    ) by {
                        if i < hung.len() {
                            assert(grown[i] == hung[i]);
                        } else {
                            let j = i - hung.len();
                            assert(cloned(source.forest(batch_ids)[j], clones[j]));
                            assert(reidentified(builders[j]@, grown[hung.len() + j]));
                            lemma_reidentified_clone(
                                source.forest(batch_ids)[j],
                                clones[j],
                                grown[i],
                            );
                        }
                    }
                }
            }
            proof {
                assert(parts@.take(parts@.len() as int) =~= parts@);
            }
        },
        None => {},
    }
    proof {
        aggregator.lemma_document(source);
    }
    aggregator.finish()
}

} // verus!
