//! The calls into `rbx_types` and `rayon`, each behind a contract that is
//! taken on trust.

use rayon::iter::{IntoParallelIterator, ParallelIterator};
use rbx_types::{Ref, UniqueId, Variant};
use vstd::prelude::*;

use crate::builder::NodeBuilder;
use crate::cloner::{child_cloned, clone_child};
use crate::document::Document;
use crate::value::UniqueStamp;

verus! {

/// `rbx_types::Variant`, carried through as an opaque payload.
#[verifier::external_type_specification]
#[verifier::external_body]
pub struct ExVariant(rbx_types::Variant);

/// `rbx_types::Error`, the failure of a fallible `rbx_types` call.
#[verifier::external_type_specification]
#[verifier::external_body]
pub struct ExTypesError(rbx_types::Error);

/// Copies a payload with `Variant::clone`. Trusted: the copy is the same
/// value as the payload.
#[verifier::external_body]
pub(crate) fn copy_payload(payload: &Variant) -> (copy: Variant)
    ensures
        copy == *payload,
{
    payload.clone()
}

/// Draws a random identity with `Ref::new` and hands it out as the number
/// that `Ref` prints. Nothing is promised of the number drawn.
#[verifier::external_body]
pub(crate) fn draw_identity() -> (candidate: u128) {
    u128::from_str_radix(&Ref::new().to_string(), 16).unwrap_or(0)
}

/// Asks `UniqueId::now` for a new stamp. Nothing is promised of the outcome:
/// it depends on the clock, a process-wide counter and a random number.
#[verifier::external_body]
pub(crate) fn stamp_now() -> (outcome: Result<UniqueStamp, rbx_types::Error>) {
    match UniqueId::now() {
        Ok(id) => Ok(UniqueStamp { index: id.index(), time: id.time(), random: id.random() }),
        Err(error) => Err(error),
    }
}

/// Hands the identities of `batch` out to the pool of `rayon`, with
/// `into_par_iter`, `map` and `collect`. Trusted: `clone_child` runs once on
/// each identity, and what it returned comes back in the order of the batch.
#[verifier::external_body]
pub(crate) fn clone_each(batch: Vec<u128>, source_dom: &Document) -> (clones: Vec<
    Option<NodeBuilder>,
>)
    requires
        source_dom.wf(),
    ensures
        clones.len() == batch.len(),
        forall|i: int|
            0 <= i < batch.len() ==> child_cloned(source_dom@, batch[i], #[trigger] clones[i]),
{
    batch.into_par_iter().map(|child_ref| clone_child(child_ref, source_dom)).collect()
}

} // verus!
