//! Chance and identity: the few calls whose outcome no contract can fix, each
//! with what holds of every outcome.

use std::sync::Arc;

use rand::seq::SliceRandom;
use rand::Rng;
use vstd::prelude::*;

verus! {

/// `Rng::gen_range` on the thread's generator, over the inclusive range from
/// `low` to `high`: some number of that range. The outside function panics
/// on an empty range, which `requires` leaves out.
#[verifier::external_body]
pub(crate) fn random_in(low: i32, high: i32) -> (r: i32)
    requires
        low <= high,
    ensures
        low <= r <= high,
{
    rand::thread_rng().gen_range(low..=high)
}

/// `SliceRandom::choose` on the thread's generator: `None` for an empty
/// slice, else one of its items.
#[verifier::external_body]
pub(crate) fn pick_one<'a, T>(items: &'a [T]) -> (r: Option<&'a T>)
    ensures
        items@.len() == 0 ==> r is None,
        items@.len() > 0 ==> r is Some,
        r matches Some(x) ==> exists|i: int| 0 <= i < items@.len() && *x == #[trigger] items@[i],
{
    items.choose(&mut rand::thread_rng())
}

/// `SliceRandom::choose_multiple` on the thread's generator: `amount` items
/// of the slice (all of them if it has fewer), taken from distinct positions.
#[verifier::external_body]
pub(crate) fn pick_several<'a, T>(items: &'a [T], amount: usize) -> (r: Vec<&'a T>)
    ensures
        r.len() == if amount <= items@.len() {
            amount as nat
        } else {
            items@.len()
        },
        exists|at: Seq<int>|
            #![trigger at.len()]
            {
                &&& at.len() == r.len()
                &&& at.no_duplicates()
                &&& forall|k: int|
                    0 <= k < r.len() ==> 0 <= #[trigger] at[k] < items@.len() && *r[k]
                        == items@[at[k]]
            },
{
    items.choose_multiple(&mut rand::thread_rng(), amount).collect()
}

/// The version of a 128-bit identifier: its bits 76 to 79.
pub open spec fn id_version(id: u128) -> int {
    (id as int / 0x1000_0000_0000_0000_0000) % 16
}

/// `Uuid::new_v4` followed by `Uuid::as_u128`: a random identifier of
/// version 4, as a number.
#[verifier::external_body]
pub(crate) fn fresh_id() -> (r: u128)
    ensures
        id_version(r) == 4,
{
    uuid::Uuid::new_v4().as_u128()
}

/// `Arc::clone`: another handle to the same value.
#[verifier::external_body]
pub(crate) fn share<T>(a: &Arc<T>) -> (r: Arc<T>)
    ensures
        r == *a,
{
    Arc::clone(a)
}

} // verus!
