//! What the ray marcher decides about the sample paths of a packet.

use vstd::prelude::*;
use rand::seq::IteratorRandom;

verus! {

/// `IteratorRandom::choose_multiple` on the indices `0..count`: `amount` of
/// them picked at random, or all of them where there are fewer; each index
/// at most once, in an order that the source leaves open.
#[verifier::external_body]
fn choose_indices(count: usize, amount: usize) -> (r: Vec<usize>)
    ensures
        r.len() == (if amount < count { amount } else { count }),
        forall|i: int| 0 <= i < r.len() ==> #[trigger] r@[i] < count,
        forall|i: int, j: int| 0 <= i < j < r.len() ==> r@[i] != r@[j],
{
    (0..count).choose_multiple(&mut rand::thread_rng(), amount)
}

/// The indices `0..count` in order.
pub open spec fn all_indices(count: nat) -> Seq<usize> {
    Seq::new(count, |i: int| i as usize)
}

/// Which of a packet's `path_count` sample paths are averaged into its pixel:
/// all of them, in order, when `num_paths` is not positive; otherwise
/// `num_paths` of them (all, where there are fewer) picked at random, each
/// at most once.
pub fn choose_paths(path_count: usize, num_paths: i32) -> (r: Vec<usize>)
    ensures
        num_paths <= 0 ==> r@ == all_indices(path_count as nat),
        num_paths > 0 ==> r.len() == (if (num_paths as int) < path_count { num_paths as int } else { path_count as int }),
        forall|i: int| 0 <= i < r.len() ==> #[trigger] r@[i] < path_count,
        forall|i: int, j: int| 0 <= i < j < r.len() ==> r@[i] != r@[j],
{
    if num_paths > 0 {
        choose_indices(path_count, num_paths as usize)
    } else {
        let mut r: Vec<usize> = Vec::new();
        let mut i: usize = 0;
        while i < path_count
            invariant
                i <= path_count,
                r@ == all_indices(i as nat),
            decreases path_count - i,
        {
            r.push(i);
            assert(r@ =~= all_indices((i + 1) as nat));
            i = i + 1;
        }
        r
    }
}

} // verus!
