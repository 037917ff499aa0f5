//! The starting tour: the identity order with one random exchange per
//! position.
//!
//! Every position is exchanged with a position drawn from the whole range, so
//! the orders do not come out equally often. That is how this search starts;
//! it is not a uniform shuffle.

use crate::tour::{identity_tour, is_tour, lemma_identity_is_tour, lemma_swapped_is_tour, swapped};
use vstd::prelude::*;

verus! {

/// The generator of `fastrand`, carried through as an opaque value.
#[verifier::external_type_specification]
#[verifier::external_body]
pub struct ExRng(fastrand::Rng);

/// `fastrand::Rng::new`: a generator seeded from the thread's own. Nothing is
/// claimed of the generator that comes back.
#[verifier::external_body]
fn new_generator() -> (rng: fastrand::Rng) {
    fastrand::Rng::new()
}

/// `fastrand::Rng::usize` on the range `..n`: for a range that is not empty
/// the number drawn lies below `n`. Which number it is, is not claimed.
#[verifier::external_body]
fn draw_below(rng: &mut fastrand::Rng, n: usize) -> (j: usize)
    requires
        n > 0,
    ensures
        j < n,
{
    rng.usize(..n)
}

/// One draw for each of `n` positions, each below `n`.
pub open spec fn valid_draws(n: nat, draws: Seq<usize>) -> bool {
    &&& draws.len() == n
    &&& forall|k: int| 0 <= k < n ==> (#[trigger] draws[k]) < n
}

/// The identity order over `n` points after the first `steps` exchanges:
/// exchange number `k` swaps position `k` with position `draws[k]`.
pub open spec fn shuffled(n: nat, draws: Seq<usize>, steps: nat) -> Seq<usize>
    decreases steps,
{
    if steps == 0 {
        identity_tour(n)
    } else {
        swapped(shuffled(n, draws, (steps - 1) as nat), steps - 1, draws[steps - 1] as int)
    }
}

/// Every prefix of the exchanges leaves a tour over the same points.
pub proof fn lemma_shuffled_is_tour(n: nat, draws: Seq<usize>, steps: nat)
    requires
        valid_draws(n, draws),
        steps <= n <= usize::MAX,
    ensures
        is_tour(shuffled(n, draws, steps)),
        shuffled(n, draws, steps).len() == n,
    decreases steps,
{
    if steps == 0 {
        lemma_identity_is_tour(n);
    } else {
        lemma_shuffled_is_tour(n, draws, (steps - 1) as nat);
        lemma_swapped_is_tour(
            shuffled(n, draws, (steps - 1) as nat),
            steps - 1,
            draws[steps - 1] as int,
        );
    }
}

/// The starting tour that the given draws lead to: position `k` of the
/// identity order is exchanged with position `draws[k]`, for `k` from 0 up.
pub fn shuffle_by_draws(n: usize, draws: &Vec<usize>) -> (route: Vec<usize>)
    requires
        valid_draws(n as nat, draws@),
    ensures
        route@ == shuffled(n as nat, draws@, n as nat),
        route@.len() == n,
        is_tour(route@),
{
    let mut route: Vec<usize> = Vec::new();
    let mut k: usize = 0;
    while k < n
        invariant
            k <= n,
            route@.len() == k,
            forall|m: int| 0 <= m < k ==> route@[m] == m,
        decreases n - k,
    {
        route.push(k);
        k += 1;
    }
    assert(route@ =~= identity_tour(n as nat));
    let mut i: usize = 0;
    while i < n
        invariant
            i <= n,
            valid_draws(n as nat, draws@),
            route@.len() == n,
            route@ == shuffled(n as nat, draws@, i as nat),
        decreases n - i,
    {
        let j: usize = draws[i];
        let at_i: usize = route[i];
        let at_j: usize = route[j];
        let ghost before = route@;
        route.set(i, at_j);
        route.set(j, at_i);
        assert(route@ =~= swapped(before, i as int, j as int));
        i += 1;
    }
    proof {
        lemma_shuffled_is_tour(n as nat, draws@, n as nat);
    }
    route
}

/// A randomly swapped starting tour over `n` points. Whatever is drawn, the
/// outcome is a tour, and it is the one that some valid draws lead to.
pub fn initial_tour(n: usize) -> (route: Vec<usize>)
    ensures
        route@.len() == n,
        is_tour(route@),
        exists|draws: Seq<usize>|
            valid_draws(n as nat, draws) && route@ == #[trigger] shuffled(n as nat, draws, n as nat),
{
    let mut rng = new_generator();
    let mut draws: Vec<usize> = Vec::new();
    let mut i: usize = 0;
    while i < n
        invariant
            i <= n,
            draws@.len() == i,
            forall|k: int| 0 <= k < i ==> (#[trigger] draws@[k]) < n,
        decreases n - i,
    {
        let j: usize = draw_below(&mut rng, n);
        draws.push(j);
        i += 1;
    }
    shuffle_by_draws(n, &draws)
}

} // verus!
