//! The two-opt search: pass after pass over all segment reversals, taking each
//! one that makes the tour strictly shorter.
//!
//! The caller supplies the measure of a tour's length as a function from a
//! visiting order to an unsigned integer. The search compares those integers
//! and nothing else, so any quantity whose order the integers keep can be
//! minimised.

use crate::shuffle::{initial_tour, shuffled, valid_draws};
use crate::tour::{is_tour, lemma_reversed_is_tour, lemma_small_tours, reverse_segment, reversed};
use vstd::prelude::*;

verus! {

/// The number of passes after which the search stops even if the last pass
/// still found a shorter tour.
pub const MAX_PASSES: usize = 1000;

/// What a search returns: the tour it ended with, the length that was measured
/// of that tour, and the number of passes it made.
pub struct TourResult {
    pub route: Vec<usize>,
    pub distance: u64,
    pub passes: usize,
}

/// `length_of` can be called on every tour over `n` points.
pub open spec fn accepts_tours<F: Fn(&Vec<usize>) -> u64>(length_of: F, n: nat) -> bool {
    forall|r: Vec<usize>| is_tour(r@) && r@.len() == n ==> #[trigger] length_of.requires((&r,))
}

/// `d` is a length that `length_of` may give of the visiting order `s`.
pub open spec fn measures<F: Fn(&Vec<usize>) -> u64>(length_of: F, s: Seq<usize>, d: u64) -> bool {
    exists|r: Vec<usize>| r@ == s && #[trigger] length_of.ensures((&r,), d)
}

/// The reversals that a pass tries on a tour over `n` points: the segments
/// `i..=j` of two or more positions that leave out the first and the last.
pub open spec fn is_move(n: int, i: int, j: int) -> bool {
    1 <= i < j < n - 1
}

/// No length that `length_of` may give of `s` lies below `bound`.
pub open spec fn no_shorter<F: Fn(&Vec<usize>) -> u64>(length_of: F, s: Seq<usize>, bound: u64) -> bool {
    forall|d: u64| #[trigger] measures(length_of, s, d) ==> d >= bound
}

/// Some length that `length_of` may give of `s` does not lie below `bound`.
pub open spec fn may_reject<F: Fn(&Vec<usize>) -> u64>(length_of: F, s: Seq<usize>, bound: u64) -> bool {
    exists|d: u64| #[trigger] measures(length_of, s, d) && d >= bound
}

/// No reversal of `s` can measure below `bound`: a pass over `s` with the best
/// length `bound` takes none.
pub open spec fn locally_optimal<F: Fn(&Vec<usize>) -> u64>(
    length_of: F,
    s: Seq<usize>,
    bound: u64,
) -> bool {
    forall|i: int, j: int|
        is_move(s.len() as int, i, j) ==> #[trigger] no_shorter(length_of, reversed(s, i, j), bound)
}

/// Whatever `length_of` gives of `s`, no reversal of `s` can measure below it:
/// a search that starts at `s` has nothing to take.
pub open spec fn starts_optimal<F: Fn(&Vec<usize>) -> u64>(length_of: F, s: Seq<usize>) -> bool {
    forall|d: u64| #[trigger] measures(length_of, s, d) ==> locally_optimal(length_of, s, d)
}

/// Every reversal of `s` has a measured length that does not lie below
/// `bound`: what a pass that took no reversal has seen. For a measure that
/// gives one length per tour this is local optimality.
pub open spec fn settled<F: Fn(&Vec<usize>) -> u64>(length_of: F, s: Seq<usize>, bound: u64) -> bool {
    forall|i: int, j: int|
        is_move(s.len() as int, i, j) ==> #[trigger] may_reject(length_of, reversed(s, i, j), bound)
}

/// A search result as plain values.
pub struct Outcome {
    pub route: Seq<usize>,
    pub distance: u64,
    pub passes: nat,
}

impl View for TourResult {
    type V = Outcome;

    open spec fn view(&self) -> Outcome {
        Outcome { route: self.route@, distance: self.distance, passes: self.passes as nat }
    }
}

/// `length_of` gives at most one length of each visiting order.
pub open spec fn single_valued<F: Fn(&Vec<usize>) -> u64>(length_of: F) -> bool {
    forall|s: Seq<usize>, d1: u64, d2: u64|
        #[trigger] measures(length_of, s, d1) && #[trigger] measures(length_of, s, d2) ==> d1 == d2
}

/// The length that `length_of` gives of `s`.
pub open spec fn length<F: Fn(&Vec<usize>) -> u64>(length_of: F, s: Seq<usize>) -> u64 {
    choose|d: u64| measures(length_of, s, d)
}

/// Where a pass stands: the tour so far, its length, and whether the pass has
/// taken a reversal yet.
pub struct Scan {
    pub route: Seq<usize>,
    pub best: u64,
    pub improved: bool,
}

/// One trial: the segment `i..=j` is reversed, and the candidate replaces the
/// tour if and only if it is strictly shorter.
pub open spec fn try_move<F: Fn(&Vec<usize>) -> u64>(length_of: F, st: Scan, i: int, j: int) -> Scan {
    let candidate = reversed(st.route, i, j);
    let d = length(length_of, candidate);
    if d < st.best {
        Scan { route: candidate, best: d, improved: true }
    } else {
        st
    }
}

/// The trials of the segments that start at `i` and end at `j` or later, over
/// `n` points, each on the tour that the one before it left.
pub open spec fn scan_row<F: Fn(&Vec<usize>) -> u64>(
    length_of: F,
    n: int,
    st: Scan,
    i: int,
    j: int,
) -> Scan
    decreases n - j,
{
    if j < n - 1 {
        scan_row(length_of, n, try_move(length_of, st, i, j), i, j + 1)
    } else {
        st
    }
}

/// The trials of all segments that start at `i` or later.
pub open spec fn scan_rows<F: Fn(&Vec<usize>) -> u64>(length_of: F, n: int, st: Scan, i: int) -> Scan
    decreases n - i,
{
    if i < n - 2 {
        scan_rows(length_of, n, scan_row(length_of, n, st, i, i + 1), i + 1)
    } else {
        st
    }
}

/// One whole pass over `route`, whose length is `best`.
pub open spec fn pass<F: Fn(&Vec<usize>) -> u64>(length_of: F, route: Seq<usize>, best: u64) -> Scan {
    scan_rows(length_of, route.len() as int, Scan { route, best, improved: false }, 1)
}

/// The passes that follow `done` passes: another pass for as long as the last
/// one took a reversal and fewer than `MAX_PASSES` are done.
pub open spec fn run<F: Fn(&Vec<usize>) -> u64>(
    length_of: F,
    route: Seq<usize>,
    best: u64,
    done: nat,
) -> Outcome
    decreases MAX_PASSES - done,
{
    if done >= MAX_PASSES {
        Outcome { route, distance: best, passes: done }
    } else {
        let st = pass(length_of, route, best);
        if st.improved {
            run(length_of, st.route, st.best, done + 1)
        } else {
            Outcome { route: st.route, distance: st.best, passes: done + 1 }
        }
    }
}

/// The whole search from the tour `start`.
pub open spec fn search<F: Fn(&Vec<usize>) -> u64>(length_of: F, start: Seq<usize>) -> Outcome {
    run(length_of, start, length(length_of, start), 0)
}

/// What is left of a search between two passes.
pub open spec fn resume<F: Fn(&Vec<usize>) -> u64>(
    length_of: F,
    route: Seq<usize>,
    best: u64,
    improved: bool,
    done: nat,
) -> Outcome {
    if improved {
        run(length_of, route, best, done)
    } else {
        Outcome { route, distance: best, passes: done }
    }
}

/// Under a single-valued measure, a length that was measured of `s` is the
/// length of `s`.
pub proof fn lemma_measured_is_length<F: Fn(&Vec<usize>) -> u64>(length_of: F, s: Seq<usize>, d: u64)
    requires
        single_valued(length_of),
        measures(length_of, s, d),
    ensures
        d == length(length_of, s),
{
    assert(measures(length_of, s, length(length_of, s)));
}

/// No reversal of `s` is strictly shorter than `s` itself.
pub open spec fn is_local_optimum<F: Fn(&Vec<usize>) -> u64>(length_of: F, s: Seq<usize>) -> bool {
    forall|i: int, j: int|
        is_move(s.len() as int, i, j) ==> #[trigger] length(length_of, reversed(s, i, j)) >= length(
            length_of,
            s,
        )
}

/// The trials of one row change nothing if none of them is shorter.
pub proof fn lemma_row_keeps<F: Fn(&Vec<usize>) -> u64>(length_of: F, n: int, st: Scan, i: int, j: int)
    requires
        forall|b: int| j <= b < n - 1 ==> #[trigger] length(length_of, reversed(st.route, i, b)) >= st.best,
    ensures
        scan_row(length_of, n, st, i, j) == st,
    decreases n - j,
{
    if j < n - 1 {
        assert(length(length_of, reversed(st.route, i, j)) >= st.best);
        lemma_row_keeps(length_of, n, st, i, j + 1);
    }
}

/// The trials of all rows from `i` on change nothing if none of them is
/// shorter.
pub proof fn lemma_rows_keep<F: Fn(&Vec<usize>) -> u64>(length_of: F, n: int, st: Scan, i: int)
    requires
        1 <= i,
        forall|a: int, b: int|
            i <= a < b < n - 1 ==> #[trigger] length(length_of, reversed(st.route, a, b)) >= st.best,
    ensures
        scan_rows(length_of, n, st, i) == st,
    decreases n - i,
{
    if i < n - 2 {
        lemma_row_keeps(length_of, n, st, i, i + 1);
        lemma_rows_keep(length_of, n, st, i + 1);
    }
}

/// A search that starts at a local optimum makes one pass and returns the
/// tour and the length it started with.
pub proof fn lemma_local_optimum_is_fixed<F: Fn(&Vec<usize>) -> u64>(length_of: F, s: Seq<usize>)
    requires
        is_local_optimum(length_of, s),
    ensures
        search(length_of, s) == (Outcome { route: s, distance: length(length_of, s), passes: 1 }),
{
    let st = Scan { route: s, best: length(length_of, s), improved: false };
    assert forall|a: int, b: int| 1 <= a < b < s.len() - 1 implies #[trigger] length(
        length_of,
        reversed(st.route, a, b),
    ) >= st.best by {
        assert(is_move(s.len() as int, a, b));
    }
    lemma_rows_keep(length_of, s.len() as int, st, 1);
    assert(pass(length_of, s, length(length_of, s)) == st);
}

/// Running the search again on a tour that a pass has left unchanged returns
/// that tour and its length after one pass.
pub proof fn lemma_rerun_changes_nothing<F: Fn(&Vec<usize>) -> u64>(length_of: F, s: Seq<usize>)
    requires
        single_valued(length_of),
        settled(length_of, s, length(length_of, s)),
    ensures
        is_local_optimum(length_of, s),
        search(length_of, s) == (Outcome { route: s, distance: length(length_of, s), passes: 1 }),
{
    assert forall|i: int, j: int| is_move(s.len() as int, i, j) implies #[trigger] length(
        length_of,
        reversed(s, i, j),
    ) >= length(length_of, s) by {
        assert(may_reject(length_of, reversed(s, i, j), length(length_of, s)));
        let d = choose|d: u64| #[trigger]
            measures(length_of, reversed(s, i, j), d) && d >= length(length_of, s);
        lemma_measured_is_length(length_of, reversed(s, i, j), d);
    }
    lemma_local_optimum_is_fixed(length_of, s);
}

/// A search never makes more than `MAX_PASSES` passes, and never fewer than
/// one.
pub proof fn lemma_run_is_capped<F: Fn(&Vec<usize>) -> u64>(
    length_of: F,
    route: Seq<usize>,
    best: u64,
    done: nat,
)
    requires
        done < MAX_PASSES,
    ensures
        done < run(length_of, route, best, done).passes <= MAX_PASSES,
    decreases MAX_PASSES - done,
{
    let st = pass(length_of, route, best);
    if st.improved {
        if done + 1 < MAX_PASSES {
            lemma_run_is_capped(length_of, st.route, st.best, done + 1);
        } else {
            assert(run(length_of, st.route, st.best, done + 1).passes == done + 1);
        }
    }
}

/// Where the search stands after `k` passes, if none of them ends it.
pub open spec fn after_passes<F: Fn(&Vec<usize>) -> u64>(
    length_of: F,
    route: Seq<usize>,
    best: u64,
    k: nat,
) -> Scan
    decreases k,
{
    if k == 0 {
        Scan { route, best, improved: true }
    } else {
        let prev = after_passes(length_of, route, best, (k - 1) as nat);
        pass(length_of, prev.route, prev.best)
    }
}

/// Every pass before the last allowed one takes a reversal.
pub open spec fn never_settles<F: Fn(&Vec<usize>) -> u64>(length_of: F, route: Seq<usize>, best: u64) -> bool {
    forall|k: nat| 1 <= k < MAX_PASSES ==> (#[trigger] after_passes(length_of, route, best, k)).improved
}

/// From `k` passes on, a search that never settles runs up to the cap.
pub proof fn lemma_runs_to_cap<F: Fn(&Vec<usize>) -> u64>(
    length_of: F,
    route: Seq<usize>,
    best: u64,
    k: nat,
)
    requires
        never_settles(length_of, route, best),
        k <= MAX_PASSES,
    ensures
        run(
            length_of,
            after_passes(length_of, route, best, k).route,
            after_passes(length_of, route, best, k).best,
            k,
        ) == (Outcome {
            route: after_passes(length_of, route, best, MAX_PASSES as nat).route,
            distance: after_passes(length_of, route, best, MAX_PASSES as nat).best,
            passes: MAX_PASSES as nat,
        }),
    decreases MAX_PASSES - k,
{
    if k < MAX_PASSES {
        let here = after_passes(length_of, route, best, k);
        let next = after_passes(length_of, route, best, k + 1);
        assert(next == pass(length_of, here.route, here.best));
        lemma_runs_to_cap(length_of, route, best, k + 1);
    }
}

/// A search in which every pass takes a reversal stops after exactly
/// `MAX_PASSES` passes, with the tour and the length that the last pass left.
pub proof fn lemma_cap_is_reached<F: Fn(&Vec<usize>) -> u64>(length_of: F, s: Seq<usize>)
    requires
        never_settles(length_of, s, length(length_of, s)),
    ensures
        search(length_of, s) == (Outcome {
            route: after_passes(length_of, s, length(length_of, s), MAX_PASSES as nat).route,
            distance: after_passes(length_of, s, length(length_of, s), MAX_PASSES as nat).best,
            passes: MAX_PASSES as nat,
        }),
{
    lemma_runs_to_cap(length_of, s, length(length_of, s), 0);
}

/// Improves `initial` by two-opt passes and returns the tour reached.
///
/// A pass tries the reversals of the segments `i..=j` with `1 <= i < j < n - 1`,
/// `i` ascending and `j` ascending within `i`, measures each candidate whole,
/// and takes it at once if it measures strictly below the best length so far.
/// The search ends after the first pass that took nothing, or after
/// `MAX_PASSES` passes.
///
/// Whatever `length_of` answers, the outcome is a tour over the same points,
/// `distance` is what `length_of` gave of that very tour and not above what it
/// gave of `initial`, and fewer than `MAX_PASSES` passes are made only if the
/// last pass saw no shorter candidate. A start that no reversal can shorten
/// comes back unchanged after one pass. If `length_of` gives one length per
/// tour, the outcome is exactly `search(length_of, initial@)`.
pub fn optimize<F: Fn(&Vec<usize>) -> u64>(initial: Vec<usize>, length_of: F) -> (res: TourResult)
    requires
        is_tour(initial@),
        accepts_tours(length_of, initial@.len()),
    ensures
        is_tour(res.route@),
        res.route@.len() == initial@.len(),
        length_of.ensures((&res.route,), res.distance),
        1 <= res.passes <= MAX_PASSES,
        exists|d0: u64| #[trigger] measures(length_of, initial@, d0) && res.distance <= d0,
        res.passes < MAX_PASSES ==> settled(length_of, res.route@, res.distance),
        starts_optimal(length_of, initial@) ==> res.route@ == initial@ && res.passes == 1,
        single_valued(length_of) ==> res@ == search(length_of, initial@) && res.distance == length(
            length_of,
            res.route@,
        ),
{
    let n: usize = initial.len();
    let i_end: usize = if n >= 2 { n - 2 } else { 0 };
    let j_end: usize = if n >= 1 { n - 1 } else { 0 };
    let ghost start = initial@;
    let mut route = initial;
    let mut best: u64 = length_of(&route);
    let ghost d0 = best;
    assert(measures(length_of, start, d0));
    proof {
        if single_valued(length_of) {
            lemma_measured_is_length(length_of, start, d0);
        }
    }
    let mut improved = true;
    let mut passes: usize = 0;
    while improved && passes < MAX_PASSES
        invariant
            n == route@.len(),
            n == start.len(),
            i_end == if n >= 2 { n - 2 } else { 0 },
            j_end == if n >= 1 { n - 1 } else { 0 },
            is_tour(route@),
            accepts_tours(length_of, n as nat),
            length_of.ensures((&route,), best),
            measures(length_of, start, d0),
            best <= d0,
            passes <= MAX_PASSES,
            improved || passes >= 1,
            !improved ==> settled(length_of, route@, best),
            locally_optimal(length_of, start, d0) ==> route@ == start && best == d0 && passes <= 1
                && (passes == 1 ==> !improved),
            single_valued(length_of) ==> resume(length_of, route@, best, improved, passes as nat)
                == search(length_of, start),
        decreases MAX_PASSES - passes,
    {
        let ghost goal = pass(length_of, route@, best);
        improved = false;
        passes += 1;
        let mut i: usize = 1;
        while i < i_end
            invariant
                n == route@.len(),
                n == start.len(),
                i_end == if n >= 2 { n - 2 } else { 0 },
                j_end == if n >= 1 { n - 1 } else { 0 },
                1 <= i,
                is_tour(route@),
                accepts_tours(length_of, n as nat),
                length_of.ensures((&route,), best),
                best <= d0,
                !improved ==> forall|a: int, b: int|
                    1 <= a < i && a < b < n - 1 ==> #[trigger] may_reject(
                        length_of,
                        reversed(route@, a, b),
                        best,
                    ),
                locally_optimal(length_of, start, d0) ==> route@ == start && best == d0 && !improved,
                single_valued(length_of) ==> scan_rows(
                    length_of,
                    n as int,
                    Scan { route: route@, best, improved },
                    i as int,
                ) == goal,
            decreases i_end - i,
        {
            let mut j: usize = i + 1;
            while j < j_end
                invariant
                    n == route@.len(),
                    n == start.len(),
                    j_end == if n >= 1 { n - 1 } else { 0 },
                    1 <= i < j,
                    i < i_end,
                    i_end == if n >= 2 { n - 2 } else { 0 },
                    is_tour(route@),
                    accepts_tours(length_of, n as nat),
                    length_of.ensures((&route,), best),
                    best <= d0,
                    !improved ==> forall|a: int, b: int|
                        1 <= a < i && a < b < n - 1 ==> #[trigger] may_reject(
                            length_of,
                            reversed(route@, a, b),
                            best,
                        ),
                    !improved ==> forall|b: int|
                        i < b < j ==> #[trigger] may_reject(
                            length_of,
                            reversed(route@, i as int, b),
                            best,
                        ),
                    locally_optimal(length_of, start, d0) ==> route@ == start && best == d0
                        && !improved,
                    single_valued(length_of) ==> scan_rows(
                        length_of,
                        n as int,
                        scan_row(
                            length_of,
                            n as int,
                            Scan { route: route@, best, improved },
                            i as int,
                            j as int,
                        ),
                        i + 1,
                    ) == goal,
                decreases j_end - j,
            {
                let ghost before = Scan { route: route@, best, improved };
                let candidate = reverse_segment(&route, i, j);
                proof {
                    lemma_reversed_is_tour(route@, i as int, j as int);
                }
                let d: u64 = length_of(&candidate);
                proof {
                    assert(measures(length_of, reversed(route@, i as int, j as int), d));
                    if locally_optimal(length_of, start, d0) {
                        assert(is_move(n as int, i as int, j as int));
                        assert(no_shorter(length_of, reversed(start, i as int, j as int), d0));
                    }
                    if single_valued(length_of) {
                        lemma_measured_is_length(length_of, candidate@, d);
                    }
                }
                if d < best {
                    route = candidate;
                    best = d;
                    improved = true;
                } else {
                    assert(may_reject(length_of, reversed(route@, i as int, j as int), best));
                }
                j += 1;
                assert(single_valued(length_of) ==> Scan { route: route@, best, improved }
                    == try_move(length_of, before, i as int, j - 1));
            }
            i += 1;
        }
    }
    proof {
        if single_valued(length_of) {
            lemma_measured_is_length(length_of, route@, best);
        }
    }
    TourResult { route, distance: best, passes }
}

/// Searches from a randomly swapped starting tour over `n` points.
///
/// Whatever the draws, the outcome is a tour over the `n` points, `distance`
/// is what `length_of` gave of that very tour, and the search made at most
/// `MAX_PASSES` passes, fewer only if the last of them took no reversal.
pub fn two_opt<F: Fn(&Vec<usize>) -> u64>(n: usize, length_of: F) -> (res: TourResult)
    requires
        accepts_tours(length_of, n as nat),
    ensures
        is_tour(res.route@),
        res.route@.len() == n,
        length_of.ensures((&res.route,), res.distance),
        1 <= res.passes <= MAX_PASSES,
        res.passes < MAX_PASSES ==> settled(length_of, res.route@, res.distance),
        n == 0 ==> res.route@ == Seq::<usize>::empty(),
        n == 1 ==> res.route@ == seq![0usize],
        n < 4 ==> res.passes == 1,
        single_valued(length_of) ==> res.distance == length(length_of, res.route@) && exists|
            draws: Seq<usize>,
        |
            valid_draws(n as nat, draws) && res@ == search(
                length_of,
                #[trigger] shuffled(n as nat, draws, n as nat),
            ),
{
    let initial = initial_tour(n);
    let res = optimize(initial, length_of);
    proof {
        if n <= 1 {
            lemma_small_tours(res.route@);
        }
    }
    res
}

} // verus!
