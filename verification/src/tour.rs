//! Tours as sequences of point indices, and the segment reversal that the
//! search is built from.

use vstd::prelude::*;

verus! {

/// A tour over `s.len()` points: every entry is the index of a point, no index
/// stands twice, and none is left out.
pub open spec fn is_tour(s: Seq<usize>) -> bool {
    &&& forall|k: int| 0 <= k < s.len() ==> (#[trigger] s[k]) < s.len()
    &&& forall|a: int, b: int|
        0 <= a < s.len() && 0 <= b < s.len() && a != b ==> #[trigger] s[a] != #[trigger] s[b]
    &&& forall|v: usize| v < s.len() ==> #[trigger] s.contains(v)
}

/// The position that `k` is read from when the positions `i..=j` are mirrored.
pub open spec fn mirror(i: int, j: int, k: int) -> int {
    if i <= k <= j {
        i + j - k
    } else {
        k
    }
}

/// `s` with the entries at the positions `i..=j` in opposite order.
pub open spec fn reversed(s: Seq<usize>, i: int, j: int) -> Seq<usize> {
    Seq::new(s.len(), |k: int| s[mirror(i, j, k)])
}

/// The order that visits the points as they are numbered.
pub open spec fn identity_tour(n: nat) -> Seq<usize> {
    Seq::new(n, |k: int| k as usize)
}

/// `s` with the entries at the positions `a` and `b` exchanged.
pub open spec fn swapped(s: Seq<usize>, a: int, b: int) -> Seq<usize> {
    s.update(a, s[b]).update(b, s[a])
}

/// The edges of the closed tour `s`, in visiting order: each entry paired with
/// its successor, the last with the first.
pub open spec fn edges(s: Seq<usize>) -> Seq<(usize, usize)> {
    Seq::new(s.len(), |k: int| (s[k], s[(k + 1) % (s.len() as int)]))
}

/// Reversing a segment of a tour gives a tour.
pub proof fn lemma_reversed_is_tour(s: Seq<usize>, i: int, j: int)
    requires
        is_tour(s),
        0 <= i <= j < s.len(),
    ensures
        is_tour(reversed(s, i, j)),
        reversed(s, i, j).len() == s.len(),
{
    let r = reversed(s, i, j);
    assert forall|v: usize| v < r.len() implies #[trigger] r.contains(v) by {
        assert(s.contains(v));
        let k = choose|k: int| 0 <= k < s.len() && s[k] == v;
        let m = mirror(i, j, k);
        assert(r[m] == v);
    }
    assert forall|a: int, b: int|
        0 <= a < r.len() && 0 <= b < r.len() && a != b implies #[trigger] r[a] != #[trigger] r[b] by {
        assert(mirror(i, j, a) != mirror(i, j, b));
    }
}

/// Reversing the same segment twice gives the sequence back.
pub proof fn lemma_reversed_twice(s: Seq<usize>, i: int, j: int)
    requires
        0 <= i <= j < s.len(),
    ensures
        reversed(reversed(s, i, j), i, j) =~= s,
{
    assert forall|k: int| 0 <= k < s.len() implies reversed(reversed(s, i, j), i, j)[k] == s[k] by {
        assert(mirror(i, j, mirror(i, j, k)) == k);
    }
}

/// The identity order is a tour.
pub proof fn lemma_identity_is_tour(n: nat)
    requires
        n <= usize::MAX,
    ensures
        is_tour(identity_tour(n)),
        identity_tour(n).len() == n,
{
    let s = identity_tour(n);
    assert forall|v: usize| v < s.len() implies #[trigger] s.contains(v) by {
        assert(s[v as int] == v);
    }
}

/// Exchanging two entries of a tour gives a tour.
pub proof fn lemma_swapped_is_tour(s: Seq<usize>, a: int, b: int)
    requires
        is_tour(s),
        0 <= a < s.len(),
        0 <= b < s.len(),
    ensures
        is_tour(swapped(s, a, b)),
        swapped(s, a, b).len() == s.len(),
{
    let r = swapped(s, a, b);
    assert forall|v: usize| v < r.len() implies #[trigger] r.contains(v) by {
        assert(s.contains(v));
        let k = choose|k: int| 0 <= k < s.len() && s[k] == v;
        let m = if k == a { b } else if k == b { a } else { k };
        assert(r[m] == v);
    }
    assert forall|x: int, y: int|
        0 <= x < r.len() && 0 <= y < r.len() && x != y implies #[trigger] r[x] != #[trigger] r[y] by {
        let mx = if x == a { b } else if x == b { a } else { x };
        let my = if y == a { b } else if y == b { a } else { y };
        assert(r[x] == s[mx] && r[y] == s[my] && mx != my);
    }
}

/// A tour over no point is empty, and a tour over one point visits point 0.
pub proof fn lemma_small_tours(s: Seq<usize>)
    requires
        is_tour(s),
        s.len() <= 1,
    ensures
        s.len() == 0 ==> s =~= Seq::<usize>::empty(),
        s.len() == 1 ==> s =~= seq![0usize],
{
    if s.len() == 1 {
        assert(s[0] < 1);
    }
}

/// Copies `route` with the entries at the positions `i..=j` in opposite order.
pub fn reverse_segment(route: &Vec<usize>, i: usize, j: usize) -> (out: Vec<usize>)
    requires
        i <= j < route@.len(),
    ensures
        out@ == reversed(route@, i as int, j as int),
{
    let n: usize = route.len();
    let mut out: Vec<usize> = Vec::new();
    let mut k: usize = 0;
    while k < n
        invariant
            k <= n,
            n == route@.len(),
            i <= j < n,
            out@.len() == k,
            forall|m: int| 0 <= m < k ==> out@[m] == route@[mirror(i as int, j as int, m)],
        decreases n - k,
    {
        let v: usize = if i <= k && k <= j {
            route[j - (k - i)]
        } else {
            route[k]
        };
        out.push(v);
        k += 1;
    }
    assert(out@ =~= reversed(route@, i as int, j as int));
    out
}

/// The edges of the closed tour `route` in visiting order, the closing edge
/// from the last point back to the first included.
pub fn tour_edges(route: &Vec<usize>) -> (out: Vec<(usize, usize)>)
    ensures
        out@ == edges(route@),
{
    let n: usize = route.len();
    let mut out: Vec<(usize, usize)> = Vec::new();
    let mut k: usize = 0;
    while k < n
        invariant
            k <= n,
            n == route@.len(),
            out@.len() == k,
            forall|m: int| 0 <= m < k ==> out@[m] == (route@[m], route@[(m + 1) % (n as int)]),
        decreases n - k,
    {
        let next: usize = (k + 1) % n;
        out.push((route[k], route[next]));
        k += 1;
    }
    assert(out@ =~= edges(route@));
    out
}

} // verus!
