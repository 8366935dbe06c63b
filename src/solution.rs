use vstd::prelude::*;

use crate::error::InvalidMutation;
use crate::matrix::DistanceMatrix;
use crate::random::{random_index, shuffle_in_place};

verus! {

/// `x` brought back into `[0, n)`, for `0 <= x < 2n`.
pub open spec fn wrap(x: int, n: int) -> int {
    if x < n {
        x
    } else {
        x - n
    }
}

/// The number of forward steps from position `from` to position `to` on a
/// cycle of `n` positions.
pub open spec fn steps(from: int, to: int, n: int) -> int {
    if from <= to {
        to - from
    } else {
        to - from + n
    }
}

/// `p` is a permutation of `0..p.len()`: every city appears exactly once.
pub open spec fn is_tour(p: Seq<usize>) -> bool {
    &&& p.no_duplicates()
    &&& forall|i: int| 0 <= i < p.len() ==> #[trigger] p[i] < p.len()
}

/// A segment swap of windows of length `len` on `n` positions can always find
/// two disjoint windows.
pub open spec fn swap_length_ok(len: int, n: int) -> bool {
    3 * len <= n + 2
}

/// The windows of length `len` starting at `a` and at `b` do not overlap on a
/// cycle of `n` positions.
pub open spec fn windows_disjoint(a: int, b: int, len: int, n: int) -> bool {
    len <= steps(a, b, n) && steps(a, b, n) <= n - len
}

/// The anchors of the two windows that a segment swap at raw anchors `i` and
/// `j` exchanges. With `f <= s` the raw anchors in order and `d = s - f`:
/// the windows start at `f` and `s` where that places them apart; when `s` is
/// too close after `f`, the first window ends at `f` instead (wrapping through
/// the origin); when `f` is too close after `s` around the cycle, the second
/// window ends at `s`.
pub open spec fn swap_anchors(i: int, j: int, len: int, n: int) -> (int, int) {
    let f = if i <= j { i } else { j };
    let s = if i <= j { j } else { i };
    let d = s - f;
    if len <= d && d <= n - len {
        (f, s)
    } else if d < len {
        (if f + 1 >= len { f + 1 - len } else { f + 1 - len + n }, s)
    } else {
        (f, s + 1 - len)
    }
}

/// Where the city at position `k` comes from once the windows at `a` and `b`
/// of length `len` are exchanged.
pub open spec fn swap_position(k: int, a: int, b: int, len: int, n: int) -> int {
    if steps(a, k, n) < len {
        wrap(b + steps(a, k, n), n)
    } else if steps(b, k, n) < len {
        wrap(a + steps(b, k, n), n)
    } else {
        k
    }
}

/// `p` with its windows at `a` and `b` of length `len` exchanged element-wise.
pub open spec fn swap_windows(p: Seq<usize>, a: int, b: int, len: int) -> Seq<usize> {
    Seq::new(p.len(), |k: int| p[swap_position(k, a, b, len, p.len() as int)])
}

/// The tour after a segment swap at raw anchors `i`, `j` with length `len`.
/// Equal anchors or an empty window leave the tour as it is.
pub open spec fn segment_swapped(p: Seq<usize>, i: int, j: int, len: int) -> Seq<usize> {
    if i == j || len == 0 {
        p
    } else {
        swap_windows(
            p,
            swap_anchors(i, j, len, p.len() as int).0,
            swap_anchors(i, j, len, p.len() as int).1,
            len,
        )
    }
}

/// The derived anchors lie on the cycle and their windows are disjoint.
pub proof fn lemma_anchors_disjoint(i: int, j: int, len: int, n: int)
    requires
        0 <= i < n,
        0 <= j < n,
        i != j,
        1 <= len,
        swap_length_ok(len, n),
    ensures
        0 <= swap_anchors(i, j, len, n).0 < n,
        0 <= swap_anchors(i, j, len, n).1 < n,
        windows_disjoint(swap_anchors(i, j, len, n).0, swap_anchors(i, j, len, n).1, len, n),
{
}

/// Exchanging two disjoint windows moves each position to a position on the
/// cycle, and doing it twice puts every position back.
pub proof fn lemma_swap_position_involution(k: int, a: int, b: int, len: int, n: int)
    requires
        0 <= k < n,
        0 <= a < n,
        0 <= b < n,
        0 <= len,
        windows_disjoint(a, b, len, n),
    ensures
        0 <= swap_position(k, a, b, len, n) < n,
        swap_position(swap_position(k, a, b, len, n), a, b, len, n) == k,
{
}


/// Exchanging two disjoint windows twice restores the sequence.
pub proof fn lemma_swap_windows_twice(p: Seq<usize>, a: int, b: int, len: int)
    requires
        0 <= a < p.len(),
        0 <= b < p.len(),
        0 <= len,
        windows_disjoint(a, b, len, p.len() as int),
    ensures
        swap_windows(swap_windows(p, a, b, len), a, b, len) == p,
{
    let n = p.len() as int;
    let q = swap_windows(p, a, b, len);
    assert forall|k: int| 0 <= k < n implies #[trigger] swap_windows(q, a, b, len)[k] == p[k] by {
        lemma_swap_position_involution(k, a, b, len, n);
    }
    assert(swap_windows(q, a, b, len) =~= p);
}

/// Exchanging two disjoint windows of a tour gives a tour.
pub proof fn lemma_swap_windows_tour(p: Seq<usize>, a: int, b: int, len: int)
    requires
        is_tour(p),
        0 <= a < p.len(),
        0 <= b < p.len(),
        0 <= len,
        windows_disjoint(a, b, len, p.len() as int),
    ensures
        is_tour(swap_windows(p, a, b, len)),
{
    let n = p.len() as int;
    let q = swap_windows(p, a, b, len);
    assert forall|k: int| 0 <= k < n implies #[trigger] q[k] < n by {
        lemma_swap_position_involution(k, a, b, len, n);
    }
    assert forall|k1: int, k2: int| 0 <= k1 < n && 0 <= k2 < n && k1 != k2 implies q[k1]
        != q[k2] by {
        lemma_swap_position_involution(k1, a, b, len, n);
        lemma_swap_position_involution(k2, a, b, len, n);
    }
}

/// A segment swap keeps a tour a tour, and repeating it with the same
/// arguments restores the tour it started from.
pub proof fn lemma_segment_swap_tour_and_self_inverse(p: Seq<usize>, i: int, j: int, len: int)
    requires
        is_tour(p),
        0 <= i < p.len(),
        0 <= j < p.len(),
        0 <= len,
        swap_length_ok(len, p.len() as int),
    ensures
        is_tour(segment_swapped(p, i, j, len)),
        segment_swapped(segment_swapped(p, i, j, len), i, j, len) == p,
{
    if i != j && len != 0 {
        let n = p.len() as int;
        let (a, b) = swap_anchors(i, j, len, n);
        lemma_anchors_disjoint(i, j, len, n);
        lemma_swap_windows_tour(p, a, b, len);
        lemma_swap_windows_twice(p, a, b, len);
    }
}

/// The cost of the edge leaving position `i` of `p` on the cycle.
pub open spec fn edge_cost(m: DistanceMatrix, p: Seq<usize>, i: int) -> int {
    m.weight(p[i] as int, p[wrap(i + 1, p.len() as int)] as int)
}

/// The cost of the first `k` edges of the cycle `p`.
pub open spec fn partial_cost(m: DistanceMatrix, p: Seq<usize>, k: int) -> int
    decreases k,
{
    if k <= 0 {
        0
    } else {
        partial_cost(m, p, k - 1) + edge_cost(m, p, k - 1)
    }
}

/// The cost of the closed cycle through the cities of `p` in order.
pub open spec fn tour_cost(m: DistanceMatrix, p: Seq<usize>) -> int {
    partial_cost(m, p, p.len() as int)
}

/// Every city of `p` is a row of `m`.
pub open spec fn cities_in(m: DistanceMatrix, p: Seq<usize>) -> bool {
    forall|i: int| 0 <= i < p.len() ==> #[trigger] p[i] < m.size
}

/// The weight from `from` to `to`, read in the reverse direction when
/// `backward` (as in the transposed matrix).
pub open spec fn directed_weight(m: DistanceMatrix, from: int, to: int, backward: bool) -> int {
    if backward {
        m.weight(to, from)
    } else {
        m.weight(from, to)
    }
}

/// `next` is the unvisited city nearest to the last city of `prefix`, the
/// lowest index among equally near ones.
pub open spec fn is_nearest(m: DistanceMatrix, prefix: Seq<usize>, next: usize, backward: bool) -> bool {
    let cur = prefix.last() as int;
    &&& next < m.size
    &&& !prefix.contains(next)
    &&& forall|c: usize|
        c < m.size && !prefix.contains(c) && c != next ==> directed_weight(m, cur, next as int, backward)
            < directed_weight(m, cur, c as int, backward) || (directed_weight(
            m,
            cur,
            next as int,
            backward,
        ) == directed_weight(m, cur, c as int, backward) && next < c)
}

/// `p` is the greedy tour from `start`: it begins there and each later city
/// is the nearest unvisited one to the city before it.
pub open spec fn is_greedy_tour(m: DistanceMatrix, start: usize, backward: bool, p: Seq<usize>) -> bool {
    &&& p.len() == m.size
    &&& p[0] == start
    &&& is_tour(p)
    &&& forall|t: int| 1 <= t < p.len() ==> #[trigger] is_nearest(m, p.take(t), p[t], backward)
}

/// Greedy tours that agree on the first `t` cities of one another.
proof fn lemma_greedy_prefix(
    m: DistanceMatrix,
    start: usize,
    backward: bool,
    p: Seq<usize>,
    q: Seq<usize>,
    t: int,
)
    requires
        is_greedy_tour(m, start, backward, p),
        is_greedy_tour(m, start, backward, q),
        1 <= t <= p.len(),
    ensures
        p.take(t) == q.take(t),
    decreases t,
{
    if t == 1 {
        assert(p.take(1) =~= q.take(1));
    } else {
        lemma_greedy_prefix(m, start, backward, p, q, t - 1);
        let prefix = p.take(t - 1);
        assert(is_nearest(m, p.take(t - 1), p[t - 1], backward));
        assert(is_nearest(m, q.take(t - 1), q[t - 1], backward));
        let a = p[t - 1];
        let b = q[t - 1];
        if a != b {
            assert(!prefix.contains(b));
            assert(!prefix.contains(a));
            assert(false);
        }
        assert(p.take(t) =~= q.take(t));
    }
}

/// There is one greedy tour from each start in each direction.
pub proof fn lemma_greedy_unique(
    m: DistanceMatrix,
    start: usize,
    backward: bool,
    p: Seq<usize>,
    q: Seq<usize>,
)
    requires
        m.wf(),
        is_greedy_tour(m, start, backward, p),
        is_greedy_tour(m, start, backward, q),
    ensures
        p == q,
{
    lemma_greedy_prefix(m, start, backward, p, q, p.len() as int);
    assert(p.take(p.len() as int) =~= p);
    assert(q.take(q.len() as int) =~= q);
}

/// The number of unvisited cities among the first `k` flags.
pub open spec fn unvisited_count(flags: Seq<bool>, k: int) -> int
    decreases k,
{
    if k <= 0 {
        0
    } else {
        unvisited_count(flags, k - 1) + if flags[k - 1] {
            0int
        } else {
            1int
        }
    }
}

proof fn lemma_unvisited_all(flags: Seq<bool>, k: int)
    requires
        0 <= k <= flags.len(),
        forall|i: int| 0 <= i < flags.len() ==> !flags[i],
    ensures
        unvisited_count(flags, k) == k,
    decreases k,
{
    if k > 0 {
        lemma_unvisited_all(flags, k - 1);
    }
}

proof fn lemma_unvisited_mark(flags: Seq<bool>, j: int, k: int)
    requires
        0 <= j < flags.len(),
        0 <= k <= flags.len(),
        !flags[j],
    ensures
        unvisited_count(flags.update(j, true), k) == unvisited_count(flags, k) - if j < k {
            1int
        } else {
            0int
        },
    decreases k,
{
    if k > 0 {
        lemma_unvisited_mark(flags, j, k - 1);
    }
}

proof fn lemma_unvisited_exists(flags: Seq<bool>, k: int)
    requires
        0 <= k <= flags.len(),
        unvisited_count(flags, k) > 0,
    ensures
        exists|i: int| 0 <= i < k && !flags[i],
    decreases k,
{
    if k > 0 && !flags[k - 1] {
    } else if k > 0 {
        lemma_unvisited_exists(flags, k - 1);
    }
}

proof fn lemma_partial_cost_bound(m: DistanceMatrix, p: Seq<usize>, k: int)
    requires
        m.wf(),
        p.len() == m.size,
        cities_in(m, p),
        0 <= k <= p.len(),
    ensures
        0 <= partial_cost(m, p, k) <= k * (u64::MAX as int / m.size as int),
        partial_cost(m, p, k) <= u64::MAX,
    decreases k,
{
    let n = m.size as int;
    let q = u64::MAX as int / n;
    assert(k * q <= u64::MAX) by (nonlinear_arith)
        requires
            n > 0,
            0 <= k <= n,
            q == u64::MAX as int / n,
    ;
    if k > 0 {
        lemma_partial_cost_bound(m, p, k - 1);
        let i = k - 1;
        let a = p[i] as int;
        let b = p[wrap(i + 1, p.len() as int)] as int;
        assert(m.matrix@[a]@.len() == m.size);
        assert(m.weight(a, b) <= u64::MAX as int / m.size as int);
        let q = u64::MAX as int / m.size as int;
        assert((k - 1) * q + q == k * q) by (nonlinear_arith);
    }
}

proof fn lemma_tour_cost_fits(m: DistanceMatrix, p: Seq<usize>)
    requires
        m.wf(),
        p.len() == m.size,
        cities_in(m, p),
    ensures
        0 <= tour_cost(m, p) <= u64::MAX,
{
    lemma_partial_cost_bound(m, p, p.len() as int);
    let n = m.size as int;
    let q = u64::MAX as int / n;
    assert(n * q <= u64::MAX) by (nonlinear_arith)
        requires
            n > 0,
            q == u64::MAX as int / n,
    ;
}

/// Two sequences holding the same items with the same multiplicities are
/// tours together.
pub proof fn lemma_same_items_tour(p: Seq<usize>, q: Seq<usize>)
    requires
        is_tour(p),
        q.to_multiset() == p.to_multiset(),
    ensures
        is_tour(q),
{
    p.to_multiset_ensures();
    q.to_multiset_ensures();
    assert(q.len() == p.len());
    p.lemma_multiset_has_no_duplicates();
    q.lemma_multiset_has_no_duplicates_conv();
    assert forall|k: int| 0 <= k < q.len() implies #[trigger] q[k] < q.len() by {
        assert(q.contains(q[k]));
        assert(p.to_multiset().count(q[k]) > 0);
        assert(p.contains(q[k]));
    }
}

/// Exchanging two items of a sequence keeps its items.
pub proof fn lemma_exchange_same_items(s: Seq<usize>, i: int, j: int)
    requires
        0 <= i < s.len(),
        0 <= j < s.len(),
    ensures
        s.update(i, s[j]).update(j, s[i]).to_multiset() == s.to_multiset(),
{
    broadcast use vstd::seq_lib::group_to_multiset_ensures;
    broadcast use vstd::multiset::group_multiset_axioms;

    let t = s.update(i, s[j]);
    vstd::seq_lib::to_multiset_update(s, i, s[j]);
    vstd::seq_lib::to_multiset_update(t, j, s[i]);
    if i == j {
        assert(s.update(i, s[j]).update(j, s[i]) =~= s);
    } else {
        assert(t[j] == s[j]);
        assert(s.update(i, s[j]).update(j, s[i]).to_multiset() =~= s.to_multiset());
    }
}

/// Exchanges the contents of two slices of equal length, position by
/// position.
pub fn swap_slices(first: &mut [usize], second: &mut [usize])
    requires
        old(first)@.len() == old(second)@.len(),
    ensures
        final(first)@ == old(second)@,
        final(second)@ == old(first)@,
{
    let n = first.len();
    let mut i: usize = 0;
    while i < n
        invariant
            n == first@.len(),
            n == second@.len(),
            n == old(first)@.len(),
            n == old(second)@.len(),
            i <= n,
            forall|k: int| 0 <= k < i ==> #[trigger] first@[k] == old(second)@[k],
            forall|k: int| 0 <= k < i ==> #[trigger] second@[k] == old(first)@[k],
            forall|k: int| i <= k < n ==> #[trigger] first@[k] == old(first)@[k],
            forall|k: int| i <= k < n ==> #[trigger] second@[k] == old(second)@[k],
        decreases n - i,
    {
        let x = first[i];
        first[i] = second[i];
        second[i] = x;
        i = i + 1;
    }
    assert(first@ =~= old(second)@);
    assert(second@ =~= old(first)@);
}

/// A tour as a sequence of city indices, with its length cached.
#[derive(Debug, Clone)]
pub struct Solution {
    pub path: Vec<usize>,
    pub size: usize,
}

impl View for Solution {
    type V = Seq<usize>;

    open spec fn view(&self) -> Seq<usize> {
        self.path@
    }
}

/// Whether windows of `length` allow a segment swap on `n` positions.
pub fn swap_length_fits(length: usize, n: usize) -> (r: bool)
    ensures
        r == swap_length_ok(length as int, n as int),
{
    length <= n && !(length > 0 && length - 1 > (n - length) / 2)
}

/// Each draw fits its Fisher–Yates step: the `t`-th is at most `t`.
pub open spec fn valid_draws(draws: Seq<usize>) -> bool {
    forall|t: int| 0 <= t < draws.len() ==> #[trigger] draws[t] <= t
}

/// The first `t` Fisher–Yates steps (taken from the last one down) on the
/// cyclic window at `start`: step `t` exchanges window positions `t - 1` and
/// `draws[t - 1]`.
pub open spec fn window_fisher_yates(p: Seq<usize>, start: int, draws: Seq<usize>, t: int) -> Seq<
    usize,
>
    decreases t,
{
    if t <= 0 {
        p
    } else {
        let i = wrap(start + t - 1, p.len() as int);
        let j = wrap(start + draws[t - 1], p.len() as int);
        window_fisher_yates(p.update(i, p[j]).update(j, p[i]), start, draws, t - 1)
    }
}

/// `a + off` taken around a cycle of `n` positions.
fn wrap_add(a: usize, off: usize, n: usize) -> (r: usize)
    requires
        a < n,
        off < n,
    ensures
        r == wrap(a + off, n as int),
{
    if off < n - a {
        a + off
    } else {
        off - (n - a)
    }
}

/// The weight from `from` to `to`, reversed when `backward`.
fn directed(dmatrix: &DistanceMatrix, from: usize, to: usize, backward: bool) -> (r: u64)
    requires
        dmatrix.wf(),
        from < dmatrix.size,
        to < dmatrix.size,
    ensures
        r == directed_weight(*dmatrix, from as int, to as int, backward),
{
    proof {
        assert(dmatrix.matrix@[from as int]@.len() == dmatrix.size);
        assert(dmatrix.matrix@[to as int]@.len() == dmatrix.size);
    }
    if backward {
        dmatrix.matrix[to][from]
    } else {
        dmatrix.matrix[from][to]
    }
}

/// Builds the greedy tour from `starting_city`: repeatedly moves to the
/// nearest unvisited city (lowest index on ties).
fn greedy_tour(dmatrix: &DistanceMatrix, starting_city: usize, backward: bool) -> (r: Solution)
    requires
        dmatrix.wf(),
        starting_city < dmatrix.size,
    ensures
        r.wf(),
        r.size == dmatrix.size,
        is_greedy_tour(*dmatrix, starting_city, backward, r.path@),
{
    let n = dmatrix.size;
    let mut path: Vec<usize> = Vec::new();
    let mut visited: Vec<bool> = vec![false; n];
    proof {
        lemma_unvisited_all(visited@, n as int);
        lemma_unvisited_mark(visited@, starting_city as int, n as int);
    }
    path.push(starting_city);
    visited[starting_city] = true;
    let mut current = starting_city;
    proof {
        assert forall|c: int| 0 <= c < n implies (#[trigger] visited@[c] <==> path@.contains(
            c as usize,
        )) by {
            if c == starting_city {
                assert(path@[0] == starting_city);
            }
        }
    }
    while path.len() < n
        invariant
            dmatrix.wf(),
            n == dmatrix.size,
            visited@.len() == n,
            1 <= path@.len() <= n,
            path@[0] == starting_city,
            current == path@.last(),
            path@.no_duplicates(),
            cities_in(*dmatrix, path@),
            forall|c: int| 0 <= c < n ==> (#[trigger] visited@[c] <==> path@.contains(c as usize)),
            unvisited_count(visited@, n as int) == n - path@.len(),
            forall|t: int|
                1 <= t < path@.len() ==> #[trigger] is_nearest(
                    *dmatrix,
                    path@.take(t),
                    path@[t],
                    backward,
                ),
        decreases n - path@.len(),
    {
        proof {
            lemma_unvisited_exists(visited@, n as int);
        }
        let mut best: usize = 0;
        let mut found = false;
        let mut c: usize = 0;
        while c < n
            invariant
                dmatrix.wf(),
                n == dmatrix.size,
                visited@.len() == n,
                current < n,
                c <= n,
                found ==> best < c && !visited@[best as int],
                found ==> forall|d: usize|
                    d < c && !visited@[d as int] && d != best ==> directed_weight(
                        *dmatrix,
                        current as int,
                        best as int,
                        backward,
                    ) < directed_weight(*dmatrix, current as int, d as int, backward) || (
                    directed_weight(*dmatrix, current as int, best as int, backward)
                        == directed_weight(*dmatrix, current as int, d as int, backward) && best
                        < d),
                !found ==> forall|d: int| 0 <= d < c ==> visited@[d],
            decreases n - c,
        {
            if !visited[c] {
                let w = directed(dmatrix, current, c, backward);
                if !found || w < directed(dmatrix, current, best, backward) {
                    best = c;
                    found = true;
                }
            }
            c = c + 1;
        }
        let ghost old_path = path@;
        let ghost old_visited = visited@;
        let ghost prev = current;
        proof {
            lemma_unvisited_mark(visited@, best as int, n as int);
            assert(!old_path.contains(best));
        }
        path.push(best);
        visited[best] = true;
        current = best;
        proof {
            assert(path@.take(old_path.len() as int) =~= old_path);
            assert forall|t: int| 1 <= t < path@.len() implies #[trigger] is_nearest(
                *dmatrix,
                path@.take(t),
                path@[t],
                backward,
            ) by {
                if t < old_path.len() {
                    assert(path@.take(t) =~= old_path.take(t));
                } else {
                    assert(found);
                    assert(path@.take(t) =~= old_path);
                    assert forall|c: usize|
                        c < n && !old_path.contains(c) && c != best implies directed_weight(
                        *dmatrix,
                        prev as int,
                        best as int,
                        backward,
                    ) < directed_weight(*dmatrix, prev as int, c as int, backward) || (
                    directed_weight(*dmatrix, prev as int, best as int, backward)
                        == directed_weight(*dmatrix, prev as int, c as int, backward) && best
                        < c) by {
                        assert(!old_visited[c as int]);
                    }
                }
            }
            assert forall|c: int| 0 <= c < n implies (#[trigger] visited@[c] <==> path@.contains(
                c as usize,
            )) by {
                if c == best {
                    assert(path@[old_path.len() as int] == best);
                } else {
                    assert(old_visited[c] <==> old_path.contains(c as usize));
                    if old_path.contains(c as usize) {
                        let i = choose|i: int| 0 <= i < old_path.len() && old_path[i] == c as usize;
                        assert(path@[i] == c as usize);
                    }
                    if path@.contains(c as usize) {
                        let i = choose|i: int| 0 <= i < path@.len() && path@[i] == c as usize;
                        assert(i < old_path.len());
                        assert(old_path[i] == c as usize);
                    }
                }
            }
        }
    }
    Solution::new(path)
}

impl Solution {
    pub open spec fn wf(&self) -> bool {
        &&& self.size == self.path@.len()
        &&& self.size > 0
    }

    /// Wraps a non-empty sequence of cities.
    pub fn new(path: Vec<usize>) -> (r: Solution)
        requires
            path@.len() > 0,
        ensures
            r.wf(),
            r.path@ == path@,
    {
        let size = path.len();
        Solution { path, size }
    }

    /// A copy of this solution.
    pub fn duplicate(&self) -> (r: Solution)
        ensures
            r.path@ == self.path@,
            r.size == self.size,
    {
        let path = self.path.clone();
        proof {
            assert(path@ =~= self.path@);
        }
        Solution { path, size: self.size }
    }

    /// The anchors of the two disjoint windows that a segment swap at raw
    /// anchors `first_index` and `second_index` exchanges.
    pub fn find_swap_indices(&self, first_index: usize, second_index: usize, length: usize) -> (r:
        (usize, usize))
        requires
            self.wf(),
            first_index < self.size,
            second_index < self.size,
            first_index != second_index,
            1 <= length,
            swap_length_ok(length as int, self.size as int),
        ensures
            (r.0 as int, r.1 as int) == swap_anchors(
                first_index as int,
                second_index as int,
                length as int,
                self.size as int,
            ),
    {
        let n = self.size;
        let (f, s) = if first_index <= second_index {
            (first_index, second_index)
        } else {
            (second_index, first_index)
        };
        let d = s - f;
        if length <= d && d <= n - length {
            (f, s)
        } else if d < length {
            if f + 1 >= length {
                (f + 1 - length, s)
            } else {
                (f + (n - length) + 1, s)
            }
        } else {
            (f, s + 1 - length)
        }
    }

    /// Exchanges two disjoint cyclic windows of `length` positions, anchored at
    /// `first_index` and `second_index` (see [`swap_anchors`]). Fails when
    /// `3 * length - 2 > size`, where no disjoint placement can be relied on.
    pub fn swap_parts(&mut self, first_index: usize, second_index: usize, length: usize) -> (r:
        Result<(), InvalidMutation>)
        requires
            old(self).wf(),
            first_index < old(self).size,
            second_index < old(self).size,
        ensures
            final(self).wf(),
            final(self).size == old(self).size,
            r is Ok <==> swap_length_ok(length as int, old(self).size as int),
            r is Ok ==> final(self).path@ == segment_swapped(
                old(self).path@,
                first_index as int,
                second_index as int,
                length as int,
            ),
            r is Err ==> *final(self) == *old(self),
            is_tour(old(self).path@) ==> is_tour(final(self).path@),
    {
        let n = self.size;
        if !swap_length_fits(length, n) {
            return Err(InvalidMutation { length, size: n });
        }
        proof {
            if is_tour(self.path@) {
                lemma_segment_swap_tour_and_self_inverse(
                    self.path@,
                    first_index as int,
                    second_index as int,
                    length as int,
                );
            }
        }
        if first_index == second_index || length == 0 {
            return Ok(());
        }
        let (a, b) = self.find_swap_indices(first_index, second_index, length);
        let ghost p0 = self.path@;
        proof {
            lemma_anchors_disjoint(first_index as int, second_index as int, length as int, n as int);
        }
        let mut off: usize = 0;
        while off < length
            invariant
                self.wf(),
                self.size == n,
                p0.len() == n,
                a < n,
                b < n,
                off <= length,
                length <= n,
                windows_disjoint(a as int, b as int, length as int, n as int),
                forall|k: int|
                    0 <= k < n ==> #[trigger] self.path@[k] == p0[swap_position(
                        k,
                        a as int,
                        b as int,
                        off as int,
                        n as int,
                    )],
            decreases length - off,
        {
            let p1 = wrap_add(a, off, n);
            let p2 = wrap_add(b, off, n);
            let x = self.path[p1];
            let y = self.path[p2];
            self.path[p1] = y;
            self.path[p2] = x;
            off = off + 1;
        }
        assert(self.path@ =~= swap_windows(p0, a as int, b as int, length as int));
        Ok(())
    }

    /// A uniformly shuffled tour of `size` cities.
    pub fn random_solution(size: usize) -> (r: Solution)
        requires
            size > 0,
        ensures
            r.wf(),
            r.size == size,
            is_tour(r.path@),
    {
        let mut path: Vec<usize> = Vec::new();
        let mut i: usize = 0;
        while i < size
            invariant
                i <= size,
                path@.len() == i,
                forall|k: int| 0 <= k < i ==> #[trigger] path@[k] == k,
            decreases size - i,
        {
            path.push(i);
            i = i + 1;
        }
        proof {
            assert(is_tour(path@));
        }
        let ghost before = path@;
        shuffle_in_place(&mut path);
        proof {
            before.to_multiset_ensures();
            path@.to_multiset_ensures();
            lemma_same_items_tour(before, path@);
        }
        Solution::new(path)
    }

    /// The greedy tour from `starting_city`, each step taking the nearest
    /// unvisited city by the weights leaving the current city.
    pub fn nearest_neightbor_solution(dmatrix: &DistanceMatrix, starting_city: usize) -> (r:
        Solution)
        requires
            dmatrix.wf(),
            starting_city < dmatrix.size,
        ensures
            r.wf(),
            r.size == dmatrix.size,
            is_greedy_tour(*dmatrix, starting_city, false, r.path@),
    {
        greedy_tour(dmatrix, starting_city, false)
    }

    /// The greedy tour from `starting_city` over the transposed weights: each
    /// step takes the unvisited city from which the current one is nearest.
    pub fn backwards_nearest_neightbor_solution(dmatrix: &DistanceMatrix, starting_city: usize) -> (r:
        Solution)
        requires
            dmatrix.wf(),
            starting_city < dmatrix.size,
        ensures
            r.wf(),
            r.size == dmatrix.size,
            is_greedy_tour(*dmatrix, starting_city, true, r.path@),
    {
        greedy_tour(dmatrix, starting_city, true)
    }

    /// The cost of the closed cycle, returning to the first city.
    pub fn cost(&self, dmatrix: &DistanceMatrix) -> (r: u64)
        requires
            self.wf(),
            dmatrix.wf(),
            self.size == dmatrix.size,
            cities_in(*dmatrix, self.path@),
        ensures
            r == tour_cost(*dmatrix, self.path@),
    {
        let n = self.size;
        proof {
            lemma_tour_cost_fits(*dmatrix, self.path@);
        }
        let mut total: u64 = 0;
        let mut i: usize = 0;
        while i < n
            invariant
                self.wf(),
                dmatrix.wf(),
                n == self.size,
                n == dmatrix.size,
                cities_in(*dmatrix, self.path@),
                i <= n,
                total == partial_cost(*dmatrix, self.path@, i as int),
            decreases n - i,
        {
            let j: usize = if i + 1 < n {
                i + 1
            } else {
                0
            };
            proof {
                lemma_partial_cost_bound(*dmatrix, self.path@, i as int + 1);
                lemma_tour_cost_fits(*dmatrix, self.path@);
                assert(dmatrix.matrix@[self.path@[i as int] as int]@.len() == n);
            }
            total = total + dmatrix.matrix[self.path[i]][self.path[j]];
            i = i + 1;
        }
        total
    }

    /// Applies the Fisher–Yates steps given by `draws` to the cyclic window
    /// of `draws.len()` positions starting at `start`: for `t` from the window's
    /// length down to one, the `t`-th position of the window is exchanged with
    /// its `draws[t - 1]`-th position (see [`window_fisher_yates`]).
    pub fn shuffle_window_with(&mut self, start: usize, draws: &Vec<usize>)
        requires
            old(self).wf(),
            start < old(self).size,
            draws@.len() <= old(self).size,
            valid_draws(draws@),
        ensures
            final(self).wf(),
            final(self).size == old(self).size,
            final(self).path@ == window_fisher_yates(
                old(self).path@,
                start as int,
                draws@,
                draws@.len() as int,
            ),
            final(self).path@.to_multiset() == old(self).path@.to_multiset(),
            is_tour(old(self).path@) ==> is_tour(final(self).path@),
            forall|k: int|
                0 <= k < old(self).size && steps(start as int, k, old(self).size as int)
                    >= draws@.len() ==> #[trigger] final(self).path@[k] == old(self).path@[k],
    {
        let n = self.size;
        let length = draws.len();
        let ghost p0 = self.path@;
        let mut t: usize = length;
        while t > 0
            invariant
                self.wf(),
                self.size == n,
                p0.len() == n,
                start < n,
                t <= length,
                length == draws@.len(),
                length <= n,
                valid_draws(draws@),
                window_fisher_yates(self.path@, start as int, draws@, t as int)
                    == window_fisher_yates(p0, start as int, draws@, length as int),
                self.path@.to_multiset() == p0.to_multiset(),
                forall|k: int|
                    0 <= k < n && steps(start as int, k, n as int) >= length ==> #[trigger] self.path@[k]
                        == p0[k],
            decreases t,
        {
            let o = draws[t - 1];
            let p1 = wrap_add(start, t - 1, n);
            let p2 = wrap_add(start, o, n);
            let ghost before = self.path@;
            proof {
                lemma_exchange_same_items(before, p1 as int, p2 as int);
            }
            let x = self.path[p1];
            let y = self.path[p2];
            self.path[p1] = y;
            self.path[p2] = x;
            assert(self.path@ == before.update(p1 as int, before[p2 as int]).update(
                p2 as int,
                before[p1 as int],
            ));
            t = t - 1;
        }
        proof {
            if is_tour(p0) {
                lemma_same_items_tour(p0, self.path@);
            }
        }
    }

    /// Shuffles the cyclic window of `length` positions starting at `start`,
    /// wrapping past the end, by Fisher–Yates with uniform draws; a window
    /// longer than the tour shuffles the whole tour. Positions outside the
    /// window keep their cities.
    pub fn shuffle(&mut self, start: usize, length: usize)
        requires
            old(self).wf(),
            start < old(self).size,
        ensures
            final(self).wf(),
            final(self).size == old(self).size,
            final(self).path@.to_multiset() == old(self).path@.to_multiset(),
            is_tour(old(self).path@) ==> is_tour(final(self).path@),
            length <= old(self).size ==> exists|draws: Seq<usize>|
                draws.len() == length && valid_draws(draws) && final(self).path@
                    == #[trigger] window_fisher_yates(
                    old(self).path@,
                    start as int,
                    draws,
                    length as int,
                ),
            length <= old(self).size ==> forall|k: int|
                0 <= k < old(self).size && steps(start as int, k, old(self).size as int)
                    >= length ==> #[trigger] final(self).path@[k] == old(self).path@[k],
    {
        let n = self.size;
        if length > n {
            let ghost before = self.path@;
            shuffle_in_place(&mut self.path);
            proof {
                before.to_multiset_ensures();
                self.path@.to_multiset_ensures();
                if is_tour(before) {
                    lemma_same_items_tour(before, self.path@);
                }
            }
            return ;
        }
        let draws = uniform_draws(length);
        self.shuffle_window_with(start, &draws);
    }
}

/// `length` draws, the `t`-th uniform in `0..=t`.
pub(crate) fn uniform_draws(length: usize) -> (r: Vec<usize>)
    ensures
        r@.len() == length,
        valid_draws(r@),
{
    let mut r: Vec<usize> = Vec::new();
    let mut t: usize = 0;
    while t < length
        invariant
            t <= length,
            r@.len() == t,
            valid_draws(r@),
        decreases length - t,
    {
        r.push(random_index(0, t + 1));
        t = t + 1;
    }
    r
}

} // verus!
