//! Why the lower bounds of a generated table are safe to prune with: when no
//! two towns coincide, `k` distinct steps of any route cost at least the sum
//! of the `k` smallest distances between distinct towns, so the search on
//! such a table finds the shortest route; and no sum of that search wraps
//! around, as every distance is at most 141.

use vstd::prelude::*;
use crate::tsp::{
    wrapping_sum, le_usize, sorted_usize, zeros_as_max, zero_as_max, all_dists, pair_dists, bound_entries,
    DistanceTable, Coord, route_completes, step_allowed, bounds_admissible, town_dist, int_sqrt, is_int_sqrt,
    sq_dist, on_grid, lemma_int_sqrt_unique, tsp_search, lemma_search_sound, lemma_search_finds_shortest,
    row_ordered, lemma_flat_index, lemma_self_distance, step_cap, tsp_run, spawn_run,
    lemma_run_is_search, lemma_spawn_run_is_spawn_search, lemma_spawn_agrees_with_seq,
};

verus! {

/// The sum of `s`, without wrapping.
pub open spec fn seq_sum(s: Seq<usize>) -> int
    decreases s.len(),
{
    if s.len() == 0 {
        0
    } else {
        seq_sum(s.drop_last()) + s.last()
    }
}

/// The elements of `s` at the positions `q`, in that order.
pub open spec fn gather(s: Seq<usize>, q: Seq<int>) -> Seq<usize> {
    Seq::new(q.len(), |j: int| s[q[j]])
}

/// No position occurs twice in `q`.
pub open spec fn distinct_positions(q: Seq<int>) -> bool {
    forall|a: int, b: int| 0 <= a < b < q.len() ==> q[a] != q[b]
}

/// The sum of two sequences put together is the sum of their sums.
pub proof fn lemma_sum_concat(a: Seq<usize>, b: Seq<usize>)
    ensures
        seq_sum(a + b) == seq_sum(a) + seq_sum(b),
    decreases b.len(),
{
    if b.len() == 0 {
        assert(a + b =~= a);
    } else {
        lemma_sum_concat(a, b.drop_last());
        assert((a + b).drop_last() =~= a + b.drop_last());
    }
}

/// Taking one element out of a sequence takes it out of the sum.
pub proof fn lemma_sum_remove(e: Seq<usize>, r: int)
    requires
        0 <= r < e.len(),
    ensures
        seq_sum(e) == seq_sum(e.remove(r)) + e[r],
{
    let left = e.subrange(0, r);
    let right = e.subrange(r + 1, e.len() as int);
    assert(e =~= left + (seq![e[r]] + right));
    assert(e.remove(r) =~= left + right);
    lemma_sum_concat(left, seq![e[r]] + right);
    lemma_sum_concat(seq![e[r]], right);
    lemma_sum_concat(left, right);
    assert(seq![e[r]].drop_last() =~= Seq::<usize>::empty());
    assert(seq_sum(seq![e[r]]) == seq_sum(Seq::<usize>::empty()) + e[r]);
}

/// Wrapping around past `usize::MAX` only ever lowers a sum.
pub proof fn lemma_wrapping_sum_at_most_sum(s: Seq<usize>)
    ensures
        wrapping_sum(s) <= seq_sum(s),
    decreases s.len(),
{
    if s.len() > 0 {
        lemma_wrapping_sum_at_most_sum(s.drop_last());
    }
}

/// `k` distinct positions below `m` are at most `m` many.
pub proof fn lemma_distinct_positions_bounded(q: Seq<int>, m: int)
    requires
        distinct_positions(q),
        forall|j: int| 0 <= j < q.len() ==> 0 <= #[trigger] q[j] < m,
        m >= 0,
    ensures
        q.len() <= m,
{
    assert(q.no_duplicates()) by {
        assert forall|a: int, b: int| 0 <= a < q.len() && 0 <= b < q.len() && a != b implies q[a] != q[b] by {
            if a < b {
            } else {
            }
        }
    }
    q.unique_seq_to_set();
    vstd::set_lib::lemma_int_range(0, m);
    assert(q.to_set().subset_of(vstd::set_lib::set_int_range(0, m)));
    vstd::set_lib::lemma_len_subset(q.to_set(), vstd::set_lib::set_int_range(0, m));
}

/// The elements of `s` in non-decreasing order.
pub open spec fn sort_usize(s: Seq<usize>) -> Seq<usize> {
    s.sort_by(le_usize())
}

/// `sort_usize` sorts and keeps the elements.
pub proof fn lemma_sort_usize(s: Seq<usize>)
    ensures
        sorted_usize(sort_usize(s)),
        sort_usize(s).to_multiset() == s.to_multiset(),
        sort_usize(s).len() == s.len(),
{
    let leq = le_usize();
    assert(vstd::relations::total_ordering(leq));
    s.lemma_sort_by_ensures(leq);
    let t = sort_usize(s);
    assert forall|i: int, j: int| 0 <= i <= j < t.len() implies t[i] <= t[j] by {
        if i < j {
            assert(leq(t[i], t[j]));
        }
    }
    t.to_multiset_ensures();
    s.to_multiset_ensures();
}

/// Two sorted sequences with the same elements are equal.
pub proof fn lemma_sorted_usize_unique(a: Seq<usize>, b: Seq<usize>)
    requires
        sorted_usize(a),
        sorted_usize(b),
        a.to_multiset() == b.to_multiset(),
    ensures
        a == b,
{
    let leq = le_usize();
    assert(vstd::relations::total_ordering(leq));
    assert(vstd::relations::sorted_by(a, leq));
    assert(vstd::relations::sorted_by(b, leq));
    vstd::seq_lib::lemma_sorted_unique(a, b, leq);
}

/// Where `x` goes in the sorted `t`: after the elements below it.
pub open spec fn insert_point(t: Seq<usize>, x: usize) -> int
    decreases t.len(),
{
    if t.len() == 0 {
        0
    } else if t.last() < x {
        t.len() as int
    } else {
        insert_point(t.drop_last(), x)
    }
}

/// The insertion point splits a sorted sequence at `x`.
pub proof fn lemma_insert_point(t: Seq<usize>, x: usize)
    requires
        sorted_usize(t),
    ensures
        0 <= insert_point(t, x) <= t.len(),
        forall|j: int| 0 <= j < insert_point(t, x) ==> t[j] < x,
        forall|j: int| insert_point(t, x) <= j < t.len() ==> t[j] >= x,
    decreases t.len(),
{
    if t.len() > 0 && t.last() >= x {
        let u = t.drop_last();
        assert(sorted_usize(u)) by {
            assert forall|i: int, j: int| 0 <= i <= j < u.len() implies u[i] <= u[j] by {
                assert(t[i] <= t[j]);
            }
        }
        lemma_insert_point(u, x);
        assert forall|j: int| 0 <= j < insert_point(t, x) implies t[j] < x by {
            assert(u[j] == t[j]);
        }
        assert forall|j: int| insert_point(t, x) <= j < t.len() implies t[j] >= x by {
            if j < u.len() {
                assert(u[j] == t[j]);
            }
        }
    } else if t.len() > 0 {
        assert forall|j: int| 0 <= j < t.len() implies t[j] < x by {
            assert(t[j] <= t[t.len() - 1]);
        }
    }
}

/// Sorting one element more puts it at its insertion point.
pub proof fn lemma_sort_push(s: Seq<usize>, x: usize)
    ensures
        sort_usize(s.push(x)) == sort_usize(s).insert(insert_point(sort_usize(s), x), x),
{
    let t = sort_usize(s);
    lemma_sort_usize(s);
    lemma_sort_usize(s.push(x));
    lemma_insert_point(t, x);
    let p = insert_point(t, x);
    let u = t.insert(p, x);
    assert(sorted_usize(u)) by {
        assert forall|i: int, j: int| 0 <= i <= j < u.len() implies u[i] <= u[j] by {
            if j < p {
                assert(t[i] <= t[j]);
            } else if j == p {
                if i < p {
                    assert(t[i] < x);
                }
            } else if i < p {
                assert(t[i] <= t[j - 1]);
            } else if i == p {
                assert(t[j - 1] >= x);
            } else {
                assert(t[i - 1] <= t[j - 1]);
            }
        }
    }
    vstd::seq_lib::to_multiset_insert(t, p, x);
    vstd::seq_lib::to_multiset_build(s, x);
    lemma_sorted_usize_unique(u, sort_usize(s.push(x)));
}

/// The sum of the first `k` elements of `t.insert(p, x)` against those of
/// `t`.
proof fn lemma_insert_prefix_sum(t: Seq<usize>, p: int, x: usize, k: int)
    requires
        0 <= p <= t.len(),
        1 <= k <= t.len() + 1,
    ensures
        p < k ==> seq_sum(t.insert(p, x).subrange(0, k)) == seq_sum(t.subrange(0, k - 1)) + x,
        p >= k ==> seq_sum(t.insert(p, x).subrange(0, k)) == seq_sum(t.subrange(0, k - 1)) + t[k - 1],
{
    let u = t.insert(p, x);
    if p < k {
        assert(u.subrange(0, k) =~= t.subrange(0, p) + (seq![x] + t.subrange(p, k - 1)));
        assert(t.subrange(0, k - 1) =~= t.subrange(0, p) + t.subrange(p, k - 1));
        lemma_sum_concat(t.subrange(0, p), seq![x] + t.subrange(p, k - 1));
        lemma_sum_concat(seq![x], t.subrange(p, k - 1));
        lemma_sum_concat(t.subrange(0, p), t.subrange(p, k - 1));
        assert(seq![x].drop_last() =~= Seq::<usize>::empty());
        assert(seq_sum(seq![x]) == seq_sum(Seq::<usize>::empty()) + x);
    } else {
        assert(u.subrange(0, k) =~= t.subrange(0, k));
        assert(t.subrange(0, k).drop_last() =~= t.subrange(0, k - 1));
    }
}

/// The elements of `s` at `k` distinct positions add up to at least the
/// `k` smallest elements of `s`.
pub proof fn lemma_gather_at_least_smallest(s: Seq<usize>, q: Seq<int>)
    requires
        distinct_positions(q),
        forall|j: int| 0 <= j < q.len() ==> 0 <= #[trigger] q[j] < s.len(),
    ensures
        q.len() <= s.len(),
        seq_sum(gather(s, q)) >= seq_sum(sort_usize(s).subrange(0, q.len() as int)),
    decreases s.len(),
{
    lemma_distinct_positions_bounded(q, s.len() as int);
    lemma_sort_usize(s);
    let k = q.len() as int;
    if s.len() == 0 {
        assert(gather(s, q) =~= Seq::<usize>::empty());
        assert(sort_usize(s).subrange(0, k) =~= Seq::<usize>::empty());
        return;
    }
    if k == 0 {
        assert(gather(s, q) =~= Seq::<usize>::empty());
        assert(sort_usize(s).subrange(0, k) =~= Seq::<usize>::empty());
        return;
    }
    let n = s.len() as int;
    let s1 = s.drop_last();
    let x = s.last();
    assert(s =~= s1.push(x));
    let t1 = sort_usize(s1);
    lemma_sort_usize(s1);
    lemma_sort_push(s1, x);
    lemma_insert_point(t1, x);
    let p = insert_point(t1, x);
    let t = sort_usize(s);
    if exists|r: int| 0 <= r < k && q[r] == n - 1 {
        let r = choose|r: int| 0 <= r < k && q[r] == n - 1;
        let q1 = q.remove(r);
        assert forall|j: int| 0 <= j < q1.len() implies 0 <= #[trigger] q1[j] < s1.len() by {
            if j < r {
                assert(q[j] != q[r]);
            } else {
                assert(q[j + 1] != q[r]);
            }
        }
        assert(distinct_positions(q1)) by {
            assert forall|a: int, b: int| 0 <= a < b < q1.len() implies q1[a] != q1[b] by {
                if b < r {
                } else if a < r {
                    assert(q[a] != q[b + 1]);
                } else {
                    assert(q[a + 1] != q[b + 1]);
                }
            }
        }
        lemma_gather_at_least_smallest(s1, q1);
        assert(gather(s, q).remove(r) =~= gather(s1, q1));
        lemma_sum_remove(gather(s, q), r);
        lemma_insert_prefix_sum(t1, p, x, k);
        if p >= k {
            assert(t1[k - 1] < x);
        }
    } else {
        assert forall|j: int| 0 <= j < k implies 0 <= #[trigger] q[j] < s1.len() by {
            assert(q[j] != n - 1);
        }
        lemma_gather_at_least_smallest(s1, q);
        assert(gather(s, q) =~= gather(s1, q));
        lemma_insert_prefix_sum(t1, p, x, k);
        assert(t1.subrange(0, k).drop_last() =~= t1.subrange(0, k - 1));
        if p < k {
            assert(x <= t1[p]);
            assert(t1[p] <= t1[k - 1]);
        }
    }
}

/// The non-zero entries of `a`, then as many zeros as it had, read with
/// zeros as `usize::MAX`, hold the same elements as `a` read that way.
pub proof fn lemma_nonzero_then_zeros(a: Seq<usize>)
    ensures
        zeros_as_max(
            a.filter(|d: usize| d != 0) + Seq::new(
                (a.len() - a.filter(|d: usize| d != 0).len()) as nat,
                |p: int| 0usize,
            ),
        ).to_multiset() == zeros_as_max(a).to_multiset(),
    decreases a.len(),
{
    a.filter(|d: usize| d != 0).lemma_filter_len(|d: usize| d != 0);
    a.lemma_filter_len(|d: usize| d != 0);
    if a.len() == 0 {
        assert(a.filter(|d: usize| d != 0) =~= Seq::<usize>::empty()) by {
            a.lemma_filter_len(|d: usize| d != 0);
        }
        assert(zeros_as_max(a.filter(|d: usize| d != 0) + Seq::new(0, |p: int| 0usize)) =~= zeros_as_max(a));
    } else {
        let a1 = a.drop_last();
        let x = a.last();
        assert(a =~= a1.push(x));
        a1.lemma_filter_len(|d: usize| d != 0);
        lemma_nonzero_then_zeros(a1);
        a1.lemma_filter_push(x, |d: usize| d != 0);
        let f1 = a1.filter(|d: usize| d != 0);
        let z1 = (a1.len() - f1.len()) as nat;
        let before = zeros_as_max(f1 + Seq::new(z1, |p: int| 0usize));
        assert(zeros_as_max(a) =~= zeros_as_max(a1).push(zero_as_max(x)));
        vstd::seq_lib::to_multiset_build(zeros_as_max(a1), zero_as_max(x));
        if x != 0 {
            assert(zeros_as_max(a.filter(|d: usize| d != 0) + Seq::new(
                (a.len() - a.filter(|d: usize| d != 0).len()) as nat,
                |p: int| 0usize,
            )) =~= before.insert(f1.len() as int, x));
            vstd::seq_lib::to_multiset_insert(before, f1.len() as int, x);
        } else {
            assert(zeros_as_max(a.filter(|d: usize| d != 0) + Seq::new(
                (a.len() - a.filter(|d: usize| d != 0).len()) as nat,
                |p: int| 0usize,
            )) =~= before.push(usize::MAX));
            vstd::seq_lib::to_multiset_build(before, usize::MAX);
        }
    }
}

/// A rounded-down square root exists.
pub proof fn lemma_int_sqrt_exists(v: int)
    requires
        v >= 0,
    ensures
        is_int_sqrt(v, int_sqrt(v)),
    decreases v,
{
    if v == 0 {
        assert(is_int_sqrt(0, 0));
    } else {
        lemma_int_sqrt_exists(v - 1);
        let r = int_sqrt(v - 1);
        if (r + 1) * (r + 1) <= v {
            assert(v < (r + 2) * (r + 2)) by (nonlinear_arith)
                requires
                    v - 1 < (r + 1) * (r + 1),
                    r >= 0,
            ;
            assert(is_int_sqrt(v, r + 1));
        } else {
            assert(is_int_sqrt(v, r));
        }
    }
}

/// Distinct towns on the grid are between 1 and 141 apart.
pub proof fn lemma_distinct_towns_apart(a: Coord, b: Coord)
    requires
        a.x < 100 && a.y < 100 && b.x < 100 && b.y < 100,
        a.x != b.x || a.y != b.y,
    ensures
        1 <= int_sqrt(sq_dist(a, b)) <= 141,
{
    let dx = a.x - b.x;
    let dy = a.y - b.y;
    assert(sq_dist(a, b) >= 1 && sq_dist(a, b) <= 20000) by (nonlinear_arith)
        requires
            -100 < dx < 100,
            -100 < dy < 100,
            dx != 0 || dy != 0,
            sq_dist(a, b) == dx * dx + dy * dy,
    ;
    lemma_int_sqrt_exists(sq_dist(a, b));
    let r = int_sqrt(sq_dist(a, b));
    if r > 141 {
        assert(r * r > 20000) by (nonlinear_arith)
            requires
                r > 141,
        ;
    }
    if r < 1 {
        assert((r + 1) * (r + 1) == 1) by (nonlinear_arith)
            requires
                0 <= r < 1,
        ;
    }
}

/// No two towns share a place.
pub open spec fn towns_distinct(towns: Seq<Coord>) -> bool {
    forall|i: int, j: int|
        0 <= i < towns.len() && 0 <= j < towns.len() && i != j ==> (towns[i].x != towns[j].x
            || towns[i].y != towns[j].y)
}

/// A bit set with `c` added holds `v` only if `v` is `c` or was in it.
proof fn lemma_bit_added(p: u128, c: usize, v: usize)
    requires
        c < 128,
        v < 128,
        (p | (1u128 << c)) & (1u128 << v) == 0,
    ensures
        v != c,
        p & (1u128 << v) == 0,
{
    assert(v != c && p & (1u128 << v) == 0) by (bit_vector)
        requires
            c < 128,
            v < 128,
            (p | (1u128 << c)) & (1u128 << v) == 0,
    ;
}

/// The steps of a complete route that extends a route of `hops` towns:
/// their places in `all_dists`, one per step, each from one town to another
/// not yet visited, and the route's length is `length` plus their distances.
pub proof fn lemma_route_steps(
    t: DistanceTable,
    towns: Seq<Coord>,
    hops: int,
    last: int,
    path: u128,
    length: int,
    l: int,
) -> (q: Seq<int>)
    requires
        t.is_table_of(towns),
        towns.len() <= 128,
        route_completes(t, hops, last, path, length, l),
    ensures
        q.len() == towns.len() - hops,
        distinct_positions(q),
        forall|j: int|
            0 <= j < q.len() ==> {
                &&& 0 <= #[trigger] q[j] < towns.len() * towns.len()
                &&& q[j] / (towns.len() as int) != q[j] % (towns.len() as int)
                &&& path & (1u128 << ((q[j] % (towns.len() as int)) as usize)) == 0
            },
        l == length + seq_sum(gather(all_dists(towns), q)),
    decreases towns.len() - hops,
{
    let n = towns.len() as int;
    let a = all_dists(towns);
    if hops == n {
        let q = Seq::<int>::empty();
        assert(gather(a, q) =~= Seq::<usize>::empty());
        q
    } else {
        let i = choose|i: int|
            0 <= i < n && #[trigger] step_allowed(t, last, path, i) && route_completes(
                t,
                hops + 1,
                t.to_city@[last * n + i] as int,
                path | (1u128 << t.to_city@[last * n + i]),
                length + t.dist@[last * n + i],
                l,
            );
        lemma_flat_index(n, last, i);
        assert(row_ordered(towns, t.to_city@, t.dist@, last));
        let c = t.to_city@[last * n + i];
        assert(c < n && t.dist@[last * n + i] == town_dist(towns, last, c as int));
        let qc = lemma_route_steps(t, towns, hops + 1, c as int, path | (1u128 << c), length + t.dist@[last * n + i], l);
        let p0 = last * n + c;
        lemma_flat_index(n, last, c as int);
        assert(a[p0] == town_dist(towns, last, c as int) as usize);
        let q = seq![p0] + qc;
        assert forall|j: int| 0 <= j < qc.len() implies (qc[j] % n) as usize != c && path & (1u128 << ((qc[j] % n) as usize)) == 0 by {
            let v = (qc[j] % n) as usize;
            assert(0 <= qc[j] % n < n) by {
                vstd::arithmetic::div_mod::lemma_mod_bound(qc[j], n);
            }
            lemma_bit_added(path, c, v);
        }
        assert(distinct_positions(q)) by {
            assert forall|x: int, y: int| 0 <= x < y < q.len() implies q[x] != q[y] by {
                if x == 0 {
                    assert(q[y] == qc[y - 1]);
                    assert((qc[y - 1] % n) as usize != c);
                    assert(p0 % n == c);
                    assert(0 <= qc[y - 1] % n < n) by {
                        vstd::arithmetic::div_mod::lemma_mod_bound(qc[y - 1], n);
                    }
                } else {
                    assert(q[x] == qc[x - 1] && q[y] == qc[y - 1]);
                }
            }
        }
        assert forall|j: int| 0 <= j < q.len() implies {
            &&& 0 <= #[trigger] q[j] < n * n
            &&& q[j] / n != q[j] % n
            &&& path & (1u128 << ((q[j] % n) as usize)) == 0
        } by {
            if j == 0 {
                assert(q[j] == p0);
            } else {
                assert(q[j] == qc[j - 1]);
            }
        }
        assert(gather(a, q) =~= seq![a[p0]] + gather(a, qc));
        lemma_sum_concat(seq![a[p0]], gather(a, qc));
        assert(seq![a[p0]].drop_last() =~= Seq::<usize>::empty());
        assert(seq_sum(seq![a[p0]]) == seq_sum(Seq::<usize>::empty()) + a[p0]);
        q
    }
}

/// An entry of an `n` by `n` table lies in a row and a column below `n`.
proof fn lemma_flat_split(p: int, n: int)
    requires
        n > 0,
        0 <= p < n * n,
    ensures
        0 <= p / n < n,
        0 <= p % n < n,
{
    vstd::arithmetic::div_mod::lemma_fundamental_div_mod(p, n);
    vstd::arithmetic::div_mod::lemma_mod_bound(p, n);
    let d = p / n;
    let m = p % n;
    assert(0 <= d < n) by (nonlinear_arith)
        requires
            p == n * d + m,
            0 <= m < n,
            0 <= p < n * n,
            n > 0,
    ;
}

/// When no two towns coincide, the lower bounds of a table built from them
/// never exceed what completing a route still costs.
pub proof fn lemma_generated_bounds_admissible(t: DistanceTable, towns: Seq<Coord>)
    requires
        t.is_table_of(towns),
        on_grid(towns),
        towns_distinct(towns),
        towns.len() <= 128,
    ensures
        bounds_admissible(t),
{
    let n = towns.len() as int;
    let a = all_dists(towns);
    let z = zeros_as_max(a);
    let sorted_table = zeros_as_max(bound_entries(towns)).sort_by(le_usize());
    lemma_nonzero_then_zeros(a);
    assert(bound_entries(towns) == a.filter(|d: usize| d != 0) + Seq::new(
        (a.len() - a.filter(|d: usize| d != 0).len()) as nat,
        |p: int| 0usize,
    ));
    lemma_sort_usize(zeros_as_max(bound_entries(towns)));
    lemma_sort_usize(z);
    lemma_sorted_usize_unique(sorted_table, sort_usize(z));
    assert forall|hops: int, last: int, path: u128, length: int, l: int|
        #[trigger] route_completes(t, hops, last, path, length, l) implies length
            + t.lower_bounds@[t.ntowns - hops] <= l by {
        let q = lemma_route_steps(t, towns, hops, last, path, length, l);
        assert forall|j: int| 0 <= j < q.len() implies #[trigger] z[q[j]] == a[q[j]] by {
            let p = q[j];
            lemma_flat_split(p, n);
            lemma_distinct_towns_apart(towns[p / n], towns[p % n]);
            assert(a[p] == town_dist(towns, p / n, p % n) as usize);
        }
        assert(gather(z, q) =~= gather(a, q));
        assert forall|j: int| 0 <= j < q.len() implies 0 <= #[trigger] q[j] < z.len() by {}
        lemma_gather_at_least_smallest(z, q);
        let k = n - hops;
        lemma_wrapping_sum_at_most_sum(sorted_table.subrange(0, k));
    }
}

/// A sum of elements that are each at most `c` is at most `c` times their
/// number.
pub proof fn lemma_sum_at_most(s: Seq<usize>, c: int)
    requires
        forall|j: int| 0 <= j < s.len() ==> s[j] <= c,
    ensures
        seq_sum(s) <= c * s.len(),
    decreases s.len(),
{
    if s.len() > 0 {
        lemma_sum_at_most(s.drop_last(), c);
        assert(c * s.len() == c * s.drop_last().len() + c) by (nonlinear_arith)
            requires
                s.drop_last().len() == s.len() - 1,
        ;
    }
}

/// A sum that fits in a `usize` does not wrap around.
pub proof fn lemma_wrapping_sum_exact(s: Seq<usize>)
    requires
        seq_sum(s) <= usize::MAX,
    ensures
        wrapping_sum(s) == seq_sum(s),
    decreases s.len(),
{
    if s.len() > 0 {
        lemma_wrapping_sum_exact(s.drop_last());
    }
}

/// On a table built from towns of which no two coincide, every distance is
/// at most 141 and the lower bound for `k` steps at most `141 * k`, so no
/// entry exceeds `step_cap()`.
pub proof fn lemma_distinct_towns_bounded(t: DistanceTable, towns: Seq<Coord>)
    requires
        t.is_table_of(towns),
        on_grid(towns),
        towns_distinct(towns),
        1 <= towns.len() <= 128,
    ensures
        t.bounded(),
{
    let n = towns.len() as int;
    assert(141 * 128 <= step_cap());
    assert forall|k: int| 0 <= k < t.dist@.len() implies #[trigger] t.dist@[k] <= step_cap() by {
        lemma_flat_split(k, n);
        let r = k / n;
        let j = k % n;
        vstd::arithmetic::div_mod::lemma_fundamental_div_mod(k, n);
        assert(r * n + j == k) by (nonlinear_arith)
            requires
                k == n * r + j,
        ;
        assert(row_ordered(towns, t.to_city@, t.dist@, r));
        let c = t.to_city@[r * n + j] as int;
        assert(t.dist@[k] == town_dist(towns, r, c));
        if c == r {
            lemma_self_distance(towns, r);
        } else {
            lemma_distinct_towns_apart(towns[r], towns[c]);
        }
    }
    let a = all_dists(towns);
    let z = zeros_as_max(a);
    let sorted_table = zeros_as_max(bound_entries(towns)).sort_by(le_usize());
    lemma_nonzero_then_zeros(a);
    assert(bound_entries(towns) == a.filter(|d: usize| d != 0) + Seq::new(
        (a.len() - a.filter(|d: usize| d != 0).len()) as nat,
        |p: int| 0usize,
    ));
    lemma_sort_usize(zeros_as_max(bound_entries(towns)));
    lemma_sort_usize(z);
    lemma_sorted_usize_unique(sorted_table, sort_usize(z));
    assert forall|k: int| 0 <= k < t.lower_bounds@.len() implies #[trigger] t.lower_bounds@[k] <= step_cap() by {
        // the distances from the first town to towns 1 to k
        let q = Seq::new(k as nat, |j: int| j + 1);
        assert(n <= n * n) by (nonlinear_arith)
            requires
                n >= 1,
        ;
        assert forall|j: int| 0 <= j < q.len() implies 0 <= #[trigger] q[j] < z.len() by {}
        assert(distinct_positions(q));
        lemma_gather_at_least_smallest(z, q);
        assert forall|j: int| 0 <= j < q.len() implies gather(z, q)[j] <= 141 by {
            let p = j + 1;
            lemma_flat_index(n, 0, p);
            assert(a[p] == town_dist(towns, 0, p) as usize);
            lemma_distinct_towns_apart(towns[0], towns[p]);
        }
        lemma_sum_at_most(gather(z, q), 141);
        assert(141 * k <= 141 * 128) by (nonlinear_arith)
            requires
                k < 128,
        ;
        lemma_wrapping_sum_exact(sorted_table.subrange(0, k));
    }
}

/// On a table built from towns of which no two coincide, the search from
/// the first town with best known length `m` reports the shortest complete
/// route when one is shorter than `m`, and `m` otherwise; no sum wraps
/// around on such a table, and the spawning search, with any threshold,
/// reports the same.
pub proof fn lemma_search_finds_optimum_on_distinct_towns(t: DistanceTable, towns: Seq<Coord>, m: usize, threshold: int)
    requires
        t.is_table_of(towns),
        on_grid(towns),
        towns_distinct(towns),
        1 <= towns.len() <= 128,
    ensures
        tsp_run(t, 1, 0, 1, 0, m) as int == tsp_search(t, 1, 0, 1, 0, m as int),
        spawn_run(t, 1, 0, 1, 0, m, threshold) as int == tsp_search(t, 1, 0, 1, 0, m as int),
        tsp_search(t, 1, 0, 1, 0, m as int) <= m,
        tsp_search(t, 1, 0, 1, 0, m as int) == m || route_completes(t, 1, 0, 1, 0, tsp_search(t, 1, 0, 1, 0, m as int)),
        forall|l: int| #[trigger] route_completes(t, 1, 0, 1, 0, l) ==> tsp_search(t, 1, 0, 1, 0, m as int) <= l,
{
    assert(t.wf()) by {
        let n = towns.len() as int;
        assert forall|k: int| 0 <= k < n * n implies #[trigger] t.to_city@[k] < n by {
            lemma_flat_split(k, n);
            assert(row_ordered(towns, t.to_city@, t.dist@, k / n));
            vstd::arithmetic::div_mod::lemma_fundamental_div_mod(k, n);
            assert(t.to_city@[(k / n) * n + k % n] < n);
            assert((k / n) * n + k % n == k) by (nonlinear_arith)
                requires
                    k == n * (k / n) + k % n,
            ;
        }
    }
    lemma_generated_bounds_admissible(t, towns);
    lemma_distinct_towns_bounded(t, towns);
    lemma_run_is_search(t, 1, 0, 1, 0, m);
    lemma_spawn_run_is_spawn_search(t, 1, 0, 1, 0, m, threshold);
    lemma_spawn_agrees_with_seq(t, 1, 0, 1, 0, m as int, threshold);
    lemma_search_sound(t, 1, 0, 1, 0, m as int);
    assert forall|l: int| #[trigger] route_completes(t, 1, 0, 1, 0, l) implies tsp_search(t, 1, 0, 1, 0, m as int) <= l by {
        lemma_search_finds_shortest(t, 1, 0, 1, 0, m as int, l);
    }
}

} // verus!
