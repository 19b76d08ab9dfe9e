//! The travelling salesman benchmark: a table of distances between towns on
//! a grid, each town's neighbours in order of distance, lower bounds on the
//! length of any route of a given number of steps, and the branch-and-bound
//! search for the shortest route that starts at the first town and visits
//! every town once.

use vstd::prelude::*;
use crate::std_num::std_isqrt;
use crate::random::{UniformUsize, std_rng_from_seed, usize_draws_in_turn, lemma_usize_draws_in_turn};
use rand::rngs::StdRng;

verus! {

/// A zero entry stands for a missing distance and counts as the largest.
pub open spec fn zero_as_max(v: usize) -> usize {
    if v == 0 { usize::MAX } else { v }
}

/// `s` with every zero replaced by `usize::MAX`.
pub open spec fn zeros_as_max(s: Seq<usize>) -> Seq<usize> {
    s.map_values(|v: usize| zero_as_max(v))
}

/// `s` is in non-decreasing order.
pub open spec fn sorted_usize(s: Seq<usize>) -> bool {
    forall|i: int, j: int| 0 <= i <= j < s.len() ==> s[i] <= s[j]
}

/// The sum of `s`, wrapping around past `usize::MAX` as release builds do.
pub open spec fn wrapping_sum(s: Seq<usize>) -> usize
    decreases s.len(),
{
    if s.len() == 0 {
        0
    } else {
        vstd::wrapping::usize_specs::wrapping_add(wrapping_sum(s.drop_last()), s.last())
    }
}

/// `vec` after `put_min(vec, pos)`: zeros from `pos` on read as
/// `usize::MAX`, and the first smallest element from `pos` on has changed
/// places with the one at `pos`.
pub open spec fn put_min_result(old_vec: Seq<usize>, pos: int, new_vec: Seq<usize>) -> bool {
    let w = old_vec.subrange(0, pos) + zeros_as_max(old_vec.subrange(pos, old_vec.len() as int));
    exists|mp: int|
        #![trigger w[mp]]
        {
            &&& pos <= mp < w.len()
            &&& forall|k: int| pos <= k < w.len() ==> w[mp] <= w[k]
            &&& forall|k: int| pos <= k < mp ==> w[mp] < w[k]
            &&& new_vec == w.update(pos, w[mp]).update(mp, w[pos])
        }
}

/// A town's place on the grid.
#[derive(Clone, Copy)]
pub struct Coord {
    pub x: usize,
    pub y: usize,
}

/// The squared straight-line distance between two towns.
pub open spec fn sq_dist(a: Coord, b: Coord) -> int {
    (a.x - b.x) * (a.x - b.x) + (a.y - b.y) * (a.y - b.y)
}

/// `r` is the square root of `v`, rounded down.
pub open spec fn is_int_sqrt(v: int, r: int) -> bool {
    0 <= r && r * r <= v && v < (r + 1) * (r + 1)
}

/// The square root of `v`, rounded down.
pub open spec fn int_sqrt(v: int) -> int {
    choose|r: int| is_int_sqrt(v, r)
}

/// A rounded-down square root is unique.
pub proof fn lemma_int_sqrt_unique(v: int, r: int)
    requires
        is_int_sqrt(v, r),
    ensures
        int_sqrt(v) == r,
{
    let q = int_sqrt(v);
    assert(is_int_sqrt(v, q));
    if q < r {
        assert((q + 1) * (q + 1) <= r * r) by (nonlinear_arith)
            requires
                0 <= q < r,
        ;
    } else if r < q {
        assert((r + 1) * (r + 1) <= q * q) by (nonlinear_arith)
            requires
                0 <= r < q,
        ;
    }
}

/// The whole-number distance between towns `i` and `j`.
pub open spec fn town_dist(towns: Seq<Coord>, i: int, j: int) -> int {
    int_sqrt(sq_dist(towns[i], towns[j]))
}

/// Neighbour `(da, a)` comes before neighbour `(db, b)`: it is nearer, or
/// as near and of a lower index.
pub open spec fn nearer(da: int, a: int, db: int, b: int) -> bool {
    da < db || (da == db && a < b)
}

/// The distances from each town to each town, row by row, as stored.
pub open spec fn all_dists(towns: Seq<Coord>) -> Seq<usize> {
    let n = towns.len() as int;
    Seq::new((n * n) as nat, |p: int| town_dist(towns, p / n, p % n) as usize)
}

/// The distances between distinct towns that are not zero, row by row.
pub open spec fn pair_dists(towns: Seq<Coord>) -> Seq<usize> {
    all_dists(towns).filter(|d: usize| d != 0)
}

/// The entries from which the lower bounds are summed, before sorting: the
/// non-zero distances, then zeros up to `ntowns * ntowns` entries.
pub open spec fn bound_entries(towns: Seq<Coord>) -> Seq<usize> {
    let n = towns.len() as int;
    pair_dists(towns) + Seq::new((n * n - pair_dists(towns).len()) as nat, |p: int| 0usize)
}

/// The usual order on `usize`, as a relation.
pub open spec fn le_usize() -> spec_fn(usize, usize) -> bool {
    |a: usize, b: usize| a <= b
}

/// Row `r` of `(to_city, dist)` lists every town's index and distance from
/// town `r`, nearest first and, among equally near ones, lowest index first.
pub open spec fn row_ordered(towns: Seq<Coord>, to_city: Seq<usize>, dist: Seq<usize>, r: int) -> bool {
    let n = towns.len() as int;
    &&& forall|j: int| 0 <= j < n ==> #[trigger] to_city[r * n + j] < n && dist[r * n + j] == town_dist(towns, r, to_city[r * n + j] as int)
    &&& forall|a: int, b: int| 0 <= a < b < n ==> nearer(
        #[trigger] dist[r * n + a] as int,
        to_city[r * n + a] as int,
        #[trigger] dist[r * n + b] as int,
        to_city[r * n + b] as int,
    )
}

/// The distance table of the search.
pub struct DistanceTable {
    pub ntowns: usize,
    pub lower_bounds: Vec<usize>,
    pub to_city: Vec<usize>,
    pub dist: Vec<usize>,
}

/// A bound on distances and lower bounds small enough that no sum of a
/// search over at most 128 towns wraps around.
pub open spec fn step_cap() -> int {
    usize::MAX as int / 256
}

/// `towns` are what one generator seeded with `seed` draws from `[0, 100)`,
/// in turn: `x` and then `y` of each town, town after town.
pub open spec fn towns_drawn(seed: u64, towns: Seq<Coord>) -> bool {
    exists|draws: Seq<usize>|
        {
            &&& draws.len() == 2 * towns.len()
            &&& usize_draws_in_turn(seed, 0, 100, draws)
            &&& forall|k: int|
                0 <= k < towns.len() ==> #[trigger] towns[k].x == draws[2 * k] && towns[k].y == draws[2 * k + 1]
        }
}

/// Every town lies on the 100 by 100 grid.
pub open spec fn on_grid(towns: Seq<Coord>) -> bool {
    forall|k: int| 0 <= k < towns.len() ==> towns[k].x < 100 && towns[k].y < 100
}

impl DistanceTable {
    /// The table holds, for `towns`, each town's neighbours nearest first
    /// with their distances, and for each number of steps `k` the wrapping
    /// sum of the `k` smallest entries among the non-zero distances between
    /// towns, each missing one counted as `usize::MAX`.
    pub open spec fn is_table_of(&self, towns: Seq<Coord>) -> bool {
        &&& self.ntowns == towns.len()
        &&& self.to_city@.len() == self.ntowns * self.ntowns
        &&& self.dist@.len() == self.ntowns * self.ntowns
        &&& self.lower_bounds@.len() == self.ntowns
        &&& forall|r: int| 0 <= r < self.ntowns ==> row_ordered(towns, self.to_city@, self.dist@, r)
        &&& forall|k: int| 0 <= k < self.ntowns ==> self.lower_bounds@[k] == wrapping_sum(
            zeros_as_max(bound_entries(towns)).sort_by(le_usize()).subrange(0, k),
        )
    }

    /// `ntowns` towns drawn uniformly on the 100 by 100 grid by a generator
    /// seeded with `seed`, `x` before `y` for each town.
    pub fn sample_towns(ntowns: usize, seed: u64) -> (towns: Vec<Coord>)
        ensures
            towns@.len() == ntowns,
            on_grid(towns@),
            towns_drawn(seed, towns@),
    {
        let range = match UniformUsize::new(0, 100) {
            Ok(u) => u,
            Err(_) => {
                assert(false);
                return Vec::new();
            },
        };
        let seeding = std_rng_from_seed;
        let draw = UniformUsize::sample;
        let mut rng = seeding(seed);
        let ghost mut states: Seq<StdRng> = seq![rng];
        let ghost mut draws: Seq<usize> = Seq::empty();
        let mut towns: Vec<Coord> = Vec::new();
        let mut i: usize = 0;
        while i < ntowns
            invariant
                i <= ntowns,
                towns@.len() == i,
                range.low() == 0,
                range.high() == 100,
                on_grid(towns@),
                draw == UniformUsize::sample,
                draws.len() == 2 * i,
                states.len() == draws.len() + 1,
                states[draws.len() as int] == rng,
                call_ensures(std_rng_from_seed, (seed,), states[0]),
                forall|k: int|
                    0 <= k < draws.len() ==> #[trigger] call_ensures(
                        UniformUsize::sample,
                        (&range, states[k]),
                        (states[k + 1], draws[k]),
                    ),
                forall|k: int| 0 <= k < i ==> towns@[k].x == draws[2 * k] && towns@[k].y == draws[2 * k + 1],
            decreases ntowns - i,
        {
            let (after_x, x) = draw(&range, rng);
            let (after_y, y) = draw(&range, after_x);
            proof {
                states = states.push(after_x).push(after_y);
                draws = draws.push(x).push(y);
            }
            rng = after_y;
            towns.push(Coord { x, y });
            i = i + 1;
        }
        proof {
            lemma_usize_draws_in_turn(seed, range, states, draws);
        }
        towns
    }

    /// The table for `ntowns` towns drawn by `sample_towns` with `seed`.
    pub fn generate(ntowns: usize, seed: u64) -> (t: DistanceTable)
        requires
            ntowns * ntowns <= usize::MAX,
        ensures
            exists|towns: Seq<Coord>|
                towns.len() == ntowns && on_grid(towns) && towns_drawn(seed, towns) && t.is_table_of(towns),
    {
        let towns = DistanceTable::sample_towns(ntowns, seed);
        DistanceTable::from_towns(&towns)
    }

    /// Whether the search can run on this table: `wf`.
    pub fn fits_search(&self) -> (r: bool)
        ensures
            r == self.wf(),
    {
        let n = self.ntowns;
        if n < 1 || n > 128 {
            return false;
        }
        proof {
            assert(n * n <= 16384) by (nonlinear_arith)
                requires
                    n <= 128,
            ;
        }
        if self.to_city.len() != n * n || self.dist.len() != n * n || self.lower_bounds.len() != n {
            return false;
        }
        let mut k: usize = 0;
        while k < n * n
            invariant
                n == self.ntowns,
                1 <= n <= 128,
                n * n <= 16384,
                self.to_city@.len() == n * n,
                k <= n * n,
                forall|q: int| 0 <= q < k ==> self.to_city@[q] < n,
            decreases n * n - k,
        {
            if self.to_city[k] >= n {
                proof {
                    let q = k as int;
                    assert(0 <= q < (self.ntowns as int) * (self.ntowns as int));
                    assert(!(self.to_city@[q] < self.ntowns as int));
                }
                return false;
            }
            k = k + 1;
        }
        true
    }

    /// The shape the search relies on: between 1 and 128 towns (a route is
    /// a bit set in a `u128`), an `ntowns` by `ntowns` neighbour table of
    /// town indices and distances, and a lower bound per number of steps.
    pub open spec fn wf(&self) -> bool {
        let n = self.ntowns as int;
        &&& 1 <= n <= 128
        &&& self.to_city@.len() == n * n
        &&& self.dist@.len() == n * n
        &&& self.lower_bounds@.len() == n
        &&& forall|k: int| 0 <= k < n * n ==> #[trigger] self.to_city@[k] < n
    }

    /// No distance or lower bound exceeds `step_cap()`: on such a table the
    /// search's sums never wrap around.
    pub open spec fn bounded(&self) -> bool {
        &&& forall|k: int| 0 <= k < self.dist@.len() ==> #[trigger] self.dist@[k] <= step_cap()
        &&& forall|k: int| 0 <= k < self.lower_bounds@.len() ==> #[trigger] self.lower_bounds@[k] <= step_cap()
    }

    /// Turns the zeros from `pos` on into `usize::MAX`, then swaps the first
    /// smallest element from `pos` on into `pos`.
    pub fn put_min(vec: &mut Vec<usize>, pos: usize)
        requires
            pos < old(vec)@.len(),
        ensures
            put_min_result(old(vec)@, pos as int, final(vec)@),
    {
        let ghost v0 = vec@;
        let ghost w = v0.subrange(0, pos as int) + zeros_as_max(v0.subrange(pos as int, v0.len() as int));
        let mut minpos = pos;
        let mut min = usize::MAX;
        let mut i = pos;
        while i < vec.len()
            invariant
                pos <= i <= vec@.len(),
                vec@.len() == v0.len(),
                w.len() == v0.len(),
                forall|k: int| 0 <= k < i ==> vec@[k] == w[k],
                forall|k: int| i <= k < vec@.len() ==> vec@[k] == v0[k],
                w == v0.subrange(0, pos as int) + zeros_as_max(v0.subrange(pos as int, v0.len() as int)),
                pos <= minpos < vec@.len(),
                minpos < i || (minpos == pos && min == usize::MAX),
                minpos < i ==> min == w[minpos as int],
                forall|k: int| pos <= k < i ==> min <= w[k],
                forall|k: int| pos <= k < i && k < minpos ==> min < w[k],
            decreases vec@.len() - i,
        {
            assert(w[i as int] == zero_as_max(v0[i as int]));
            if vec[i] == 0 {
                vec.set(i, usize::MAX);
            }
            if vec[i] < min {
                minpos = i;
                min = vec[i];
            }
            i = i + 1;
        }
        proof {
            assert(vec@ =~= w);
            if !(minpos < i) {
                assert(w[pos as int] <= usize::MAX);
            }
        }
        let tmp = vec[pos];
        let at_min = vec[minpos];
        vec.set(pos, at_min);
        vec.set(minpos, tmp);
        proof {
            assert(w[minpos as int] == w[minpos as int]);
        }
    }

    /// Sorts `vec` by putting the minimum of the rest in place at each
    /// position in turn; zeros end up as `usize::MAX` at the end.
    pub fn sort(vec: &mut Vec<usize>)
        ensures
            final(vec)@.len() == old(vec)@.len(),
            sorted_usize(final(vec)@),
            final(vec)@.to_multiset() == zeros_as_max(old(vec)@).to_multiset(),
    {
        let ghost v0 = vec@;
        let mut i: usize = 0;
        proof {
            assert(vec@.subrange(0, 0) + zeros_as_max(vec@.subrange(0, vec@.len() as int)) =~= zeros_as_max(v0));
        }
        while i < vec.len()
            invariant
                i <= vec@.len(),
                vec@.len() == v0.len(),
                sorted_usize(vec@.subrange(0, i as int)),
                forall|a: int, b: int| 0 <= a < i <= b < vec@.len() ==> vec@[a] <= zero_as_max(vec@[b]),
                (vec@.subrange(0, i as int) + zeros_as_max(vec@.subrange(i as int, vec@.len() as int))).to_multiset()
                    == zeros_as_max(v0).to_multiset(),
            decreases vec@.len() - i,
        {
            let ghost before = vec@;
            DistanceTable::put_min(vec, i);
            proof {
                lemma_put_min_step(before, i as int, vec@);
            }
            i = i + 1;
        }
        proof {
            assert(vec@.subrange(0, i as int) =~= vec@);
            assert(zeros_as_max(vec@.subrange(i as int, vec@.len() as int)) =~= Seq::<usize>::empty());
            assert(vec@.subrange(0, i as int) + zeros_as_max(vec@.subrange(i as int, vec@.len() as int)) =~= vec@);
        }
    }

    /// The table for `towns`, which lie on a 100 by 100 grid: each town's
    /// neighbours nearest first, their distances, and for each number of
    /// steps `k` the sum of the `k` smallest entries among the non-zero
    /// distances (followed by `usize::MAX` for each missing one).
    pub fn from_towns(towns: &Vec<Coord>) -> (t: DistanceTable)
        requires
            towns@.len() * towns@.len() <= usize::MAX,
            on_grid(towns@),
        ensures
            t.is_table_of(towns@),
    {
        let ntowns = towns.len();
        let ghost n = ntowns as int;
        let mut to_city: Vec<usize> = vec![0; ntowns * ntowns];
        let mut dist: Vec<usize> = vec![0; ntowns * ntowns];
        let mut lower_bounds: Vec<usize> = vec![0; ntowns];
        let mut temp_dist: Vec<usize> = vec![0; ntowns];
        let mut min_dists: Vec<usize> = vec![0; ntowns * ntowns];
        let mut x: usize = 0;
        let mut min_dist_count: usize = 0;
        let ghost ad = all_dists(towns@);
        proof {
            assert(ad.take(0).filter(|d: usize| d != 0) =~= Seq::<usize>::empty()) by {
                assert(ad.take(0) =~= Seq::<usize>::empty());
                ad.take(0).lemma_filter_len(|d: usize| d != 0);
            }
        }
        let mut i: usize = 0;
        while i < ntowns
            invariant
                n == ntowns == towns@.len(),
                n * n <= usize::MAX,
                forall|k: int| 0 <= k < n ==> towns@[k].x < 100 && towns@[k].y < 100,
                ad == all_dists(towns@),
                i <= n,
                to_city@.len() == n * n,
                dist@.len() == n * n,
                temp_dist@.len() == n,
                min_dists@.len() == n * n,
                lower_bounds@.len() == n,
                min_dist_count == ad.take(i * n).filter(|d: usize| d != 0).len(),
                min_dists@.subrange(0, min_dist_count as int) == ad.take(i * n).filter(|d: usize| d != 0),
                forall|p: int| min_dist_count <= p < n * n ==> min_dists@[p] == 0,
                forall|r: int| 0 <= r < i ==> row_ordered(towns@, to_city@, dist@, r),
            decreases n - i,
        {
            let mut j: usize = 0;
            while j < ntowns
                invariant
                    n == ntowns == towns@.len(),
                    n * n <= usize::MAX,
                    forall|k: int| 0 <= k < n ==> towns@[k].x < 100 && towns@[k].y < 100,
                    ad == all_dists(towns@),
                    i < n,
                    j <= n,
                    temp_dist@.len() == n,
                    min_dists@.len() == n * n,
                    forall|k: int| 0 <= k < j ==> temp_dist@[k] == town_dist(towns@, i as int, k),
                    forall|k: int| 0 <= k < j ==> town_dist(towns@, i as int, k) <= 150,
                    min_dist_count == ad.take(i * n + j).filter(|d: usize| d != 0).len(),
                    min_dists@.subrange(0, min_dist_count as int) == ad.take(i * n + j).filter(|d: usize| d != 0),
                    forall|p: int| min_dist_count <= p < n * n ==> min_dists@[p] == 0,
                decreases n - j,
            {
                let dx: i32 = towns[i].x as i32 - towns[j].x as i32;
                let dy: i32 = towns[i].y as i32 - towns[j].y as i32;
                assert(0 <= dx * dx <= 10000 && 0 <= dy * dy <= 10000) by (nonlinear_arith)
                    requires
                        -100 < dx < 100,
                        -100 < dy < 100,
                ;
                let d = std_isqrt(dx * dx + dy * dy);
                proof {
                    assert(dx * dx + dy * dy == sq_dist(towns@[i as int], towns@[j as int]));
                    lemma_int_sqrt_unique(dx * dx + dy * dy, d as int);
                    assert(d * d <= 20000);
                    assert(d <= 150) by (nonlinear_arith)
                        requires
                            d >= 0,
                            d * d <= 20000,
                    ;
                    lemma_flat_index(n, i as int, j as int);
                    assert(ad[i * n + j] == town_dist(towns@, i as int, j as int));
                    assert(ad.take(i * n + j + 1) =~= ad.take(i * n + j).push(ad[i * n + j]));
                    ad.take(i * n + j).lemma_filter_push(ad[i * n + j], |d: usize| d != 0);
                    if i == j {
                        lemma_self_distance(towns@, i as int);
                    }
                }
                temp_dist.set(j, d as usize);
                if i != j && temp_dist[j] != 0 {
                    proof {
                        let f = ad.take(i * n + j).filter(|d: usize| d != 0);
                        f.lemma_filter_len(|d: usize| d != 0);
                        assert(f.len() <= i * n + j);
                    }
                    min_dists.set(min_dist_count, temp_dist[j]);
                    min_dist_count = min_dist_count + 1;
                    proof {
                        assert(min_dists@.subrange(0, min_dist_count as int) =~= ad.take(i * n + j + 1).filter(|d: usize| d != 0));
                    }
                }
                j = j + 1;
            }
            proof {
                lemma_flat_index(n, i as int, 0);
                assert((i + 1) * n == i * n + n);
            }
            let ghost row_start_to_city = to_city@;
            let ghost row_start_dist = dist@;
            let mut j: usize = 0;
            while j < ntowns
                invariant
                    n == ntowns == towns@.len(),
                    n * n <= usize::MAX,
                    forall|k: int| 0 <= k < n ==> towns@[k].x < 100 && towns@[k].y < 100,
                    i < n,
                    j <= n,
                    temp_dist@.len() == n,
                    to_city@.len() == n * n,
                    dist@.len() == n * n,
                    forall|k: int| 0 <= k < n ==> town_dist(towns@, i as int, k) <= 150,
                    forall|k: int| 0 <= k < n ==> temp_dist@[k] == usize::MAX || temp_dist@[k] == town_dist(towns@, i as int, k),
                    forall|k: int| 0 <= k < n ==> (temp_dist@[k] == usize::MAX <==> exists|a: int| 0 <= a < j && #[trigger] to_city@[i * n + a] == k),
                    forall|a: int| 0 <= a < j ==> #[trigger] to_city@[i * n + a] < n && dist@[i * n + a] == town_dist(towns@, i as int, to_city@[i * n + a] as int),
                    forall|a: int, b: int| 0 <= a < b < j ==> nearer(
                        #[trigger] dist@[i * n + a] as int,
                        to_city@[i * n + a] as int,
                        #[trigger] dist@[i * n + b] as int,
                        to_city@[i * n + b] as int,
                    ),
                    forall|a: int, k: int| 0 <= a < j && 0 <= k < n && #[trigger] temp_dist@[k] != usize::MAX ==> nearer(
                        #[trigger] dist@[i * n + a] as int,
                        to_city@[i * n + a] as int,
                        town_dist(towns@, i as int, k),
                        k,
                    ),
                    forall|p: int| 0 <= p < i * n ==> to_city@[p] == row_start_to_city[p] && dist@[p] == row_start_dist[p],
                decreases n - j,
            {
                let mut tmp: usize = usize::MAX;
                let mut k: usize = 0;
                while k < ntowns
                    invariant
                        n == ntowns,
                        k <= n,
                        temp_dist@.len() == n,
                        x < n || tmp == usize::MAX,
                        tmp == usize::MAX ==> forall|q: int| 0 <= q < k ==> temp_dist@[q] == usize::MAX,
                        tmp != usize::MAX ==> x < k && temp_dist@[x as int] == tmp,
                        forall|q: int| 0 <= q < k ==> tmp <= temp_dist@[q],
                        forall|q: int| 0 <= q < k && tmp != usize::MAX && q < x ==> tmp < temp_dist@[q],
                    decreases n - k,
                {
                    if temp_dist[k] < tmp {
                        tmp = temp_dist[k];
                        x = k;
                    }
                    k = k + 1;
                }
                proof {
                    lemma_flat_index(n, i as int, j as int);
                    if tmp == usize::MAX {
                        let chosen = to_city@.subrange(i * n, i * n + j);
                        let m = lemma_some_index_missing(chosen, n);
                        assert(temp_dist@[m] != usize::MAX) by {
                            if temp_dist@[m] == usize::MAX {
                                let a = choose|a: int| 0 <= a < j && #[trigger] to_city@[i * n + a] == m;
                                assert(chosen[a] == to_city@[i * n + a]);
                            }
                        }
                        assert(false);
                    }
                }
                let ghost temp_before = temp_dist@;
                let ghost to_city_before = to_city@;
                let ghost dist_before = dist@;
                temp_dist.set(x, usize::MAX);
                to_city.set(i * ntowns + j, x);
                dist.set(i * ntowns + j, tmp);
                proof {
                    assert(tmp == town_dist(towns@, i as int, x as int));
                    assert forall|a: int| 0 <= a < j implies #[trigger] to_city@[i * n + a] == to_city_before[i * n + a]
                        && dist@[i * n + a] == dist_before[i * n + a] by {}
                    assert forall|q: int| 0 <= q < n implies (temp_dist@[q] == usize::MAX <==> exists|a: int| 0 <= a < j + 1 && #[trigger] to_city@[i * n + a] == q) by {
                        if q == x {
                            assert(to_city@[i * n + j] == q);
                        } else if temp_dist@[q] == usize::MAX {
                            let a = choose|a: int| 0 <= a < j && #[trigger] to_city_before[i * n + a] == q;
                            assert(to_city@[i * n + a] == q);
                        } else if exists|a: int| 0 <= a < j + 1 && #[trigger] to_city@[i * n + a] == q {
                            let a = choose|a: int| 0 <= a < j + 1 && #[trigger] to_city@[i * n + a] == q;
                            assert(a != j);
                            assert(to_city_before[i * n + a] == q);
                            assert(false);
                        }
                    }
                    assert forall|a: int| 0 <= a < j + 1 implies #[trigger] to_city@[i * n + a] < n && dist@[i * n + a] == town_dist(towns@, i as int, to_city@[i * n + a] as int) by {
                        if a < j {
                            assert(to_city_before[i * n + a] < n);
                        }
                    }
                    assert forall|a: int, b: int| 0 <= a < b < j + 1 implies nearer(
                        #[trigger] dist@[i * n + a] as int,
                        to_city@[i * n + a] as int,
                        #[trigger] dist@[i * n + b] as int,
                        to_city@[i * n + b] as int,
                    ) by {
                        if b == j {
                            assert(temp_before[x as int] != usize::MAX);
                            assert(nearer(dist_before[i * n + a] as int, to_city_before[i * n + a] as int, town_dist(towns@, i as int, x as int), x as int));
                        } else {
                            assert(nearer(dist_before[i * n + a] as int, to_city_before[i * n + a] as int, dist_before[i * n + b] as int, to_city_before[i * n + b] as int));
                        }
                    }
                    assert forall|a: int, k: int| 0 <= a < j + 1 && 0 <= k < n && #[trigger] temp_dist@[k] != usize::MAX implies nearer(
                        #[trigger] dist@[i * n + a] as int,
                        to_city@[i * n + a] as int,
                        town_dist(towns@, i as int, k),
                        k,
                    ) by {
                        assert(k != x);
                        assert(temp_before[k] != usize::MAX);
                        if a < j {
                            assert(nearer(dist_before[i * n + a] as int, to_city_before[i * n + a] as int, town_dist(towns@, i as int, k), k));
                        } else {
                            assert(tmp <= temp_before[k]);
                            assert(temp_before[k] == town_dist(towns@, i as int, k));
                            if k < x {
                                assert(tmp < temp_before[k]);
                            }
                        }
                    }
                }
                j = j + 1;
            }
            proof {
                assert forall|r: int| 0 <= r < i + 1 implies row_ordered(towns@, to_city@, dist@, r) by {
                    if r < i {
                        assert forall|jj: int| 0 <= jj < n implies #[trigger] to_city@[r * n + jj] == row_start_to_city[r * n + jj]
                            && dist@[r * n + jj] == row_start_dist[r * n + jj] by {
                            lemma_rows_apart(n, r, i as int, jj);
                        }
                        assert(row_ordered(towns@, row_start_to_city, row_start_dist, r));
                    }
                }
            }
            i = i + 1;
        }
        proof {
            assert(ad.take(n * n) =~= ad);
            assert(min_dists@ =~= bound_entries(towns@));
        }
        DistanceTable::sort(&mut min_dists);
        let ghost table = zeros_as_max(bound_entries(towns@)).sort_by(le_usize());
        proof {
            lemma_sorted_usize_is_sort_by(min_dists@, zeros_as_max(bound_entries(towns@)));
        }
        let mut h: usize = 0;
        while h < ntowns
            invariant
                n == ntowns,
                n * n <= usize::MAX,
                h <= ntowns,
                lower_bounds@.len() == ntowns,
                min_dists@.len() == ntowns * ntowns,
                min_dists@ == table,
                forall|k: int| 0 <= k < h ==> lower_bounds@[k] == wrapping_sum(table.subrange(0, k)),
            decreases ntowns - h,
        {
            proof {
                assert(h <= n * n) by (nonlinear_arith)
                    requires
                        h < n,
                ;
            }
            let lb = DistanceTable::calc_lower_bound(h, &min_dists);
            lower_bounds.set(h, lb);
            h = h + 1;
        }
        DistanceTable { ntowns, lower_bounds, to_city, dist }
    }

    /// The sum of the first `hops` entries of `table`, wrapping around past
    /// `usize::MAX`.
    pub fn calc_lower_bound(hops: usize, table: &Vec<usize>) -> (res: usize)
        requires
            hops <= table@.len(),
        ensures
            res == wrapping_sum(table@.subrange(0, hops as int)),
    {
        let mut res: usize = 0;
        let mut i: usize = 0;
        while i < hops
            invariant
                i <= hops <= table@.len(),
                res == wrapping_sum(table@.subrange(0, i as int)),
            decreases hops - i,
        {
            proof {
                assert(table@.subrange(0, i + 1).drop_last() =~= table@.subrange(0, i as int));
            }
            res = res.wrapping_add(table[i]);
            i = i + 1;
        }
        res
    }
}

/// Where entry `j` of row `i` of an `n` by `n` table is stored.
pub(crate) proof fn lemma_flat_index(n: int, i: int, j: int)
    requires
        0 <= i < n,
        0 <= j < n,
    ensures
        0 <= i * n + j < n * n,
        i * n <= i * n + j < (i + 1) * n,
        (i * n + j) / n == i,
        (i * n + j) % n == j,
        (i + 1) * n == i * n + n,
{
    assert(0 <= i * n + j < n * n) by (nonlinear_arith)
        requires
            0 <= i < n,
            0 <= j < n,
    ;
    assert((i + 1) * n == i * n + n) by (nonlinear_arith);
    vstd::arithmetic::div_mod::lemma_fundamental_div_mod_converse(i * n + j, n, i, j);
}

/// Rows before `i` end before row `i` starts.
proof fn lemma_rows_apart(n: int, r: int, i: int, j: int)
    requires
        0 <= r < i,
        0 <= j < n,
    ensures
        r * n + j < i * n,
{
    assert(r * n + j < i * n) by (nonlinear_arith)
        requires
            0 <= r < i,
            0 <= j < n,
    ;
}

/// A sequence shorter than `n` misses some index below `n`.
proof fn lemma_some_index_missing(s: Seq<usize>, n: int) -> (k: int)
    requires
        s.len() < n,
    ensures
        0 <= k < n,
        forall|a: int| 0 <= a < s.len() ==> s[a] != k,
{
    let t = s.map_values(|v: usize| v as int);
    t.lemma_cardinality_of_set();
    vstd::set_lib::lemma_int_range(0, n);
    if forall|k: int| 0 <= k < n ==> t.to_set().contains(k) {
        assert(vstd::set_lib::set_int_range(0, n).subset_of(t.to_set()));
        vstd::seq_lib::seq_to_set_is_finite(t);
        vstd::set_lib::lemma_len_subset(vstd::set_lib::set_int_range(0, n), t.to_set());
        assert(false);
    }
    let k = choose|k: int| 0 <= k < n && !t.to_set().contains(k);
    assert forall|a: int| 0 <= a < s.len() implies s[a] != k by {
        assert(t[a] == s[a] as int);
        assert(t.contains(t[a]));
    }
    k
}

/// A town is at distance zero from itself.
pub(crate) proof fn lemma_self_distance(towns: Seq<Coord>, i: int)
    requires
        0 <= i < towns.len(),
    ensures
        town_dist(towns, i, i) == 0,
{
    assert(sq_dist(towns[i], towns[i]) == 0);
    lemma_int_sqrt_unique(0, 0);
}

/// A sorted arrangement of the elements of `s` is `s.sort_by(le_usize())`.
proof fn lemma_sorted_usize_is_sort_by(x: Seq<usize>, s: Seq<usize>)
    requires
        sorted_usize(x),
        x.to_multiset() == s.to_multiset(),
    ensures
        x == s.sort_by(le_usize()),
{
    let leq = le_usize();
    assert(vstd::relations::total_ordering(leq));
    s.lemma_sort_by_ensures(leq);
    assert(vstd::relations::sorted_by(x, leq));
    vstd::seq_lib::lemma_sorted_unique(x, s.sort_by(leq), leq);
}

/// The best route length known after searching on from a route of `hops`
/// towns that ends at `last`, visits the towns in the bit set `path` and is
/// `length` long, when the best known so far is `m`: the search stops where
/// `length` plus the lower bound for the remaining steps reaches `m`,
/// records a complete route that is shorter, and otherwise tries the
/// neighbours of `last` not yet visited, nearest first.
pub open spec fn tsp_search(t: DistanceTable, hops: int, last: int, path: u128, length: int, m: int) -> int
    decreases t.ntowns - hops, t.ntowns + 1,
{
    let n = t.ntowns as int;
    if hops < 1 || hops > n || last < 0 || last >= n {
        m
    } else if length + t.lower_bounds@[n - hops] >= m {
        m
    } else if hops == n {
        length
    } else {
        tsp_branch(t, hops, last, path, length, 0, m)
    }
}

/// The neighbour at position `i` of the row of `last` may be visited next.
pub open spec fn step_allowed(t: DistanceTable, last: int, path: u128, i: int) -> bool {
    let city = t.to_city@[last * t.ntowns + i];
    city != last && path & (1u128 << city) == 0
}

/// The search over the neighbours at positions `i` and after.
pub open spec fn tsp_branch(t: DistanceTable, hops: int, last: int, path: u128, length: int, i: int, m: int) -> int
    decreases t.ntowns - hops, t.ntowns - i,
{
    let n = t.ntowns as int;
    if i < 0 || i >= n || hops >= n {
        m
    } else {
        let city = t.to_city@[last * n + i];
        let m2 = if step_allowed(t, last, path, i) {
            tsp_search(t, hops + 1, city as int, path | (1u128 << city), length + t.dist@[last * n + i], m)
        } else {
            m
        };
        tsp_branch(t, hops, last, path, length, i + 1, m2)
    }
}

/// What the search does at a route: give it up because it cannot beat the
/// best known length, record it as the new best, or try its neighbours.
#[derive(Clone, Copy, Debug, PartialEq, Eq, Structural)]
pub enum TspStep {
    Prune,
    Record,
    Branch,
}

/// `a + b`, wrapping around past `usize::MAX` as the release build of the
/// search does.
pub open spec fn add_wrapping(a: usize, b: usize) -> usize {
    vstd::wrapping::usize_specs::wrapping_add(a, b)
}

/// The search's decision at a route of `hops` towns and length `length`
/// when the best known length is `m`.
pub open spec fn tsp_step_spec(t: DistanceTable, hops: int, length: usize, m: usize) -> TspStep {
    if add_wrapping(length, t.lower_bounds@[t.ntowns - hops]) >= m {
        TspStep::Prune
    } else if hops == t.ntowns {
        TspStep::Record
    } else {
        TspStep::Branch
    }
}

/// What the search run on `t` leaves as the best known length, with its
/// sums wrapping around past `usize::MAX`: the same steps as `tsp_search`.
pub open spec fn tsp_run(t: DistanceTable, hops: int, last: int, path: u128, length: usize, m: usize) -> usize
    decreases t.ntowns - hops, t.ntowns + 1,
{
    let n = t.ntowns as int;
    if hops < 1 || hops > n || last < 0 || last >= n {
        m
    } else if add_wrapping(length, t.lower_bounds@[n - hops]) >= m {
        m
    } else if hops == n {
        length
    } else {
        tsp_run_branch(t, hops, last, path, length, 0, m)
    }
}

/// `tsp_run` over the neighbours at positions `i` and after.
pub open spec fn tsp_run_branch(t: DistanceTable, hops: int, last: int, path: u128, length: usize, i: int, m: usize) -> usize
    decreases t.ntowns - hops, t.ntowns - i,
{
    let n = t.ntowns as int;
    if i < 0 || i >= n || hops >= n {
        m
    } else {
        let city = t.to_city@[last * n + i];
        let m2 = if step_allowed(t, last, path, i) {
            tsp_run(t, hops + 1, city as int, path | (1u128 << city), add_wrapping(length, t.dist@[last * n + i]), m)
        } else {
            m
        };
        tsp_run_branch(t, hops, last, path, length, i + 1, m2)
    }
}

/// Decides what the search does at a route of `hops` towns and length
/// `length` when the best known length is `minimum`.
pub fn tsp_step(t: &DistanceTable, hops: usize, length: usize, minimum: usize) -> (s: TspStep)
    requires
        t.wf(),
        1 <= hops <= t.ntowns,
    ensures
        s == tsp_step_spec(*t, hops as int, length, minimum),
{
    if length.wrapping_add(t.lower_bounds[t.ntowns - hops]) >= minimum {
        TspStep::Prune
    } else if hops == t.ntowns {
        TspStep::Record
    } else {
        TspStep::Branch
    }
}

/// The route one step further through the neighbour at position `i` of the
/// row of `last`, if that neighbour is not yet on the route: its last town,
/// its set of towns and its length.
pub fn tsp_next(t: &DistanceTable, hops: usize, last: usize, path: u128, length: usize, i: usize) -> (next: Option<(usize, u128, usize)>)
    requires
        t.wf(),
        1 <= hops < t.ntowns,
        last < t.ntowns,
        i < t.ntowns,
    ensures
        next is Some <==> step_allowed(*t, last as int, path, i as int),
        next matches Some((city, new_path, new_length)) ==> {
            &&& city == t.to_city@[last * t.ntowns + i]
            &&& new_path == path | (1u128 << city)
            &&& new_length == add_wrapping(length, t.dist@[last * t.ntowns + i])
            &&& city < t.ntowns
        },
{
    let ntowns = t.ntowns;
    proof {
        lemma_flat_index(ntowns as int, last as int, i as int);
        assert(ntowns * ntowns <= 16384) by (nonlinear_arith)
            requires
                ntowns <= 128,
        ;
    }
    let city = t.to_city[last * ntowns + i];
    let city_bit = 1u128 << city;
    if city != last && (path & city_bit) == 0 {
        let dist = t.dist[last * ntowns + i];
        let new_path = path | city_bit;
        Some((city, new_path, length.wrapping_add(dist)))
    } else {
        None
    }
}

/// Searches on from a route of `hops` towns that ends at `last`, visits the
/// towns in `path` and is `length` long, lowering `minimum` to the length
/// of every shorter complete route it finds. Sums wrap around past
/// `usize::MAX`, as in the benchmark's release build.
pub fn tsp_seq(t: &DistanceTable, hops: usize, last: usize, path: u128, length: usize, minimum: &mut usize)
    requires
        t.wf(),
        1 <= hops <= t.ntowns,
        last < t.ntowns,
    ensures
        *final(minimum) == tsp_run(*t, hops as int, last as int, path, length, *old(minimum)),
    decreases t.ntowns - hops,
{
    let ntowns = t.ntowns;
    match tsp_step(t, hops, length, *minimum) {
        TspStep::Prune => {
            return;
        },
        TspStep::Record => {
            *minimum = length;
            return;
        },
        TspStep::Branch => {},
    }
    let ghost m0 = *minimum;
    let mut i: usize = 0;
    while i < ntowns
        invariant
            t.wf(),
            ntowns == t.ntowns,
            1 <= hops < ntowns,
            last < ntowns,
            i <= ntowns,
            tsp_run_branch(*t, hops as int, last as int, path, length, 0, m0)
                == tsp_run_branch(*t, hops as int, last as int, path, length, i as int, *minimum),
        decreases ntowns - i,
    {
        if let Some((city, new_path, new_length)) = tsp_next(t, hops, last, path, length, i) {
            tsp_seq(t, hops + 1, city, new_path, new_length, minimum);
        }
        i = i + 1;
    }
}

/// Some complete route of length `l` extends the route of `hops` towns that
/// ends at `last`, visits the towns in `path` and is `length` long, through
/// the neighbour table.
pub open spec fn route_completes(t: DistanceTable, hops: int, last: int, path: u128, length: int, l: int) -> bool
    decreases t.ntowns - hops,
{
    let n = t.ntowns as int;
    if hops < 1 || hops > n || last < 0 || last >= n {
        false
    } else if hops == n {
        l == length
    } else {
        exists|i: int|
            0 <= i < n && #[trigger] step_allowed(t, last, path, i) && route_completes(
                t,
                hops + 1,
                t.to_city@[last * n + i] as int,
                path | (1u128 << t.to_city@[last * n + i]),
                length + t.dist@[last * n + i],
                l,
            )
    }
}

/// The lower bounds never exceed what completing a route still costs.
pub open spec fn bounds_admissible(t: DistanceTable) -> bool {
    forall|hops: int, last: int, path: u128, length: int, l: int|
        #[trigger] route_completes(t, hops, last, path, length, l) ==> length
            + t.lower_bounds@[t.ntowns - hops] <= l
}

/// The search never makes the best known length worse, and what it reports
/// is either the length it started from or the length of a complete route
/// that extends the current one.
pub proof fn lemma_search_sound(t: DistanceTable, hops: int, last: int, path: u128, length: int, m: int)
    requires
        t.wf(),
    ensures
        tsp_search(t, hops, last, path, length, m) <= m,
        tsp_search(t, hops, last, path, length, m) == m || route_completes(
            t,
            hops,
            last,
            path,
            length,
            tsp_search(t, hops, last, path, length, m),
        ),
    decreases t.ntowns - hops, t.ntowns + 1,
{
    let n = t.ntowns as int;
    if hops < 1 || hops > n || last < 0 || last >= n {
    } else if length + t.lower_bounds@[n - hops] >= m {
    } else if hops == n {
    } else {
        lemma_branch_sound(t, hops, last, path, length, 0, m);
    }
}

/// `lemma_search_sound` for the neighbours at positions `i` and after.
pub proof fn lemma_branch_sound(t: DistanceTable, hops: int, last: int, path: u128, length: int, i: int, m: int)
    requires
        t.wf(),
        1 <= hops < t.ntowns,
        0 <= last < t.ntowns,
    ensures
        tsp_branch(t, hops, last, path, length, i, m) <= m,
        tsp_branch(t, hops, last, path, length, i, m) == m || route_completes(
            t,
            hops,
            last,
            path,
            length,
            tsp_branch(t, hops, last, path, length, i, m),
        ),
    decreases t.ntowns - hops, t.ntowns - i,
{
    let n = t.ntowns as int;
    if i < 0 || i >= n {
    } else {
        lemma_flat_index(n, last, i);
        let city = t.to_city@[last * n + i];
        let child_path = path | (1u128 << city);
        let child_length = length + t.dist@[last * n + i];
        let m2 = if step_allowed(t, last, path, i) {
            tsp_search(t, hops + 1, city as int, child_path, child_length, m)
        } else {
            m
        };
        if step_allowed(t, last, path, i) {
            lemma_search_sound(t, hops + 1, city as int, child_path, child_length, m);
        }
        lemma_branch_sound(t, hops, last, path, length, i + 1, m2);
    }
}

/// With admissible lower bounds the search reports nothing longer than any
/// complete route that extends the current one.
pub proof fn lemma_search_finds_shortest(t: DistanceTable, hops: int, last: int, path: u128, length: int, m: int, l: int)
    requires
        t.wf(),
        bounds_admissible(t),
        route_completes(t, hops, last, path, length, l),
    ensures
        tsp_search(t, hops, last, path, length, m) <= l,
    decreases t.ntowns - hops, t.ntowns + 1,
{
    let n = t.ntowns as int;
    if hops < 1 || hops > n || last < 0 || last >= n {
    } else if length + t.lower_bounds@[n - hops] >= m {
    } else if hops == n {
    } else {
        let i = choose|i: int|
            0 <= i < n && #[trigger] step_allowed(t, last, path, i) && route_completes(
                t,
                hops + 1,
                t.to_city@[last * n + i] as int,
                path | (1u128 << t.to_city@[last * n + i]),
                length + t.dist@[last * n + i],
                l,
            );
        lemma_branch_finds_shortest(t, hops, last, path, length, 0, m, l, i);
    }
}

/// `lemma_search_finds_shortest` for the neighbours at positions `i` and
/// after, where the route of length `l` goes on through position `w`.
pub proof fn lemma_branch_finds_shortest(t: DistanceTable, hops: int, last: int, path: u128, length: int, i: int, m: int, l: int, w: int)
    requires
        t.wf(),
        bounds_admissible(t),
        1 <= hops < t.ntowns,
        0 <= last < t.ntowns,
        0 <= i <= w < t.ntowns,
        step_allowed(t, last, path, w),
        route_completes(
            t,
            hops + 1,
            t.to_city@[last * t.ntowns + w] as int,
            path | (1u128 << t.to_city@[last * t.ntowns + w]),
            length + t.dist@[last * t.ntowns + w],
            l,
        ),
    ensures
        tsp_branch(t, hops, last, path, length, i, m) <= l,
    decreases t.ntowns - hops, t.ntowns - i,
{
    let n = t.ntowns as int;
    lemma_flat_index(n, last, i);
    let city = t.to_city@[last * n + i];
    let child_path = path | (1u128 << city);
    let child_length = length + t.dist@[last * n + i];
    let m2 = if step_allowed(t, last, path, i) {
        tsp_search(t, hops + 1, city as int, child_path, child_length, m)
    } else {
        m
    };
    if i == w {
        lemma_search_finds_shortest(t, hops + 1, city as int, child_path, child_length, m, l);
        lemma_branch_sound(t, hops, last, path, length, i + 1, m2);
    } else {
        lemma_branch_finds_shortest(t, hops, last, path, length, i + 1, m2, l, w);
    }
}

/// The best route length known after the spawning search: like
/// `tsp_search`, but routes of at most `threshold` towns try their
/// neighbours farthest first, each in a search of its own, and longer
/// routes are left to `tsp_search`.
pub open spec fn spawn_search(t: DistanceTable, hops: int, last: int, path: u128, length: int, m: int, threshold: int) -> int
    decreases t.ntowns - hops, t.ntowns + 1,
{
    let n = t.ntowns as int;
    if hops < 1 || hops > n || last < 0 || last >= n {
        m
    } else if length + t.lower_bounds@[n - hops] >= m {
        m
    } else if hops == n {
        length
    } else if hops > threshold {
        tsp_search(t, hops, last, path, length, m)
    } else {
        spawn_branch(t, hops, last, path, length, n, m, threshold)
    }
}

/// The spawning search over the neighbours at positions below `k`, from
/// the farthest down.
pub open spec fn spawn_branch(t: DistanceTable, hops: int, last: int, path: u128, length: int, k: int, m: int, threshold: int) -> int
    decreases t.ntowns - hops, k,
{
    let n = t.ntowns as int;
    if k <= 0 || k > n || hops >= n {
        m
    } else {
        let i = k - 1;
        let city = t.to_city@[last * n + i];
        let m2 = if step_allowed(t, last, path, i) {
            spawn_search(t, hops + 1, city as int, path | (1u128 << city), length + t.dist@[last * n + i], m, threshold)
        } else {
            m
        };
        spawn_branch(t, hops, last, path, length, i, m2, threshold)
    }
}

/// `spawn_search` with its sums wrapping around past `usize::MAX`: what the
/// spawning search run on `t` leaves as the best known length.
pub open spec fn spawn_run(t: DistanceTable, hops: int, last: int, path: u128, length: usize, m: usize, threshold: int) -> usize
    decreases t.ntowns - hops, t.ntowns + 1,
{
    let n = t.ntowns as int;
    if hops < 1 || hops > n || last < 0 || last >= n {
        m
    } else if add_wrapping(length, t.lower_bounds@[n - hops]) >= m {
        m
    } else if hops == n {
        length
    } else if hops > threshold {
        tsp_run(t, hops, last, path, length, m)
    } else {
        spawn_run_branch(t, hops, last, path, length, n, m, threshold)
    }
}

/// `spawn_run` over the neighbours at positions below `k`, from the
/// farthest down.
pub open spec fn spawn_run_branch(t: DistanceTable, hops: int, last: int, path: u128, length: usize, k: int, m: usize, threshold: int) -> usize
    decreases t.ntowns - hops, k,
{
    let n = t.ntowns as int;
    if k <= 0 || k > n || hops >= n {
        m
    } else {
        let i = k - 1;
        let city = t.to_city@[last * n + i];
        let m2 = if step_allowed(t, last, path, i) {
            spawn_run(t, hops + 1, city as int, path | (1u128 << city), add_wrapping(length, t.dist@[last * n + i]), m, threshold)
        } else {
            m
        };
        spawn_run_branch(t, hops, last, path, length, i, m2, threshold)
    }
}

/// The search as the task-parallel runtime spawns it, run in one thread:
/// routes of at most `threshold` towns try their neighbours farthest first,
/// longer ones go to `tsp_seq`.
pub fn tsp_spawn(t: &DistanceTable, hops: usize, last: usize, path: u128, length: usize, minimum: &mut usize, threshold: usize)
    requires
        t.wf(),
        1 <= hops <= t.ntowns,
        last < t.ntowns,
    ensures
        *final(minimum) == spawn_run(*t, hops as int, last as int, path, length, *old(minimum), threshold as int),
    decreases t.ntowns - hops,
{
    let ntowns = t.ntowns;
    match tsp_step(t, hops, length, *minimum) {
        TspStep::Prune => {
            return;
        },
        TspStep::Record => {
            *minimum = length;
            return;
        },
        TspStep::Branch => {},
    }
    if hops > threshold {
        tsp_seq(t, hops, last, path, length, minimum);
        return;
    }
    let ghost m0 = *minimum;
    let mut k: usize = ntowns;
    while k > 0
        invariant
            t.wf(),
            ntowns == t.ntowns,
            1 <= hops < ntowns,
            last < ntowns,
            k <= ntowns,
            spawn_run_branch(*t, hops as int, last as int, path, length, ntowns as int, m0, threshold as int)
                == spawn_run_branch(*t, hops as int, last as int, path, length, k as int, *minimum, threshold as int),
        decreases k,
    {
        let i = k - 1;
        if let Some((city, new_path, new_length)) = tsp_next(t, hops, last, path, length, i) {
            tsp_spawn(t, hops + 1, city, new_path, new_length, minimum, threshold);
        }
        k = i;
    }
}

/// `lemma_search_sound` for the spawning search.
pub proof fn lemma_spawn_sound(t: DistanceTable, hops: int, last: int, path: u128, length: int, m: int, threshold: int)
    requires
        t.wf(),
    ensures
        spawn_search(t, hops, last, path, length, m, threshold) <= m,
        spawn_search(t, hops, last, path, length, m, threshold) == m || route_completes(
            t,
            hops,
            last,
            path,
            length,
            spawn_search(t, hops, last, path, length, m, threshold),
        ),
    decreases t.ntowns - hops, t.ntowns + 1,
{
    let n = t.ntowns as int;
    if hops < 1 || hops > n || last < 0 || last >= n {
    } else if length + t.lower_bounds@[n - hops] >= m {
    } else if hops == n {
    } else if hops > threshold {
        lemma_search_sound(t, hops, last, path, length, m);
    } else {
        lemma_spawn_branch_sound(t, hops, last, path, length, n, m, threshold);
    }
}

/// `lemma_spawn_sound` for the neighbours at positions below `k`.
pub proof fn lemma_spawn_branch_sound(t: DistanceTable, hops: int, last: int, path: u128, length: int, k: int, m: int, threshold: int)
    requires
        t.wf(),
        1 <= hops < t.ntowns,
        0 <= last < t.ntowns,
    ensures
        spawn_branch(t, hops, last, path, length, k, m, threshold) <= m,
        spawn_branch(t, hops, last, path, length, k, m, threshold) == m || route_completes(
            t,
            hops,
            last,
            path,
            length,
            spawn_branch(t, hops, last, path, length, k, m, threshold),
        ),
    decreases t.ntowns - hops, k,
{
    let n = t.ntowns as int;
    if k <= 0 || k > n {
    } else {
        let i = k - 1;
        lemma_flat_index(n, last, i);
        let city = t.to_city@[last * n + i];
        let child_path = path | (1u128 << city);
        let child_length = length + t.dist@[last * n + i];
        let m2 = if step_allowed(t, last, path, i) {
            spawn_search(t, hops + 1, city as int, child_path, child_length, m, threshold)
        } else {
            m
        };
        if step_allowed(t, last, path, i) {
            lemma_spawn_sound(t, hops + 1, city as int, child_path, child_length, m, threshold);
        }
        lemma_spawn_branch_sound(t, hops, last, path, length, i, m2, threshold);
    }
}

/// `lemma_search_finds_shortest` for the spawning search.
pub proof fn lemma_spawn_finds_shortest(t: DistanceTable, hops: int, last: int, path: u128, length: int, m: int, threshold: int, l: int)
    requires
        t.wf(),
        bounds_admissible(t),
        route_completes(t, hops, last, path, length, l),
    ensures
        spawn_search(t, hops, last, path, length, m, threshold) <= l,
    decreases t.ntowns - hops, t.ntowns + 1,
{
    let n = t.ntowns as int;
    if hops < 1 || hops > n || last < 0 || last >= n {
    } else if length + t.lower_bounds@[n - hops] >= m {
    } else if hops == n {
    } else if hops > threshold {
        lemma_search_finds_shortest(t, hops, last, path, length, m, l);
    } else {
        let w = choose|i: int|
            0 <= i < n && #[trigger] step_allowed(t, last, path, i) && route_completes(
                t,
                hops + 1,
                t.to_city@[last * n + i] as int,
                path | (1u128 << t.to_city@[last * n + i]),
                length + t.dist@[last * n + i],
                l,
            );
        lemma_spawn_branch_finds_shortest(t, hops, last, path, length, n, m, threshold, l, w);
    }
}

/// `lemma_spawn_finds_shortest` for the neighbours at positions below `k`,
/// where the route of length `l` goes on through position `w`.
pub proof fn lemma_spawn_branch_finds_shortest(t: DistanceTable, hops: int, last: int, path: u128, length: int, k: int, m: int, threshold: int, l: int, w: int)
    requires
        t.wf(),
        bounds_admissible(t),
        1 <= hops < t.ntowns,
        0 <= last < t.ntowns,
        0 <= w < k <= t.ntowns,
        step_allowed(t, last, path, w),
        route_completes(
            t,
            hops + 1,
            t.to_city@[last * t.ntowns + w] as int,
            path | (1u128 << t.to_city@[last * t.ntowns + w]),
            length + t.dist@[last * t.ntowns + w],
            l,
        ),
    ensures
        spawn_branch(t, hops, last, path, length, k, m, threshold) <= l,
    decreases t.ntowns - hops, k,
{
    let n = t.ntowns as int;
    let i = k - 1;
    lemma_flat_index(n, last, i);
    let city = t.to_city@[last * n + i];
    let child_path = path | (1u128 << city);
    let child_length = length + t.dist@[last * n + i];
    let m2 = if step_allowed(t, last, path, i) {
        spawn_search(t, hops + 1, city as int, child_path, child_length, m, threshold)
    } else {
        m
    };
    if i == w {
        lemma_spawn_finds_shortest(t, hops + 1, city as int, child_path, child_length, m, threshold, l);
        lemma_spawn_branch_sound(t, hops, last, path, length, i, m2, threshold);
    } else {
        lemma_spawn_branch_finds_shortest(t, hops, last, path, length, i, m2, threshold, l, w);
    }
}

/// With admissible lower bounds the spawning search and the sequential one
/// report the same length: the shortest complete route, where that is
/// shorter than the length they start from, and that length otherwise.
pub proof fn lemma_spawn_agrees_with_seq(t: DistanceTable, hops: int, last: int, path: u128, length: int, m: int, threshold: int)
    requires
        t.wf(),
        bounds_admissible(t),
    ensures
        spawn_search(t, hops, last, path, length, m, threshold) == tsp_search(t, hops, last, path, length, m),
{
    let a = tsp_search(t, hops, last, path, length, m);
    let b = spawn_search(t, hops, last, path, length, m, threshold);
    lemma_search_sound(t, hops, last, path, length, m);
    lemma_spawn_sound(t, hops, last, path, length, m, threshold);
    if a < m {
        lemma_spawn_finds_shortest(t, hops, last, path, length, m, threshold, a);
    }
    if b < m {
        lemma_search_finds_shortest(t, hops, last, path, length, m, b);
    }
}

/// Adding at most `step_cap()` to the length of a route of `hops` steps of
/// at most `step_cap()` each does not wrap around.
proof fn lemma_no_wrap(length: usize, x: usize, hops: int)
    requires
        1 <= hops <= 128,
        length <= hops * step_cap(),
        x <= step_cap(),
    ensures
        add_wrapping(length, x) == length + x,
        length + x <= (hops + 1) * step_cap(),
{
    assert((hops + 1) * step_cap() == hops * step_cap() + step_cap()) by (nonlinear_arith);
    assert((hops + 1) * step_cap() <= usize::MAX) by (nonlinear_arith)
        requires
            hops <= 128,
            step_cap() == usize::MAX as int / 256,
    ;
}

/// On a bounded table no sum of the search wraps around, from a route of
/// `hops` towns at most `hops * step_cap()` long: what the search run on the
/// table leaves is `tsp_search`.
pub proof fn lemma_run_is_search(t: DistanceTable, hops: int, last: int, path: u128, length: usize, m: usize)
    requires
        t.wf(),
        t.bounded(),
        length <= hops * step_cap(),
    ensures
        tsp_run(t, hops, last, path, length, m) as int == tsp_search(t, hops, last, path, length as int, m as int),
    decreases t.ntowns - hops, t.ntowns + 1,
{
    let n = t.ntowns as int;
    if !(hops < 1 || hops > n || last < 0 || last >= n) {
        assert(t.lower_bounds@[n - hops] <= step_cap());
        lemma_no_wrap(length, t.lower_bounds@[n - hops], hops);
        if hops < n {
            lemma_run_branch_is_branch(t, hops, last, path, length, 0, m);
        }
    }
}

/// `lemma_run_is_search` for the neighbours at positions `i` and after.
pub proof fn lemma_run_branch_is_branch(t: DistanceTable, hops: int, last: int, path: u128, length: usize, i: int, m: usize)
    requires
        t.wf(),
        t.bounded(),
        1 <= hops < t.ntowns,
        0 <= last < t.ntowns,
        length <= hops * step_cap(),
    ensures
        tsp_run_branch(t, hops, last, path, length, i, m) as int == tsp_branch(t, hops, last, path, length as int, i, m as int),
    decreases t.ntowns - hops, t.ntowns - i,
{
    let n = t.ntowns as int;
    if 0 <= i < n {
        lemma_flat_index(n, last, i);
        let city = t.to_city@[last * n + i];
        assert(t.dist@[last * n + i] <= step_cap());
        lemma_no_wrap(length, t.dist@[last * n + i], hops);
        let child = add_wrapping(length, t.dist@[last * n + i]);
        let m2 = if step_allowed(t, last, path, i) {
            tsp_run(t, hops + 1, city as int, path | (1u128 << city), child, m)
        } else {
            m
        };
        if step_allowed(t, last, path, i) {
            lemma_run_is_search(t, hops + 1, city as int, path | (1u128 << city), child, m);
        }
        lemma_run_branch_is_branch(t, hops, last, path, length, i + 1, m2);
    }
}

/// `lemma_run_is_search` for the spawning search.
pub proof fn lemma_spawn_run_is_spawn_search(t: DistanceTable, hops: int, last: int, path: u128, length: usize, m: usize, threshold: int)
    requires
        t.wf(),
        t.bounded(),
        length <= hops * step_cap(),
    ensures
        spawn_run(t, hops, last, path, length, m, threshold) as int == spawn_search(
            t,
            hops,
            last,
            path,
            length as int,
            m as int,
            threshold,
        ),
    decreases t.ntowns - hops, t.ntowns + 1,
{
    let n = t.ntowns as int;
    if !(hops < 1 || hops > n || last < 0 || last >= n) {
        assert(t.lower_bounds@[n - hops] <= step_cap());
        lemma_no_wrap(length, t.lower_bounds@[n - hops], hops);
        lemma_run_is_search(t, hops, last, path, length, m);
        if hops < n {
            lemma_spawn_run_branch_is_branch(t, hops, last, path, length, n, m, threshold);
        }
    }
}

/// `lemma_spawn_run_is_spawn_search` for the neighbours at positions below
/// `k`.
pub proof fn lemma_spawn_run_branch_is_branch(t: DistanceTable, hops: int, last: int, path: u128, length: usize, k: int, m: usize, threshold: int)
    requires
        t.wf(),
        t.bounded(),
        1 <= hops < t.ntowns,
        0 <= last < t.ntowns,
        length <= hops * step_cap(),
    ensures
        spawn_run_branch(t, hops, last, path, length, k, m, threshold) as int == spawn_branch(
            t,
            hops,
            last,
            path,
            length as int,
            k,
            m as int,
            threshold,
        ),
    decreases t.ntowns - hops, k,
{
    let n = t.ntowns as int;
    if 0 < k <= n {
        let i = k - 1;
        lemma_flat_index(n, last, i);
        let city = t.to_city@[last * n + i];
        assert(t.dist@[last * n + i] <= step_cap());
        lemma_no_wrap(length, t.dist@[last * n + i], hops);
        let child = add_wrapping(length, t.dist@[last * n + i]);
        let m2 = if step_allowed(t, last, path, i) {
            spawn_run(t, hops + 1, city as int, path | (1u128 << city), child, m, threshold)
        } else {
            m
        };
        if step_allowed(t, last, path, i) {
            lemma_spawn_run_is_spawn_search(t, hops + 1, city as int, path | (1u128 << city), child, m, threshold);
        }
        lemma_spawn_run_branch_is_branch(t, hops, last, path, length, i, m2, threshold);
    }
}

/// With a zero lower bound for no remaining steps, as every table built by
/// `from_towns` has, the search never raises the best known length, even
/// where its sums wrap around.
pub proof fn lemma_run_never_raises(t: DistanceTable, hops: int, last: int, path: u128, length: usize, m: usize)
    requires
        t.lower_bounds@[0] == 0,
    ensures
        tsp_run(t, hops, last, path, length, m) <= m,
    decreases t.ntowns - hops, t.ntowns + 1,
{
    let n = t.ntowns as int;
    if hops < 1 || hops > n || last < 0 || last >= n {
    } else if add_wrapping(length, t.lower_bounds@[n - hops]) >= m {
    } else if hops == n {
    } else {
        lemma_run_branch_never_raises(t, hops, last, path, length, 0, m);
    }
}

/// `lemma_run_never_raises` for the neighbours at positions `i` and after.
pub proof fn lemma_run_branch_never_raises(t: DistanceTable, hops: int, last: int, path: u128, length: usize, i: int, m: usize)
    requires
        t.lower_bounds@[0] == 0,
    ensures
        tsp_run_branch(t, hops, last, path, length, i, m) <= m,
    decreases t.ntowns - hops, t.ntowns - i,
{
    let n = t.ntowns as int;
    if !(i < 0 || i >= n || hops >= n) {
        let city = t.to_city@[last * n + i];
        let child = add_wrapping(length, t.dist@[last * n + i]);
        let m2 = if step_allowed(t, last, path, i) {
            tsp_run(t, hops + 1, city as int, path | (1u128 << city), child, m)
        } else {
            m
        };
        if step_allowed(t, last, path, i) {
            lemma_run_never_raises(t, hops + 1, city as int, path | (1u128 << city), child, m);
        }
        lemma_run_branch_never_raises(t, hops, last, path, length, i + 1, m2);
    }
}

/// `lemma_run_never_raises` for the spawning search.
pub proof fn lemma_spawn_run_never_raises(t: DistanceTable, hops: int, last: int, path: u128, length: usize, m: usize, threshold: int)
    requires
        t.lower_bounds@[0] == 0,
    ensures
        spawn_run(t, hops, last, path, length, m, threshold) <= m,
    decreases t.ntowns - hops, t.ntowns + 1,
{
    let n = t.ntowns as int;
    if hops < 1 || hops > n || last < 0 || last >= n {
    } else if add_wrapping(length, t.lower_bounds@[n - hops]) >= m {
    } else if hops == n {
    } else if hops > threshold {
        lemma_run_never_raises(t, hops, last, path, length, m);
    } else {
        lemma_spawn_run_branch_never_raises(t, hops, last, path, length, n, m, threshold);
    }
}

/// `lemma_spawn_run_never_raises` for the neighbours at positions below `k`.
pub proof fn lemma_spawn_run_branch_never_raises(t: DistanceTable, hops: int, last: int, path: u128, length: usize, k: int, m: usize, threshold: int)
    requires
        t.lower_bounds@[0] == 0,
    ensures
        spawn_run_branch(t, hops, last, path, length, k, m, threshold) <= m,
    decreases t.ntowns - hops, k,
{
    let n = t.ntowns as int;
    if !(k <= 0 || k > n || hops >= n) {
        let i = k - 1;
        let city = t.to_city@[last * n + i];
        let child = add_wrapping(length, t.dist@[last * n + i]);
        let m2 = if step_allowed(t, last, path, i) {
            spawn_run(t, hops + 1, city as int, path | (1u128 << city), child, m, threshold)
        } else {
            m
        };
        if step_allowed(t, last, path, i) {
            lemma_spawn_run_never_raises(t, hops + 1, city as int, path | (1u128 << city), child, m, threshold);
        }
        lemma_spawn_run_branch_never_raises(t, hops, last, path, length, i, m2, threshold);
    }
}

/// The search stores a new best length only at a complete route, and stores
/// that route's length; with a zero lower bound for no remaining steps, as
/// every table built by `from_towns` has, the stored length is below the
/// best length it replaces.
pub proof fn lemma_record_lowers_minimum(t: DistanceTable, hops: int, last: int, path: u128, length: usize, m: usize)
    requires
        1 <= hops <= t.ntowns,
        0 <= last < t.ntowns,
        tsp_step_spec(t, hops, length, m) == TspStep::Record,
    ensures
        hops == t.ntowns,
        route_completes(t, hops, last, path, length as int, length as int),
        t.lower_bounds@[0] == 0 ==> length < m,
{
}

/// A table built by `from_towns` has a zero lower bound for no remaining
/// steps.
pub proof fn lemma_table_first_bound_zero(t: DistanceTable, towns: Seq<Coord>)
    requires
        t.is_table_of(towns),
        towns.len() >= 1,
    ensures
        t.lower_bounds@[0] == 0,
{
    let table = zeros_as_max(bound_entries(towns)).sort_by(le_usize());
    assert(table.subrange(0, 0).len() == 0);
}

/// One step of the selection sort keeps its invariant one position further.
proof fn lemma_put_min_step(before: Seq<usize>, i: int, after: Seq<usize>)
    requires
        0 <= i < before.len(),
        put_min_result(before, i, after),
        sorted_usize(before.subrange(0, i)),
        forall|a: int, b: int| 0 <= a < i <= b < before.len() ==> before[a] <= zero_as_max(before[b]),
    ensures
        after.len() == before.len(),
        sorted_usize(after.subrange(0, i + 1)),
        forall|a: int, b: int| 0 <= a < i + 1 <= b < after.len() ==> after[a] <= zero_as_max(after[b]),
        (after.subrange(0, i + 1) + zeros_as_max(after.subrange(i + 1, after.len() as int))).to_multiset()
            == (before.subrange(0, i) + zeros_as_max(before.subrange(i, before.len() as int))).to_multiset(),
{
    let w = before.subrange(0, i) + zeros_as_max(before.subrange(i, before.len() as int));
    let mp = choose|mp: int|
        #![trigger w[mp]]
        {
            &&& i <= mp < w.len()
            &&& forall|k: int| i <= k < w.len() ==> w[mp] <= w[k]
            &&& forall|k: int| i <= k < mp ==> w[mp] < w[k]
            &&& after == w.update(i, w[mp]).update(mp, w[i])
        };
    assert forall|k: int| i <= k < w.len() implies w[k] != 0 && zero_as_max(w[k]) == w[k] by {
        assert(w[k] == zero_as_max(before[k]));
    }
    assert forall|k: int| 0 <= k < i implies w[k] == before[k] by {}
    // the part from i + 1 on holds no zeros
    assert(zeros_as_max(after.subrange(i + 1, after.len() as int)) =~= after.subrange(i + 1, after.len() as int));
    assert(after.subrange(0, i + 1) + after.subrange(i + 1, after.len() as int) =~= after);
    assert(after =~= w.update(i, w[mp]).update(mp, w[i]));
    // swapping two elements keeps the multiset
    vstd::seq_lib::to_multiset_update(w, i, w[mp]);
    vstd::seq_lib::to_multiset_update(w.update(i, w[mp]), mp, w[i]);
    broadcast use vstd::multiset::group_multiset_axioms;
    assert(w.update(i, w[mp]).to_multiset() =~= w.to_multiset().insert(w[mp]).remove(w[i]));
    assert(after.to_multiset() =~= w.update(i, w[mp]).to_multiset().insert(w[i]).remove(w[mp]));
    w.to_multiset_ensures();
    w.update(i, w[mp]).to_multiset_ensures();
    assert(w.contains(w[i]));
    assert(w.to_multiset().count(w[i]) > 0);
    assert(w.update(i, w[mp])[i] == w[mp]);
    assert(after.to_multiset() =~= w.to_multiset());
    // ordering
    let head = after.subrange(0, i + 1);
    assert forall|a: int, b: int| 0 <= a <= b < i + 1 implies #[trigger] head[a] <= #[trigger] head[b] by {
        if b == i && a < i {
            assert(before[a] <= zero_as_max(before[mp]));
        } else if b < i {
            assert(before.subrange(0, i)[a] <= before.subrange(0, i)[b]);
        }
    }
    assert forall|a: int, b: int| 0 <= a < i + 1 <= b < after.len() implies after[a] <= zero_as_max(after[b]) by {
        if a < i {
            if b == mp {
                assert(before[a] <= zero_as_max(before[i]));
            } else {
                assert(before[a] <= zero_as_max(before[b]));
            }
        } else {
            if b == mp {
                assert(w[mp] <= w[i]);
            } else {
                assert(w[mp] <= w[b]);
            }
        }
    }
}

} // verus!
