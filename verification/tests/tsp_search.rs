use bench_kernels::tsp::{tsp_next, tsp_seq, tsp_spawn, tsp_step, Coord, DistanceTable, TspStep};

fn towns_from(points: &[(usize, usize)]) -> Vec<Coord> {
    points.iter().map(|&(x, y)| Coord { x, y }).collect()
}

/// Shortest route from town 0 through all towns, by trying every order.
fn brute_force(t: &DistanceTable) -> usize {
    let n = t.ntowns;
    let d = |a: usize, b: usize| -> usize {
        let row = &t.to_city[a * n..a * n + n];
        let pos = row.iter().position(|&c| c == b).unwrap();
        t.dist[a * n + pos]
    };
    fn go(n: usize, d: &dyn Fn(usize, usize) -> usize, last: usize, visited: u128, hops: usize, len: usize, best: &mut usize) {
        if hops == n {
            if len < *best {
                *best = len;
            }
            return;
        }
        for c in 0..n {
            if visited & (1u128 << c) == 0 {
                go(n, d, c, visited | (1u128 << c), hops + 1, len + d(last, c), best);
            }
        }
    }
    let mut best = usize::MAX;
    go(n, &d, 0, 1, 1, 0, &mut best);
    best
}

#[test]
fn put_min_swaps_the_first_minimum_in() {
    let mut v = vec![9, 4, 0, 2, 7, 2];
    DistanceTable::put_min(&mut v, 1);
    assert_eq!(v, vec![9, 2, usize::MAX, 4, 7, 2]);
}

#[test]
fn put_min_with_only_zeros_left() {
    let mut v = vec![1, 0, 0];
    DistanceTable::put_min(&mut v, 1);
    assert_eq!(v, vec![1, usize::MAX, usize::MAX]);
}

#[test]
fn sort_puts_zeros_last_as_max() {
    let mut v = vec![5, 0, 3, 0, 1, 3];
    DistanceTable::sort(&mut v);
    assert_eq!(v, vec![1, 3, 3, 5, usize::MAX, usize::MAX]);
}

#[test]
fn calc_lower_bound_sums_a_prefix() {
    let v = vec![1, 3, 3, 5];
    assert_eq!(DistanceTable::calc_lower_bound(0, &v), 0);
    assert_eq!(DistanceTable::calc_lower_bound(3, &v), 7);
    let w = vec![usize::MAX, 2];
    assert_eq!(DistanceTable::calc_lower_bound(2, &w), 1);
}

#[test]
fn from_towns_orders_neighbours() {
    let towns = towns_from(&[(0, 0), (3, 4), (0, 1)]);
    let t = DistanceTable::from_towns(&towns);
    assert_eq!(t.ntowns, 3);
    assert_eq!(&t.to_city[0..3], &[0, 2, 1]);
    assert_eq!(&t.dist[0..3], &[0, 1, 5]);
    // from (3,4): (0,1) is sqrt(18) -> 4, (0,0) is 5
    assert_eq!(&t.to_city[3..6], &[1, 2, 0]);
    assert_eq!(&t.dist[3..6], &[0, 4, 5]);
    // non-zero distances 1,5,5,4,1,4 sorted: 1,1,4,...
    assert_eq!(t.lower_bounds, vec![0, 1, 2]);
}

#[test]
fn from_towns_with_coinciding_towns() {
    let towns = towns_from(&[(2, 2), (2, 2), (5, 6)]);
    let t = DistanceTable::from_towns(&towns);
    // row 0: town 0 and town 1 both at distance 0, lower index first
    assert_eq!(&t.to_city[0..3], &[0, 1, 2]);
    assert_eq!(&t.dist[0..3], &[0, 0, 5]);
    assert_eq!(t.lower_bounds, vec![0, 5, 10]);
}

#[test]
fn generate_is_reproducible() {
    let a = DistanceTable::generate(9, 42);
    let b = DistanceTable::generate(9, 42);
    assert_eq!(a.to_city, b.to_city);
    assert_eq!(a.dist, b.dist);
    assert_eq!(a.lower_bounds, b.lower_bounds);
    assert!(a.fits_search());
}

#[test]
fn sample_towns_on_grid() {
    let towns = DistanceTable::sample_towns(50, 7);
    assert_eq!(towns.len(), 50);
    assert!(towns.iter().all(|c| c.x < 100 && c.y < 100));
}

#[test]
fn fits_search_refuses_malformed_tables() {
    let t = DistanceTable { ntowns: 2, lower_bounds: vec![0, 1], to_city: vec![0, 1, 1, 2], dist: vec![0, 1, 0, 1] };
    assert!(!t.fits_search());
    let u = DistanceTable { ntowns: 2, lower_bounds: vec![0, 1], to_city: vec![0, 1, 1, 0], dist: vec![0, 1, 0, 1] };
    assert!(u.fits_search());
}

#[test]
fn tsp_seq_finds_the_shortest_route() {
    for seed in 1..6u64 {
        let t = DistanceTable::generate(7, seed);
        let mut minimum = usize::MAX;
        tsp_seq(&t, 1, 0, 1, 0, &mut minimum);
        assert_eq!(minimum, brute_force(&t));
    }
}

#[test]
fn tsp_spawn_agrees_with_tsp_seq() {
    for seed in 1..6u64 {
        let t = DistanceTable::generate(8, seed);
        let mut a = usize::MAX;
        tsp_seq(&t, 1, 0, 1, 0, &mut a);
        for threshold in [0usize, 2, 6] {
            let mut b = usize::MAX;
            tsp_spawn(&t, 1, 0, 1, 0, &mut b, threshold);
            assert_eq!(a, b);
        }
    }
}

#[test]
fn tsp_seq_keeps_a_better_known_length() {
    let t = DistanceTable::generate(6, 3);
    let mut minimum = 1;
    tsp_seq(&t, 1, 0, 1, 0, &mut minimum);
    assert_eq!(minimum, 1);
}

#[test]
fn tsp_step_decisions() {
    let towns = towns_from(&[(0, 0), (3, 4), (0, 1)]);
    let t = DistanceTable::from_towns(&towns);
    assert_eq!(tsp_step(&t, 1, 0, usize::MAX), TspStep::Branch);
    assert_eq!(tsp_step(&t, 3, 6, usize::MAX), TspStep::Record);
    assert_eq!(tsp_step(&t, 1, 0, 2), TspStep::Prune);
    assert_eq!(tsp_step(&t, 1, 0, 3), TspStep::Branch);
}

#[test]
fn tsp_next_skips_visited_towns() {
    let towns = towns_from(&[(0, 0), (3, 4), (0, 1)]);
    let t = DistanceTable::from_towns(&towns);
    // position 0 of row 0 is town 0 itself
    assert_eq!(tsp_next(&t, 1, 0, 1, 0, 0), None);
    assert_eq!(tsp_next(&t, 1, 0, 1, 0, 1), Some((2, 0b101, 1)));
    assert_eq!(tsp_next(&t, 1, 0, 0b101, 0, 1), None);
}

#[test]
fn search_on_towns_at_one_place() {
    // every distance is zero, so every lower bound past the first wraps
    let towns = towns_from(&[(4, 4), (4, 4), (4, 4)]);
    let t = DistanceTable::from_towns(&towns);
    assert_eq!(t.lower_bounds, vec![0, usize::MAX, usize::MAX - 1]);
    assert!(t.fits_search());
    let mut minimum = usize::MAX;
    tsp_seq(&t, 1, 0, 1, 0, &mut minimum);
    assert_eq!(minimum, usize::MAX);
    let mut spawned = usize::MAX;
    tsp_spawn(&t, 1, 0, 1, 0, &mut spawned, 2);
    assert_eq!(spawned, usize::MAX);
}

#[test]
fn search_with_two_coinciding_towns() {
    let towns = towns_from(&[(0, 0), (0, 0), (3, 4)]);
    let t = DistanceTable::from_towns(&towns);
    let mut minimum = usize::MAX;
    tsp_seq(&t, 1, 0, 1, 0, &mut minimum);
    assert_eq!(minimum, 5);
    assert_eq!(minimum, brute_force(&t));
    let mut spawned = usize::MAX;
    tsp_spawn(&t, 1, 0, 1, 0, &mut spawned, 3);
    assert_eq!(spawned, 5);
}

#[test]
fn tsp_step_and_next_wrap_around() {
    let t = DistanceTable { ntowns: 2, lower_bounds: vec![0, usize::MAX], to_city: vec![0, 1, 1, 0], dist: vec![0, 3, 0, 3] };
    // 1 + usize::MAX wraps to 0, which is below any minimum above it
    assert_eq!(tsp_step(&t, 1, 1, 5), TspStep::Branch);
    assert_eq!(tsp_next(&t, 1, 0, 1, usize::MAX - 1, 1), Some((1, 0b11, 1)));
}

#[test]
fn search_never_raises_the_given_minimum() {
    for seed in 1..4u64 {
        let t = DistanceTable::generate(6, seed);
        let best = brute_force(&t);
        let mut minimum = best + 1;
        tsp_seq(&t, 1, 0, 1, 0, &mut minimum);
        assert_eq!(minimum, best);
        let mut low = best;
        tsp_seq(&t, 1, 0, 1, 0, &mut low);
        assert_eq!(low, best);
        let mut spawned = 1;
        tsp_spawn(&t, 1, 0, 1, 0, &mut spawned, 3);
        assert_eq!(spawned, 1);
    }
    let towns = towns_from(&[(4, 4), (4, 4), (4, 4)]);
    let t = DistanceTable::from_towns(&towns);
    let mut minimum = 0;
    tsp_seq(&t, 1, 0, 1, 0, &mut minimum);
    assert_eq!(minimum, 0);
}
