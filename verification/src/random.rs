//! Seeded random input for the benchmarks: uniformly drawn integers from a
//! generator seeded with a number, so that a seed always yields the same
//! input on one build.

use vstd::prelude::*;
use rand::rngs::StdRng;
use rand::distr::Uniform;

verus! {

#[verifier::external_type_specification]
#[verifier::external_body]
pub struct ExStdRng(rand::rngs::StdRng);

/// `rand`'s uniform distribution over an `i32` range, in a private field
/// that only the trusted functions of this module read or make: the
/// contracts speak of the bounds that `UniformI32` records beside it.
#[verifier::external_body]
pub struct I32Sampler {
    dist: Uniform<i32>,
}

/// `rand`'s uniform distribution over a `usize` range, in a private field
/// that only the trusted functions of this module read or make: the
/// contracts speak of the bounds that `UniformUsize` records beside it.
#[verifier::external_body]
pub struct UsizeSampler {
    dist: Uniform<usize>,
}

#[verifier::external_type_specification]
#[verifier::external_body]
pub struct ExUniformError(rand::distr::uniform::Error);

/// Calls `<StdRng as SeedableRng>::seed_from_u64`. Trusted only to return a
/// generator; nothing is stated of its state.
#[verifier::external_body]
pub(crate) fn std_rng_from_seed(seed: u64) -> StdRng {
    <StdRng as rand::SeedableRng>::seed_from_u64(seed)
}

/// Calls `<Uniform<i32> as TryFrom<Range<i32>>>::try_from`. Trusted: the
/// source returns an error exactly when `low >= high`.
#[verifier::external_body]
pub(crate) fn uniform_i32_from_range(low: i32, high: i32) -> (r: Result<I32Sampler, rand::distr::uniform::Error>)
    ensures
        r is Ok <==> low < high,
{
    Uniform::try_from(low..high).map(|dist| I32Sampler { dist })
}

/// Calls `<Uniform<usize> as TryFrom<Range<usize>>>::try_from`. Trusted: the
/// source returns an error exactly when `low >= high`.
#[verifier::external_body]
pub(crate) fn uniform_usize_from_range(low: usize, high: usize) -> (r: Result<UsizeSampler, rand::distr::uniform::Error>)
    ensures
        r is Ok <==> low < high,
{
    Uniform::try_from(low..high).map(|dist| UsizeSampler { dist })
}

/// A range was empty.
#[derive(Clone, Copy, Debug, PartialEq, Eq, Structural)]
pub enum RangeError {
    EmptyRange,
}

/// The uniform distribution over the `i32` values in `[low, high)`.
pub struct UniformI32 {
    low: i32,
    high: i32,
    dist: I32Sampler,
}

impl UniformI32 {
    /// The least value drawn.
    pub closed spec fn low(&self) -> i32 {
        self.low
    }

    /// The bound that every value drawn stays below.
    pub closed spec fn high(&self) -> i32 {
        self.high
    }

    /// The distribution over `[low, high)`, which must not be empty.
    pub fn new(low: i32, high: i32) -> (r: Result<UniformI32, RangeError>)
        ensures
            r is Ok <==> low < high,
            r matches Ok(u) ==> u.low() == low && u.high() == high,
    {
        match uniform_i32_from_range(low, high) {
            Ok(dist) => Ok(UniformI32 { low, high, dist }),
            Err(_) => Err(RangeError::EmptyRange),
        }
    }

    /// Calls `<Uniform<i32> as Distribution<i32>>::sample` with `rng`, and
    /// hands the advanced generator back with the value drawn. Trusted: a
    /// `UniformI32` is only made by `new` from the bounds it records, and
    /// the source draws from `[low, high)`.
    #[verifier::external_body]
    pub(crate) fn sample(&self, rng: StdRng) -> (r: (StdRng, i32))
        ensures
            self.low() <= r.1 < self.high(),
    {
        let mut rng = rng;
        let x = rand::distr::Distribution::sample(&self.dist.dist, &mut rng);
        (rng, x)
    }
}

/// The uniform distribution over the `usize` values in `[low, high)`.
pub struct UniformUsize {
    low: usize,
    high: usize,
    dist: UsizeSampler,
}

impl UniformUsize {
    /// The least value drawn.
    pub closed spec fn low(&self) -> usize {
        self.low
    }

    /// The bound that every value drawn stays below.
    pub closed spec fn high(&self) -> usize {
        self.high
    }

    /// The distribution over `[low, high)`, which must not be empty.
    pub fn new(low: usize, high: usize) -> (r: Result<UniformUsize, RangeError>)
        ensures
            r is Ok <==> low < high,
            r matches Ok(u) ==> u.low() == low && u.high() == high,
    {
        match uniform_usize_from_range(low, high) {
            Ok(dist) => Ok(UniformUsize { low, high, dist }),
            Err(_) => Err(RangeError::EmptyRange),
        }
    }

    /// Calls `<Uniform<usize> as Distribution<usize>>::sample` with `rng`,
    /// and hands the advanced generator back with the value drawn. Trusted:
    /// a `UniformUsize` is only made by `new` from the bounds it records,
    /// and the source draws from `[low, high)`.
    #[verifier::external_body]
    pub(crate) fn sample(&self, rng: StdRng) -> (r: (StdRng, usize))
        ensures
            self.low() <= r.1 < self.high(),
    {
        let mut rng = rng;
        let x = rand::distr::Distribution::sample(&self.dist.dist, &mut rng);
        (rng, x)
    }
}

/// `v` holds, in order, what one generator gives when it is made by
/// seeding with `seed` and then draws from `[low, high)` once per element:
/// element `k` is its `k`-th draw, each draw starting from the state the
/// one before left.
pub closed spec fn i32_draws_in_turn(seed: u64, low: i32, high: i32, v: Seq<i32>) -> bool {
    exists|range: UniformI32, states: Seq<StdRng>|
        {
            &&& range.low() == low
            &&& range.high() == high
            &&& states.len() == v.len() + 1
            &&& call_ensures(std_rng_from_seed, (seed,), states[0])
            &&& forall|k: int|
                0 <= k < v.len() ==> #[trigger] call_ensures(
                    UniformI32::sample,
                    (&range, states[k]),
                    (states[k + 1], v[k]),
                )
        }
}

/// `v` holds, in order, what one generator gives when it is made by
/// seeding with `seed` and then draws from `[low, high)` once per element:
/// element `k` is its `k`-th draw, each draw starting from the state the
/// one before left.
pub closed spec fn usize_draws_in_turn(seed: u64, low: usize, high: usize, v: Seq<usize>) -> bool {
    exists|range: UniformUsize, states: Seq<StdRng>|
        {
            &&& range.low() == low
            &&& range.high() == high
            &&& states.len() == v.len() + 1
            &&& call_ensures(std_rng_from_seed, (seed,), states[0])
            &&& forall|k: int|
                0 <= k < v.len() ==> #[trigger] call_ensures(
                    UniformUsize::sample,
                    (&range, states[k]),
                    (states[k + 1], v[k]),
                )
        }
}

/// What a generator seeded with `seed` draws in turn lies in the range it
/// draws from, and the first `k` of those draws are what it draws in turn
/// when it stops after `k`.
pub proof fn lemma_i32_draws_prefix(seed: u64, low: i32, high: i32, v: Seq<i32>, k: int)
    requires
        i32_draws_in_turn(seed, low, high, v),
        0 <= k <= v.len(),
    ensures
        i32_draws_in_turn(seed, low, high, v.take(k)),
        forall|j: int| 0 <= j < v.len() ==> low <= #[trigger] v[j] < high,
{
    let (range, states) = choose|range: UniformI32, states: Seq<StdRng>|
        {
            &&& range.low() == low
            &&& range.high() == high
            &&& states.len() == v.len() + 1
            &&& call_ensures(std_rng_from_seed, (seed,), states[0])
            &&& forall|k: int|
                0 <= k < v.len() ==> #[trigger] call_ensures(
                    UniformI32::sample,
                    (&range, states[k]),
                    (states[k + 1], v[k]),
                )
        };
    assert forall|j: int| 0 <= j < v.len() implies low <= #[trigger] v[j] < high by {
        assert(call_ensures(UniformI32::sample, (&range, states[j]), (states[j + 1], v[j])));
    }
    let s2 = states.take(k + 1);
    let v2 = v.take(k);
    assert forall|j: int| 0 <= j < v2.len() implies #[trigger] call_ensures(
        UniformI32::sample,
        (&range, s2[j]),
        (s2[j + 1], v2[j]),
    ) by {
        assert(call_ensures(UniformI32::sample, (&range, states[j]), (states[j + 1], v[j])));
    }
    assert(s2.len() == v2.len() + 1);
}

/// What a generator seeded with `seed` draws in turn lies in the range it
/// draws from, and the first `k` of those draws are what it draws in turn
/// when it stops after `k`.
pub proof fn lemma_usize_draws_prefix(seed: u64, low: usize, high: usize, v: Seq<usize>, k: int)
    requires
        usize_draws_in_turn(seed, low, high, v),
        0 <= k <= v.len(),
    ensures
        usize_draws_in_turn(seed, low, high, v.take(k)),
        forall|j: int| 0 <= j < v.len() ==> low <= #[trigger] v[j] < high,
{
    let (range, states) = choose|range: UniformUsize, states: Seq<StdRng>|
        {
            &&& range.low() == low
            &&& range.high() == high
            &&& states.len() == v.len() + 1
            &&& call_ensures(std_rng_from_seed, (seed,), states[0])
            &&& forall|k: int|
                0 <= k < v.len() ==> #[trigger] call_ensures(
                    UniformUsize::sample,
                    (&range, states[k]),
                    (states[k + 1], v[k]),
                )
        };
    assert forall|j: int| 0 <= j < v.len() implies low <= #[trigger] v[j] < high by {
        assert(call_ensures(UniformUsize::sample, (&range, states[j]), (states[j + 1], v[j])));
    }
    let s2 = states.take(k + 1);
    let v2 = v.take(k);
    assert forall|j: int| 0 <= j < v2.len() implies #[trigger] call_ensures(
        UniformUsize::sample,
        (&range, s2[j]),
        (s2[j + 1], v2[j]),
    ) by {
        assert(call_ensures(UniformUsize::sample, (&range, states[j]), (states[j + 1], v[j])));
    }
    assert(s2.len() == v2.len() + 1);
}

/// A chain of draws from a generator seeded with `seed`, each starting from
/// the state the one before left, gives `usize_draws_in_turn`.
pub(crate) proof fn lemma_usize_draws_in_turn(seed: u64, range: UniformUsize, states: Seq<StdRng>, v: Seq<usize>)
    requires
        states.len() == v.len() + 1,
        call_ensures(std_rng_from_seed, (seed,), states[0]),
        forall|k: int|
            0 <= k < v.len() ==> #[trigger] call_ensures(
                UniformUsize::sample,
                (&range, states[k]),
                (states[k + 1], v[k]),
            ),
    ensures
        usize_draws_in_turn(seed, range.low(), range.high(), v),
{
}

/// `n` integers drawn uniformly from `[i32::MIN, i32::MAX)` in turn by one
/// generator seeded with `seed`: the input of the sorting benchmarks.
pub fn gen_vec(n: usize, seed: usize) -> (v: Vec<i32>)
    ensures
        v@.len() == n,
        forall|k: int| 0 <= k < n ==> v@[k] < i32::MAX,
        i32_draws_in_turn(seed as u64, i32::MIN, i32::MAX, v@),
{
    let range = match UniformI32::new(i32::MIN, i32::MAX) {
        Ok(u) => u,
        Err(_) => {
            assert(false);
            return Vec::new();
        },
    };
    let seeding = std_rng_from_seed;
    let draw = UniformI32::sample;
    let mut rng = seeding(seed as u64);
    let ghost mut states: Seq<StdRng> = seq![rng];
    let mut v: Vec<i32> = Vec::new();
    let mut i: usize = 0;
    while i < n
        invariant
            i <= n,
            v@.len() == i,
            range.low() == i32::MIN,
            range.high() == i32::MAX,
            forall|k: int| 0 <= k < i ==> v@[k] < i32::MAX,
            draw == UniformI32::sample,
            states.len() == i + 1,
            states[i as int] == rng,
            call_ensures(std_rng_from_seed, (seed as u64,), states[0]),
            forall|k: int|
                0 <= k < i ==> #[trigger] call_ensures(
                    UniformI32::sample,
                    (&range, states[k]),
                    (states[k + 1], v@[k]),
                ),
        decreases n - i,
    {
        let (next, x) = draw(&range, rng);
        proof {
            states = states.push(next);
        }
        rng = next;
        v.push(x);
        i = i + 1;
    }
    v
}

} // verus!
