use vstd::prelude::*;
use rand::seq::SliceRandom;
use crate::error::HuntError;

verus! {

/// The bounds on how many candidates get inspected.
pub struct SamplingConfig {
    pub min: usize,
    pub max: usize,
    pub percent: usize,
}

impl SamplingConfig {
    pub open spec fn valid(&self) -> bool {
        self.min <= self.max && self.percent <= 100
    }

    /// Checks the bounds: `max` may not be below `min`, and `percent` may not
    /// exceed 100.
    pub fn new(min: usize, max: usize, percent: usize) -> (r: Result<SamplingConfig, HuntError>)
        ensures
            max < min ==> r == Err::<SamplingConfig, HuntError>(HuntError::MaxBelowMin),
            min <= max && percent > 100 ==> r == Err::<SamplingConfig, HuntError>(
                HuntError::PercentOutOfRange,
            ),
            min <= max && percent <= 100 ==> (r matches Ok(c) && c.min == min && c.max == max
                && c.percent == percent),
    {
        if max < min {
            Err(HuntError::MaxBelowMin)
        } else if percent > 100 {
            Err(HuntError::PercentOutOfRange)
        } else {
            Ok(SamplingConfig { min, max, percent })
        }
    }
}

/// `n * percent / 100`, rounded half up.
pub open spec fn rounded_share(n: int, percent: int) -> int {
    (n * percent + 50) / 100
}

/// The number of candidates to look at: the rounded share, capped by `max`,
/// then raised to at least `min`.
pub open spec fn target_of(n: int, min: int, max: int, percent: int) -> int {
    let capped = if rounded_share(n, percent) < max { rounded_share(n, percent) } else { max };
    if capped < min { min } else { capped }
}

/// How many candidates a sample of a pool of `n` holds.
pub open spec fn sample_len(n: int, min: int, max: int, percent: int) -> int {
    let t = target_of(n, min, max, percent);
    if t < n { t } else { n }
}

/// The target sample size for a pool of `n` candidates.
pub fn target_size(n: usize, config: &SamplingConfig) -> (r: usize)
    requires
        config.valid(),
    ensures
        r == target_of(n as int, config.min as int, config.max as int, config.percent as int),
{
    let q: usize = n / 100;
    let rem: usize = n % 100;
    assert(q * config.percent <= n) by (nonlinear_arith)
        requires
            q == n / 100,
            config.percent <= 100,
    ;
    assert(q * config.percent + (rem * config.percent + 50) / 100 <= n) by (nonlinear_arith)
        requires
            q == n / 100,
            rem == n % 100,
            config.percent <= 100,
    ;
    assert(rem * config.percent + 50 <= 10050) by (nonlinear_arith)
        requires
            rem < 100,
            config.percent <= 100,
    ;
    let share: usize = q * config.percent + (rem * config.percent + 50) / 100;
    assert(share == rounded_share(n as int, config.percent as int)) by (nonlinear_arith)
        requires
            q == n / 100,
            rem == n % 100,
            share == q * config.percent + (rem * config.percent + 50) / 100,
    ;
    let capped: usize = if share < config.max { share } else { config.max };
    if capped < config.min { config.min } else { capped }
}


/// Relies on rand's `SliceRandom::shuffle` with the thread-local generator
/// (`rand::rng`): it reorders the vector in place by swaps, so the vector
/// keeps exactly its elements.
#[verifier::external_body]
fn shuffle<T>(v: &mut Vec<T>)
    ensures
        final(v)@.to_multiset() == old(v)@.to_multiset(),
{
    let mut rng = rand::rng();
    v.as_mut_slice().shuffle(&mut rng);
}

/// Keeps the first `count` elements of an already shuffled pool (all of them
/// when the pool is smaller).
pub fn take_sample<T>(shuffled: Vec<T>, count: usize) -> (r: Vec<T>)
    ensures
        count <= shuffled@.len() ==> r@ == shuffled@.take(count as int),
        count > shuffled@.len() ==> r@ == shuffled@,
{
    let mut kept = shuffled;
    kept.truncate(count);
    kept
}

/// A prefix of a sequence holds no element more often than the sequence.
proof fn lemma_prefix_sub_multiset<T>(s: Seq<T>, k: int)
    requires
        0 <= k <= s.len(),
    ensures
        s.take(k).to_multiset().subset_of(s.to_multiset()),
    decreases s.len(),
{
    broadcast use vstd::seq_lib::group_to_multiset_ensures;

    if k == s.len() {
        assert(s.take(k) =~= s);
    } else {
        let init = s.drop_last();
        lemma_prefix_sub_multiset(init, k);
        assert(s.take(k) =~= init.take(k));
        assert(init.push(s.last()) =~= s);
    }
}

/// Shuffles the candidate pool uniformly at random and keeps as many of them
/// as the configuration asks for a pool of that size: a sample drawn without
/// replacement.
pub fn sample<T>(candidates: Vec<T>, config: &SamplingConfig) -> (r: Result<Vec<T>, HuntError>)
    requires
        config.valid(),
    ensures
        candidates@.len() == 0 <==> r == Err::<Vec<T>, HuntError>(HuntError::NoCandidates),
        r is Ok || r == Err::<Vec<T>, HuntError>(HuntError::NoCandidates),
        r matches Ok(s) ==> s@.len() == sample_len(
            candidates@.len() as int,
            config.min as int,
            config.max as int,
            config.percent as int,
        ),
        r matches Ok(s) ==> s@.to_multiset().subset_of(candidates@.to_multiset()),
{
    if candidates.len() == 0 {
        return Err(HuntError::NoCandidates);
    }
    let target = target_size(candidates.len(), config);
    let ghost given = candidates@;
    let mut pool = candidates;
    shuffle(&mut pool);
    proof {
        broadcast use vstd::seq_lib::group_to_multiset_ensures;

        assert(pool@.len() == given.len()) by {
            assert(pool@.len() == pool@.to_multiset().len());
            assert(given.len() == given.to_multiset().len());
        }
    }
    let ghost shuffled = pool@;
    let chosen = take_sample(pool, target);
    proof {
        if target <= shuffled.len() {
            lemma_prefix_sub_multiset(shuffled, target as int);
        }
    }
    Ok(chosen)
}

/// However the configuration and the pool size relate, a sample never holds
/// more than `max` candidates nor more than the pool, and holds at least
/// `min` of them whenever the pool has that many.
pub proof fn lemma_sample_bound(n: nat, min: nat, max: nat, percent: nat)
    requires
        min <= max,
        percent <= 100,
    ensures
        ({
            let k = sample_len(n as int, min as int, max as int, percent as int);
            &&& (if min < n { min as int } else { n as int }) <= k
            &&& k <= max
            &&& k <= n
        }),
{
}

/// When the pool holds at least `min` candidates, the target itself lies
/// between `min` and `max` and does not exceed the pool. (A pool smaller than
/// `min` gets a target of `min`, above its size; the sample then takes the
/// whole pool.)
pub proof fn lemma_target_bound(n: nat, min: nat, max: nat, percent: nat)
    requires
        min <= max,
        percent <= 100,
        min <= n,
    ensures
        ({
            let t = target_of(n as int, min as int, max as int, percent as int);
            &&& min <= t <= max
            &&& t <= n
        }),
{
    assert(rounded_share(n as int, percent as int) <= n) by (nonlinear_arith)
        requires
            percent <= 100,
    ;
}

/// A sample whose elements are drawn, without replacement, from a pool of
/// distinct candidates holds no candidate twice, and only candidates of the
/// pool.
pub proof fn lemma_sample_without_replacement<T>(pool: Seq<T>, chosen: Seq<T>)
    requires
        pool.no_duplicates(),
        chosen.to_multiset().subset_of(pool.to_multiset()),
    ensures
        chosen.no_duplicates(),
        forall|x: T| chosen.contains(x) ==> pool.contains(x),
{
    broadcast use vstd::seq_lib::group_to_multiset_ensures;

    pool.lemma_multiset_has_no_duplicates();
    assert forall|x: T| chosen.to_multiset().contains(x) implies chosen.to_multiset().count(x)
        == 1 by {
        assert(pool.to_multiset().count(x) >= chosen.to_multiset().count(x));
        assert(pool.to_multiset().contains(x));
    }
    chosen.lemma_multiset_has_no_duplicates_conv();
    assert forall|x: T| chosen.contains(x) implies pool.contains(x) by {
        assert(chosen.to_multiset().count(x) > 0);
        assert(pool.to_multiset().count(x) > 0);
    }
}

} // verus!
