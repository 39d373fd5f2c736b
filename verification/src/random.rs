use vstd::prelude::*;

use rand::rngs::SmallRng;
use rand::seq::SliceRandom;
use rand::{Rng, SeedableRng};

verus! {

/// A source of random choices for the game rules and the search.
pub trait Rand: Sized {
    /// Whether `int_n(n)` may answer `r`.
    spec fn int_n_gives(n: int, r: int) -> bool;

    /// Whether `range(min, max)` may answer `r`.
    spec fn range_gives(min: int, max: int, r: int) -> bool;

    /// Whether `shuffle` always moves the first item to the end and the
    /// others one place to the front.
    spec fn shuffle_rotates() -> bool;

    fn new() -> Self;

    /// A number in `0..n`.
    fn int_n(&mut self, n: i32) -> (r: i32)
        requires
            n >= 1,
        ensures
            0 <= r < n,
            Self::int_n_gives(n as int, r as int),
    ;

    /// A number in the closed interval `min..=max`.
    fn range(&mut self, min: i32, max: i32) -> (r: i32)
        requires
            min <= max < i32::MAX,
        ensures
            min <= r <= max,
            Self::range_gives(min as int, max as int, r as int),
    ;

    /// Four numbers in the closed interval `min..=max`.
    fn range_simd(&mut self, min: i32, max: i32) -> (r: [i32; 4])
        requires
            min <= max < i32::MAX,
        ensures
            forall|i: int| 0 <= i < 4 ==> min <= #[trigger] r[i] <= max,
    ;

    /// Reorders the items of `arr`, choosing at least `n` of them at random.
    fn shuffle<A>(&mut self, arr: &mut [A], n: usize)
        requires
            old(arr)@.len() > 0,
        ensures
            final(arr)@.len() == old(arr)@.len(),
            final(arr)@.to_multiset() == old(arr)@.to_multiset(),
            Self::shuffle_rotates() ==> final(arr)@ == old(arr)@.subrange(1, old(arr)@.len() as int).push(
                old(arr)@[0],
            ),
    ;

    /// Writes `amount` numbers below `length` into the front of `arr`.
    fn sample_n(&mut self, arr: &mut [u32], length: u32, amount: u32)
        requires
            amount <= length,
            amount <= old(arr)@.len(),
        ensures
            final(arr)@.len() == old(arr)@.len(),
            forall|i: int| 0 <= i < amount ==> #[trigger] final(arr)@[i] < length,
    ;
}

#[verifier::external_type_specification]
#[verifier::external_body]
pub struct ExSmallRng(SmallRng);

/// Calls `SmallRng::seed_from_u64`: a generator from a 64-bit seed. Nothing is
/// stated of the generator's state.
#[verifier::external_body]
fn small_rng_from_seed(seed: u64) -> SmallRng {
    SmallRng::seed_from_u64(seed)
}

/// Calls `Rng::random_range` on the half-open `i32` range `lo..hi`. The rand
/// crate's source returns a value of the range and panics only when the range is
/// empty; which value comes back depends on the generator's state and is not
/// stated.
#[verifier::external_body]
fn small_rng_range_i32(rng: &mut SmallRng, lo: i32, hi: i32) -> (r: i32)
    requires
        lo < hi,
    ensures
        lo <= r < hi,
{
    rng.random_range(lo..hi)
}

/// Calls `Rng::random_range` on the inclusive `u32` range `0..=hi`, which
/// returns a value of the range. Which value is not stated.
#[verifier::external_body]
fn small_rng_upto_u32(rng: &mut SmallRng, hi: u32) -> (r: u32)
    ensures
        r <= hi,
{
    rng.random_range(..=hi)
}

/// Calls `SliceRandom::partial_shuffle`, which in the rand crate's source only
/// swaps items of the slice, so the slice keeps the same items. Which order
/// comes out is not stated.
#[verifier::external_body]
fn small_rng_partial_shuffle<A>(rng: &mut SmallRng, arr: &mut [A], amount: usize)
    ensures
        final(arr)@.len() == old(arr)@.len(),
        final(arr)@.to_multiset() == old(arr)@.to_multiset(),
{
    let _ = arr.partial_shuffle(rng, amount);
}

/// Calls `<[A]>::rotate_left(1)`, which std documents as moving the first item
/// of the slice to its end, the others one place to the front; it panics on an
/// empty slice.
#[verifier::external_body]
fn slice_rotate_left_one<A>(arr: &mut [A])
    requires
        old(arr)@.len() > 0,
    ensures
        final(arr)@ == old(arr)@.subrange(1, old(arr)@.len() as int).push(old(arr)@[0]),
{
    arr.rotate_left(1);
}

/// A seeded pseudo-random generator.
pub struct FastRand {
    rng: SmallRng,
}

impl Rand for FastRand {
    /// Any number of `0..n`.
    open spec fn int_n_gives(n: int, r: int) -> bool {
        0 <= r < n
    }

    /// Any number of `min..=max`.
    open spec fn range_gives(min: int, max: int, r: int) -> bool {
        min <= r <= max
    }

    /// The order is drawn at random.
    open spec fn shuffle_rotates() -> bool {
        false
    }

    fn new() -> Self {
        FastRand { rng: small_rng_from_seed(0) }
    }

    fn int_n(&mut self, n: i32) -> (r: i32) {
        self.range(0, n - 1)
    }

    fn range(&mut self, min: i32, max: i32) -> (r: i32) {
        small_rng_range_i32(&mut self.rng, min, max + 1)
    }

    fn range_simd(&mut self, min: i32, max: i32) -> (r: [i32; 4]) {
        let a = self.range(min, max);
        let b = self.range(min, max);
        let c = self.range(min, max);
        let d = self.range(min, max);
        [a, b, c, d]
    }

    fn shuffle<A>(&mut self, arr: &mut [A], n: usize) {
        small_rng_partial_shuffle(&mut self.rng, arr, n);
    }

    fn sample_n(&mut self, arr: &mut [u32], length: u32, amount: u32) {
        let mut index: u32 = 0;
        while index < amount
            invariant
                amount <= length,
                amount <= old(arr)@.len(),
                arr@.len() == old(arr)@.len(),
                index <= amount,
                forall|i: int| 0 <= i < index ==> #[trigger] arr@[i] < length,
            decreases amount - index,
        {
            let j = length - amount + index;
            let t = small_rng_upto_u32(&mut self.rng, j);
            let mut pos: usize = 0;
            let mut found = false;
            while pos < arr.len() && !found
                invariant
                    arr@.len() == old(arr)@.len(),
                    pos <= arr@.len(),
                    found ==> pos < arr@.len(),
                decreases arr@.len() - pos + (if found { 0int } else { 1 }),
            {
                if arr[pos] == t {
                    found = true;
                } else {
                    pos = pos + 1;
                }
            }
            if found {
                arr[pos] = j;
            }
            arr[index as usize] = t;
            index = index + 1;
        }
    }
}

/// A deterministic stand-in that always makes the largest choice.
pub struct MaxRand;

impl Rand for MaxRand {
    /// Always `n - 1`.
    open spec fn int_n_gives(n: int, r: int) -> bool {
        r == n - 1
    }

    /// Always `max`.
    open spec fn range_gives(min: int, max: int, r: int) -> bool {
        r == max
    }

    /// A rotation left by one.
    open spec fn shuffle_rotates() -> bool {
        true
    }

    fn new() -> Self {
        MaxRand {  }
    }

    fn int_n(&mut self, n: i32) -> (r: i32)
        ensures
            r == n - 1,
    {
        n - 1
    }

    fn range(&mut self, _min: i32, max: i32) -> (r: i32)
        ensures
            r == max,
    {
        max
    }

    fn range_simd(&mut self, _min: i32, max: i32) -> (r: [i32; 4])
        ensures
            r@ == seq![max, max, max, max],
    {
        [max, max, max, max]
    }

    /// Rotates the slice left by one.
    fn shuffle<A>(&mut self, arr: &mut [A], _n: usize)
        ensures
            final(arr)@ == old(arr)@.subrange(1, old(arr)@.len() as int).push(old(arr)@[0]),
    {
        let ghost orig = arr@;
        slice_rotate_left_one(arr);
        proof {
            lemma_rotate_multiset(orig);
        }
    }

    fn sample_n(&mut self, arr: &mut [u32], length: u32, amount: u32)
        ensures
            forall|i: int| 0 <= i < amount ==> #[trigger] final(arr)@[i] == length - i - 1,
            forall|i: int| amount <= i < old(arr)@.len() ==> #[trigger] final(arr)@[i] == old(
                arr,
            )@[i],
    {
        let mut i: u32 = 0;
        while i < amount
            invariant
                amount <= length,
                amount <= old(arr)@.len(),
                arr@.len() == old(arr)@.len(),
                i <= amount,
                forall|k: int| 0 <= k < i ==> #[trigger] arr@[k] == length - k - 1,
                forall|k: int| i <= k < arr@.len() ==> #[trigger] arr@[k] == old(arr)@[k],
            decreases amount - i,
        {
            arr[i as usize] = length - i - 1;
            i = i + 1;
        }
    }
}

proof fn lemma_rotate_multiset<A>(s: Seq<A>)
    requires
        s.len() > 0,
    ensures
        s.subrange(1, s.len() as int).push(s[0]).to_multiset() == s.to_multiset(),
{
    broadcast use vstd::seq_lib::group_to_multiset_ensures;

    let rest = s.subrange(1, s.len() as int);
    assert(s == seq![s[0]] + rest);
    vstd::seq_lib::lemma_multiset_commutative(seq![s[0]], rest);
    vstd::seq_lib::lemma_multiset_commutative(rest, seq![s[0]]);
    assert(rest.push(s[0]) == rest + seq![s[0]]);
}

} // verus!
