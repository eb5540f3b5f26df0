//! The table of the first primes, by which a prime is given its index.

use crate::factor::is_prime;
use primes::{PrimeSet, Sieve};
use std::collections::HashMap;
use vstd::prelude::*;
use vstd::std_specs::hash::group_hash_axioms;

verus! {

/// The largest table that can be asked for.
pub const MAX_PRIME_COUNT: usize = 100_000;

/// The size of the table that playback uses.
pub const DEFAULT_PRIME_COUNT: usize = 1000;

/// `s` lists primes in strictly ascending order and leaves none out below
/// its last entry: it is the list of the first `s.len()` primes.
pub open spec fn is_prime_prefix(s: Seq<int>) -> bool {
    &&& forall|i: int| 0 <= i < s.len() ==> is_prime(#[trigger] s[i])
    &&& forall|i: int, j: int| 0 <= i < j < s.len() ==> #[trigger] s[i] < #[trigger] s[j]
    &&& forall|p: int| #[trigger] is_prime(p) && s.len() > 0 && p <= s.last() ==> s.contains(p)
}

/// A list of machine integers as mathematical integers.
pub open spec fn as_ints(s: Seq<u64>) -> Seq<int> {
    s.map_values(|p: u64| p as int)
}

/// The first `k` entries of `primes` are the keys of `index`, each under its
/// place in the list.
pub open spec fn maps_back(index: Map<u64, usize>, primes: Seq<u64>, k: int) -> bool {
    &&& forall|i: int|
        0 <= i < k ==> index.contains_key(#[trigger] primes[i]) && index[primes[i]] == i
    &&& forall|p: u64|
        index.contains_key(p) ==> 0 <= #[trigger] index[p] < k && primes[index[p] as int] == p
}

/// The iterator of `primes::Sieve`, cut off after `count` items: the first
/// `count` primes in ascending order. The sieve squares each prime in `u64`,
/// so `count` is kept where every prime it reaches is far below `2^32`.
/// Trusted, not proved.
#[verifier::external_body]
fn first_primes(count: usize) -> (v: Vec<u64>)
    requires
        count <= MAX_PRIME_COUNT,
    ensures
        v@.len() == count,
        is_prime_prefix(as_ints(v@)),
{
    let mut sieve: Sieve = Sieve::new();
    sieve.iter().take(count).collect()
}

/// The first primes in ascending order; the index of a prime in this table
/// is its index in every monzo.
pub struct PrimeTable {
    /// The primes, by index.
    primes: Vec<u64>,
    /// The index of each prime.
    index: HashMap<u64, usize>,
}

impl View for PrimeTable {
    type V = Seq<int>;

    closed spec fn view(&self) -> Seq<int> {
        as_ints(self.primes@)
    }
}

impl PrimeTable {
    /// The table is the non-empty list of the first primes, and not longer
    /// than [`MAX_PRIME_COUNT`].
    pub open spec fn wf(&self) -> bool {
        &&& 1 <= self@.len() <= MAX_PRIME_COUNT
        &&& is_prime_prefix(self@)
        &&& forall|i: int| 0 <= i < self@.len() ==> #[trigger] self@[i] <= u64::MAX
        &&& self.indexed()
    }

    /// The map from prime to index holds each prime of the list under its
    /// place in the list, and nothing else.
    pub closed spec fn indexed(&self) -> bool {
        maps_back(self.index@, self.primes@, self.primes@.len() as int)
    }

    /// The table of the first `count` primes. `None` exactly when `count` is
    /// zero or above [`MAX_PRIME_COUNT`].
    pub fn new(count: usize) -> (r: Option<PrimeTable>)
        ensures
            r is Some <==> 1 <= count <= MAX_PRIME_COUNT,
            r matches Some(t) ==> t.wf() && t@.len() == count,
    {
        if count == 0 || count > MAX_PRIME_COUNT {
            return None;
        }
        let primes: Vec<u64> = first_primes(count);
        let mut index: HashMap<u64, usize> = HashMap::new();
        let mut i: usize = 0;
        while i < primes.len()
            invariant
                0 <= i <= primes@.len(),
                is_prime_prefix(as_ints(primes@)),
                maps_back(index@, primes@, i as int),
            decreases primes@.len() - i,
        {
            broadcast use group_hash_axioms;

            let ghost before = index@;
            let p: u64 = primes[i];
            proof {
                if before.contains_key(p) {
                    let j = before[p] as int;
                    assert(as_ints(primes@)[j] < as_ints(primes@)[i as int]);
                }
            }
            index.insert(p, i);
            proof {
                assert forall|j: int| 0 <= j < i + 1 implies index@.contains_key(
                    #[trigger] primes@[j],
                ) && index@[primes@[j]] == j by {
                    if j < i {
                        assert(as_ints(primes@)[j] < as_ints(primes@)[i as int]);
                    }
                }
            }
            i = i + 1;
        }
        Some(PrimeTable { primes, index })
    }

    /// The number of primes in the table.
    pub fn len(&self) -> (n: usize)
        ensures
            n == self@.len(),
    {
        self.primes.len()
    }

    /// The prime at `index`.
    pub fn prime(&self, index: usize) -> (p: u64)
        requires
            index < self@.len(),
        ensures
            p == self@[index as int],
    {
        self.primes[index]
    }

    /// The index of `p` in the table. `None` exactly when `p` is not in the
    /// table.
    pub fn index_of(&self, p: u128) -> (r: Option<usize>)
        requires
            self.wf(),
        ensures
            match r {
                Some(i) => i < self@.len() && self@[i as int] == p,
                None => !self@.contains(p as int),
            },
    {
        broadcast use group_hash_axioms;

        if p > u64::MAX as u128 {
            return None;
        }
        let key: u64 = p as u64;
        match self.index.get(&key) {
            Some(i) => {
                assert(self@[*i as int] == self.primes@[*i as int]);
                Some(*i)
            },
            None => {
                proof {
                    if self@.contains(p as int) {
                        let j = choose|j: int| 0 <= j < self@.len() && self@[j] == p as int;
                        assert(self.primes@[j] == key);
                    }
                }
                None
            },
        }
    }
}

} // verus!
