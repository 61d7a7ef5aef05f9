//! A fully specified generator, and a shuffle that is the same everywhere.

use crate::controllers::renew::lemma_swap_same;
use crate::order::same_items;
use vstd::prelude::*;

verus! {

/// The state after `s`.
pub open spec fn next_state(s: u64) -> u64 {
    s.wrapping_add(0x9E37_79B9_7F4A_7C15)
}

/// The output that belongs to a state.
pub open spec fn mixed(z: u64) -> u64 {
    let a = (z ^ (z >> 30)).wrapping_mul(0xBF58_476D_1CE4_E5B9);
    let b = (a ^ (a >> 27)).wrapping_mul(0x94D0_49BB_1331_11EB);
    b ^ (b >> 31)
}

/// The SplitMix64 generator, by its state.
pub struct SplitMix64(pub u64);

impl SplitMix64 {
    pub fn new(seed: u64) -> (r: Self)
        ensures
            r.0 == seed,
    {
        SplitMix64(seed)
    }

    /// The next number.
    pub fn next_u64(&mut self) -> (r: u64)
        ensures
            final(self).0 == next_state(old(self).0),
            r == mixed(next_state(old(self).0)),
    {
        self.0 = self.0.wrapping_add(0x9E37_79B9_7F4A_7C15);
        let mut z: u64 = self.0;
        z = (z ^ (z >> 30)).wrapping_mul(0xBF58_476D_1CE4_E5B9);
        z = (z ^ (z >> 27)).wrapping_mul(0x94D0_49BB_1331_11EB);
        z ^ (z >> 31)
    }
}

/// `s` with items `i` and `j` exchanged.
pub open spec fn swapped<T>(s: Seq<T>, i: int, j: int) -> Seq<T> {
    s.update(i, s[j]).update(j, s[i])
}

/// `s` after its items from `i` down to 1 were exchanged with random ones at or
/// before them, the generator starting at `state`.
pub open spec fn shuffled<T>(s: Seq<T>, state: u64, i: nat) -> Seq<T>
    decreases i,
{
    if i == 0 {
        s
    } else {
        let next = next_state(state);
        let j = mixed(next) as int % (i as int + 1);
        shuffled(swapped(s, i as int, j), next, (i - 1) as nat)
    }
}

/// A shuffle only reorders.
pub proof fn lemma_shuffled_same<T>(s: Seq<T>, state: u64, i: nat)
    requires
        i == 0 || i < s.len(),
    ensures
        same_items(s, shuffled(s, state, i)),
        shuffled(s, state, i).len() == s.len(),
    decreases i,
{
    if i > 0 {
        let next = next_state(state);
        let j = mixed(next) as int % (i as int + 1);
        lemma_swap_same(s, i as int, j);
        lemma_shuffled_same(swapped(s, i as int, j), next, (i - 1) as nat);
    }
}

/// Exchanges two items.
fn exchange(v: &mut Vec<String>, i: usize, j: usize)
    requires
        i < old(v)@.len(),
        j < old(v)@.len(),
    ensures
        final(v)@ == swapped(old(v)@, i as int, j as int),
{
    if i != j {
        let mut held: String = String::new();
        std::mem::swap(&mut held, &mut v[i]);
        std::mem::swap(&mut held, &mut v[j]);
        std::mem::swap(&mut held, &mut v[i]);
    }
    assert(v@ =~= swapped(old(v)@, i as int, j as int));
}

/// Shuffles `hashes`; the outcome depends on `seed` alone.
pub fn shuffle(hashes: &mut Vec<String>, seed: u64)
    ensures
        old(hashes)@.len() == 0 ==> final(hashes)@ == old(hashes)@,
        old(hashes)@.len() > 0 ==> final(hashes)@ == shuffled(
            old(hashes)@,
            seed,
            (old(hashes)@.len() - 1) as nat,
        ),
        same_items(old(hashes)@, final(hashes)@),
{
    let ghost all = hashes@;
    let n: usize = hashes.len();
    if n == 0 {
        return;
    }
    let mut rng: SplitMix64 = SplitMix64::new(seed);
    let mut i: usize = n - 1;
    while i > 0
        invariant
            hashes@.len() == n,
            i < n,
            shuffled(hashes@, rng.0, i as nat) == shuffled(all, seed, (n - 1) as nat),
        decreases i,
    {
        let r: u64 = rng.next_u64();
        let j: usize = (r % (i as u64 + 1)) as usize;
        exchange(hashes, i, j);
        i = i - 1;
    }
    proof {
        lemma_shuffled_same(all, seed, (n - 1) as nat);
    }
}

} // verus!
