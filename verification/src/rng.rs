//! A tiny deterministic PRNG (xorshift64*), so maps are reproducible from a
//! seed. Every draw is a function of the state, so a seed fixes the whole
//! stream of values.

use vstd::prelude::*;

verus! {

/// Mixed into the seed so that seed 0 does not start at xorshift's fixed point.
pub const SEED_MIX: u64 = 0x9E37_79B9_7F4A_7C15;

/// The xorshift64* output multiplier.
pub const OUTPUT_MULTIPLIER: u64 = 0x2545_F491_4F6C_DD1D;

/// The state a generator seeded with `seed` starts in.
pub open spec fn seeded(seed: u64) -> u64 {
    seed ^ SEED_MIX
}

/// One xorshift64 state transition.
pub open spec fn next_state(x: u64) -> u64 {
    let a = x ^ (x >> 12u64);
    let b = a ^ (a << 25u64);
    b ^ (b >> 27u64)
}

/// The 64-bit value drawn from state `s`.
pub open spec fn draw(s: u64) -> u64 {
    next_state(s).wrapping_mul(OUTPUT_MULTIPLIER)
}

/// The value `below(n)` returns from state `s`.
pub open spec fn below_value(s: u64, n: nat) -> nat {
    (draw(s) as nat) % n
}

/// The value `range(lo, hi)` returns from state `s`.
pub open spec fn range_value(s: u64, lo: nat, hi: nat) -> nat {
    lo + below_value(s, (hi - lo + 1) as nat)
}

/// The answer `chance(numerator, denominator)` gives from state `s`.
pub open spec fn chance_value(s: u64, numerator: nat, denominator: nat) -> bool {
    below_value(s, denominator) < numerator
}

/// Different seeds start generators in different states.
pub proof fn lemma_seeded_distinct(a: u64, b: u64)
    requires
        a != b,
    ensures
        seeded(a) != seeded(b),
{
    assert(a != b ==> a ^ SEED_MIX != b ^ SEED_MIX) by (bit_vector);
}

/// `range` stays inside its inclusive bounds.
pub proof fn lemma_range_value(s: u64, lo: nat, hi: nat)
    requires
        lo <= hi,
    ensures
        lo <= range_value(s, lo, hi) <= hi,
{
}

/// `s` with the items at `i` and `j` exchanged.
pub open spec fn swapped<T>(s: Seq<T>, i: int, j: int) -> Seq<T> {
    s.update(i, s[j]).update(j, s[i])
}

/// The Fisher-Yates steps `i`, `i - 1`, ..., `1` applied to `s` from state
/// `state`: step `i` exchanges item `i` with item `below(i + 1)`. Returns the
/// final state and the shuffled sequence.
pub open spec fn shuffle_steps<T>(state: u64, s: Seq<T>, i: nat) -> (u64, Seq<T>)
    decreases i,
{
    if i == 0 {
        (state, s)
    } else {
        let j = below_value(state, i + 1) as int;
        shuffle_steps(next_state(state), swapped(s, i as int, j), (i - 1) as nat)
    }
}

/// What `shuffle` does to `s` from state `state`.
pub open spec fn shuffled<T>(state: u64, s: Seq<T>) -> (u64, Seq<T>) {
    if s.len() <= 1 {
        (state, s)
    } else {
        shuffle_steps(state, s, (s.len() - 1) as nat)
    }
}

/// Exchanging two items keeps the length, the set of items, and their
/// distinctness.
pub proof fn lemma_swapped<T>(s: Seq<T>, i: int, j: int)
    requires
        0 <= i < s.len(),
        0 <= j < s.len(),
    ensures
        swapped(s, i, j).len() == s.len(),
        forall|x: T| s.contains(x) <==> #[trigger] swapped(s, i, j).contains(x),
        s.no_duplicates() ==> swapped(s, i, j).no_duplicates(),
{
    let r = swapped(s, i, j);
    assert forall|x: T| s.contains(x) implies #[trigger] r.contains(x) by {
        let k = choose|k: int| 0 <= k < s.len() && s[k] == x;
        if k == i {
            assert(r[j] == x);
        } else if k == j {
            assert(r[i] == x);
        } else {
            assert(r[k] == x);
        }
    }
    assert forall|x: T| r.contains(x) implies s.contains(x) by {
        let k = choose|k: int| 0 <= k < r.len() && r[k] == x;
        if k == i {
            assert(s[j] == x);
        } else if k == j {
            assert(s[i] == x);
        } else {
            assert(s[k] == x);
        }
    }
    if s.no_duplicates() {
        assert forall|a: int, b: int| 0 <= a < r.len() && 0 <= b < r.len() && a != b implies r[a]
            != r[b] by {
            let sa = if a == j { i } else if a == i { j } else { a };
            let sb = if b == j { i } else if b == i { j } else { b };
            assert(r[a] == s[sa]);
            assert(r[b] == s[sb]);
        }
    }
}

/// Exchanging two items keeps the multiset of items.
proof fn lemma_swapped_multiset<T>(s: Seq<T>, i: int, j: int)
    requires
        0 <= i < s.len(),
        0 <= j < s.len(),
    ensures
        swapped(s, i, j).to_multiset() == s.to_multiset(),
{
    broadcast use vstd::seq_lib::to_multiset_update, vstd::multiset::group_multiset_axioms;
    let u = s.update(i, s[j]);
    if i == j {
        assert(swapped(s, i, j) =~= s);
    } else {
        assert(u[j] == s[j]);
        assert(s.to_multiset().count(s[i]) > 0) by {
            broadcast use vstd::seq_lib::to_multiset_contains;
            assert(s.contains(s[i]));
        }
        assert(swapped(s, i, j).to_multiset() =~= s.to_multiset());
    }
}

/// Shuffling keeps the length, the set of items, and their distinctness.
pub proof fn lemma_shuffle_steps<T>(state: u64, s: Seq<T>, i: nat)
    requires
        i < s.len(),
    ensures
        shuffle_steps(state, s, i).1.to_multiset() == s.to_multiset(),
        shuffle_steps(state, s, i).1.len() == s.len(),
        forall|x: T| s.contains(x) <==> #[trigger] shuffle_steps(state, s, i).1.contains(x),
        s.no_duplicates() ==> shuffle_steps(state, s, i).1.no_duplicates(),
    decreases i,
{
    if i > 0 {
        let j = below_value(state, i + 1) as int;
        lemma_swapped(s, i as int, j);
        lemma_swapped_multiset(s, i as int, j);
        lemma_shuffle_steps(next_state(state), swapped(s, i as int, j), (i - 1) as nat);
    }
}

/// Shuffling permutes: it keeps the multiset of items, hence the length,
/// the set of items, and their distinctness.
pub proof fn lemma_shuffled<T>(state: u64, s: Seq<T>)
    ensures
        shuffled(state, s).1.to_multiset() == s.to_multiset(),
        shuffled(state, s).1.len() == s.len(),
        forall|x: T| s.contains(x) <==> #[trigger] shuffled(state, s).1.contains(x),
        s.no_duplicates() ==> shuffled(state, s).1.no_duplicates(),
{
    if s.len() > 1 {
        lemma_shuffle_steps(state, s, (s.len() - 1) as nat);
    }
}

pub struct Rng {
    state: u64,
}

impl View for Rng {
    type V = u64;

    closed spec fn view(&self) -> u64 {
        self.state
    }
}

impl Rng {
    pub fn new(seed: u64) -> (r: Rng)
        ensures
            r@ == seeded(seed),
    {
        // A zero state is a fixed point for xorshift; nudge it away.
        Rng { state: seed ^ SEED_MIX }
    }

    /// The next raw 64-bit value.
    pub(crate) fn next_u64(&mut self) -> (r: u64)
        ensures
            r == draw(old(self)@),
            final(self)@ == next_state(old(self)@),
    {
        let mut x = self.state;
        x = x ^ (x >> 12u64);
        x = x ^ (x << 25u64);
        x = x ^ (x >> 27u64);
        self.state = x;
        x.wrapping_mul(OUTPUT_MULTIPLIER)
    }

    /// Uniform in `0..n`; `n` must be positive.
    pub fn below(&mut self, n: usize) -> (r: usize)
        requires
            n > 0,
        ensures
            r == below_value(old(self)@, n as nat),
            r < n,
            final(self)@ == next_state(old(self)@),
    {
        let v = self.next_u64();
        (v % (n as u64)) as usize
    }

    /// Uniform in `lo..=hi`; needs `lo <= hi`.
    pub fn range(&mut self, lo: usize, hi: usize) -> (r: usize)
        requires
            lo <= hi,
            hi - lo < usize::MAX,
        ensures
            r == range_value(old(self)@, lo as nat, hi as nat),
            lo <= r <= hi,
            final(self)@ == next_state(old(self)@),
    {
        lo + self.below(hi - lo + 1)
    }

    /// True with probability `numerator / denominator`; the denominator must
    /// be positive.
    pub fn chance(&mut self, numerator: u32, denominator: u32) -> (r: bool)
        requires
            denominator > 0,
        ensures
            r == chance_value(old(self)@, numerator as nat, denominator as nat),
            final(self)@ == next_state(old(self)@),
    {
        self.below(denominator as usize) < numerator as usize
    }

    /// Fisher-Yates shuffle in place.
    pub fn shuffle<T: Copy>(&mut self, items: &mut Vec<T>)
        ensures
            (final(self)@, final(items)@) == shuffled(old(self)@, old(items)@),
    {
        let len = items.len();
        if len <= 1 {
            return;
        }
        let mut i = len - 1;
        while i >= 1
            invariant
                1 <= len == items@.len(),
                i < len,
                shuffle_steps(self@, items@, i as nat) == shuffled(old(self)@, old(items)@),
            decreases i,
        {
            let ghost q0 = items@;
            let j = self.below(i + 1);
            let a = items[i];
            let b = items[j];
            items.set(i, b);
            items.set(j, a);
            assert(items@ =~= swapped(q0, i as int, j as int));
            i = i - 1;
        }
    }
}

} // verus!
