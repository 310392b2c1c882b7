use vstd::prelude::*;

verus! {

/// Multiplier of the linear congruential generator.
pub const LCG_MULTIPLIER: u64 = 6_364_136_223_846_793_005;

/// Increment of the linear congruential generator.
pub const LCG_INCREMENT: u64 = 1_442_695_040_888_963_407;

/// The state that follows `state`: `state * a + c` modulo 2^64.
pub open spec fn lcg_next(state: u64) -> u64 {
    ((state as int * LCG_MULTIPLIER as int + LCG_INCREMENT as int) % 0x1_0000_0000_0000_0000int) as u64
}

/// One draw below `upper_bound`: the next state and the value drawn.
/// A zero bound leaves the state alone and draws 0.
pub open spec fn draw(state: u64, upper_bound: usize) -> (u64, usize) {
    if upper_bound == 0 {
        (state, 0)
    } else {
        let next = lcg_next(state);
        (next, ((next as int / 0x1_0000_0000int) % upper_bound as int) as usize)
    }
}

/// The sequence with the items at `i` and `j` exchanged.
pub open spec fn swap_seq<T>(s: Seq<T>, i: int, j: int) -> Seq<T> {
    s.update(i, s[j]).update(j, s[i])
}

/// Fisher-Yates from position `index` down to 1: each position swaps with
/// a position drawn below it (inclusive).
pub open spec fn shuffle_from<T>(state: u64, s: Seq<T>, index: int) -> (u64, Seq<T>)
    decreases index,
{
    if index < 1 || index >= s.len() {
        (state, s)
    } else {
        let (next, other) = draw(state, (index + 1) as usize);
        shuffle_from(next, swap_seq(s, index, other as int), index - 1)
    }
}

/// The result of shuffling `s` from generator state `state`.
pub open spec fn shuffle_spec<T>(state: u64, s: Seq<T>) -> (u64, Seq<T>) {
    shuffle_from(state, s, s.len() - 1)
}

/// A seeded pseudo-random generator (64-bit LCG).
pub struct Random {
    state: u64,
}

impl View for Random {
    type V = u64;

    closed spec fn view(&self) -> u64 {
        self.state
    }
}

#[verifier::external_body]
fn slice_swap<T>(values: &mut [T], a: usize, b: usize)
    requires
        a < old(values)@.len(),
        b < old(values)@.len(),
    ensures
        final(values)@ == swap_seq(old(values)@, a as int, b as int),
{
    values.swap(a, b);
}

impl Random {
    pub fn new(seed: u64) -> (r: Self)
        ensures
            r@ == seed,
    {
        Self { state: seed }
    }

    /// Draws a value below `upper_bound` (0 when the bound is 0).
    pub fn range(&mut self, upper_bound: usize) -> (value: usize)
        ensures
            (final(self)@, value) == draw(old(self)@, upper_bound),
            upper_bound > 0 ==> value < upper_bound,
            upper_bound == 0 ==> value == 0,
    {
        if upper_bound == 0 {
            return 0;
        }
        let s = self.state;
        let m = s.wrapping_mul(6_364_136_223_846_793_005);
        let n = m.wrapping_add(1_442_695_040_888_963_407);
        proof {
            lemma_lcg_step(s, m, n);
        }
        self.state = n;
        let high = n >> 32;
        assert(high == n as int / 0x1_0000_0000int) by (bit_vector)
            requires
                high == n >> 32,
        ;
        assert(high <= 0xffff_ffffu64) by (bit_vector)
            requires
                high == n >> 32,
        ;
        let h = high as usize;
        h % upper_bound
    }

    /// Shuffles `values` in place (Fisher-Yates, from the last position down).
    pub fn shuffle<T>(&mut self, values: &mut [T])
        ensures
            (final(self)@, final(values)@) == shuffle_spec(old(self)@, old(values)@),
            final(values)@.to_multiset() == old(values)@.to_multiset(),
    {
        let len = values.len();
        if len <= 1 {
            return;
        }
        let ghost original = values@;
        let mut index = len - 1;
        while index >= 1
            invariant
                values@.len() == len,
                original == old(values)@,
                0 <= index < len,
                shuffle_spec(old(self)@, original) == shuffle_from(self@, values@, index as int),
                values@.to_multiset() == original.to_multiset(),
            decreases index,
        {
            let ghost before = values@;
            let ghost st = self@;
            let other = self.range(index + 1);
            slice_swap(values, index, other);
            proof {
                lemma_swap_multiset(before, index as int, other as int);
            }
            if index == 1 {
                proof {
                    assert(shuffle_from(self@, values@, 0) == (self@, values@));
                }
                return;
            }
            index = index - 1;
        }
    }
}

proof fn lemma_lcg_step(s: u64, m: u64, n: u64)
    requires
        m == vstd::wrapping::u64_specs::wrapping_mul(s, LCG_MULTIPLIER),
        n == vstd::wrapping::u64_specs::wrapping_add(m, LCG_INCREMENT),
    ensures
        n == lcg_next(s),
{
    let big: int = 0x1_0000_0000_0000_0000int;
    let p: int = s as int * LCG_MULTIPLIER as int;
    vstd::arithmetic::mul::lemma_mul_nonnegative(s as int, LCG_MULTIPLIER as int);
    assert(m as int == p % big);
    vstd::arithmetic::div_mod::lemma_add_mod_noop(p, LCG_INCREMENT as int, big);
    vstd::arithmetic::div_mod::lemma_mod_twice(LCG_INCREMENT as int, big);
    vstd::arithmetic::div_mod::lemma_small_mod(LCG_INCREMENT as nat, big as nat);
    vstd::arithmetic::div_mod::lemma_mod_bound(p, big);
    if m as int + LCG_INCREMENT as int > u64::MAX {
        vstd::arithmetic::div_mod::lemma_mod_sub_multiples_vanish(m as int + LCG_INCREMENT as int, big);
        vstd::arithmetic::div_mod::lemma_small_mod((m as int + LCG_INCREMENT as int - big) as nat, big as nat);
    } else {
        vstd::arithmetic::div_mod::lemma_small_mod((m as int + LCG_INCREMENT as int) as nat, big as nat);
    }
}

proof fn lemma_swap_multiset<T>(s: Seq<T>, i: int, j: int)
    requires
        0 <= i < s.len(),
        0 <= j < s.len(),
    ensures
        swap_seq(s, i, j).to_multiset() == s.to_multiset(),
{
    broadcast use vstd::seq_lib::group_to_multiset_ensures;

    let t = s.update(i, s[j]);
    assert(t.to_multiset() == s.to_multiset().insert(s[j]).remove(s[i]));
    assert(t[j] == s[j] || i == j);
    if i == j {
        assert(swap_seq(s, i, j) =~= s);
    } else {
        assert(swap_seq(s, i, j).to_multiset() == t.to_multiset().insert(s[i]).remove(t[j]));
        assert(swap_seq(s, i, j).to_multiset() =~= s.to_multiset());
    }
}

/// Two generators in the same state draw the same value and stay in step.
pub proof fn lemma_draw_deterministic(a: u64, b: u64, upper_bound: usize)
    requires
        a == b,
    ensures
        draw(a, upper_bound) == draw(b, upper_bound),
{
}

} // verus!
