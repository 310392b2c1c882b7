use vstd::prelude::*;

verus! {

/// Whether bit `c` (0 = least significant) of `mask` is set.
pub open spec fn has_bit(mask: u8, c: int) -> bool {
    0 <= c < 8 && (mask >> (c as u8)) & 1u8 == 1u8
}

/// Number of set bits of a byte.
pub open spec fn popcount(x: u8) -> nat
    decreases x,
{
    if x == 0 {
        0
    } else {
        (x % 2) as nat + popcount(x / 2)
    }
}

/// Sum, over the first `n` positions, of the bits in which two mask rows differ.
pub open spec fn mask_difference_upto(first: Seq<u8>, second: Seq<u8>, n: int) -> nat
    decreases n,
{
    if n <= 0 {
        0
    } else {
        mask_difference_upto(first, second, n - 1) + popcount(first[n - 1] ^ second[n - 1])
    }
}

/// Bits in which two rows of masks differ, over their common length.
pub open spec fn mask_difference_spec(first: Seq<u8>, second: Seq<u8>) -> nat {
    mask_difference_upto(
        first,
        second,
        if first.len() < second.len() {
            first.len() as int
        } else {
            second.len() as int
        },
    )
}

proof fn lemma_bit_of_or(m: u8, k: u8, c: u8)
    requires
        k < 8,
        c < 8,
    ensures
        (((m | (1u8 << k)) >> c) & 1u8 == 1u8) <==> (((m >> c) & 1u8 == 1u8) || c == k),
{
    assert((((m | (1u8 << k)) >> c) & 1u8 == 1u8) <==> (((m >> c) & 1u8 == 1u8) || c == k))
        by (bit_vector)
        requires
            k < 8,
            c < 8,
    ;
}

proof fn lemma_zero_bits(c: u8)
    ensures
        ((0u8 >> c) & 1u8) != 1u8,
{
    assert(((0u8 >> c) & 1u8) != 1u8) by (bit_vector);
}

proof fn lemma_and_bit(m: u8, c: u8)
    requires
        c < 8,
    ensures
        (m & (1u8 << c) != 0u8) <==> ((m >> c) & 1u8 == 1u8),
{
    assert((m & (1u8 << c) != 0u8) <==> ((m >> c) & 1u8 == 1u8)) by (bit_vector)
        requires
            c < 8,
    ;
}

/// The mask with bit `c` set exactly for the columns `c` in `columns`.
pub fn columns_mask(columns: &Vec<usize>) -> (mask: u8)
    requires
        forall|i: int| 0 <= i < columns@.len() ==> columns@[i] < 8,
    ensures
        forall|c: int| 0 <= c < 8 ==> (has_bit(mask, c) <==> columns@.contains(c as usize)),
{
    let mut mask: u8 = 0;
    let mut i: usize = 0;
    proof {
        assert forall|c: int| 0 <= c < 8 implies !has_bit(0u8, c) by {
            lemma_zero_bits(c as u8);
        }
    }
    while i < columns.len()
        invariant
            i <= columns@.len(),
            forall|j: int| 0 <= j < columns@.len() ==> columns@[j] < 8,
            forall|c: int|
                0 <= c < 8 ==> (has_bit(mask, c) <==> columns@.subrange(0, i as int).contains(
                    c as usize,
                )),
        decreases columns@.len() - i,
    {
        let column = columns[i] as u8;
        let old_mask = mask;
        mask = mask | (1u8 << column);
        assert forall|c: int| 0 <= c < 8 implies (has_bit(mask, c) <==> columns@.subrange(
            0,
            i + 1,
        ).contains(c as usize)) by {
            lemma_bit_of_or(old_mask, column, c as u8);
            assert(has_bit(mask, c) <==> (has_bit(old_mask, c) || c == columns@[i as int]));
            let s0 = columns@.subrange(0, i as int);
            let s1 = columns@.subrange(0, i + 1);
            let x = c as usize;
            assert(s1 =~= s0.push(columns@[i as int]));
            assert(has_bit(old_mask, c) <==> s0.contains(x));
            if s0.contains(x) {
                let w = choose|w: int| 0 <= w < s0.len() && s0[w] == x;
                assert(s1[w] == x);
            }
            if columns@[i as int] == x {
                assert(s1[i as int] == x);
            }
            if s1.contains(x) {
                let w = choose|w: int| 0 <= w < s1.len() && s1[w] == x;
                if w < i {
                    assert(s0[w] == x);
                }
            }
        }
        i = i + 1;
    }
    proof {
        assert(columns@.subrange(0, columns@.len() as int) =~= columns@);
    }
    mask
}

/// Mirrors a row of seven columns: column `c` goes to column `6 - c`.
pub fn mirror_mask(mask: u8) -> (mirrored: u8)
    ensures
        forall|c: int| 0 <= c < 7 ==> (has_bit(mirrored, 6 - c) <==> has_bit(mask, c)),
        !has_bit(mirrored, 7),
{
    let mut mirrored: u8 = 0;
    let mut column: u8 = 0;
    proof {
        assert forall|c: int| 0 <= c < 8 implies !has_bit(0u8, c) by {
            lemma_zero_bits(c as u8);
        }
    }
    while column < 7
        invariant
            column <= 7,
            forall|c: int| 0 <= c < column ==> (has_bit(mirrored, 6 - c) <==> has_bit(mask, c)),
            forall|d: int| 0 <= d < 8 && !(7 - column <= d <= 6) ==> !has_bit(mirrored, d),
        decreases 7 - column,
    {
        proof {
            lemma_and_bit(mask, column);
        }
        if mask & (1u8 << column) != 0 {
            let old_m = mirrored;
            mirrored = mirrored | (1u8 << (6 - column));
            proof {
                assert forall|d: int| 0 <= d < 8 implies (has_bit(mirrored, d) <==> (has_bit(
                    old_m,
                    d,
                ) || d == 6 - column)) by {
                    lemma_bit_of_or(old_m, (6 - column) as u8, d as u8);
                }
            }
        }
        column = column + 1;
    }
    mirrored
}

/// Number of set bits (the behaviour of `u8::count_ones`).
pub fn count_ones(x: u8) -> (n: u32)
    ensures
        n == popcount(x),
        n <= 8,
{
    let mut v: u8 = x;
    let mut n: u32 = 0;
    proof {
        lemma_popcount_bound(x);
    }
    while v > 0
        invariant
            n + popcount(v) == popcount(x),
            popcount(x) <= 8,
        decreases v,
    {
        let bit = v & 1;
        assert(bit == v % 2) by (bit_vector)
            requires
                bit == v & 1,
        ;
        let next = v >> 1;
        assert(next == v / 2) by (bit_vector)
            requires
                next == v >> 1,
        ;
        n = n + bit as u32;
        v = next;
    }
    n
}

proof fn lemma_popcount_below(x: u8, k: nat)
    requires
        (x as int) < vstd::arithmetic::power2::pow2(k) as int,
    ensures
        popcount(x) <= k,
    decreases x,
{
    if x != 0 {
        if k == 0 {
            vstd::arithmetic::power2::lemma2_to64();
        } else {
            vstd::arithmetic::power2::lemma_pow2_unfold(k);
            lemma_popcount_below(x / 2, (k - 1) as nat);
        }
    }
}

/// A byte has at most eight set bits.
pub proof fn lemma_popcount_bound(x: u8)
    ensures
        popcount(x) <= 8,
{
    vstd::arithmetic::power2::lemma2_to64();
    lemma_popcount_below(x, 8);
}

proof fn lemma_mask_difference_bound(first: Seq<u8>, second: Seq<u8>, n: int)
    requires
        0 <= n,
    ensures
        mask_difference_upto(first, second, n) <= 8 * n,
    decreases n,
{
    if n > 0 {
        lemma_mask_difference_bound(first, second, n - 1);
        lemma_popcount_bound(first[n - 1] ^ second[n - 1]);
    }
}

/// Total number of differing bits between two rows of masks, position by
/// position over their common length.
pub fn mask_difference(first: &[u8], second: &[u8]) -> (total: u32)
    requires
        mask_difference_spec(first@, second@) <= u32::MAX,
    ensures
        total == mask_difference_spec(first@, second@),
{
    let n = if first.len() < second.len() {
        first.len()
    } else {
        second.len()
    };
    let mut total: u32 = 0;
    let mut i: usize = 0;
    while i < n
        invariant
            i <= n,
            n == (if first@.len() < second@.len() {
                first@.len()
            } else {
                second@.len()
            }),
            total == mask_difference_upto(first@, second@, i as int),
            mask_difference_spec(first@, second@) <= u32::MAX,
        decreases n - i,
    {
        let bits = count_ones(first[i] ^ second[i]);
        proof {
            lemma_mask_difference_monotone(first@, second@, (i + 1) as int, n as int);
        }
        total = total + bits;
        i = i + 1;
    }
    total
}

proof fn lemma_mask_difference_monotone(first: Seq<u8>, second: Seq<u8>, a: int, b: int)
    requires
        0 <= a <= b,
    ensures
        mask_difference_upto(first, second, a) <= mask_difference_upto(first, second, b),
    decreases b - a,
{
    if a < b {
        lemma_mask_difference_monotone(first, second, a, b - 1);
    }
}

/// Rows of equal length differ in at most eight bits per position.
pub proof fn lemma_mask_difference_bound_len(first: Seq<u8>, second: Seq<u8>)
    requires
        first.len() == second.len(),
    ensures
        mask_difference_spec(first, second) <= 8 * first.len(),
{
    lemma_mask_difference_bound(first, second, first.len() as int);
}

/// Mirroring twice gives back the original row of seven columns.
pub proof fn lemma_mirror_involution(mask: u8, once: u8, twice: u8)
    requires
        forall|c: int| 0 <= c < 7 ==> (has_bit(once, 6 - c) <==> has_bit(mask, c)),
        forall|c: int| 0 <= c < 7 ==> (has_bit(twice, 6 - c) <==> has_bit(once, c)),
    ensures
        forall|c: int| 0 <= c < 7 ==> (has_bit(twice, c) <==> has_bit(mask, c)),
{
    assert forall|c: int| 0 <= c < 7 implies (has_bit(twice, c) <==> has_bit(mask, c)) by {
        assert(has_bit(twice, 6 - (6 - c)) <==> has_bit(once, 6 - c));
    }
}

/// A row of masks does not differ from itself.
pub proof fn lemma_mask_difference_self(masks: Seq<u8>, n: int)
    requires
        0 <= n,
    ensures
        mask_difference_upto(masks, masks, n) == 0,
    decreases n,
{
    if n > 0 {
        lemma_mask_difference_self(masks, n - 1);
        let x = masks[n - 1];
        assert(x ^ x == 0u8) by (bit_vector);
    }
}

} // verus!
