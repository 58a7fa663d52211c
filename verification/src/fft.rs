//! Index arithmetic of the radix-2 FFT: transform sizes and the bit-reversal
//! permutation that precedes the butterflies.

use vstd::prelude::*;

verus! {

/// `n` is a positive power of two.
pub open spec fn is_power_of_two(n: nat) -> bool
    decreases n,
{
    if n == 1 {
        true
    } else if n >= 2 && n % 2 == 0 {
        is_power_of_two(n / 2)
    } else {
        false
    }
}

/// The smallest power of two that is at least `n`; one for `n <= 1`.
pub open spec fn power_of_two_ceiling(n: nat) -> nat
    decreases n,
{
    if n <= 1 {
        1
    } else {
        2 * power_of_two_ceiling(((n + 1) / 2) as nat)
    }
}

/// A power of two at least `n`, and below `2n` unless it is one, is the ceiling.
pub proof fn lemma_power_of_two_ceiling_unique(n: nat, p: nat)
    requires
        is_power_of_two(p),
        n <= p,
        p == 1 || p < 2 * n,
    ensures
        p == power_of_two_ceiling(n),
    decreases p,
{
    if p != 1 {
        let h = ((n + 1) / 2) as nat;
        lemma_power_of_two_ceiling_unique(h, p / 2);
    }
}

/// The ceiling is a power of two, at least `n`, and below `2n` unless it is one.
pub proof fn lemma_power_of_two_ceiling_props(n: nat)
    ensures
        is_power_of_two(power_of_two_ceiling(n)),
        n <= power_of_two_ceiling(n),
        power_of_two_ceiling(n) == 1 || power_of_two_ceiling(n) < 2 * n,
    decreases n,
{
    if n > 1 {
        lemma_power_of_two_ceiling_props(((n + 1) / 2) as nat);
    }
}

/// Doubling `n` doubles its ceiling.
pub proof fn lemma_power_of_two_ceiling_scales(n: nat)
    requires
        n >= 1,
    ensures
        power_of_two_ceiling(2 * n) == 2 * power_of_two_ceiling(n),
{
    assert(((2 * n + 1) / 2) as nat == n);
}

/// Smallest power of two that is at least `n` (one for zero).
pub fn next_power_of_two(n: usize) -> (p: usize)
    requires
        n <= usize::MAX / 2 + 1,
    ensures
        p == power_of_two_ceiling(n as nat),
        is_power_of_two(p as nat),
        n <= p,
        p == 1 || p < 2 * n,
{
    let mut p: usize = 1;
    while p < n
        invariant
            is_power_of_two(p as nat),
            p == 1 || p < 2 * n,
            n <= usize::MAX / 2 + 1,
        decreases 2 * n - p,
    {
        proof {
            vstd::arithmetic::power2::lemma2_to64();
            vstd::bits::lemma_usize_shl_is_mul(p, 1);
        }
        p = p << 1;
    }
    proof {
        lemma_power_of_two_ceiling_unique(n as nat, p as nat);
    }
    p
}


/// Position of index `i` after bit reversal over a transform of length `n`
/// (a power of two): the low bit of `i` becomes the top bit, and so on.
pub open spec fn reverse_index(i: nat, n: nat) -> nat
    decreases n,
{
    if n <= 1 {
        0
    } else {
        (if i % 2 == 1 { n / 2 } else { 0 }) + reverse_index(i / 2, n / 2)
    }
}

/// Split an index below `2m` into its top bit and the rest.
proof fn lemma_split_top(x: nat, m: nat)
    requires
        0 < m,
        x < 2 * m,
    ensures
        x < m ==> x % m == x && x / m == 0,
        x >= m ==> x % m == x - m && x / m == 1,
{
    if x < m {
        vstd::arithmetic::div_mod::lemma_fundamental_div_mod_converse(x as int, m as int, 0, x as int);
    } else {
        vstd::arithmetic::div_mod::lemma_fundamental_div_mod_converse(x as int, m as int, 1, x - m);
    }
}

/// A power of two above one is even, and its half is a power of two.
proof fn lemma_half_power_of_two(n: nat)
    requires
        is_power_of_two(n),
        n > 1,
    ensures
        n % 2 == 0,
        n == 2 * (n / 2),
        is_power_of_two(n / 2),
        n > 2 ==> n / 2 >= 2,
{
    if n > 2 && n / 2 == 1 {
        assert(n == 2);
    }
}

/// Zero reverses to zero.
proof fn lemma_reverse_zero(n: nat)
    ensures
        reverse_index(0, n) == 0,
    decreases n,
{
    if n > 1 {
        lemma_reverse_zero(n / 2);
    }
}

/// A reversed index stays inside the transform.
pub proof fn lemma_reverse_index_bound(i: nat, n: nat)
    requires
        is_power_of_two(n),
    ensures
        reverse_index(i, n) < n,
    decreases n,
{
    if n > 1 {
        lemma_half_power_of_two(n);
        lemma_reverse_index_bound(i / 2, n / 2);
    }
}

/// Bit reversal read from the top: the top bit of `i` becomes the low bit.
proof fn lemma_reverse_index_top(i: nat, m: nat)
    requires
        is_power_of_two(m),
        i < 2 * m,
    ensures
        reverse_index(i, 2 * m) == 2 * reverse_index(i % m, m) + i / m,
    decreases m,
{
    lemma_split_top(i, m);
    assert((2 * m) / 2 == m);
    if m == 1 {
        assert(reverse_index(i / 2, 1) == 0);
        assert(reverse_index(i % m, m) == 0);
    } else {
        lemma_half_power_of_two(m);
        let h = m / 2;
        lemma_reverse_index_top(i / 2, h);
        lemma_split_top(i / 2, h);
        let r = i % m;
        assert(r % 2 == i % 2);
        assert(r / 2 == (i / 2) % h);
        assert(reverse_index(r, m) == (if r % 2 == 1 { h } else { 0 }) + reverse_index(r / 2, h));
        assert(reverse_index(i, 2 * m) == (if i % 2 == 1 { m } else { 0 }) + reverse_index(i / 2, m));
    }
}

/// Reversing twice gives the index back.
pub proof fn lemma_reverse_index_involution(i: nat, n: nat)
    requires
        is_power_of_two(n),
        i < n,
    ensures
        reverse_index(reverse_index(i, n), n) == i,
    decreases n,
{
    if n > 1 {
        lemma_half_power_of_two(n);
        let m = n / 2;
        lemma_reverse_index_bound(i / 2, m);
        lemma_reverse_index_involution(i / 2, m);
        lemma_reverse_index_bound(i, n);
        let r = reverse_index(i, n);
        assert(r == (if i % 2 == 1 { m } else { 0 }) + reverse_index(i / 2, m));
        lemma_split_top(r, m);
        lemma_reverse_index_top(r, m);
    } else {
        assert(i == 0);
    }
}

/// Adding one in reversed bit order: carries run from the top bit `bit` down.
pub open spec fn reversed_increment(j: nat, bit: nat) -> nat
    decreases bit,
{
    if bit == 0 {
        j
    } else if j >= bit {
        reversed_increment((j - bit) as nat, bit / 2)
    } else {
        j + bit
    }
}

/// The reversed counter steps from the reversal of `x` to that of `x + 1`.
proof fn lemma_reversed_increment(x: nat, n: nat)
    requires
        is_power_of_two(n),
        n >= 2,
        x + 1 < n,
    ensures
        reverse_index(x + 1, n) == reversed_increment(reverse_index(x, n), n / 2),
    decreases n,
{
    lemma_half_power_of_two(n);
    let m = n / 2;
    lemma_reverse_index_bound(x / 2, m);
    let r = reverse_index(x / 2, m);
    assert(reverse_index(x, n) == (if x % 2 == 1 { m } else { 0 }) + r);
    if x % 2 == 1 {
        assert((x + 1) / 2 == x / 2 + 1);
        assert(reverse_index(x + 1, n) == reverse_index(x / 2 + 1, m));
        assert(reversed_increment(m + r, m) == reversed_increment(r, m / 2));
        lemma_reversed_increment(x / 2, m);
    } else {
        assert((x + 1) / 2 == x / 2);
        assert(reverse_index(x + 1, n) == m + r);
    }
}

/// For a single set bit `bit` and `j < 2 * bit`: testing the bit is comparing
/// with it, clearing it subtracts it, and setting it (when clear) adds it.
proof fn lemma_top_bit_ops(j: usize, bit: usize)
    requires
        bit != 0,
        bit & ((bit - 1) as usize) == 0,
        j < bit * 2,
    ensures
        (j & bit != 0) == (j >= bit),
        j >= bit ==> j ^ bit == j - bit,
        j < bit ==> j | bit == j + bit,
        bit >> 1usize == bit / 2,
        bit / 2 == 0 || (bit / 2) & ((bit / 2 - 1) as usize) == 0,
        bit >= 2 ==> bit % 2 == 0,
{
    assert(bit >= 2 ==> bit % 2 == 0) by (bit_vector)
        requires bit & ((bit - 1) as usize) == 0;
    assert((j & bit != 0) == (j >= bit)) by (bit_vector)
        requires bit != 0, bit & ((bit - 1) as usize) == 0, j < bit * 2;
    assert(j >= bit ==> j ^ bit == j - bit) by (bit_vector)
        requires bit != 0, bit & ((bit - 1) as usize) == 0, j < bit * 2;
    assert(j < bit ==> j | bit == j + bit) by (bit_vector)
        requires bit != 0, bit & ((bit - 1) as usize) == 0;
    assert(bit >> 1usize == bit / 2) by (bit_vector);
    assert(bit / 2 == 0 || (bit / 2) & ((bit / 2 - 1) as usize) == 0) by (bit_vector)
        requires bit != 0, bit & ((bit - 1) as usize) == 0;
}

/// A power of two has a single set bit.
proof fn lemma_power_of_two_single_bit(p: usize)
    requires
        is_power_of_two(p as nat),
    ensures
        p & ((p - 1) as usize) == 0,
    decreases p,
{
    if p == 1 {
        assert(1usize & ((1usize - 1) as usize) == 0) by (bit_vector);
    } else {
        let q = (p / 2) as usize;
        lemma_power_of_two_single_bit(q);
        assert(p == q * 2);
        assert(q != 0 && q & ((q - 1) as usize) == 0 && p == q * 2 ==> p & ((p - 1) as usize) == 0) by (bit_vector);
    }
}

/// Reorder `a` into bit-reversed index order, the first step of an in-place
/// iterative FFT. The length must be a power of two.
pub fn bit_reverse_permute<T: Copy>(a: &mut [T])
    requires
        is_power_of_two(old(a)@.len()),
    ensures
        final(a)@.len() == old(a)@.len(),
        forall|i: int| 0 <= i < old(a)@.len() ==> final(a)@[i] == old(a)@[reverse_index(i as nat, old(a)@.len()) as int],
{
    let n = a.len();
    let ghost orig = a@;
    if n < 2 {
        proof {
            if n == 1 {
                assert(reverse_index(0, 1) == 0);
            }
        }
        return;
    }
    proof {
        lemma_power_of_two_single_bit((n / 2) as usize);
        assert(is_power_of_two((n / 2) as nat));
    }
    let mut j: usize = 0;
    let mut i: usize = 1;
    proof {
        lemma_reverse_zero(n as nat);
        assert forall|x: int| 0 <= x < n && #[trigger] reverse_index(x as nat, n as nat) < 1 implies x == 0 by {
            lemma_reverse_index_involution(x as nat, n as nat);
        }
    }
    while i < n
        invariant
            n == a@.len(),
            n == orig.len(),
            n >= 2,
            is_power_of_two(n as nat),
            (n / 2) & (((n / 2) as usize - 1) as usize) == 0,
            1 <= i <= n,
            j == reverse_index((i - 1) as nat, n as nat),
            forall|x: int| 0 <= x < n ==> #[trigger] a@[x] == orig[
                if (x < i || reverse_index(x as nat, n as nat) < i) { reverse_index(x as nat, n as nat) as int } else { x }
            ],
        decreases n - i,
    {
        let ghost target = reverse_index(i as nat, n as nat);
        proof {
            lemma_reversed_increment((i - 1) as nat, n as nat);
            lemma_reverse_index_bound((i - 1) as nat, n as nat);
        }
        let mut bit: usize = n >> 1;
        assert(n >> 1usize == n / 2) by (bit_vector);
        while j & bit != 0
            invariant
                bit == 0 || (bit & ((bit - 1) as usize) == 0 && j < bit * 2),
                reversed_increment(j as nat, bit as nat) == target,
            decreases bit,
        {
            proof {
                if bit == 0 {
                    assert(j & 0usize == 0usize) by (bit_vector);
                }
                lemma_top_bit_ops(j, bit);
            }
            j = j ^ bit;
            bit = bit >> 1;
        }
        proof {
            if bit != 0 {
                lemma_top_bit_ops(j, bit);
            } else {
                assert(j | 0usize == j) by (bit_vector);
            }
        }
        j = j | bit;
        proof {
            lemma_reverse_index_bound(i as nat, n as nat);
            lemma_reverse_index_involution(i as nat, n as nat);
        }
        if i < j {
            let t = a[i];
            let u = a[j];
            a[i] = u;
            a[j] = t;
        }
        proof {
            assert forall|x: int| 0 <= x < n implies #[trigger] a@[x] == orig[
                if (x < i + 1 || reverse_index(x as nat, n as nat) < i + 1) { reverse_index(x as nat, n as nat) as int } else { x }
            ] by {
                lemma_reverse_index_involution(x as nat, n as nat);
                lemma_reverse_index_bound(x as nat, n as nat);
            }
        }
        i = i + 1;
    }
    proof {
        assert forall|x: int| 0 <= x < n implies a@[x] == orig[reverse_index(x as nat, n as nat) as int] by {
            lemma_reverse_index_bound(x as nat, n as nat);
            assert(a@[x] == orig[
                if (x < i || reverse_index(x as nat, n as nat) < i) { reverse_index(x as nat, n as nat) as int } else { x }
            ]);
        }
    }
}

} // verus!
