use vstd::prelude::*;

verus! {

/// Two to the power `k`.
pub open spec fn pow2(k: nat) -> nat
    decreases k,
{
    if k == 0 {
        1
    } else {
        2 * pow2((k - 1) as nat)
    }
}

pub proof fn lemma_pow2_exceeds(k: nat)
    ensures
        k < pow2(k),
    decreases k,
{
    if k > 0 {
        lemma_pow2_exceeds((k - 1) as nat);
    }
}

/// `n` is a power of two (one included).
pub open spec fn is_pow2(n: nat) -> bool {
    exists|k: nat| pow2(k) == n
}

/// The low `b` bits of `i`, in reverse order.
pub open spec fn rev(i: nat, b: nat) -> nat
    decreases b,
{
    if b == 0 {
        0
    } else {
        rev(i / 2, (b - 1) as nat) + (i % 2) * pow2((b - 1) as nat)
    }
}

pub proof fn lemma_pow2_pos(k: nat)
    ensures
        pow2(k) >= 1,
    decreases k,
{
    if k > 0 {
        lemma_pow2_pos((k - 1) as nat);
    }
}

pub proof fn lemma_pow2_monotone(a: nat, b: nat)
    requires
        a <= b,
    ensures
        pow2(a) <= pow2(b),
    decreases b,
{
    if a < b {
        lemma_pow2_monotone(a, (b - 1) as nat);
    }
}

/// The powers of two are distinct.
pub proof fn lemma_pow2_injective(a: nat, b: nat)
    requires
        pow2(a) == pow2(b),
    ensures
        a == b,
    decreases a + b,
{
    lemma_pow2_pos(a);
    lemma_pow2_pos(b);
    if a > 0 && b > 0 {
        lemma_pow2_injective((a - 1) as nat, (b - 1) as nat);
    } else if a > 0 {
        lemma_pow2_pos((a - 1) as nat);
    } else if b > 0 {
        lemma_pow2_pos((b - 1) as nat);
    }
}

pub proof fn lemma_rev_bound(i: nat, b: nat)
    ensures
        rev(i, b) < pow2(b),
    decreases b,
{
    if b > 0 {
        lemma_rev_bound(i / 2, (b - 1) as nat);
        assert(i % 2 <= 1);
        assert((i % 2) * pow2((b - 1) as nat) <= pow2((b - 1) as nat)) by (nonlinear_arith)
            requires
                i % 2 <= 1,
        ;
    }
}

/// Reversing `b` bits moves the top bit of `i` to the bottom.
proof fn lemma_rev_top(top: nat, rest: nat, b: nat)
    requires
        b >= 1,
        top <= 1,
        rest < pow2((b - 1) as nat),
    ensures
        rev(top * pow2((b - 1) as nat) + rest, b) == 2 * rev(rest, (b - 1) as nat) + top,
    decreases b,
{
    let i = top * pow2((b - 1) as nat) + rest;
    if b == 1 {
        assert(pow2((b - 1) as nat) == 1);
        assert(rest == 0);
        assert(i == top);
        assert(rev(i / 2, 0) == 0);
    } else {
        let p = pow2((b - 2) as nat);
        assert(pow2((b - 1) as nat) == 2 * p);
        assert(i == 2 * (top * p + rest / 2) + rest % 2) by (nonlinear_arith)
            requires
                i == top * (2 * p) + rest,
        ;
        assert(i / 2 == top * p + rest / 2 && i % 2 == rest % 2);
        assert(rest / 2 < p);
        lemma_rev_top(top, rest / 2, (b - 1) as nat);
        assert(rev(rest, (b - 1) as nat) == rev(rest / 2, (b - 2) as nat) + (rest % 2) * p);
        assert((rest % 2) * (2 * p) == 2 * ((rest % 2) * p)) by (nonlinear_arith);
    }
}

/// Reversing the low `b` bits twice gives back any `i` below `2^b`.
pub proof fn lemma_rev_involution(i: nat, b: nat)
    requires
        i < pow2(b),
    ensures
        rev(rev(i, b), b) == i,
    decreases b,
{
    if b > 0 {
        let hi = i / 2;
        let lo = i % 2;
        let p = pow2((b - 1) as nat);
        assert(hi < p);
        lemma_rev_bound(hi, (b - 1) as nat);
        lemma_rev_involution(hi, (b - 1) as nat);
        assert(rev(i, b) == lo * p + rev(hi, (b - 1) as nat));
        lemma_rev_top(lo, rev(hi, (b - 1) as nat), b);
    }
}

/// Whether `n` is a power of two.
pub fn is_power_of_two(n: usize) -> (r: bool)
    ensures
        r == is_pow2(n as nat),
{
    let mut p: usize = 1;
    let ghost mut k: nat = 0;
    while p < n
        invariant
            p == pow2(k),
            p >= 1,
            forall|j: nat| j < k ==> pow2(j) < n,
        decreases usize::MAX - p,
    {
        if p > usize::MAX / 2 {
            proof {
                assert forall|j: nat| pow2(j) != n by {
                    if j > k {
                        lemma_pow2_monotone(k + 1, j);
                    }
                }
            }
            return false;
        }
        p = p * 2;
        proof {
            k = k + 1;
        }
    }
    if p == n {
        true
    } else {
        proof {
            assert forall|j: nat| pow2(j) != n by {
                if j > k {
                    lemma_pow2_monotone(k, j);
                }
            }
        }
        false
    }
}

/// The number of bits below a power of two: `2^r == n`.
pub fn log2(n: usize) -> (r: usize)
    requires
        is_pow2(n as nat),
    ensures
        pow2(r as nat) == n,
{
    let ghost k = choose|k: nat| pow2(k) == n;
    let mut p: usize = 1;
    let mut r: usize = 0;
    proof {
        lemma_pow2_exceeds(k);
    }
    while p < n
        invariant
            p == pow2(r as nat),
            r <= k,
            pow2(k) == n,
            k < n,
            p >= 1,
        decreases usize::MAX - p,
    {
        proof {
            if r as nat == k {
                assert(false);
            }
            lemma_pow2_monotone((r + 1) as nat, k);
        }
        p = p * 2;
        r = r + 1;
    }
    proof {
        if (r as nat) < k {
            lemma_pow2_monotone((r + 1) as nat, k);
        }
        lemma_pow2_injective(r as nat, k);
    }
    r
}

/// The low `bits` bits of `i`, in reverse order.
pub fn reverse_bits(i: usize, bits: usize) -> (r: usize)
    requires
        pow2(bits as nat) <= usize::MAX,
    ensures
        r == rev(i as nat, bits as nat),
{
    let mut x: usize = i;
    let mut r: usize = 0;
    let mut t: usize = 0;
    proof {
        lemma_rev_bound(i as nat, bits as nat);
    }
    while t < bits
        invariant
            t <= bits,
            rev(i as nat, bits as nat) == r * pow2((bits - t) as nat) + rev(
                x as nat,
                (bits - t) as nat,
            ),
            rev(i as nat, bits as nat) < pow2(bits as nat) <= usize::MAX,
        decreases bits - t,
    {
        let ghost q = pow2((bits - t - 1) as nat);
        proof {
            lemma_pow2_pos(q as nat);
            lemma_pow2_pos((bits - t - 1) as nat);
            lemma_rev_bound((x / 2) as nat, (bits - t - 1) as nat);
            assert(r * pow2((bits - t) as nat) == 2 * r * q) by (nonlinear_arith)
                requires
                    pow2((bits - t) as nat) == 2 * q,
            ;
            assert((2 * r + x % 2) * q == 2 * r * q + (x % 2) * q) by (nonlinear_arith);
            assert(2 * r + x % 2 <= rev(i as nat, bits as nat)) by (nonlinear_arith)
                requires
                    rev(i as nat, bits as nat) == 2 * r * q + (x % 2) * q + rev(
                        (x / 2) as nat,
                        (bits - t - 1) as nat,
                    ),
                    q >= 1,
            ;
        }
        r = 2 * r + x % 2;
        x = x / 2;
        t = t + 1;
    }
    assert(t == bits);
    assert(pow2((bits - t) as nat) == 1 && rev(x as nat, (bits - t) as nat) == 0);
    assert(r * pow2((bits - t) as nat) == r) by (nonlinear_arith)
        requires
            pow2((bits - t) as nat) == 1,
    ;
    r
}

} // verus!
