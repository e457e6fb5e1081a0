use vstd::prelude::*;

use vstd::arithmetic::div_mod::{
    lemma_fundamental_div_mod, lemma_fundamental_div_mod_converse, lemma_mod_pos_bound,
};

use crate::bits::{is_pow2, lemma_pow2_monotone, lemma_pow2_pos, pow2};
use crate::permute::{bit_reversed, rearrange};
use crate::plan::{stage_start, Plan};

verus! {

/// One butterfly stage of span `step` on `n` points: each pair of points
/// `i` and `i + step`, with `i` in the first half of its block of `2 step`
/// points, becomes `butterfly(x[i], x[i + step], w)`, where `w` is the
/// stage's factor for the position of `i` in its block.
pub open spec fn stage_applied<C, B: Fn(C, C, C) -> (C, C)>(
    n: nat,
    x: Seq<C>,
    y: Seq<C>,
    step: nat,
    factors: Seq<C>,
    butterfly: B,
) -> bool {
    &&& x.len() == n
    &&& y.len() == n
    &&& forall|i: int|
        0 <= i < n && i % (2 * step as int) < step ==> #[trigger] call_ensures(
            butterfly,
            (x[i], x[i + step], factors[stage_start(step) + i % (2 * step as int)]),
            (y[i], y[i + step]),
        )
}

/// `y` is what the stages of span `step`, `2 step`, ... below `n` make of `x`.
pub open spec fn network<C, B: Fn(C, C, C) -> (C, C)>(
    n: nat,
    x: Seq<C>,
    y: Seq<C>,
    step: nat,
    factors: Seq<C>,
    butterfly: B,
) -> bool
    decreases (if step < n {
        n - step
    } else {
        0
    }),
{
    if step == 0 || step >= n {
        y == x
    } else {
        exists|z: Seq<C>|
            #[trigger] stage_applied(n, x, z, step, factors, butterfly) && network(
                n,
                z,
                y,
                2 * step,
                factors,
                butterfly,
            )
    }
}

/// `y` is `x` with each element passed to `scale` with `n`, where the
/// transform normalizes, and `x` itself otherwise.
pub open spec fn normalized<C, S: Fn(C, usize) -> C>(
    normalize: bool,
    n: nat,
    x: Seq<C>,
    y: Seq<C>,
    scale: S,
) -> bool {
    if normalize {
        &&& y.len() == x.len()
        &&& forall|i: int|
            0 <= i < x.len() ==> #[trigger] call_ensures(scale, (x[i], n as usize), y[i])
    } else {
        y == x
    }
}

/// The partner of a point in the first half of its block lies in the same
/// block, in the second half.
proof fn lemma_partner(i: int, step: int, n: int)
    requires
        step > 0,
        0 <= i < n,
        n % (2 * step) == 0,
        i % (2 * step) < step,
    ensures
        i + step < n,
        (i + step) % (2 * step) == i % (2 * step) + step,
{
    let d = 2 * step;
    lemma_fundamental_div_mod(i, d);
    lemma_fundamental_div_mod(n, d);
    lemma_mod_pos_bound(i, d);
    let q = i / d;
    let r = i % d;
    let m = n / d;
    assert(i + step == q * d + (r + step)) by (nonlinear_arith)
        requires
            i == d * q + r,
    ;
    lemma_fundamental_div_mod_converse(i + step, d, q, r + step);
    assert(q < m) by (nonlinear_arith)
        requires
            i == d * q + r,
            n == d * m,
            r >= 0,
            i < n,
            d > 0,
    ;
    assert((q + 1) * d <= m * d) by (nonlinear_arith)
        requires
            q + 1 <= m,
            d > 0,
    ;
    assert(i + step < (q + 1) * d) by (nonlinear_arith)
        requires
            i + step == q * d + (r + step),
            r + step < d,
    ;
    assert(m * d == n) by (nonlinear_arith)
        requires
            n == d * m,
    ;
    assert(i + step < n);
}

/// Blocks of `jump` points tile `n` points.
proof fn lemma_block(b: int, p: int, jump: int, n: int)
    requires
        jump > 0,
        0 <= b < n,
        b % jump == 0,
        n % jump == 0,
        0 <= p < jump,
    ensures
        (b + p) % jump == p,
        b + jump <= n,
        (b + jump) % jump == 0,
{
    lemma_fundamental_div_mod(b, jump);
    lemma_fundamental_div_mod(n, jump);
    let q = b / jump;
    let m = n / jump;
    assert(b + p == q * jump + p && b + jump == (q + 1) * jump + 0) by (nonlinear_arith)
        requires
            b == jump * q,
    ;
    lemma_fundamental_div_mod_converse(b + p, jump, q, p);
    lemma_fundamental_div_mod_converse(b + jump, jump, q + 1, 0);
    assert(b + jump <= n) by (nonlinear_arith)
        requires
            b == jump * q,
            n == jump * m,
            b < n,
            jump > 0,
    ;
}

/// A smaller power of two divides a larger one.
proof fn lemma_pow2_divides(a: nat, b: nat)
    requires
        a <= b,
    ensures
        pow2(b) % pow2(a) == 0,
    decreases b,
{
    lemma_pow2_pos(a);
    if a == b {
        lemma_fundamental_div_mod_converse(pow2(b) as int, pow2(a) as int, 1, 0);
    } else {
        lemma_pow2_divides(a, (b - 1) as nat);
        let d = pow2(a) as int;
        let x = pow2((b - 1) as nat) as int;
        lemma_fundamental_div_mod(x, d);
        let q = x / d;
        assert(2 * x == (2 * q) * d + 0) by (nonlinear_arith)
            requires
                x == d * q + 0,
        ;
        lemma_fundamental_div_mod_converse(2 * x, d, 2 * q, 0);
    }
}

/// Runs the butterfly network on `data`: stage after stage of span 1, 2,
/// 4, ... below `n`, block after block of `2 step` points, position after
/// position in the first half of the block.
#[verifier::rlimit(100)]
#[verifier::spinoff_prover]
pub fn calculate<C: Copy, B: Fn(C, C, C) -> (C, C)>(
    data: &mut Vec<C>,
    factors: &Vec<C>,
    butterfly: &B,
)
    requires
        is_pow2(old(data)@.len()),
        factors@.len() >= old(data)@.len() - 1,
        forall|a: C, b: C, w: C| call_requires(*butterfly, (a, b, w)),
    ensures
        final(data)@.len() == old(data)@.len(),
        network(old(data)@.len(), old(data)@, final(data)@, 1, factors@, *butterfly),
{
    let n = data.len();
    let ghost orig = data@;
    let ghost big = choose|b: nat| pow2(b) == n;
    let ghost mut k: nat = 0;
    let mut step: usize = 1;
    proof {
        lemma_pow2_pos(big);
    }
    while step < n
        invariant
            n == data@.len() == orig.len(),
            pow2(big) == n,
            step == pow2(k),
            k <= big,
            factors@.len() >= n - 1,
            forall|a: C, b: C, w: C| call_requires(*butterfly, (a, b, w)),
            forall|y: Seq<C>|
                network(n as nat, data@, y, step as nat, factors@, *butterfly) ==> network(
                    n as nat,
                    orig,
                    y,
                    1,
                    factors@,
                    *butterfly,
                ),
        decreases n - step,
    {
        proof {
            lemma_pow2_pos(k);
            if k == big {
                assert(false);
            }
            lemma_pow2_monotone(k + 1, big);
            lemma_pow2_divides(k + 1, big);
        }
        let jump = step * 2;
        let ghost x = data@;
        let mut b: usize = 0;
        while b < n
            invariant
                n == data@.len() == x.len(),
                step > 0,
                jump == 2 * step,
                jump <= n,
                (n as int) % (jump as int) == 0,
                b <= n,
                (b as int) % (jump as int) == 0,
                factors@.len() >= n - 1,
                stage_start(step as nat) + step <= n - 1,
                forall|a: C, b: C, w: C| call_requires(*butterfly, (a, b, w)),
                forall|i: int|
                    0 <= i < n && i % (jump as int) < step ==> if i < b {
                        call_ensures(
                            *butterfly,
                            (x[i], x[i + step], factors@[stage_start(step as nat) + i % (jump as int)]),
                            (#[trigger] data@[i], data@[i + step]),
                        )
                    } else {
                        data@[i] == x[i] && data@[i + step] == x[i + step]
                    },
            decreases n - b,
        {
            proof {
                lemma_block(b as int, 0, jump as int, n as int);
            }
            let mut p: usize = 0;
            while p < step
                invariant
                    n == data@.len() == x.len(),
                    step > 0,
                    jump == 2 * step,
                    (n as int) % (jump as int) == 0,
                    b < n,
                    b + jump <= n,
                    (b as int) % (jump as int) == 0,
                    p <= step,
                    factors@.len() >= n - 1,
                    stage_start(step as nat) + step <= n - 1,
                    forall|a: C, b: C, w: C| call_requires(*butterfly, (a, b, w)),
                    forall|i: int|
                        0 <= i < n && i % (jump as int) < step ==> if i < b + p {
                            call_ensures(
                                *butterfly,
                                (
                                    x[i],
                                    x[i + step],
                                    factors@[stage_start(step as nat) + i % (jump as int)],
                                ),
                                (#[trigger] data@[i], data@[i + step]),
                            )
                        } else {
                            data@[i] == x[i] && data@[i + step] == x[i + step]
                        },
                decreases step - p,
            {
                let i = b + p;
                let j = i + step;
                proof {
                    lemma_block(b as int, p as int, jump as int, n as int);
                    lemma_partner(i as int, step as int, n as int);
                }
                let w = factors[step - 1 + p];
                let (u, v) = butterfly(data[i], data[j], w);
                data.set(i, u);
                data.set(j, v);
                proof {
                    assert forall|i2: int|
                        0 <= i2 < n && i2 % (jump as int) < step implies if i2 < b + p + 1 {
                        call_ensures(
                            *butterfly,
                            (
                                x[i2],
                                x[i2 + step],
                                factors@[stage_start(step as nat) + i2 % (jump as int)],
                            ),
                            (#[trigger] data@[i2], data@[i2 + step]),
                        )
                    } else {
                        data@[i2] == x[i2] && data@[i2 + step] == x[i2 + step]
                    } by {
                        lemma_partner(i2, step as int, n as int);
                    }
                }
                p = p + 1;
            }
            proof {
                lemma_block(b as int, 0, jump as int, n as int);
                assert forall|i: int|
                    0 <= i < n && i % (jump as int) < step implies if i < b + jump {
                        call_ensures(
                            *butterfly,
                            (x[i], x[i + step], factors@[stage_start(step as nat) + i % (jump as int)]),
                            (#[trigger] data@[i], data@[i + step]),
                        )
                    } else {
                        data@[i] == x[i] && data@[i + step] == x[i + step]
                    } by {
                    if b <= i < b + jump {
                        lemma_block(b as int, i - b, jump as int, n as int);
                    }
                }
            }
            b = b + jump;
        }
        proof {
            let z = data@;
            assert(stage_applied(n as nat, x, z, step as nat, factors@, *butterfly)) by {
                assert forall|i: int|
                    0 <= i < n && i % (2 * step as int) < step implies #[trigger] call_ensures(
                        *butterfly,
                        (x[i], x[i + step], factors@[stage_start(step as nat) + i % (2 * step as int)]),
                        (z[i], z[i + step]),
                    ) by {
                    assert(data@[i] == z[i]);
                }
            }
            assert forall|y: Seq<C>|
                network(n as nat, z, y, 2 * step as nat, factors@, *butterfly) implies network(
                    n as nat,
                    orig,
                    y,
                    1,
                    factors@,
                    *butterfly,
                ) by {
                assert(stage_applied(n as nat, x, z, step as nat, factors@, *butterfly));
                assert(network(n as nat, x, y, step as nat, factors@, *butterfly));
            }
            k = k + 1;
        }
        step = jump;
    }
    assert(network(n as nat, data@, data@, step as nat, factors@, *butterfly));
}

/// Transforms `n` complex points in place with a plan made for `n`
/// points: puts them in bit-reversed order, runs the butterfly network with
/// the plan's factors, and, for the inverse transform, passes each result
/// to `scale` with `n`.
pub fn transform<C: Copy, B: Fn(C, C, C) -> (C, C), S: Fn(C, usize) -> C>(
    data: &mut Vec<C>,
    plan: &Plan<C>,
    butterfly: &B,
    scale: &S,
)
    requires
        plan.wf(),
        old(data)@.len() == plan.points(),
        forall|a: C, b: C, w: C| call_requires(*butterfly, (a, b, w)),
        forall|c: C, m: usize| call_requires(*scale, (c, m)),
    ensures
        final(data)@.len() == old(data)@.len(),
        exists|mid: Seq<C>|
            #[trigger] network(
                plan.points(),
                bit_reversed(old(data)@),
                mid,
                1,
                plan.spec_factors(),
                *butterfly,
            ) && normalized(
                plan.spec_operation().normalizes(),
                plan.points(),
                mid,
                final(data)@,
                *scale,
            ),
{
    let n = data.len();
    let normalize = plan.operation().is_normalized();
    rearrange(data);
    calculate(data, plan.factors(), butterfly);
    let ghost mid = data@;
    if normalize {
        normalize_all(data, n, scale);
    }
    assert(network(plan.points(), bit_reversed(old(data)@), mid, 1, plan.spec_factors(), *butterfly));
}

/// Passes each element of `data` to `scale` with `n`.
pub(crate) fn normalize_all<C: Copy, S: Fn(C, usize) -> C>(data: &mut Vec<C>, n: usize, scale: &S)
    requires
        forall|c: C, m: usize| call_requires(*scale, (c, m)),
    ensures
        normalized(true, n as nat, old(data)@, final(data)@, *scale),
{
    let ghost orig = data@;
    let mut i: usize = 0;
    while i < data.len()
        invariant
            data@.len() == orig.len(),
            i <= data@.len(),
            forall|c: C, m: usize| call_requires(*scale, (c, m)),
            forall|j: int| 0 <= j < i ==> #[trigger] call_ensures(*scale, (orig[j], n), data@[j]),
            forall|j: int| i <= j < data@.len() ==> data@[j] == orig[j],
        decreases data@.len() - i,
    {
        let c = scale(data[i], n);
        data.set(i, c);
        i = i + 1;
    }
}

} // verus!
