use vstd::prelude::*;

use crate::bits::{is_pow2, lemma_pow2_monotone, lemma_pow2_pos, pow2};
use crate::Operation;

verus! {

/// A transform plan: the twiddle factors of every butterfly stage of a
/// transform of `n` points, stage after stage.
///
/// The stage whose butterflies span `step` points holds `step` factors,
/// starting at index `step - 1`.
pub struct Plan<C> {
    n: usize,
    factors: Vec<C>,
    operation: Operation,
}

/// The index of the first factor of the stage of span `step`.
pub open spec fn stage_start(step: nat) -> int {
    step - 1
}

/// The factors of the stage of span `step` start at `one` and each one is
/// `rotate` applied to the stage's multiplier and the factor before it.
pub open spec fn stage_generated<C, M: Fn(usize, i8) -> C, R: Fn(C, C) -> C>(
    factors: Seq<C>,
    step: nat,
    sign: i8,
    one: C,
    multiplier: M,
    rotate: R,
) -> bool {
    &&& factors[stage_start(step)] == one
    &&& exists|m: C|
        {
            &&& #[trigger] call_ensures(multiplier, (step as usize, sign), m)
            &&& forall|p: int|
                0 <= p < step - 1 ==> call_ensures(
                    rotate,
                    (m, #[trigger] factors[stage_start(step) + p]),
                    factors[stage_start(step) + p + 1],
                )
        }
}

impl<C> Plan<C> {
    /// The number of points.
    pub closed spec fn points(&self) -> nat {
        self.n as nat
    }

    /// The factors, stage after stage.
    pub closed spec fn spec_factors(&self) -> Seq<C> {
        self.factors@
    }

    /// The operation the plan was made for.
    pub closed spec fn spec_operation(&self) -> Operation {
        self.operation
    }

    /// A plan for a power of two `n` holds `n - 1` factors.
    pub open spec fn wf(&self) -> bool {
        &&& is_pow2(self.points())
        &&& self.spec_factors().len() == self.points() - 1
    }

    /// Creates a plan for `operation` on `n` points.
    ///
    /// For each stage of span `step` (1, 2, 4, ... below `n`), the first
    /// factor is `one`, and each next one is `rotate(m, previous)`, where `m`
    /// is the stage's `multiplier(step, sign)` and `sign` is the
    /// operation's rotation sign.
    pub fn new<M: Fn(usize, i8) -> C, R: Fn(C, C) -> C>(
        operation: Operation,
        n: usize,
        one: C,
        multiplier: &M,
        rotate: &R,
    ) -> (plan: Plan<C>) where C: Copy
        requires
            is_pow2(n as nat),
            forall|s: usize, g: i8| call_requires(*multiplier, (s, g)),
            forall|m: C, f: C| call_requires(*rotate, (m, f)),
        ensures
            plan.wf(),
            plan.points() == n,
            plan.spec_operation() == operation,
            plan.spec_factors().len() == n - 1,
            forall|k: nat|
                pow2(k) < n ==> #[trigger] stage_generated(
                    plan.spec_factors(),
                    pow2(k),
                    operation.sign(),
                    one,
                    *multiplier,
                    *rotate,
                ),
    {
        let sign = operation.rotation_sign();
        let mut factors: Vec<C> = Vec::new();
        let mut step: usize = 1;
        let ghost mut k: nat = 0;
        let ghost mut ms: Seq<C> = Seq::empty();
        let ghost big = choose|b: nat| pow2(b) == n;
        proof {
            lemma_pow2_pos(big);
        }
        while step < n
            invariant
                pow2(big) == n,
                step == pow2(k),
                step <= n,
                factors@.len() == step - 1,
                ms.len() == k,
                forall|s: usize, g: i8| call_requires(*multiplier, (s, g)),
                forall|m: C, f: C| call_requires(*rotate, (m, f)),
                forall|j: nat|
                    j < k ==> {
                        &&& factors@[stage_start(#[trigger] pow2(j))] == one
                        &&& call_ensures(*multiplier, (pow2(j) as usize, sign), ms[j as int])
                        &&& forall|p: int|
                            0 <= p < pow2(j) - 1 ==> call_ensures(
                                *rotate,
                                (ms[j as int], #[trigger] factors@[stage_start(pow2(j)) + p]),
                                factors@[stage_start(pow2(j)) + p + 1],
                            )
                    },
                forall|j: nat| j < k ==> #[trigger] pow2(j) < step,
            decreases n - step,
        {
            let m = multiplier(step, sign);
            let mut factor = one;
            let mut p: usize = 0;
            let ghost before = factors@;
            while p < step
                invariant
                    step == pow2(k),
                    step < n,
                    p <= step,
                    factors@.len() == step - 1 + p,
                    before.len() == step - 1,
                    forall|i: int| 0 <= i < step - 1 ==> factors@[i] == before[i],
                    p == 0 ==> factor == one,
                    p > 0 ==> factors@[step - 1] == one,
                    p > 0 ==> call_ensures(*rotate, (m, factors@[step - 1 + p - 1]), factor),
                    forall|q: int|
                        0 <= q < p - 1 ==> call_ensures(
                            *rotate,
                            (m, #[trigger] factors@[step - 1 + q]),
                            factors@[step - 1 + q + 1],
                        ),
                    forall|m2: C, f: C| call_requires(*rotate, (m2, f)),
                decreases step - p,
            {
                factors.push(factor);
                factor = rotate(m, factor);
                p = p + 1;
            }
            proof {
                assert forall|j: nat| j < k + 1 implies #[trigger] pow2(j) < 2 * step by {
                    if j < k {
                        assert(pow2(j) < step);
                    }
                }
                if k >= big {
                    lemma_pow2_monotone(big, k);
                }
                lemma_pow2_monotone(k + 1, big);
                ms = ms.push(m);
                assert forall|j: nat| j < k + 1 implies {
                    &&& factors@[stage_start(#[trigger] pow2(j))] == one
                    &&& call_ensures(*multiplier, (pow2(j) as usize, sign), ms[j as int])
                    &&& forall|p: int|
                        0 <= p < pow2(j) - 1 ==> call_ensures(
                            *rotate,
                            (ms[j as int], #[trigger] factors@[stage_start(pow2(j)) + p]),
                            factors@[stage_start(pow2(j)) + p + 1],
                        )
                } by {
                    if j < k {
                        assert(pow2(j) < step);
                        lemma_pow2_pos(j);
                        lemma_pow2_monotone(j + 1, k);
                        assert forall|p: int| 0 <= p < pow2(j) - 1 implies call_ensures(
                            *rotate,
                            (ms[j as int], #[trigger] factors@[stage_start(pow2(j)) + p]),
                            factors@[stage_start(pow2(j)) + p + 1],
                        ) by {
                            assert(factors@[stage_start(pow2(j)) + p] == before[stage_start(
                                pow2(j),
                            ) + p]);
                            assert(factors@[stage_start(pow2(j)) + p + 1] == before[stage_start(
                                pow2(j),
                            ) + p + 1]);
                        }
                    }
                }
                k = k + 1;
            }
            step = step * 2;
        }
        proof {
            if k < big {
                lemma_pow2_monotone(k + 1, big);
            }
            if k > big {
                lemma_pow2_monotone(big + 1, k);
            }
            assert(k == big);
            assert forall|j: nat| pow2(j) < n implies #[trigger] stage_generated(
                factors@,
                pow2(j),
                operation.sign(),
                one,
                *multiplier,
                *rotate,
            ) by {
                if j >= k {
                    lemma_pow2_monotone(k, j);
                }
                let m = ms[j as int];
                assert(call_ensures(*multiplier, (pow2(j) as usize, sign), m));
            }
        }
        Plan { n, factors, operation }
    }

    /// The number of points.
    pub fn len(&self) -> (r: usize)
        ensures
            r == self.points(),
    {
        self.n
    }

    /// The operation the plan was made for.
    pub fn operation(&self) -> (r: Operation)
        ensures
            r == self.spec_operation(),
    {
        self.operation
    }

    /// The factors, stage after stage.
    pub fn factors(&self) -> (r: &Vec<C>)
        ensures
            r@ == self.spec_factors(),
    {
        &self.factors
    }
}

} // verus!
