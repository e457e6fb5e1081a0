use vstd::prelude::*;

use crate::bits::{is_pow2, lemma_pow2_pos, pow2};
use crate::complex::{calculate, network, normalize_all, normalized};
use crate::permute::{bit_reversed, rearrange};
use crate::plan::{stage_start, Plan};
use crate::Operation;

verus! {

/// The recombination of `h` complex points that separates (or, when
/// `inverse`, joins) the spectra of the even and the odd samples of a real
/// sequence of `2 h` samples.
///
/// Point 0 becomes `ends(x[0], inverse)`. Each pair of points `k` and
/// `h - k` with `0 < k < h - k` becomes `recombine(x[k], x[h - k], w,
/// inverse)`, where `w` is the factor at position `k` of the stage of span
/// `h`; the middle point `h / 2` becomes the first half of
/// `recombine(x[h / 2], x[h / 2], w, inverse)`.
pub open spec fn recombined<C, R: Fn(C, C, C, bool) -> (C, C), E: Fn(C, bool) -> C>(
    h: nat,
    x: Seq<C>,
    y: Seq<C>,
    factors: Seq<C>,
    inverse: bool,
    recombine: R,
    ends: E,
) -> bool {
    &&& x.len() == h
    &&& y.len() == h
    &&& h >= 1 ==> call_ensures(ends, (x[0], inverse), y[0])
    &&& forall|k: int|
        1 <= k && 2 * k < h ==> #[trigger] call_ensures(
            recombine,
            (x[k], x[h - k], factors[stage_start(h) + k], inverse),
            (y[k], y[h - k]),
        )
    &&& h >= 2 && h % 2 == 0 ==> exists|v: C|
        #[trigger] call_ensures(
            recombine,
            (x[(h / 2) as int], x[(h / 2) as int], factors[stage_start(h) + h / 2], inverse),
            (y[(h / 2) as int], v),
        )
}

fn compose<C: Copy, R: Fn(C, C, C, bool) -> (C, C), E: Fn(C, bool) -> C>(
    data: &mut Vec<C>,
    factors: &Vec<C>,
    inverse: bool,
    recombine: &R,
    ends: &E,
)
    requires
        old(data)@.len() >= 1,
        factors@.len() >= 2 * old(data)@.len() - 1,
        forall|a: C, b: C, w: C, i: bool| call_requires(*recombine, (a, b, w, i)),
        forall|c: C, i: bool| call_requires(*ends, (c, i)),
    ensures
        recombined(old(data)@.len(), old(data)@, final(data)@, factors@, inverse, *recombine, *ends),
{
    let h = data.len();
    let fl = factors.len();
    let ghost x = data@;
    let first = ends(data[0], inverse);
    data.set(0, first);
    let mut k: usize = 1;
    while k < h - k
        invariant
            fl == factors@.len(),
            h == data@.len() == x.len(),
            h >= 1,
            1 <= k,
            2 * k <= h + 1,
            factors@.len() >= 2 * h - 1,
            forall|a: C, b: C, w: C, i: bool| call_requires(*recombine, (a, b, w, i)),
            call_ensures(*ends, (x[0], inverse), data@[0]),
            forall|k2: int|
                1 <= k2 < k ==> #[trigger] call_ensures(
                    *recombine,
                    (x[k2], x[h - k2], factors@[stage_start(h as nat) + k2], inverse),
                    (data@[k2], data@[h - k2]),
                ),
            forall|i: int| k <= i <= h - k ==> data@[i] == x[i],
        decreases h - k,
    {
        let j = h - k;
        let w = factors[h - 1 + k];
        let (u, v) = recombine(data[k], data[j], w, inverse);
        data.set(k, u);
        data.set(j, v);
        k = k + 1;
    }
    let ghost before = data@;
    assert(2 * k >= h);
    if h >= 2 && h % 2 == 0 {
        let m = h / 2;
        let w = factors[h - 1 + m];
        let (u, v) = recombine(data[m], data[m], w, inverse);
        data.set(m, u);
        assert(call_ensures(
            *recombine,
            (x[(h / 2) as int], x[(h / 2) as int], factors@[stage_start(h as nat) + h / 2], inverse),
            (data@[(h / 2) as int], v),
        ));
    }
    assert forall|k2: int| 1 <= k2 && 2 * k2 < h implies #[trigger] call_ensures(
        *recombine,
        (x[k2], x[h - k2], factors@[stage_start(h as nat) + k2], inverse),
        (data@[k2], data@[h - k2]),
    ) by {
        assert(data@[k2] == before[k2] && data@[h - k2] == before[h - k2]);
    }
}

proof fn lemma_half_pow2(n: nat)
    requires
        is_pow2(n),
        n >= 2,
    ensures
        is_pow2(n / 2),
        (n / 2) * 2 == n,
{
    let k = choose|k: nat| pow2(k) == n;
    if k == 0 {
        assert(false);
    }
    assert(pow2((k - 1) as nat) == n / 2);
}

/// Transforms the `n` real samples of a sequence, held as `h = n / 2`
/// complex points (sample `2 m` as the real part of point `m` and sample
/// `2 m + 1` as its imaginary part), with a plan made for `n` points.
///
/// Forward: the complex transform of the `h` points, then the
/// recombination into the packed half spectrum. Backward and inverse: the
/// recombination of the packed half spectrum, then the complex transform
/// of the `h` points; for the inverse, each result is passed to `scale`
/// with `n`.
pub fn transform_real<
    C: Copy,
    B: Fn(C, C, C) -> (C, C),
    S: Fn(C, usize) -> C,
    R: Fn(C, C, C, bool) -> (C, C),
    E: Fn(C, bool) -> C,
>(data: &mut Vec<C>, plan: &Plan<C>, butterfly: &B, scale: &S, recombine: &R, ends: &E)
    requires
        plan.wf(),
        2 * old(data)@.len() == plan.points(),
        forall|a: C, b: C, w: C| call_requires(*butterfly, (a, b, w)),
        forall|c: C, m: usize| call_requires(*scale, (c, m)),
        forall|a: C, b: C, w: C, i: bool| call_requires(*recombine, (a, b, w, i)),
        forall|c: C, i: bool| call_requires(*ends, (c, i)),
    ensures
        final(data)@.len() == old(data)@.len(),
        plan.spec_operation() == Operation::Forward ==> exists|mid: Seq<C>|
            #[trigger] network(
                old(data)@.len(),
                bit_reversed(old(data)@),
                mid,
                1,
                plan.spec_factors(),
                *butterfly,
            ) && recombined(
                old(data)@.len(),
                mid,
                final(data)@,
                plan.spec_factors(),
                false,
                *recombine,
                *ends,
            ),
        plan.spec_operation() != Operation::Forward ==> exists|joined: Seq<C>, mid: Seq<C>|
            #[trigger] recombined(
                old(data)@.len(),
                old(data)@,
                joined,
                plan.spec_factors(),
                true,
                *recombine,
                *ends,
            ) && #[trigger] network(
                old(data)@.len(),
                bit_reversed(joined),
                mid,
                1,
                plan.spec_factors(),
                *butterfly,
            ) && normalized(
                plan.spec_operation().normalizes(),
                plan.points(),
                mid,
                final(data)@,
                *scale,
            ),
{
    let n = plan.len();
    let operation = plan.operation();
    let ghost orig = data@;
    proof {
        let k = choose|k: nat| pow2(k) == n;
        lemma_pow2_pos(k);
        lemma_half_pow2(n as nat);
    }
    match operation {
        Operation::Forward => {
            rearrange(data);
            calculate(data, plan.factors(), butterfly);
            let ghost mid = data@;
            compose(data, plan.factors(), false, recombine, ends);
            assert(network(orig.len(), bit_reversed(orig), mid, 1, plan.spec_factors(), *butterfly));
        },
        _ => {
            compose(data, plan.factors(), true, recombine, ends);
            let ghost joined = data@;
            rearrange(data);
            calculate(data, plan.factors(), butterfly);
            let ghost mid = data@;
            if operation.is_normalized() {
                normalize_all(data, n, scale);
            }
            assert(recombined(
                orig.len(),
                orig,
                joined,
                plan.spec_factors(),
                true,
                *recombine,
                *ends,
            ));
            assert(network(orig.len(), bit_reversed(joined), mid, 1, plan.spec_factors(), *butterfly));
        },
    }
}

/// The full spectrum of `n` points that a packed half spectrum of `n` real
/// values stands for, as pairs of real and imaginary parts: bin 0 is
/// `(d[0], zero)`, bin `n / 2` is `(d[1], zero)`, bin `k` for `0 < k < n / 2`
/// is `(d[2 k], d[2 k + 1])`, and bin `n - k` is its conjugate, with the
/// imaginary part passed to `negate`.
pub open spec fn unpacked<T, N: Fn(T) -> T>(d: Seq<T>, zero: T, negate: N, r: Seq<(T, T)>) -> bool {
    let n = d.len();
    let h = n / 2;
    &&& r.len() == n
    &&& n >= 1 ==> r[0] == (d[0], zero)
    &&& n >= 2 ==> r[h as int] == (d[1], zero)
    &&& forall|k: int| 0 < k < h ==> #[trigger] r[k] == (d[2 * k], d[2 * k + 1])
    &&& forall|k: int|
        0 < k < h ==> (#[trigger] r[n - k]).0 == d[2 * k] && call_ensures(
            negate,
            (d[2 * k + 1],),
            r[n - k].1,
        )
}

/// Expands a packed half spectrum of `n` real values into the full complex
/// spectrum of `n` bins, without changing it.
pub fn unpack<T: Copy, N: Fn(T) -> T>(data: &Vec<T>, zero: T, negate: &N) -> (r: Vec<(T, T)>)
    requires
        is_pow2(data@.len()),
        forall|t: T| call_requires(*negate, (t,)),
    ensures
        unpacked(data@, zero, *negate, r@),
{
    let n = data.len();
    let h = n / 2;
    proof {
        lemma_pow2_pos(choose|k: nat| pow2(k) == n);
    }
    let mut result: Vec<(T, T)> = Vec::new();
    result.push((data[0], zero));
    if h == 0 {
        return result;
    }
    proof {
        lemma_half_pow2(n as nat);
    }
    let mut i: usize = 1;
    while i < h
        invariant
            n == data@.len(),
            h == n / 2,
            h * 2 == n,
            1 <= i <= h,
            result@.len() == i,
            result@[0] == (data@[0], zero),
            forall|k: int| 0 < k < i ==> #[trigger] result@[k] == (data@[2 * k], data@[2 * k + 1]),
        decreases h - i,
    {
        result.push((data[2 * i], data[2 * i + 1]));
        i = i + 1;
    }
    result.push((data[1], zero));
    let mut i: usize = h + 1;
    while i < n
        invariant
            n == data@.len(),
            h == n / 2,
            h * 2 == n,
            h + 1 <= i <= n,
            result@.len() == i,
            result@[0] == (data@[0], zero),
            result@[h as int] == (data@[1], zero),
            forall|t: T| call_requires(*negate, (t,)),
            forall|k: int| 0 < k < h ==> #[trigger] result@[k] == (data@[2 * k], data@[2 * k + 1]),
            forall|k: int|
                0 < k < h && n - k < i ==> (#[trigger] result@[n - k]).0 == data@[2 * k]
                    && call_ensures(*negate, (data@[2 * k + 1],), result@[n - k].1),
        decreases n - i,
    {
        let (re, im) = result[n - i];
        let conj = negate(im);
        result.push((re, conj));
        i = i + 1;
    }
    result
}

/// Unpacking is a pure function of the packed values: two expansions of the
/// same packed spectrum, with a negation that gives one result for each
/// value, are equal.
pub proof fn lemma_unpack_deterministic<T, N: Fn(T) -> T>(
    d: Seq<T>,
    zero: T,
    negate: N,
    r1: Seq<(T, T)>,
    r2: Seq<(T, T)>,
)
    requires
        forall|t: T, a: T, b: T|
            call_ensures(negate, (t,), a) && call_ensures(negate, (t,), b) ==> a == b,
        is_pow2(d.len()),
        unpacked(d, zero, negate, r1),
        unpacked(d, zero, negate, r2),
    ensures
        r1 == r2,
{
    let n = d.len();
    let h = n / 2;
    if n >= 2 {
        lemma_half_pow2(n);
    }
    assert forall|i: int| 0 <= i < n implies r1[i] == r2[i] by {
        if 0 < i < h {
            assert(r1[i] == (d[2 * i], d[2 * i + 1]));
        } else if h < i < n && i > 0 && n - i < h {
            let k = n - i;
            assert(r1[n - k].0 == d[2 * k]);
            assert(r2[n - k].0 == d[2 * k]);
            assert(call_ensures(negate, (d[2 * k + 1],), r1[n - k].1));
            assert(call_ensures(negate, (d[2 * k + 1],), r2[n - k].1));
        }
    }
    assert(r1 =~= r2);
}

} // verus!
