//! The folding engine: one FRI round folds each coset of `f` evaluations into
//! a single value by interpolating the coset and evaluating at the challenge,
//! and the final layer is interpolated into remainder coefficients.

use vstd::prelude::*;

verus! {

use vstd::arithmetic::div_mod::lemma_fundamental_div_mod;
use crate::field::{fadd, fmul, fsub, fpow, finv, Felt, FIELD_MODULUS};
use crate::merkle::is_pow2;

/// The integer values of a sequence of field elements.
pub open spec fn vals_of(s: Seq<Felt>) -> Seq<int> {
    s.map(|i: int, x: Felt| x.val())
}

/// Product over `j < n`, `j != k`, of `alpha - xs[j]`: the numerator of the
/// `k`-th Lagrange basis polynomial at `alpha`.
pub open spec fn lag_num(xs: Seq<int>, alpha: int, k: int, n: int) -> int
    decreases n,
{
    if n <= 0 {
        1
    } else if k == n - 1 {
        lag_num(xs, alpha, k, n - 1)
    } else {
        fmul(lag_num(xs, alpha, k, n - 1), fsub(alpha, xs[n - 1]))
    }
}

/// Product over `j < n`, `j != k`, of `xs[k] - xs[j]`: the denominator of the
/// `k`-th Lagrange basis polynomial.
pub open spec fn lag_den(xs: Seq<int>, k: int, n: int) -> int
    decreases n,
{
    if n <= 0 {
        1
    } else if k == n - 1 {
        lag_den(xs, k, n - 1)
    } else {
        fmul(lag_den(xs, k, n - 1), fsub(xs[k], xs[n - 1]))
    }
}

/// Sum over `k < n` of `vs[k] * lag_num(k) / lag_den(k)`.
pub open spec fn lag_sum(xs: Seq<int>, vs: Seq<int>, alpha: int, n: int) -> int
    decreases n,
{
    if n <= 0 {
        0
    } else {
        fadd(
            lag_sum(xs, vs, alpha, n - 1),
            fmul(
                vs[n - 1],
                fmul(
                    lag_num(xs, alpha, n - 1, xs.len() as int),
                    finv(lag_den(xs, n - 1, xs.len() as int)),
                ),
            ),
        )
    }
}

/// The unique polynomial of degree below `xs.len()` through the points
/// `(xs[j], vs[j])`, evaluated at `alpha` by the Lagrange formula.
pub open spec fn interp_eval(xs: Seq<int>, vs: Seq<int>, alpha: int) -> int {
    lag_sum(xs, vs, alpha, xs.len() as int)
}

/// The domain points of the coset folded into target index `c`: powers
/// `g^(c + j*stride)` for `j < f`.
pub open spec fn coset_xs(g: int, f: nat, stride: int, c: int) -> Seq<int> {
    Seq::new(f, |j: int| fpow(g, (c + j * stride) as nat))
}

/// The layer values of that coset.
pub open spec fn coset_vs(layer: Seq<int>, f: nat, stride: int, c: int) -> Seq<int> {
    Seq::new(f, |j: int| layer[c + j * stride])
}

/// One folded value: interpolate the coset at indices `c + j*stride` of the
/// layer (whose points share the `f`-th power `g^(f*c)`) and evaluate at the
/// challenge `alpha`.
pub open spec fn folded_value(layer: Seq<int>, g: int, f: nat, alpha: int, c: int) -> int {
    let stride = layer.len() as int / f as int;
    interp_eval(coset_xs(g, f, stride, c), coset_vs(layer, f, stride, c), alpha)
}

/// Evaluate at `alpha` the interpolant through `(xs[j], vs[j])`.
pub fn interpolate_eval(xs: &Vec<Felt>, vs: &Vec<Felt>, alpha: Felt) -> (r: Felt)
    requires
        xs@.len() == vs@.len(),
    ensures
        r.val() == interp_eval(vals_of(xs@), vals_of(vs@), alpha.val()),
{
    let ghost xsv = vals_of(xs@);
    let ghost vsv = vals_of(vs@);
    let n = xs.len();
    let mut acc = Felt::zero();
    let mut k: usize = 0;
    while k < n
        invariant
            n == xs@.len(),
            n == vs@.len(),
            k <= n,
            xsv == vals_of(xs@),
            vsv == vals_of(vs@),
            acc.val() == lag_sum(xsv, vsv, alpha.val(), k as int),
        decreases n - k,
    {
        let mut num = Felt::one();
        let mut j: usize = 0;
        while j < n
            invariant
                n == xs@.len(),
                k < n,
                j <= n,
                xsv == vals_of(xs@),
                num.val() == lag_num(xsv, alpha.val(), k as int, j as int),
            decreases n - j,
        {
            if j != k {
                num = num.mul(alpha.sub(xs[j]));
            }
            j += 1;
        }
        let mut den = Felt::one();
        let mut j2: usize = 0;
        while j2 < n
            invariant
                n == xs@.len(),
                k < n,
                j2 <= n,
                xsv == vals_of(xs@),
                den.val() == lag_den(xsv, k as int, j2 as int),
            decreases n - j2,
        {
            if j2 != k {
                den = den.mul(xs[k].sub(xs[j2]));
            }
            j2 += 1;
        }
        let term = vs[k].mul(num.mul(den.inv()));
        acc = acc.add(term);
        k += 1;
    }
    acc
}

/// Fold a whole layer: target index `c` takes the interpolation of source
/// indices `{c + j*(len/f)}` evaluated at `alpha`.
pub fn fold_layer(layer: &Vec<Felt>, g: Felt, f: usize, alpha: Felt) -> (out: Vec<Felt>)
    requires
        f >= 2,
        layer@.len() % (f as nat) == 0,
        layer@.len() / (f as nat) >= 1,
    ensures
        out@.len() == layer@.len() / (f as nat),
        forall|c: int|
            0 <= c < out@.len() ==> (#[trigger] out@[c]).val() == folded_value(
                vals_of(layer@),
                g.val(),
                f as nat,
                alpha.val(),
                c,
            ),
{
    let len = layer.len();
    let stride = len / f;
    proof {
        lemma_fundamental_div_mod(len as int, f as int);
    }
    let mut out: Vec<Felt> = Vec::new();
    let mut c: usize = 0;
    while c < stride
        invariant
            stride == layer@.len() / (f as nat),
            len == layer@.len(),
            f * stride == len,
            f >= 2,
            c <= stride,
            out@.len() == c,
            forall|cc: int|
                0 <= cc < c ==> (#[trigger] out@[cc]).val() == folded_value(
                    vals_of(layer@),
                    g.val(),
                    f as nat,
                    alpha.val(),
                    cc,
                ),
        decreases stride - c,
    {
        let mut xs: Vec<Felt> = Vec::new();
        let mut vs: Vec<Felt> = Vec::new();
        let mut j: usize = 0;
        while j < f
            invariant
                stride == layer@.len() / (f as nat),
                len == layer@.len(),
                f * stride == len,
                c < stride,
                j <= f,
                xs@.len() == j,
                vs@.len() == j,
                forall|jj: int|
                    0 <= jj < j ==> (#[trigger] xs@[jj]).val() == fpow(
                        g.val(),
                        (c + jj * stride) as nat,
                    ),
                forall|jj: int|
                    0 <= jj < j ==> (#[trigger] vs@[jj]).val() == vals_of(layer@)[c + jj
                        * stride],
            decreases f - j,
        {
            proof {
                assert(j * stride + stride <= f * stride) by (nonlinear_arith)
                    requires j < f, stride >= 0,
                ;
            }
            let idx = c + j * stride;
            let x = g.exp(idx as u64);
            xs.push(x);
            vs.push(layer[idx]);
            j += 1;
        }
        proof {
            assert(vals_of(xs@) =~= coset_xs(g.val(), f as nat, stride as int, c as int));
            assert(vals_of(vs@) =~= coset_vs(vals_of(layer@), f as nat, stride as int, c as int));
        }
        let folded = interpolate_eval(&xs, &vs, alpha);
        out.push(folded);
        c += 1;
    }
    out
}

/// Sum over `i < n` of `vs[i] * ginv^(i*k)`: the `k`-th un-normalized inverse
/// DFT coefficient.
pub open spec fn idft_sum(vs: Seq<int>, ginv: int, k: int, n: int) -> int
    decreases n,
{
    if n <= 0 {
        0
    } else {
        fadd(idft_sum(vs, ginv, k, n - 1), fmul(vs[n - 1], fpow(ginv, ((n - 1) * k) as nat)))
    }
}

/// The coefficients interpolating evaluations `vs` over the subgroup
/// generated by `g` (with `ginv` and `ninv` the inverses of `g` and of the
/// length): `ninv * idft_sum` for each degree.
pub open spec fn idft_coeffs(vs: Seq<int>, ginv: int, ninv: int) -> Seq<int> {
    Seq::new(vs.len(), |k: int| fmul(ninv, idft_sum(vs, ginv, k, vs.len() as int)))
}

/// Interpolate the final layer over its domain `{g^i}` into coefficients by
/// the inverse DFT formula.
pub fn interpolate_on_domain(layer: &Vec<Felt>, g: Felt) -> (r: Vec<Felt>)
    requires
        1 <= layer@.len() <= 0x1_0000_0000,
    ensures
        r@.len() == layer@.len(),
        vals_of(r@) == idft_coeffs(
            vals_of(layer@),
            finv(g.val()),
            finv(layer@.len() as int % (FIELD_MODULUS as int)),
        ),
{
    let ghost lv = vals_of(layer@);
    let n = layer.len();
    let ginv = g.inv();
    let ninv = Felt::new(n as u64).inv();
    let mut out: Vec<Felt> = Vec::new();
    let mut k: usize = 0;
    while k < n
        invariant
            n == layer@.len(),
            1 <= n <= 0x1_0000_0000,
            lv == vals_of(layer@),
            ginv.val() == finv(g.val()),
            ninv.val() == finv(n as int % (FIELD_MODULUS as int)),
            k <= n,
            out@.len() == k,
            forall|kk: int|
                0 <= kk < k ==> (#[trigger] out@[kk]).val() == fmul(
                    finv(n as int % (FIELD_MODULUS as int)),
                    idft_sum(lv, finv(g.val()), kk, n as int),
                ),
        decreases n - k,
    {
        let mut sum = Felt::zero();
        let mut i: usize = 0;
        while i < n
            invariant
                n == layer@.len(),
                1 <= n <= 0x1_0000_0000,
                lv == vals_of(layer@),
                ginv.val() == finv(g.val()),
                k < n,
                i <= n,
                sum.val() == idft_sum(lv, finv(g.val()), k as int, i as int),
            decreases n - i,
        {
            proof {
                assert((i as int) * (k as int) < 0x1_0000_0000int * 0x1_0000_0000int)
                    by (nonlinear_arith)
                    requires 0 <= i < 0x1_0000_0000, 0 <= k < 0x1_0000_0000,
                ;
                assert(0x1_0000_0000int * 0x1_0000_0000int <= u64::MAX as int + 1);
            }
            let e: u64 = (i as u64) * (k as u64);
            let term = layer[i].mul(ginv.exp(e));
            sum = sum.add(term);
            i += 1;
        }
        out.push(ninv.mul(sum));
        k += 1;
    }
    proof {
        assert(vals_of(out@) =~= idft_coeffs(
            lv,
            finv(g.val()),
            finv(n as int % (FIELD_MODULUS as int)),
        ));
    }
    out
}

/// Horner evaluation of a coefficient vector (constant term first) at `x`.
pub open spec fn poly_eval(coeffs: Seq<int>, x: int) -> int
    decreases coeffs.len(),
{
    if coeffs.len() == 0 {
        0
    } else {
        fadd(coeffs[0], fmul(x, poly_eval(coeffs.drop_first(), x)))
    }
}

/// Evaluate a remainder polynomial at `x`.
pub fn eval_poly(coeffs: &Vec<Felt>, x: Felt) -> (r: Felt)
    ensures
        r.val() == poly_eval(vals_of(coeffs@), x.val()),
{
    let ghost cv = vals_of(coeffs@);
    let mut acc = Felt::zero();
    let mut k = coeffs.len();
    proof {
        assert(cv.skip(coeffs@.len() as int) =~= Seq::<int>::empty());
    }
    while k > 0
        invariant
            k <= coeffs@.len(),
            cv == vals_of(coeffs@),
            acc.val() == poly_eval(cv.skip(k as int), x.val()),
        decreases k,
    {
        k = k - 1;
        let next = coeffs[k].add(x.mul(acc));
        proof {
            assert(cv.skip(k as int).drop_first() =~= cv.skip(k + 1));
            assert(cv.skip(k as int)[0] == cv[k as int]);
        }
        acc = next;
    }
    proof {
        assert(cv.skip(0) =~= cv);
    }
    acc
}

/// A generator of the multiplicative subgroup of order `2^32`; its successive
/// squarings generate every smaller power-of-two domain.
pub const TWO_ADIC_ROOT_OF_UNITY: u64 = 1753635133440165772;

/// The generator of the evaluation domain of the given power-of-two size:
/// the `2^32`-order generator raised to `2^32 / domain_size`.
pub fn domain_generator(domain_size: u64) -> (r: Felt)
    requires
        1 <= domain_size <= 0x1_0000_0000,
        is_pow2(domain_size as nat),
    ensures
        r.val() == fpow(
            TWO_ADIC_ROOT_OF_UNITY as int,
            (0x1_0000_0000int / domain_size as int) as nat,
        ),
{
    let root = Felt::new(TWO_ADIC_ROOT_OF_UNITY);
    root.exp(0x1_0000_0000u64 / domain_size)
}

} // verus!
