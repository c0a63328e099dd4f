//! The modified Bavarian formula on grades held as integer thousandths.
//!
//! A foreign grade `Nd` on a scale whose best grade is `Nmax` and whose lowest
//! passing grade is `Nmin` maps to the German grade
//! `x = 1 + 3 * (Nmax - Nd) / (Nmax - Nmin)`, truncated to one decimal; the
//! inverse maps a German grade `x` in `[1, 4]` back to
//! `Nd = Nmax - (x - 1) / 3 * (Nmax - Nmin)`, truncated to two decimals.
//! All inputs are thousandths, German results are tenths, foreign results
//! are hundredths. Every division is carried out on integers, so the
//! truncation is exact.
use vstd::prelude::*;

verus! {

/// `v` lies in the closed interval spanned by `a` and `b`, in either order.
pub open spec fn between(a: int, b: int, v: int) -> bool {
    (a <= v && v <= b) || (b <= v && v <= a)
}

/// The floor of the rational number `a / b` (for `b != 0`).
pub open spec fn floor_div(a: int, b: int) -> int
    recommends
        b != 0,
{
    if b > 0 {
        a / b
    } else {
        (-a) / (-b)
    }
}

/// The rational number `a / b` (for `b > 0`) truncated toward zero.
pub open spec fn trunc_div(a: int, b: int) -> int
    recommends
        b > 0,
{
    if a >= 0 {
        a / b
    } else {
        -((-a) / b)
    }
}

/// Numerator of `x = num / den` with `den = Nmax - Nmin`: the exact German
/// grade is `(den + 3 * (Nmax - Nd)) / den`.
pub open spec fn de_numerator(nmax: int, nmin: int, nd: int) -> int {
    (nmax - nmin) + 3 * (nmax - nd)
}

/// The German grade in tenths: `10 * (1 + 3 * (Nmax - Nd) / (Nmax - Nmin))`
/// truncated; on the passing interval the value is positive, so this is its floor.
pub open spec fn de_tenths(nmax: int, nmin: int, nd: int) -> int {
    floor_div(10 * de_numerator(nmax, nmin, nd), nmax - nmin)
}

/// What the foreign-to-German formula gives: nothing for a degenerate scale
/// or a grade outside the passing interval, else the German grade in tenths.
pub open spec fn spec_bavarian_to_de(nmax: int, nmin: int, nd: int) -> Option<int> {
    if nmax == nmin || !between(nmax, nmin, nd) {
        None
    } else {
        Some(de_tenths(nmax, nmin, nd))
    }
}

/// Numerator of `Nd` in units of 1/3_000_000:
/// `Nmax * 3000 - (x - 1000) * (Nmax - Nmin)` with `x` in thousandths.
pub open spec fn foreign_numerator(nmax: int, nmin: int, x: int) -> int {
    nmax * 3000 - (x - 1000) * (nmax - nmin)
}

/// The foreign grade in hundredths, `100 * (Nmax - (x - 1) / 3 * (Nmax - Nmin))`
/// truncated toward zero (never rounded).
pub open spec fn foreign_hundredths(nmax: int, nmin: int, x: int) -> int {
    trunc_div(foreign_numerator(nmax, nmin, x), 30000)
}

/// What the German-to-foreign formula gives: nothing for a degenerate scale or
/// a German grade outside `[1.000, 4.000]`, else the foreign grade in hundredths.
pub open spec fn spec_bavarian_from_de(nmax: int, nmin: int, x: int) -> Option<int> {
    if nmax == nmin || x < 1000 || x > 4000 {
        None
    } else {
        Some(foreign_hundredths(nmax, nmin, x))
    }
}

/// An optional machine integer, read as a mathematical integer.
pub open spec fn opt_int(o: Option<i64>) -> Option<int> {
    match o {
        Some(v) => Some(v as int),
        None => None,
    }
}

/// Whether `v` lies between `a` and `b` (inclusive, in either order).
pub fn in_bounds(a: i64, b: i64, v: i64) -> (r: bool)
    ensures
        r == between(a as int, b as int, v as int),
{
    if a <= b {
        a <= v && v <= b
    } else {
        b <= v && v <= a
    }
}

/// The tenths of a valid conversion lie in `[10, 40]`, that is in `[1.0, 4.0]`.
pub proof fn lemma_de_tenths_range(nmax: int, nmin: int, nd: int)
    requires
        nmax != nmin,
        between(nmax, nmin, nd),
    ensures
        10 <= de_tenths(nmax, nmin, nd) <= 40,
{
    let den = nmax - nmin;
    let num = de_numerator(nmax, nmin, nd);
    if den > 0 {
        assert(10 * den <= 10 * num <= 40 * den);
        vstd::arithmetic::div_mod::lemma_div_is_ordered(10 * den, 10 * num, den);
        vstd::arithmetic::div_mod::lemma_div_is_ordered(10 * num, 40 * den, den);
        vstd::arithmetic::div_mod::lemma_div_by_multiple(10, den);
        vstd::arithmetic::div_mod::lemma_div_by_multiple(40, den);
    } else {
        let d = -den;
        let n = -(10 * num);
        assert(10 * d <= n <= 40 * d);
        vstd::arithmetic::div_mod::lemma_div_is_ordered(10 * d, n, d);
        vstd::arithmetic::div_mod::lemma_div_is_ordered(n, 40 * d, d);
        vstd::arithmetic::div_mod::lemma_div_by_multiple(10, d);
        vstd::arithmetic::div_mod::lemma_div_by_multiple(40, d);
    }
}

/// Raw modified Bavarian formula, foreign to German.
///
/// `nmax` is the best achievable foreign grade, `nmin` the lowest passing
/// one, `nd` the achieved grade, all in thousandths. Returns the German grade
/// in tenths, truncated (never rounded up), or `None` for a degenerate scale
/// (`nmin == nmax`) or `nd` outside the passing interval between `nmin` and
/// `nmax` (the formula never extrapolates).
pub fn bavarian_to_de(nmax: i64, nmin: i64, nd: i64) -> (r: Option<i64>)
    ensures
        opt_int(r) == spec_bavarian_to_de(nmax as int, nmin as int, nd as int),
        r matches Some(t) ==> 10 <= t <= 40,
{
    if nmax == nmin {
        return None;
    }
    if !in_bounds(nmax, nmin, nd) {
        return None;
    }
    let den: i128 = nmax as i128 - nmin as i128;
    let num: i128 = den + 3 * (nmax as i128 - nd as i128);
    proof {
        lemma_de_tenths_range(nmax as int, nmin as int, nd as int);
    }
    // Numerator and denominator share their sign, so the quotient is
    // positive and dividing their magnitudes floors it.
    let tenths: i128 = if den > 0 {
        (10 * num) / den
    } else {
        (-(10 * num)) / (-den)
    };
    Some(tenths as i64)
}

/// The numerator of a valid inverse conversion lies between `3000 * Nmin`
/// and `3000 * Nmax`, so the hundredths lie between `Nmin / 10` and `Nmax / 10`
/// (each truncated toward zero).
proof fn lemma_foreign_numerator_range(nmax: int, nmin: int, x: int)
    requires
        1000 <= x <= 4000,
    ensures
        between(3000 * nmax, 3000 * nmin, foreign_numerator(nmax, nmin, x)),
        foreign_numerator(nmax, nmin, x) == (3000 - (x - 1000)) * nmax + (x - 1000) * nmin,
{
    let k = x - 1000;
    let f = foreign_numerator(nmax, nmin, x);
    assert(f == (3000 - k) * nmax + k * nmin) by (nonlinear_arith)
        requires
            k == x - 1000,
            f == nmax * 3000 - (x - 1000) * (nmax - nmin),
    ;
    if nmin <= nmax {
        assert(3000 * nmin <= (3000 - k) * nmax + k * nmin <= 3000 * nmax) by (nonlinear_arith)
            requires
                0 <= k <= 3000,
                nmin <= nmax,
        ;
    } else {
        assert(3000 * nmax <= (3000 - k) * nmax + k * nmin <= 3000 * nmin) by (nonlinear_arith)
            requires
                0 <= k <= 3000,
                nmax < nmin,
        ;
    }
}

/// Raw inverse Bavarian formula, German to foreign.
///
/// `x` is a German grade in thousandths within `[1000, 4000]` (that is
/// `[1.0, 4.0]`); `nmax`/`nmin` bound the foreign scale in thousandths as in
/// [`bavarian_to_de`]. Returns the foreign grade in hundredths, truncated
/// toward zero (never rounded), or `None` for a degenerate scale or `x`
/// outside the German passing interval.
pub fn bavarian_from_de(nmax: i64, nmin: i64, x: i64) -> (r: Option<i64>)
    ensures
        opt_int(r) == spec_bavarian_from_de(nmax as int, nmin as int, x as int),
{
    if nmax == nmin {
        return None;
    }
    if x < 1000 || x > 4000 {
        return None;
    }
    let delta: i128 = nmax as i128 - nmin as i128;
    let k: i128 = x as i128 - 1000;
    proof {
        assert(0 <= k * delta <= 3000 * delta || 3000 * delta <= k * delta <= 0) by (nonlinear_arith)
            requires
                0 <= k <= 3000,
        ;
        lemma_foreign_numerator_range(nmax as int, nmin as int, x as int);
    }
    let numerator: i128 = nmax as i128 * 3000 - k * delta;
    let hundredths: i128 = if numerator >= 0 {
        numerator / 30000
    } else {
        -((-numerator) / 30000)
    };
    proof {
        let n = numerator as int;
        assert(hundredths == trunc_div(n, 30000));
        lemma_trunc_div_monotone(3000 * (i64::MIN as int), n, 30000);
        lemma_trunc_div_monotone(n, 3000 * (i64::MAX as int), 30000);
        lemma_trunc_div_scaled(i64::MIN as int);
        lemma_trunc_div_scaled(i64::MAX as int);
        assert(3000 * (i64::MIN as int) == (i64::MIN as int) * 3000);
        assert(3000 * (i64::MAX as int) == (i64::MAX as int) * 3000);
    }
    Some(hundredths as i64)
}

/// The best foreign grade maps to German 1.0 and the lowest passing one to
/// German 4.0, on every non-degenerate scale.
pub proof fn lemma_to_de_endpoints(nmax: int, nmin: int)
    requires
        nmax != nmin,
    ensures
        spec_bavarian_to_de(nmax, nmin, nmax) == Some(10int),
        spec_bavarian_to_de(nmax, nmin, nmin) == Some(40int),
{
    let den = nmax - nmin;
    if den > 0 {
        vstd::arithmetic::div_mod::lemma_div_by_multiple(10, den);
        vstd::arithmetic::div_mod::lemma_div_by_multiple(40, den);
    } else {
        vstd::arithmetic::div_mod::lemma_div_by_multiple(10, -den);
        vstd::arithmetic::div_mod::lemma_div_by_multiple(40, -den);
    }
}

/// Truncation never rounds up: the German tenths `t` of a valid conversion
/// satisfy `t <= 10 * x < t + 1` for the exact German grade `x = num / den`.
pub proof fn lemma_to_de_truncates(nmax: int, nmin: int, nd: int)
    requires
        nmax != nmin,
        between(nmax, nmin, nd),
    ensures
        ({
            let den = nmax - nmin;
            let num = de_numerator(nmax, nmin, nd);
            let t = de_tenths(nmax, nmin, nd);
            if den > 0 {
                t * den <= 10 * num < (t + 1) * den
            } else {
                t * (-den) <= -10 * num < (t + 1) * (-den)
            }
        }),
{
    let den = nmax - nmin;
    let num = de_numerator(nmax, nmin, nd);
    if den > 0 {
        vstd::arithmetic::div_mod::lemma_fundamental_div_mod(10 * num, den);
        vstd::arithmetic::div_mod::lemma_mod_bound(10 * num, den);
        let t = (10 * num) / den;
        assert(t * den == den * t) by (nonlinear_arith);
        assert((t + 1) * den == den * t + den) by (nonlinear_arith);
    } else {
        vstd::arithmetic::div_mod::lemma_fundamental_div_mod(-10 * num, -den);
        vstd::arithmetic::div_mod::lemma_mod_bound(-10 * num, -den);
        let t = (-10 * num) / (-den);
        assert(t * (-den) == (-den) * t) by (nonlinear_arith);
        assert((t + 1) * (-den) == (-den) * t + (-den)) by (nonlinear_arith);
    }
}

/// A foreign grade at least as good as another (no farther from the best
/// grade) never maps to a worse German grade.
pub proof fn lemma_to_de_monotone(nmax: int, nmin: int, nd1: int, nd2: int)
    requires
        nmax != nmin,
        between(nmax, nmin, nd1),
        between(nmax, nmin, nd2),
        between(nmax, nd2, nd1),
    ensures
        de_tenths(nmax, nmin, nd1) <= de_tenths(nmax, nmin, nd2),
{
    let den = nmax - nmin;
    let n1 = 10 * de_numerator(nmax, nmin, nd1);
    let n2 = 10 * de_numerator(nmax, nmin, nd2);
    if den > 0 {
        assert(n1 <= n2);
        vstd::arithmetic::div_mod::lemma_div_is_ordered(n1, n2, den);
    } else {
        assert(-n1 <= -n2);
        vstd::arithmetic::div_mod::lemma_div_is_ordered(-n1, -n2, -den);
    }
}

/// Truncating division is monotone in the dividend.
proof fn lemma_trunc_div_monotone(a: int, b: int, d: int)
    requires
        a <= b,
        d > 0,
    ensures
        trunc_div(a, d) <= trunc_div(b, d),
{
    if a >= 0 {
        vstd::arithmetic::div_mod::lemma_div_is_ordered(a, b, d);
    } else if b >= 0 {
        vstd::arithmetic::div_mod::lemma_div_pos_is_pos(-a, d);
        vstd::arithmetic::div_mod::lemma_div_pos_is_pos(b, d);
    } else {
        vstd::arithmetic::div_mod::lemma_div_is_ordered(-b, -a, d);
    }
}

/// Scaling by 3000 before dividing by 30000 (truncating) is dividing by 10
/// (truncating).
proof fn lemma_trunc_div_scaled(n: int)
    ensures
        trunc_div(n * 3000, 30000) == trunc_div(n, 10),
{
    if n >= 0 {
        lemma_div_scaled(n);
    } else {
        lemma_div_scaled(-n);
        assert((-n) * 3000 == -(n * 3000));
    }
}

/// Scaling by 3000 before dividing by 30000 is dividing by 10.
proof fn lemma_div_scaled(n: int)
    ensures
        (n * 3000) / 30000 == n / 10,
{
    let q = n / 10;
    let r = n % 10;
    vstd::arithmetic::div_mod::lemma_fundamental_div_mod(n, 10);
    assert(n * 3000 == q * 30000 + r * 3000) by (nonlinear_arith)
        requires
            n == 10 * q + r,
    ;
    vstd::arithmetic::div_mod::lemma_fundamental_div_mod_converse(n * 3000, 30000, q, r * 3000);
}

/// German 1.0 maps back to the best foreign grade and German 4.0 to the
/// lowest passing one (each truncated toward zero to hundredths).
pub proof fn lemma_from_de_endpoints(nmax: int, nmin: int)
    requires
        nmax != nmin,
    ensures
        spec_bavarian_from_de(nmax, nmin, 1000) == Some(trunc_div(nmax, 10)),
        spec_bavarian_from_de(nmax, nmin, 4000) == Some(trunc_div(nmin, 10)),
{
    assert(foreign_numerator(nmax, nmin, 1000) == nmax * 3000);
    assert(foreign_numerator(nmax, nmin, 4000) == nmin * 3000) by (nonlinear_arith);
    lemma_trunc_div_scaled(nmax);
    lemma_trunc_div_scaled(nmin);
}

/// A better German grade never maps to a worse foreign grade: the result
/// moves from the best foreign grade towards the lowest passing one as `x`
/// grows from 1.0 to 4.0.
pub proof fn lemma_from_de_monotone(nmax: int, nmin: int, x1: int, x2: int)
    requires
        nmax != nmin,
        1000 <= x1 <= x2 <= 4000,
    ensures
        between(
            foreign_hundredths(nmax, nmin, x1),
            trunc_div(nmin, 10),
            foreign_hundredths(nmax, nmin, x2),
        ),
{
    let f1 = foreign_numerator(nmax, nmin, x1);
    let f2 = foreign_numerator(nmax, nmin, x2);
    lemma_foreign_numerator_range(nmax, nmin, x1);
    lemma_foreign_numerator_range(nmax, nmin, x2);
    let d = nmax - nmin;
    assert(f1 - f2 == (x2 - x1) * d) by (nonlinear_arith)
        requires
            f1 == nmax * 3000 - (x1 - 1000) * d,
            f2 == nmax * 3000 - (x2 - 1000) * d,
    ;
    lemma_trunc_div_scaled(nmin);
    assert(nmin * 3000 == 3000 * nmin) by (nonlinear_arith);
    if d > 0 {
        assert((x2 - x1) * d >= 0) by (nonlinear_arith)
            requires
                x2 >= x1,
                d > 0,
        ;
        assert(nmin * 3000 <= f2 <= f1);
        lemma_trunc_div_monotone(nmin * 3000, f2, 30000);
        lemma_trunc_div_monotone(f2, f1, 30000);
    } else {
        assert((x2 - x1) * d <= 0) by (nonlinear_arith)
            requires
                x2 >= x1,
                d < 0,
        ;
        assert(f1 <= f2 <= nmin * 3000);
        lemma_trunc_div_monotone(f1, f2, 30000);
        lemma_trunc_div_monotone(f2, nmin * 3000, 30000);
    }
}

/// Converting a passing grade to German and back is an approximation: the
/// German tenths lose less than a thirtieth of the passing span
/// `|Nmax - Nmin|` (moving the grade towards the best one), and the
/// truncation to hundredths loses less than one hundredth. With `h` the
/// hundredths that come back for the grade `nd` (thousandths):
/// on a higher-is-better scale `nd - 10 < 10 * h < nd + (Nmax - Nmin) / 30 + 10`,
/// on a lower-is-better scale `nd - (Nmin - Nmax) / 30 - 10 < 10 * h < nd + 10`.
pub proof fn lemma_round_trip(nmax: int, nmin: int, nd: int)
    requires
        nmax != nmin,
        between(nmax, nmin, nd),
    ensures
        ({
            let h = foreign_hundredths(nmax, nmin, 100 * de_tenths(nmax, nmin, nd));
            if nmax > nmin {
                nd - 10 < 10 * h && 300 * h < 30 * nd + (nmax - nmin) + 300
            } else {
                10 * h < nd + 10 && 300 * h > 30 * nd - (nmin - nmax) - 300
            }
        }),
{
    let den = nmax - nmin;
    let num = de_numerator(nmax, nmin, nd);
    let t = de_tenths(nmax, nmin, nd);
    lemma_to_de_truncates(nmax, nmin, nd);
    let f = foreign_numerator(nmax, nmin, 100 * t);
    assert(f == 3000 * nmax - 100 * (t * den) + 1000 * den) by (nonlinear_arith)
        requires
            f == nmax * 3000 - (100 * t - 1000) * (nmax - nmin),
            den == nmax - nmin,
    ;
    lemma_trunc_div_close(f, 30000);
    if den > 0 {
        assert((t + 1) * den == t * den + den) by (nonlinear_arith);
        assert(3000 * nd <= f < 3000 * nd + 100 * den);
    } else {
        let d = -den;
        assert(t * d == -(t * den)) by (nonlinear_arith)
            requires
                d == -den,
        ;
        assert((t + 1) * d == t * d + d) by (nonlinear_arith);
        assert(3000 * nd - 100 * d < f <= 3000 * nd);
    }
}

/// The foreign-to-German formula is exact and truncates: for a passing
/// grade `nd` it gives the tenths `t` with `t <= 10 * x < t + 1`, where
/// `x = 1 + 3 * (Nmax - Nd) / (Nmax - Nmin)` is the exact German grade
/// (written with the denominator cleared, in either orientation).
pub proof fn lemma_to_de_exact(nmax: int, nmin: int, nd: int)
    requires
        nmax != nmin,
        (nmin <= nd <= nmax) || (nmax <= nd <= nmin),
    ensures
        spec_bavarian_to_de(nmax, nmin, nd) matches Some(t) && if nmax > nmin {
            t * (nmax - nmin) <= 10 * ((nmax - nmin) + 3 * (nmax - nd)) < (t + 1) * (nmax - nmin)
        } else {
            t * (nmin - nmax) <= 10 * ((nmin - nmax) + 3 * (nd - nmax)) < (t + 1) * (nmin - nmax)
        },
{
    lemma_to_de_truncates(nmax, nmin, nd);
}

/// The German-to-foreign formula is exact at every thousandth of the German
/// grade `x` and truncates toward zero: with
/// `e = 3000 * Nmax - (x - 1000) * (Nmax - Nmin)`, which is 30000 times the
/// exact foreign grade `Nmax - (x - 1) / 3 * (Nmax - Nmin)` in hundredths, the
/// hundredths `h` satisfy `30000 * h <= e < 30000 * (h + 1)` for `e >= 0` and
/// `30000 * (h - 1) < e <= 30000 * h` for `e < 0`.
pub proof fn lemma_from_de_exact(nmax: int, nmin: int, x: int)
    requires
        nmax != nmin,
        1000 <= x <= 4000,
    ensures
        spec_bavarian_from_de(nmax, nmin, x) matches Some(h) && ({
            let e = 3000 * nmax - (x - 1000) * (nmax - nmin);
            if e >= 0 {
                30000 * h <= e < 30000 * h + 30000
            } else {
                30000 * h - 30000 < e <= 30000 * h
            }
        }),
{
    let e = foreign_numerator(nmax, nmin, x);
    assert(e == 3000 * nmax - (x - 1000) * (nmax - nmin));
    if e >= 0 {
        vstd::arithmetic::div_mod::lemma_fundamental_div_mod(e, 30000);
        vstd::arithmetic::div_mod::lemma_mod_bound(e, 30000);
    } else {
        vstd::arithmetic::div_mod::lemma_fundamental_div_mod(-e, 30000);
        vstd::arithmetic::div_mod::lemma_mod_bound(-e, 30000);
    }
}

/// Every thousandth of the German grade counts: on a higher-is-better scale
/// with non-negative grades, German grades `x1 < x2` whose exact foreign
/// grades lie at least a hundredth apart (`(x2 - x1) * (Nmax - Nmin) >= 30000`)
/// give a strictly larger result for `x1` than for `x2`.
pub proof fn lemma_from_de_strictly_monotone(nmax: int, nmin: int, x1: int, x2: int)
    requires
        nmax > nmin >= 0,
        1000 <= x1 < x2 <= 4000,
        (x2 - x1) * (nmax - nmin) >= 30000,
    ensures
        spec_bavarian_from_de(nmax, nmin, x1) matches Some(h1) && spec_bavarian_from_de(
            nmax,
            nmin,
            x2,
        ) matches Some(h2) && h2 < h1,
{
    lemma_from_de_exact(nmax, nmin, x1);
    lemma_from_de_exact(nmax, nmin, x2);
    lemma_foreign_numerator_range(nmax, nmin, x2);
    assert(3000 * nmin >= 0) by (nonlinear_arith)
        requires
            nmin >= 0,
    ;
    let d = nmax - nmin;
    let e1 = 3000 * nmax - (x1 - 1000) * d;
    let e2 = 3000 * nmax - (x2 - 1000) * d;
    assert(e1 - e2 == (x2 - x1) * d) by (nonlinear_arith)
        requires
            e1 == 3000 * nmax - (x1 - 1000) * d,
            e2 == 3000 * nmax - (x2 - 1000) * d,
    ;
}

/// Truncating division loses less than one unit: `a - d < d * trunc(a / d) < a + d`.
proof fn lemma_trunc_div_close(a: int, d: int)
    requires
        d > 0,
    ensures
        a - d < d * trunc_div(a, d) < a + d,
{
    if a >= 0 {
        vstd::arithmetic::div_mod::lemma_fundamental_div_mod(a, d);
        vstd::arithmetic::div_mod::lemma_mod_bound(a, d);
    } else {
        vstd::arithmetic::div_mod::lemma_fundamental_div_mod(-a, d);
        vstd::arithmetic::div_mod::lemma_mod_bound(-a, d);
        assert(d * (-((-a) / d)) == -(d * ((-a) / d))) by (nonlinear_arith);
    }
}

} // verus!
