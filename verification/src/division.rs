//! Long division of a double magnitude by a magnitude: Knuth's Algorithm D
//! (The Art of Computer Programming, volume 2, 4.3.1) on normalized operands.

use vstd::prelude::*;
use vstd::arithmetic::power2::pow2;
use crate::units::{
    NumberUnit, PrimNumber, base, base_pow, mag_value, weight_of, weight, lemma_base,
    lemma_base_pow, lemma_base_pow_adds, lemma_base_pow_monotonic, lemma_unit_bound,
    lemma_mag_value_bound, lemma_weight,
};
use crate::magnitude::{
    lemma_take_step, lemma_set_unit_value, lemma_high_zero, lemma_zero_above, multiply_by_unit,
    divide_by_unit,
};
use crate::wide::{Wide, length_fits};

verus! {

/// Represents a division result as an integral part and remainder.
pub enum DivProduct<U: NumberUnit, const N: usize> {
    /// The quotient does not fit the double magnitude's use: the dividend has
    /// more than `N` significant units more than the divisor.
    Infinity,
    Normal { quot: Wide<U, N>, rem: [U; N] },
}

/// The power of two by which a divisor with the highest unit `v_hi` is
/// multiplied so that the highest bit of that unit is set.
pub fn normalization_factor<U: NumberUnit>(v_hi: U) -> (f: U)
    requires
        v_hi.to_nat() != 0,
    ensures
        exists|s: nat| f.to_nat() == pow2(s),
        f.to_nat() >= 1,
        (v_hi.to_nat() + 1) * f.to_nat() <= base::<U>(),
        2 * v_hi.to_nat() * f.to_nat() >= base::<U>(),
{
    let radix: u128 = U::radix();
    let vh: u128 = v_hi.widen();
    let mut f: u128 = 1;
    let mut g: u128 = radix;
    let ghost mut k: nat = U::bit_width();
    let ghost mut s: nat = 0;
    proof {
        lemma_base::<U>();
        lemma_unit_bound(v_hi);
        vstd::arithmetic::power2::lemma2_to64();
    }
    while vh < g / 2
        invariant
            radix == base::<U>(),
            256 <= radix <= 0x1_0000_0000_0000_0000,
            vh == v_hi.to_nat(),
            1 <= vh < g,
            f >= 1,
            f * g == radix,
            g == pow2(k),
            f == pow2(s),
        decreases g,
    {
        proof {
            assert(k >= 1) by {
                if k == 0 {
                    vstd::arithmetic::power2::lemma2_to64();
                }
            }
            vstd::arithmetic::power2::lemma_pow2_unfold(k);
            vstd::arithmetic::power2::lemma_pow2_unfold(s + 1);
            k = (k - 1) as nat;
            s = s + 1;
            assert(f * 2 * (g / 2) == f * g) by (nonlinear_arith)
                requires
                    g == 2 * (g / 2),
            ;
            assert(f * 2 <= radix) by (nonlinear_arith)
                requires
                    f * 2 * (g / 2) == radix,
                    g / 2 >= 1,
                    f >= 1,
            ;
        }
        g = g / 2;
        f = f * 2;
    }
    proof {
        assert(g >= 2);
        assert(k >= 1) by {
            if k == 0 {
                vstd::arithmetic::power2::lemma2_to64();
            }
        }
        vstd::arithmetic::power2::lemma_pow2_unfold(k);
        assert(f < radix) by (nonlinear_arith)
            requires
                f * g == radix,
                g >= 2,
                f >= 1,
        ;
        vstd::arithmetic::div_mod::lemma_small_mod(f as nat, base::<U>());
        assert((vh + 1) * f <= radix) by (nonlinear_arith)
            requires
                f * g == radix,
                vh < g,
                f >= 1,
        ;
        assert(2 * vh * f >= radix) by (nonlinear_arith)
            requires
                f * g == radix,
                vh >= g / 2,
                g == 2 * (g / 2),
                f >= 1,
                vh >= 1,
        ;
    }
    U::narrow(f)
}

/// The estimate of a quotient digit from the three highest units of the
/// dividend's window and the two highest units of the divisor: the quotient
/// of the two, if it is a digit, and the highest digit else.
pub open spec fn digit_estimate(b: int, u2: int, u1: int, u0: int, v1: int, v0: int) -> int {
    let q = (u2 * b * b + u1 * b + u0) / (v1 * b + v0);
    if q < b {
        q
    } else {
        b - 1
    }
}

/// Estimates a quotient digit from the two highest units of the window and
/// the highest unit of the divisor, and corrects the estimate downwards by
/// the unit below each of them.
pub fn estimate_digit(radix: u128, u2: u128, u1: u128, u0: u128, v1: u128, v0: u128) -> (q: u128)
    requires
        2 <= radix <= 0x1_0000_0000_0000_0000,
        u2 < radix,
        u1 < radix,
        u0 < radix,
        1 <= v1 < radix,
        v0 < radix,
        u2 * radix + u1 < (v1 + 1) * radix,
    ensures
        q == digit_estimate(radix as int, u2 as int, u1 as int, u0 as int, v1 as int, v0 as int),
        q < radix,
{
    let ghost b = radix as int;
    let ghost vv = v1 * b + v0;
    let ghost u3 = u2 * b * b + u1 * b + u0;
    let ghost est = digit_estimate(b, u2 as int, u1 as int, u0 as int, v1 as int, v0 as int);
    assert(u2 * radix + u1 < radix * radix && radix * radix
        <= 0x1_0000_0000_0000_0000_0000_0000_0000_0000) by (nonlinear_arith)
        requires
            u2 < radix,
            u1 < radix,
            radix <= 0x1_0000_0000_0000_0000,
    ;
    let uu: u128 = u2 * radix + u1;
    let mut q: u128 = uu / v1;
    let mut r: u128 = uu % v1;
    proof {
        assert(vv >= 1 && u3 >= 0) by (nonlinear_arith)
            requires
                vv == v1 * b + v0,
                u3 == u2 * b * b + u1 * b + u0,
                v1 >= 1,
                b >= 2,
                v0 >= 0,
                u2 >= 0,
                u1 >= 0,
                u0 >= 0,
        ;
        vstd::arithmetic::div_mod::lemma_fundamental_div_mod(uu as int, v1 as int);
        vstd::arithmetic::div_mod::lemma_fundamental_div_mod(u3, vv);
        vstd::arithmetic::div_mod::lemma_mod_bound(u3, vv);
        let qt = u3 / vv;
        let rt = u3 % vv;
        assert(qt >= 0) by (nonlinear_arith)
            requires
                u3 == vv * qt + rt,
                rt < vv,
                u3 >= 0,
                vv >= 1,
        ;
        assert(u3 == uu * b + u0) by (nonlinear_arith)
            requires
                u3 == u2 * b * b + u1 * b + u0,
                uu == u2 * b + u1,
        ;
        // the first estimate is not below the quotient of the three by the two
        assert(qt <= q) by (nonlinear_arith)
            requires
                u3 == vv * qt + rt,
                0 <= rt,
                vv == v1 * b + v0,
                u3 == uu * b + u0,
                uu == v1 * q + r,
                0 <= r < v1,
                0 <= u0 < b,
                0 <= v0,
                qt >= 0,
                b >= 2,
                v1 >= 1,
        ;
        assert(q * v1 + r == uu) by (nonlinear_arith)
            requires
                uu == v1 * q + r,
        ;
    }
    let mut more: bool = if q >= radix {
        true
    } else {
        assert(q * v0 < radix * radix && radix * r + u0 < radix * radix) by (nonlinear_arith)
            requires
                q < radix,
                v0 < radix,
                r < radix,
                u0 < radix,
        ;
        q * v0 > radix * r + u0
    };
    while more
        invariant
            b == radix,
            2 <= radix <= 0x1_0000_0000_0000_0000,
            radix * radix <= 0x1_0000_0000_0000_0000_0000_0000_0000_0000,
            u2 < radix,
            u1 < radix,
            u0 < radix,
            1 <= v1 < radix,
            v0 < radix,
            uu == u2 * radix + u1,
            uu < (v1 + 1) * radix,
            vv == v1 * b + v0,
            u3 == uu * b + u0,
            vv >= 1,
            u3 >= 0,
            est == if u3 / vv < b { u3 / vv } else { b - 1 },
            q * v1 + r == uu,
            est <= q,
            more ==> r < radix && (q >= radix || q * v0 > radix * r + u0),
            !more ==> q < radix && q * v0 <= radix * r + u0,
        decreases q,
    {
        proof {
            let qt = u3 / vv;
            let rt = u3 % vv;
            vstd::arithmetic::div_mod::lemma_fundamental_div_mod(u3, vv);
            vstd::arithmetic::div_mod::lemma_mod_bound(u3, vv);
            // the estimate is above the quotient or above the highest digit
            if q < b {
                assert(qt < q) by (nonlinear_arith)
                    requires
                        u3 == vv * qt + rt,
                        0 <= rt < vv,
                        vv == v1 * b + v0,
                        u3 == uu * b + u0,
                        q * v1 + r == uu,
                        q * v0 > b * r + u0,
                ;
            }
            assert(est < q);
            assert(q >= 1);
            assert((q - 1) * v1 + (r + v1) == uu) by (nonlinear_arith)
                requires
                    q * v1 + r == uu,
            ;
        }
        q = q - 1;
        r = r + v1;
        if r < radix {
            if q >= radix {
                more = true;
            } else {
                assert(q * v0 < radix * radix && radix * r + u0 < radix * radix)
                    by (nonlinear_arith)
                    requires
                        q < radix,
                        v0 < radix,
                        r < radix,
                        u0 < radix,
                ;
                more = q * v0 > radix * r + u0;
            }
        } else {
            more = false;
            proof {
                assert(q < b) by (nonlinear_arith)
                    requires
                        q * v1 + r == uu,
                        uu < (v1 + 1) * b,
                        r >= b,
                        v1 >= 1,
                        q >= 0,
                ;
                assert(q * v0 <= b * r + u0) by (nonlinear_arith)
                    requires
                        q < b,
                        r >= b,
                        0 <= v0 < b,
                        u0 >= 0,
                        q >= 0,
                ;
            }
        }
    }
    proof {
        let qt = u3 / vv;
        let rt = u3 % vv;
        vstd::arithmetic::div_mod::lemma_fundamental_div_mod(u3, vv);
        vstd::arithmetic::div_mod::lemma_mod_bound(u3, vv);
        // the estimate times the two units is not above the three units
        assert(q <= qt) by (nonlinear_arith)
            requires
                u3 == vv * qt + rt,
                0 <= rt < vv,
                vv == v1 * b + v0,
                u3 == uu * b + u0,
                q * v1 + r == uu,
                q * v0 <= b * r + u0,
                b >= 2,
        ;
    }
    q
}

/// The estimate of a quotient digit is the digit or one more.
///
/// `uo` is the rest of the dividend and `y` the divisor at the place of the
/// digit; `p` is the place of the lowest of the three units of the dividend
/// that the estimate looks at, and of the lower of the two of the divisor.
pub proof fn lemma_estimate_bounds(
    b: int,
    p: int,
    uo: int,
    y: int,
    u2: int,
    u1: int,
    u0: int,
    v1: int,
    v0: int,
    ru: int,
    ry: int,
)
    requires
        b >= 2,
        p > 0,
        0 <= u2 < b,
        0 <= u1 < b,
        0 <= u0 < b,
        1 <= v1 < b,
        0 <= v0 < b,
        0 <= ru < p,
        0 <= ry < p,
        uo == (u2 * b * b + u1 * b + u0) * p + ru,
        y == (v1 * b + v0) * p + ry,
        uo < y * b,
    ensures
        y > 0,
        u2 * b + u1 < (v1 + 1) * b,
        uo / y <= digit_estimate(b, u2, u1, u0, v1, v0) <= uo / y + 1,
        0 <= uo / y < b,
{
    let u3 = u2 * b * b + u1 * b + u0;
    let uu = u2 * b + u1;
    let vv = v1 * b + v0;
    let est = digit_estimate(b, u2, u1, u0, v1, v0);
    assert(vv >= b && u3 >= 0 && u3 == uu * b + u0) by (nonlinear_arith)
        requires
            vv == v1 * b + v0,
            u3 == u2 * b * b + u1 * b + u0,
            uu == u2 * b + u1,
            v1 >= 1,
            b >= 2,
            v0 >= 0,
            u2 >= 0,
            u1 >= 0,
            u0 >= 0,
    ;
    assert(y >= vv * p && vv * p >= p) by (nonlinear_arith)
        requires
            y == vv * p + ry,
            ry >= 0,
            vv >= 1,
            p > 0,
    ;
    assert(uo >= 0) by (nonlinear_arith)
        requires
            uo == u3 * p + ru,
            u3 >= 0,
            p > 0,
            ru >= 0,
    ;
    vstd::arithmetic::div_mod::lemma_fundamental_div_mod(uo, y);
    vstd::arithmetic::div_mod::lemma_mod_bound(uo, y);
    vstd::arithmetic::div_mod::lemma_fundamental_div_mod(u3, vv);
    vstd::arithmetic::div_mod::lemma_mod_bound(u3, vv);
    let qt = uo / y;
    let rt = uo % y;
    let q3 = u3 / vv;
    let r3 = u3 % vv;
    assert(0 <= qt < b) by (nonlinear_arith)
        requires
            uo == y * qt + rt,
            0 <= rt < y,
            uo < y * b,
            uo >= 0,
            y > 0,
    ;
    // the digit times the two units is not above the three units
    assert(qt * vv <= u3) by (nonlinear_arith)
        requires
            uo == y * qt + rt,
            0 <= rt,
            y >= vv * p,
            uo == u3 * p + ru,
            ru < p,
            qt >= 0,
            p > 0,
    ;
    assert(qt <= q3) by (nonlinear_arith)
        requires
            qt * vv <= u3,
            u3 == vv * q3 + r3,
            0 <= r3 < vv,
    ;
    assert(q3 >= 0);
    assert(est * vv <= u3 && 0 <= est) by (nonlinear_arith)
        requires
            0 <= est <= q3,
            u3 == vv * q3 + r3,
            0 <= r3,
            vv >= 1,
    ;
    // one less than the estimate, times the divisor, is not above the dividend
    assert((est - 1) * y <= uo) by (nonlinear_arith)
        requires
            est * vv <= u3,
            0 <= est < b,
            y == vv * p + ry,
            0 <= ry < p,
            uo == u3 * p + ru,
            ru >= 0,
            vv >= b,
            p > 0,
            uo >= 0,
    ;
    assert(est - 1 <= qt) by (nonlinear_arith)
        requires
            (est - 1) * y <= uo,
            uo == y * qt + rt,
            0 <= rt < y,
    ;
    assert(uu < (v1 + 1) * b) by (nonlinear_arith)
        requires
            uo == u3 * p + ru,
            u3 == uu * b + u0,
            uo < y * b,
            y == vv * p + ry,
            ry < p,
            vv == v1 * b + v0,
            v0 < b,
            u0 >= 0,
            ru >= 0,
            p > 0,
            b >= 2,
    ;
}

/// One step of the subtraction of `q` times the divisor: the unit `ud` of
/// the dividend becomes `nd`, the carry `c` of the product becomes `c2`, and
/// the borrow `bo` becomes `bo2`.
proof fn lemma_mul_sub_step(
    val_prev: int,
    val_new: int,
    uo: int,
    q: int,
    vt: int,
    vi: int,
    pj: int,
    pi: int,
    pij: int,
    b: int,
    ud: int,
    nd: int,
    c: int,
    bo: int,
    c2: int,
    bo2: int,
    plo: int,
    t: int,
)
    requires
        val_new + ud * pij == val_prev + nd * pij,
        val_prev + q * vt * pj == uo + (c + bo) * pij,
        pij == pi * pj,
        q * vi + c == c2 * b + plo,
        t == ud + b - plo - bo,
        t == (1 - bo2) * b + nd,
    ensures
        val_new + q * (vt + vi * pi) * pj == uo + (c2 + bo2) * (pij * b),
{
    assert(q * (vt + vi * pi) * pj == q * vt * pj + (q * vi) * pij) by (nonlinear_arith)
        requires
            pij == pi * pj,
    ;
    assert((c2 + bo2) * (pij * b) == (c2 * b) * pij + (bo2 * b) * pij) by (nonlinear_arith);
    assert((1 - bo2) * b == b - bo2 * b) by (nonlinear_arith);
    let qv = q * vi;
    let c2b = c2 * b;
    let bo2b = bo2 * b;
    assert(nd - ud == bo2b - plo - bo);
    assert(qv == c2b + plo - c);
    assert((nd - ud) * pij == nd * pij - ud * pij) by (nonlinear_arith);
    assert((c + bo + (nd - ud) + qv) * pij == (c + bo) * pij + (nd - ud) * pij + qv * pij)
        by (nonlinear_arith);
    assert(c + bo + (nd - ud) + qv == c2b + bo2b);
    assert((c2b + bo2b) * pij == c2b * pij + bo2b * pij) by (nonlinear_arith);
}

/// Subtracts `q` times the divisor `v`, at the place of index `j`, from the
/// dividend `u`, over the `n` units of the divisor and the one above them.
/// Returns whether the subtraction borrowed past that unit.
fn mul_sub<U: NumberUnit, const N: usize>(
    u: &mut Wide<U, N>,
    v: &[U; N],
    n: usize,
    j: usize,
    q: u128,
) -> (negative: bool)
    requires
        length_fits(N as nat),
        1 <= n <= N,
        j + n <= 2 * N,
        q < base::<U>(),
        forall|k: int| j + n < k < 2 * N + 1 ==> (#[trigger] old(u)@[k]).to_nat() == 0,
        forall|k: int| n <= k < N ==> (#[trigger] v@[k]).to_nat() == 0,
        -base_pow::<U>((j + n) as nat) < mag_value(old(u)@) - q * mag_value(v@) * base_pow::<U>(
            j as nat,
        ) < base_pow::<U>((j + n) as nat),
    ensures
        forall|k: int| j + n <= k < 2 * N + 1 ==> (#[trigger] final(u)@[k]).to_nat() == 0,
        mag_value(final(u)@) == mag_value(old(u)@) - q * mag_value(v@) * base_pow::<U>(j as nat) + (
        if negative {
            base_pow::<U>((j + n) as nat) as int
        } else {
            0
        }),
{
    let ghost orig = u@;
    let radix: u128 = U::radix();
    let mut c: u128 = 0;
    let mut bo: u128 = 0;
    let mut i: usize = 0;
    proof {
        lemma_base::<U>();
        lemma_base_pow::<U>(j as nat);
        assert(v@.take(0) =~= Seq::<U>::empty());
        assert(mag_value(Seq::<U>::empty()) == 0);
        assert(q * 0 * base_pow::<U>(j as nat) == 0) by (nonlinear_arith);
        assert((0 + 0) * base_pow::<U>((j + 0) as nat) == 0) by (nonlinear_arith);
    }
    while i < n
        invariant
            i <= n,
            1 <= n <= N,
            j + n <= 2 * N,
            length_fits(N as nat),
            radix == base::<U>(),
            256 <= radix <= 0x1_0000_0000_0000_0000,
            q < radix,
            c < radix,
            bo <= 1,
            orig.len() == 2 * N + 1,
            u@.len() == 2 * N + 1,
            forall|k: int| j + i <= k < 2 * N + 1 ==> u@[k] == orig[k],
            mag_value(u@) + q * mag_value(v@.take(i as int)) * base_pow::<U>(j as nat) == mag_value(
                orig,
            ) + (c + bo) * base_pow::<U>((j + i) as nat),
        decreases n - i,
    {
        proof {
            lemma_unit_bound(v@[i as int]);
            lemma_unit_bound(u@[(i + j) as int]);
        }
        let vi: u128 = v[i].widen();
        assert(q * vi + c < radix * radix && q * vi < radix * radix && radix * radix
            <= 0x1_0000_0000_0000_0000_0000_0000_0000_0000) by (nonlinear_arith)
            requires
                q < radix,
                vi < radix,
                c < radix,
                radix <= 0x1_0000_0000_0000_0000,
        ;
        let p: u128 = q * vi + c;
        let plo: u128 = p % radix;
        let c2: u128 = p / radix;
        let ud: u128 = u.get(i + j).widen();
        let t: u128 = ud + radix - plo - bo;
        let nd: U = U::narrow(t % radix);
        proof {
            vstd::arithmetic::div_mod::lemma_fundamental_div_mod(t as int, radix as int);
            let tq = (t / radix) as int;
            assert(tq <= 1) by (nonlinear_arith)
                requires
                    t == radix * tq + (t % radix),
                    t < 2 * radix,
                    t % radix >= 0,
                    radix > 0,
            ;
        }
        let bo2: u128 = 1 - t / radix;
        let ghost prev = u@;
        u.set(i + j, nd);
        proof {
            vstd::arithmetic::div_mod::lemma_fundamental_div_mod(p as int, radix as int);
            vstd::arithmetic::div_mod::lemma_fundamental_div_mod(t as int, radix as int);
            vstd::arithmetic::div_mod::lemma_small_mod((t % radix) as nat, base::<U>());
            let tq = (t / radix) as int;
            assert(tq <= 1) by (nonlinear_arith)
                requires
                    t == radix * tq + (t % radix),
                    t < 2 * radix,
                    t % radix >= 0,
                    radix > 0,
            ;
            assert(c2 < radix) by (nonlinear_arith)
                requires
                    p == radix * c2 + plo,
                    p < radix * radix,
                    plo >= 0,
                    radix > 0,
            ;
            lemma_set_unit_value(prev, (i + j) as int, nd);
            lemma_take_step(v@, i as int);
            lemma_base_pow_adds::<U>(i as nat, j as nat);
            lemma_base_pow::<U>((j + i) as nat);
            assert(radix * c2 == c2 * radix) by (nonlinear_arith);
            assert(radix * tq == (1 - bo2) * radix) by (nonlinear_arith)
                requires
                    bo2 == 1 - tq,
            ;
            lemma_mul_sub_step(
                mag_value(prev) as int,
                mag_value(u@) as int,
                mag_value(orig) as int,
                q as int,
                mag_value(v@.take(i as int)) as int,
                vi as int,
                base_pow::<U>(j as nat) as int,
                base_pow::<U>(i as nat) as int,
                base_pow::<U>((j + i) as nat) as int,
                radix as int,
                ud as int,
                nd.to_nat() as int,
                c as int,
                bo as int,
                c2 as int,
                bo2 as int,
                plo as int,
                t as int,
            );
        }
        c = c2;
        bo = bo2;
        i += 1;
    }
    let utop: u128 = u.get(j + n).widen();
    let negative: bool = c + bo > utop;
    let ghost prev = u@;
    let z = U::zero();
    u.set(j + n, z);
    proof {
        lemma_zero_above(v@, n as int);
        lemma_set_unit_value(prev, (j + n) as int, z);
        let qn = base_pow::<U>((j + n) as nat) as int;
        lemma_base_pow::<U>((j + n) as nat);
        assert forall|k: int| j + n <= k < 2 * N + 1 implies (#[trigger] u@[k]).to_nat() == 0 by {
            if k > j + n {
                assert(prev[k] == orig[k]);
            }
        }
        lemma_zero_above(u@, (j + n) as int);
        let x = mag_value(orig) - q * mag_value(v@) * base_pow::<U>(j as nat);
        let e = c + bo - utop;
        assert(0 * qn == 0);
        assert(mag_value(u@) == x + e * qn) by (nonlinear_arith)
            requires
                mag_value(u@) + utop * qn == mag_value(prev) + 0 * qn,
                mag_value(prev) + q * mag_value(v@) * base_pow::<U>(j as nat) == mag_value(orig) + (
                c + bo) * qn,
                x == mag_value(orig) - q * mag_value(v@) * base_pow::<U>(j as nat),
                e == c + bo - utop,
        ;
        assert(e == 0 || e == 1) by (nonlinear_arith)
            requires
                0 <= x + e * qn < qn,
                -qn < x < qn,
        ;
        if e == 1 {
            assert(1 * qn == qn);
        }
    }
    negative
}

/// Adds the divisor `v`, at the place of index `j`, back to the dividend `u`
/// over the `n` units of the divisor; the carry out of them is dropped.
fn add_back<U: NumberUnit, const N: usize>(u: &mut Wide<U, N>, v: &[U; N], n: usize, j: usize)
    requires
        length_fits(N as nat),
        1 <= n <= N,
        j + n <= 2 * N,
        forall|k: int| j + n <= k < 2 * N + 1 ==> (#[trigger] old(u)@[k]).to_nat() == 0,
        forall|k: int| n <= k < N ==> (#[trigger] v@[k]).to_nat() == 0,
        mag_value(old(u)@) + mag_value(v@) * base_pow::<U>(j as nat) >= base_pow::<U>(
            (j + n) as nat,
        ),
    ensures
        forall|k: int| j + n <= k < 2 * N + 1 ==> (#[trigger] final(u)@[k]).to_nat() == 0,
        mag_value(final(u)@) == mag_value(old(u)@) + mag_value(v@) * base_pow::<U>(j as nat)
            - base_pow::<U>((j + n) as nat),
{
    let ghost orig = u@;
    let radix: u128 = U::radix();
    let mut k: u128 = 0;
    let mut i: usize = 0;
    proof {
        lemma_base::<U>();
        assert(v@.take(0) =~= Seq::<U>::empty());
        assert(mag_value(Seq::<U>::empty()) == 0);
        assert(0 * base_pow::<U>(j as nat) == 0) by (nonlinear_arith);
        assert(0 * base_pow::<U>((j + 0) as nat) == 0) by (nonlinear_arith);
    }
    while i < n
        invariant
            i <= n,
            1 <= n <= N,
            j + n <= 2 * N,
            length_fits(N as nat),
            radix == base::<U>(),
            256 <= radix <= 0x1_0000_0000_0000_0000,
            k <= 1,
            orig.len() == 2 * N + 1,
            u@.len() == 2 * N + 1,
            forall|x: int| j + n <= x < 2 * N + 1 ==> (#[trigger] u@[x]).to_nat() == 0,
            mag_value(u@) + k * base_pow::<U>((j + i) as nat) == mag_value(orig) + mag_value(
                v@.take(i as int),
            ) * base_pow::<U>(j as nat),
        decreases n - i,
    {
        proof {
            lemma_unit_bound(v@[i as int]);
            lemma_unit_bound(u@[(i + j) as int]);
        }
        let vi: u128 = v[i].widen();
        let ud: u128 = u.get(i + j).widen();
        let t: u128 = ud + vi + k;
        let nd: U = U::narrow(t % radix);
        let k2: u128 = t / radix;
        let ghost prev = u@;
        u.set(i + j, nd);
        proof {
            vstd::arithmetic::div_mod::lemma_fundamental_div_mod(t as int, radix as int);
            vstd::arithmetic::div_mod::lemma_small_mod((t % radix) as nat, base::<U>());
            assert(k2 <= 1) by (nonlinear_arith)
                requires
                    t == radix * k2 + (t % radix),
                    t < 2 * radix,
                    t % radix >= 0,
                    radix > 0,
            ;
            lemma_set_unit_value(prev, (i + j) as int, nd);
            lemma_take_step(v@, i as int);
            lemma_base_pow_adds::<U>(i as nat, j as nat);
            lemma_base_pow::<U>((j + i) as nat);
            let pij = base_pow::<U>((j + i) as nat) as int;
            let pi = base_pow::<U>(i as nat) as int;
            let pj = base_pow::<U>(j as nat) as int;
            let vt = mag_value(v@.take(i as int)) as int;
            let ndn = nd.to_nat() as int;
            assert((vt + vi * pi) * pj == vt * pj + vi * pij) by (nonlinear_arith)
                requires
                    pij == pi * pj,
            ;
            assert(k2 * (pij * radix) + ndn * pij == ud * pij + vi * pij + k * pij)
                by (nonlinear_arith)
                requires
                    ud + vi + k == radix * k2 + ndn,
            ;
            assert forall|x: int| j + n <= x < 2 * N + 1 implies (#[trigger] u@[x]).to_nat()
                == 0 by {
                assert(u@[x] == prev[x]);
            }
        }
        k = k2;
        i += 1;
    }
    proof {
        lemma_zero_above(v@, n as int);
        lemma_zero_above(u@, (j + n) as int);
        let qn = base_pow::<U>((j + n) as nat) as int;
        assert(k == 1) by (nonlinear_arith)
            requires
                k <= 1,
                mag_value(u@) + k * qn == mag_value(orig) + mag_value(v@) * base_pow::<U>(j as nat),
                mag_value(u@) < qn,
                mag_value(orig) + mag_value(v@) * base_pow::<U>(j as nat) >= qn,
        ;
        assert(1 * qn == qn);
    }
}

/// The value of a magnitude with zeros above index `k + 2`, by its three
/// units from `k` on and the rest below them.
proof fn lemma_top_three<U: NumberUnit>(s: Seq<U>, k: int)
    requires
        0 <= k,
        k + 3 <= s.len(),
        forall|i: int| k + 3 <= i < s.len() ==> (#[trigger] s[i]).to_nat() == 0,
    ensures
        mag_value(s) == (s[k + 2].to_nat() * base::<U>() * base::<U>() + s[k + 1].to_nat()
            * base::<U>() + s[k].to_nat()) * base_pow::<U>(k as nat) + mag_value(s.take(k)),
        mag_value(s.take(k)) < base_pow::<U>(k as nat),
{
    lemma_zero_above(s, k + 3);
    lemma_take_step(s, k);
    lemma_take_step(s, k + 1);
    lemma_take_step(s, k + 2);
    lemma_base_pow::<U>(k as nat);
    lemma_base_pow::<U>((k + 1) as nat);
    lemma_mag_value_bound(s.take(k));
    let b = base::<U>() as int;
    let p = base_pow::<U>(k as nat) as int;
    let a0 = s[k].to_nat() as int;
    let a1 = s[k + 1].to_nat() as int;
    let a2 = s[k + 2].to_nat() as int;
    assert((a2 * b * b + a1 * b + a0) * p == a0 * p + a1 * (p * b) + a2 * ((p * b) * b))
        by (nonlinear_arith);
}

/// The value of a magnitude with zeros above index `k + 1`, by its two units
/// from `k` on and the rest below them.
proof fn lemma_top_two<U: NumberUnit>(s: Seq<U>, k: int)
    requires
        0 <= k,
        k + 2 <= s.len(),
        forall|i: int| k + 2 <= i < s.len() ==> (#[trigger] s[i]).to_nat() == 0,
    ensures
        mag_value(s) == (s[k + 1].to_nat() * base::<U>() + s[k].to_nat()) * base_pow::<U>(k as nat)
            + mag_value(s.take(k)),
        mag_value(s.take(k)) < base_pow::<U>(k as nat),
{
    lemma_zero_above(s, k + 2);
    lemma_take_step(s, k);
    lemma_take_step(s, k + 1);
    lemma_base_pow::<U>(k as nat);
    lemma_mag_value_bound(s.take(k));
    let b = base::<U>() as int;
    let p = base_pow::<U>(k as nat) as int;
    let a0 = s[k].to_nat() as int;
    let a1 = s[k + 1].to_nat() as int;
    assert((a1 * b + a0) * p == a0 * p + a1 * (p * b)) by (nonlinear_arith);
}

/// What the estimate of the quotient digit at index `j` is worth: the digit
/// or one more.
proof fn lemma_window_estimate<U: NumberUnit>(u: Seq<U>, v: Seq<U>, n: int, j: int)
    requires
        2 <= n <= v.len(),
        0 <= j,
        j + n < u.len(),
        v[n - 1].to_nat() >= 1,
        forall|i: int| n <= i < v.len() ==> (#[trigger] v[i]).to_nat() == 0,
        forall|i: int| j + n < i < u.len() ==> (#[trigger] u[i]).to_nat() == 0,
        mag_value(u) < mag_value(v) * base_pow::<U>((j + 1) as nat),
    ensures
        mag_value(v) * base_pow::<U>(j as nat) > 0,
        mag_value(v) * base_pow::<U>(j as nat) < base_pow::<U>((j + n) as nat),
        u[j + n].to_nat() * base::<U>() + u[j + n - 1].to_nat() < (v[n - 1].to_nat() + 1)
            * base::<U>(),
        0 <= mag_value(u) as int / (mag_value(v) * base_pow::<U>(j as nat)) as int,
        mag_value(u) as int / (mag_value(v) * base_pow::<U>(j as nat)) as int <= digit_estimate(
            base::<U>() as int,
            u[j + n].to_nat() as int,
            u[j + n - 1].to_nat() as int,
            u[j + n - 2].to_nat() as int,
            v[n - 1].to_nat() as int,
            v[n - 2].to_nat() as int,
        ) <= mag_value(u) as int / (mag_value(v) * base_pow::<U>(j as nat)) as int + 1,
{
    let b = base::<U>() as int;
    let pj = base_pow::<U>(j as nat) as int;
    let pn2 = base_pow::<U>((n - 2) as nat) as int;
    let p = base_pow::<U>((j + n - 2) as nat) as int;
    lemma_base::<U>();
    lemma_base_pow::<U>(j as nat);
    lemma_base_pow::<U>((n - 2) as nat);
    lemma_base_pow::<U>((j + n - 2) as nat);
    lemma_base_pow::<U>((j + n - 1) as nat);
    lemma_base_pow_adds::<U>((n - 2) as nat, j as nat);
    lemma_top_three(u, j + n - 2);
    lemma_top_two(v, n - 2);
    lemma_unit_bound(u[j + n]);
    lemma_unit_bound(u[j + n - 1]);
    lemma_unit_bound(u[j + n - 2]);
    lemma_unit_bound(v[n - 1]);
    lemma_unit_bound(v[n - 2]);
    let u2 = u[j + n].to_nat() as int;
    let u1 = u[j + n - 1].to_nat() as int;
    let u0 = u[j + n - 2].to_nat() as int;
    let v1 = v[n - 1].to_nat() as int;
    let v0 = v[n - 2].to_nat() as int;
    let ru = mag_value(u.take(j + n - 2)) as int;
    let rv = mag_value(v.take(n - 2)) as int;
    let uo = mag_value(u) as int;
    let vv = mag_value(v) as int;
    let y = vv * pj;
    let ry = rv * pj;
    assert(y == (v1 * b + v0) * p + ry && 0 <= ry < p) by (nonlinear_arith)
        requires
            vv == (v1 * b + v0) * pn2 + rv,
            y == vv * pj,
            ry == rv * pj,
            p == pn2 * pj,
            0 <= rv < pn2,
            pj > 0,
    ;
    assert(uo < y * b) by (nonlinear_arith)
        requires
            uo < vv * (pj * b),
            y == vv * pj,
    ;
    lemma_estimate_bounds(b, p, uo, y, u2, u1, u0, v1, v0, ru, ry);
    // the divisor at its place is below the radix to the power j + n
    assert(y < (p * b) * b) by (nonlinear_arith)
        requires
            y == (v1 * b + v0) * p + ry,
            ry < p,
            v1 < b,
            v0 < b,
            p > 0,
            b >= 2,
    ;
}

/// The dividends for which `divide` gives no quotient: the divisor has more
/// than one significant unit, and the dividend more than `N` more than it.
pub open spec fn quotient_too_long<U: NumberUnit>(dividend: Seq<U>, divisor: Seq<U>) -> bool {
    weight_of(divisor) >= 2 && weight_of(dividend) > weight_of(divisor) + divisor.len()
}

/// What `divide` returns: the quotient and the remainder of the two values,
/// or `Infinity` where the quotient is too long.
pub open spec fn divide_result<U: NumberUnit, const N: usize>(
    dividend: Seq<U>,
    divisor: Seq<U>,
    r: DivProduct<U, N>,
) -> bool {
    match r {
        DivProduct::Infinity => quotient_too_long(dividend, divisor),
        DivProduct::Normal { quot, rem } => {
            &&& !quotient_too_long(dividend, divisor)
            &&& mag_value(quot@) == mag_value(dividend) / mag_value(divisor)
            &&& mag_value(rem@) == mag_value(dividend) % mag_value(divisor)
        },
    }
}

/// A magnitude of length `N` with the unit `c` at index 0 and zeros above.
pub fn single_unit<U: NumberUnit, const N: usize>(c: U) -> (r: [U; N])
    requires
        N >= 1,
    ensures
        mag_value(r@) == c.to_nat(),
{
    let z = U::zero();
    let mut r: [U; N] = [z; N];
    r[0] = c;
    proof {
        lemma_zero_above(r@, 1);
        lemma_take_step(r@, 0);
        assert(r@.take(0) =~= Seq::<U>::empty());
        assert(mag_value(Seq::<U>::empty()) == 0);
        lemma_base_pow::<U>(0);
    }
    r
}

/// Divides the `dividend` magnitude by the `divisor` magnitude, which must
/// not be zero.
pub fn divide<U: NumberUnit, const N: usize>(dividend: &Wide<U, N>, divisor: &[U; N]) -> (r:
    DivProduct<U, N>)
    requires
        length_fits(N as nat),
        mag_value(divisor@) != 0,
    ensures
        divide_result(dividend@, divisor@, r),
{
    let n: usize = weight(divisor);
    let m: usize = dividend.weight();
    let ghost dd = mag_value(dividend@) as int;
    let ghost dv = mag_value(divisor@) as int;
    proof {
        lemma_base::<U>();
        lemma_weight(divisor@);
        lemma_weight(dividend@);
        crate::units::lemma_mag_value_zero(divisor@);
        crate::units::lemma_mag_value_zero(dividend@);
    }
    if m == 0 {
        proof {
            vstd::arithmetic::div_mod::lemma_small_mod(0, dv as nat);
            vstd::arithmetic::div_mod::lemma_basic_div(0, dv);
        }
        let z = U::zero();
        let rem: [U; N] = [z; N];
        proof {
            crate::units::lemma_mag_value_zero(rem@);
        }
        return DivProduct::Normal { quot: Wide::zero(), rem };
    }
    let v_hi: U = divisor[n - 1];
    if n == 1 {
        proof {
            lemma_take_step(divisor@, 0);
            assert(divisor@.take(0) =~= Seq::<U>::empty());
            assert(mag_value(Seq::<U>::empty()) == 0);
            lemma_base_pow::<U>(0);
            assert(v_hi.to_nat() * 1 == v_hi.to_nat());
            assert(dv == v_hi.to_nat());
        }
        let mut q: Wide<U, N> = *dividend;
        let c = q.divide_by_unit(v_hi);
        let rem: [U; N] = single_unit(c);
        return DivProduct::Normal { quot: q, rem };
    }
    let u_hi: U = dividend.get(m - 1);
    if m < n || (m == n && u_hi.widen() < v_hi.widen()) {
        proof {
            // the dividend is below the divisor
            let pn1 = base_pow::<U>((n - 1) as nat) as int;
            lemma_base_pow::<U>((n - 1) as nat);
            if m < n {
                lemma_base_pow_monotonic::<U>(m as nat, (n - 1) as nat);
            } else {
                lemma_take_step(dividend@, n - 1);
                lemma_take_step(divisor@, n - 1);
                lemma_mag_value_bound(dividend@.take(n - 1));
                let a = u_hi.to_nat() as int;
                let c = v_hi.to_nat() as int;
                assert(a * pn1 + pn1 <= c * pn1) by (nonlinear_arith)
                    requires
                        a < c,
                        pn1 > 0,
                ;
            }
            assert(dd < dv);
            vstd::arithmetic::div_mod::lemma_small_mod(dd as nat, dv as nat);
            vstd::arithmetic::div_mod::lemma_basic_div(dd, dv);
            lemma_base_pow_monotonic::<U>(n as nat, N as nat);
            lemma_high_zero(dividend@, N as int);
        }
        let rem: [U; N] = dividend.low();
        return DivProduct::Normal { quot: Wide::zero(), rem };
    }
    if m - n > N {
        return DivProduct::Infinity;
    }
    // Normalization

    let f: U = normalization_factor(v_hi);
    let mut u: Wide<U, N> = *dividend;
    let cu = u.multiply_by_unit(f);
    let mut v: [U; N] = *divisor;
    let cv = multiply_by_unit(&mut v, f);
    let ghost fi = f.to_nat() as int;
    let ghost vv = mag_value(v@) as int;
    let ghost total = dd * fi;
    proof {
        let b = base::<U>() as int;
        let pn1 = base_pow::<U>((n - 1) as nat) as int;
        let pn = base_pow::<U>(n as nat) as int;
        let pm = base_pow::<U>(m as nat) as int;
        let pm1 = base_pow::<U>((m + 1) as nat) as int;
        let pnn = base_pow::<U>(N as nat) as int;
        let pw = base_pow::<U>((2 * N + 1) as nat) as int;
        lemma_base_pow::<U>((n - 1) as nat);
        lemma_base_pow::<U>(m as nat);
        lemma_base_pow::<U>(N as nat);
        lemma_base_pow::<U>((2 * N + 1) as nat);
        lemma_base_pow_monotonic::<U>(n as nat, N as nat);
        lemma_base_pow_monotonic::<U>((m + 1) as nat, (2 * N + 1) as nat);
        lemma_take_step(divisor@, n - 1);
        lemma_mag_value_bound(divisor@.take(n - 1));
        lemma_unit_bound(f);
        let vh = v_hi.to_nat() as int;
        let low = mag_value(divisor@.take(n - 1)) as int;
        assert(dv * fi < pn) by (nonlinear_arith)
            requires
                dv == low + vh * pn1,
                0 <= low < pn1,
                (vh + 1) * fi <= b,
                pn == pn1 * b,
                fi >= 1,
        ;
        assert(dv * fi >= pn1) by (nonlinear_arith)
            requires
                dv >= pn1,
                fi >= 1,
                pn1 > 0,
        ;
        let cvn = cv.to_nat() as int;
        assert(cvn == 0) by (nonlinear_arith)
            requires
                vv + cvn * pnn == dv * fi,
                dv * fi < pn,
                pn <= pnn,
                pnn > 0,
                vv >= 0,
                cvn >= 0,
        ;
        assert(cv.to_nat() * pnn == 0) by (nonlinear_arith)
            requires
                cv.to_nat() == 0,
        ;
        assert(dd * fi < pm1) by (nonlinear_arith)
            requires
                0 <= dd < pm,
                1 <= fi < b,
                pm1 == pm * b,
        ;
        let cun = cu.to_nat() as int;
        let uv = mag_value(u@) as int;
        assert(cun == 0) by (nonlinear_arith)
            requires
                uv + cun * pw == dd * fi,
                dd * fi < pm1,
                pm1 <= pw,
                pw > 0,
                uv >= 0,
                cun >= 0,
        ;
        assert(cu.to_nat() * pw == 0) by (nonlinear_arith)
            requires
                cu.to_nat() == 0,
        ;
        lemma_high_zero(u@, (m + 1) as int);
        lemma_high_zero(v@, n as int);
        // the highest unit of the normalized divisor is not zero
        lemma_zero_above(v@, n as int);
        lemma_take_step(v@, n - 1);
        lemma_mag_value_bound(v@.take(n - 1));
        let v1n = v@[n - 1].to_nat() as int;
        let vlow = mag_value(v@.take(n - 1)) as int;
        assert(v1n >= 1) by (nonlinear_arith)
            requires
                vv == vlow + v1n * pn1,
                vlow < pn1,
                vv >= pn1,
                v1n >= 0,
        ;
        assert(vv >= pn1 * fi) by (nonlinear_arith)
            requires
                vv == dv * fi,
                dv >= pn1,
                fi >= 1,
        ;
        lemma_base_pow_adds::<U>((n - 1) as nat, (m - n + 1) as nat);
        let pk = base_pow::<U>((m - n + 1) as nat) as int;
        assert(dd * fi < vv * pk) by (nonlinear_arith)
            requires
                vv >= pn1 * fi,
                pm == pn1 * pk,
                0 <= dd < pm,
                fi >= 1,
                pk >= 0,
        ;
    }
    let radix: u128 = U::radix();
    let v1: u128 = v[n - 1].widen();
    let v0: u128 = v[n - 2].widen();
    let mut qq: Wide<U, N> = Wide::zero();
    let mut jj: usize = m - n + 1;
    proof {
        assert(0 * vv == 0);
        lemma_unit_bound(v@[n - 1]);
        lemma_unit_bound(v@[n - 2]);
    }
    while jj > 0
        invariant
            2 <= n <= N,
            n <= m,
            m - n <= N,
            jj <= m - n + 1,
            length_fits(N as nat),
            radix == base::<U>(),
            256 <= radix <= 0x1_0000_0000_0000_0000,
            v1 == v@[n - 1].to_nat(),
            v0 == v@[n - 2].to_nat(),
            1 <= v1 < radix,
            v0 < radix,
            vv == mag_value(v@),
            forall|k: int| n <= k < N ==> (#[trigger] v@[k]).to_nat() == 0,
            total == mag_value(qq@) * vv + mag_value(u@),
            mag_value(u@) < vv * base_pow::<U>(jj as nat),
            forall|k: int| jj + n <= k < 2 * N + 1 ==> (#[trigger] u@[k]).to_nat() == 0,
            forall|k: int| 0 <= k < jj ==> (#[trigger] qq@[k]).to_nat() == 0,
        decreases jj,
    {
        let j: usize = jj - 1;
        let ghost uo = mag_value(u@) as int;
        let ghost pj = base_pow::<U>(j as nat) as int;
        let ghost y = vv * pj;
        let ghost qn = base_pow::<U>((j + n) as nat) as int;
        proof {
            lemma_window_estimate(u@, v@, n as int, j as int);
            lemma_unit_bound(u@[j + n]);
            lemma_unit_bound(u@[j + n - 1]);
            lemma_unit_bound(u@[j + n - 2]);
            vstd::arithmetic::div_mod::lemma_fundamental_div_mod(uo, y);
            vstd::arithmetic::div_mod::lemma_mod_bound(uo, y);
        }
        let u2: u128 = u.get(j + n).widen();
        let u1: u128 = u.get(j + n - 1).widen();
        let u0: u128 = u.get(j + n - 2).widen();
        let q: u128 = estimate_digit(radix, u2, u1, u0, v1, v0);
        let ghost qt = uo / y;
        let ghost rt = uo % y;
        proof {
            assert(q * vv * pj == q * y) by (nonlinear_arith)
                requires
                    y == vv * pj,
            ;
            assert(-qn < uo - q * y < qn) by (nonlinear_arith)
                requires
                    uo == y * qt + rt,
                    0 <= rt < y,
                    qt <= q <= qt + 1,
                    y < qn,
            ;
        }
        let negative: bool = mul_sub(&mut u, &v, n, j, q);
        let mut qd: u128 = q;
        if negative {
            proof {
                lemma_zero_above(u@, (j + n) as int);
                assert(q == qt + 1) by (nonlinear_arith)
                    requires
                        uo == y * qt + rt,
                        0 <= rt < y,
                        qt <= q <= qt + 1,
                        uo - q * y < 0,
                ;
                assert(uo - q * y + y == rt) by (nonlinear_arith)
                    requires
                        uo == y * qt + rt,
                        q == qt + 1,
                ;
            }
            add_back(&mut u, &v, n, j);
            qd = q - 1;
        } else {
            proof {
                assert(q == qt) by (nonlinear_arith)
                    requires
                        uo == y * qt + rt,
                        0 <= rt < y,
                        qt <= q <= qt + 1,
                        uo - q * y >= 0,
                ;
                assert(uo - q * y == rt) by (nonlinear_arith)
                    requires
                        uo == y * qt + rt,
                        q == qt,
                ;
            }
        }
        let qu: U = U::narrow(qd);
        let ghost qq_prev = qq@;
        qq.set(j, qu);
        proof {
            vstd::arithmetic::div_mod::lemma_small_mod(qd as nat, base::<U>());
            lemma_set_unit_value(qq_prev, j as int, qu);
            assert(qq_prev[j as int].to_nat() == 0);
            assert(0 * pj == 0);
            let qv = mag_value(qq_prev) as int;
            assert((qv + qt * pj) * vv + rt == qv * vv + uo) by (nonlinear_arith)
                requires
                    uo == y * qt + rt,
                    y == vv * pj,
            ;
            assert forall|k: int| 0 <= k < j implies (#[trigger] qq@[k]).to_nat() == 0 by {
                assert(qq@[k] == qq_prev[k]);
            }
        }
        jj = j;
    }
    // Copy and denormalize remainder
    let mut rem: [U; N] = u.low();
    proof {
        lemma_zero_above(u@, N as int);
        lemma_base_pow::<U>(0);
    }
    let r0 = divide_by_unit(&mut rem, f);
    proof {
        let qv = mag_value(qq@) as int;
        let rp = mag_value(u@) as int;
        let rr = dd - qv * dv;
        assert(rp == fi * rr) by (nonlinear_arith)
            requires
                dd * fi == qv * vv + rp,
                vv == dv * fi,
                rr == dd - qv * dv,
        ;
        assert(0 <= rr < dv) by (nonlinear_arith)
            requires
                rp == fi * rr,
                0 <= rp < vv * 1,
                vv == dv * fi,
                fi >= 1,
        ;
        vstd::arithmetic::div_mod::lemma_fundamental_div_mod_converse(dd, dv, qv, rr);
        vstd::arithmetic::div_mod::lemma_fundamental_div_mod_converse(rp, fi, rr, 0);
    }
    DivProduct::Normal { quot: qq, rem }
}

} // verus!
