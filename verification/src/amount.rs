//! Exact decimal quantities and the constant-product pricing arithmetic.
//!
//! Amounts are fixed-point decimals: an `Amount` counts atoms of `10^-6`
//! units, so every value the engine handles is an exact decimal with six
//! fractional digits. The constant-product output of a pool is computed in
//! 128-bit integers, exactly, with the final quotient truncated to an atom.

use vstd::prelude::*;

verus! {

/// Number of atoms in one whole unit: amounts carry six decimal places.
pub const ATOMS_PER_UNIT: u64 = 1_000_000;

/// Upper bound on any amount or reserve, in atoms. It is chosen so that the
/// constant-product formula over bounded operands fits in 128-bit integers.
pub const MAX_ATOMS: u64 = 100_000_000_000_000_000;

/// An exact decimal quantity of an asset, counted in atoms of `10^-6` units.
#[derive(Clone, Copy, Debug, Hash, PartialEq, Eq, Structural)]
pub struct Amount {
    pub atoms: u64,
}

impl Amount {
    /// An amount is well formed when it stays under the bound that keeps
    /// the pricing arithmetic overflow-free.
    pub open spec fn wf(self) -> bool {
        self.atoms <= MAX_ATOMS
    }

    /// The amount of `atoms` atoms, or `None` above the representable bound.
    pub fn from_atoms(atoms: u64) -> (r: Option<Amount>)
        ensures
            atoms <= MAX_ATOMS ==> r == Some(Amount { atoms }),
            atoms > MAX_ATOMS ==> r is None,
    {
        if atoms <= MAX_ATOMS {
            Some(Amount { atoms })
        } else {
            None
        }
    }

    /// The amount of `units` whole units, or `None` above the representable
    /// bound.
    pub fn from_units(units: u64) -> (r: Option<Amount>)
        ensures
            units * ATOMS_PER_UNIT <= MAX_ATOMS ==> r == Some(
                Amount { atoms: (units * ATOMS_PER_UNIT) as u64 },
            ),
            units * ATOMS_PER_UNIT > MAX_ATOMS ==> r is None,
    {
        if units <= MAX_ATOMS / ATOMS_PER_UNIT {
            assert(units * ATOMS_PER_UNIT <= MAX_ATOMS) by (nonlinear_arith)
                requires
                    units <= MAX_ATOMS / ATOMS_PER_UNIT,
            {
                assert(MAX_ATOMS / ATOMS_PER_UNIT == 100_000_000_000int);
            }
            Some(Amount { atoms: units * ATOMS_PER_UNIT })
        } else {
            proof {
                assert(units * ATOMS_PER_UNIT > MAX_ATOMS) by (nonlinear_arith)
                    requires
                        units > MAX_ATOMS / ATOMS_PER_UNIT,
                {
                    assert(MAX_ATOMS / ATOMS_PER_UNIT == 100_000_000_000int);
                }
            }
            None
        }
    }

    /// The zero amount.
    pub fn zero() -> (r: Amount)
        ensures
            r.atoms == 0,
    {
        Amount { atoms: 0 }
    }
}

/// Numerator of the constant-product output: the fee-reduced input scaled by
/// `10^4` basis points is `a * (10^4 - fee)`, and it buys reserve-out pro
/// rata.
pub open spec fn amm_numer(rout: int, a: int, fee: int) -> int {
    a * (10000 - fee) * rout
}

/// Denominator of the constant-product output: the input-side reserve plus
/// the fee-reduced input, both scaled by `10^4` basis points.
pub open spec fn amm_denom(rin: int, a: int, fee: int) -> int {
    rin * 10000 + a * (10000 - fee)
}

/// Output of a constant-product pool holding `rin` atoms on the input side
/// and `rout` atoms on the output side, for `a` atoms of input and a fee of
/// `fee` basis points, truncated to an atom.
pub open spec fn amm_out(rin: int, rout: int, a: int, fee: int) -> int {
    amm_numer(rout, a, fee) / amm_denom(rin, a, fee)
}

/// The constant-product output over bounded atom counts, computed exactly in
/// 128-bit integers.
pub(crate) fn amm_out_atoms(rin: u64, rout: u64, a: u64, fee: u32) -> (r: u64)
    requires
        1 <= rin <= MAX_ATOMS,
        rout <= MAX_ATOMS,
        a <= MAX_ATOMS,
        fee < 10000,
    ensures
        r == amm_out(rin as int, rout as int, a as int, fee as int),
        r <= rout,
{
    let k: u128 = (10000 - fee) as u128;
    proof {
        assert((a as u128) * k <= 1_000_000_000_000_000_000_000) by (nonlinear_arith)
            requires
                a <= MAX_ATOMS,
                k <= 10000,
        ;
        assert((a as u128) * k * (rout as u128) <= 0x4b3b4ca85a86c47a098a224000000000u128)
            by (nonlinear_arith)
            requires
                (a as u128) * k <= 1_000_000_000_000_000_000_000,
                rout <= MAX_ATOMS,
        ;
        assert((rin as u128) * 10000 <= 1_000_000_000_000_000_000_000) by (nonlinear_arith)
            requires
                rin <= MAX_ATOMS,
        ;
    }
    let num: u128 = (a as u128) * k * (rout as u128);
    let den: u128 = (rin as u128) * 10000 + (a as u128) * k;
    proof {
        assert(den >= 10000) by (nonlinear_arith)
            requires
                den == (rin as u128) * 10000 + (a as u128) * k,
                rin >= 1,
                0 <= (a as u128) * k,
        ;
        assert(num <= den * (rout as u128)) by (nonlinear_arith)
            requires
                num == (a as u128) * k * (rout as u128),
                den == (rin as u128) * 10000 + (a as u128) * k,
                0 <= rin,
                0 <= rout,
                0 <= a,
                0 <= k,
        ;
        lemma_quot_le(num as int, den as int, rout as int);
    }
    let q: u128 = num / den;
    q as u64
}

/// Truncated quotients respect cross-multiplied comparison: if
/// `x1 / y1` is at most `x2 / y2` as exact fractions, the truncated
/// quotients are ordered the same way.
pub proof fn lemma_div_cross(x1: int, y1: int, x2: int, y2: int)
    requires
        0 <= x1,
        0 < y1,
        0 <= x2,
        0 < y2,
        x1 * y2 <= x2 * y1,
    ensures
        x1 / y1 <= x2 / y2,
{
    let q1 = x1 / y1;
    let q2 = x2 / y2;
    vstd::arithmetic::div_mod::lemma_fundamental_div_mod(x1, y1);
    vstd::arithmetic::div_mod::lemma_fundamental_div_mod(x2, y2);
    vstd::arithmetic::div_mod::lemma_mod_bound(x1, y1);
    vstd::arithmetic::div_mod::lemma_mod_bound(x2, y2);
    vstd::arithmetic::div_mod::lemma_div_pos_is_pos(x1, y1);
    assert(q1 * y1 <= x1);
    assert(q1 * y1 * y2 <= x1 * y2) by (nonlinear_arith)
        requires
            q1 * y1 <= x1,
            0 < y2,
    ;
    assert(q1 * y2 * y1 <= x2 * y1) by (nonlinear_arith)
        requires
            q1 * y1 * y2 <= x1 * y2,
            x1 * y2 <= x2 * y1,
    ;
    assert(q1 * y2 <= x2) by (nonlinear_arith)
        requires
            q1 * y2 * y1 <= x2 * y1,
            0 < y1,
    ;
    if q1 > q2 {
        assert(q1 * y2 >= (q2 + 1) * y2) by (nonlinear_arith)
            requires
                q1 >= q2 + 1,
                0 < y2,
        ;
        assert((q2 + 1) * y2 > x2) by (nonlinear_arith)
            requires
                x2 == y2 * q2 + x2 % y2,
                x2 % y2 < y2,
        ;
        assert(false);
    }
}

/// A truncated quotient with `x` at most `y * b` and `y` positive is at
/// most `b`.
pub proof fn lemma_quot_le(x: int, y: int, b: int)
    requires
        0 <= x,
        0 < y,
        0 <= b,
        x <= y * b,
    ensures
        x / y <= b,
        0 <= x / y,
{
    assert(x * 1 <= b * y) by (nonlinear_arith)
        requires
            x <= y * b,
    ;
    lemma_div_cross(x, y, b, 1);
    vstd::arithmetic::div_mod::lemma_div_pos_is_pos(x, y);
    assert(b / 1 == b) by {
        vstd::arithmetic::div_mod::lemma_fundamental_div_mod(b, 1);
    }
}

/// The constant-product output is between zero and the output-side reserve.
pub proof fn lemma_amm_out_bounds(rin: int, rout: int, a: int, fee: int)
    requires
        1 <= rin,
        0 <= rout,
        0 <= a,
        0 <= fee < 10000,
    ensures
        0 <= amm_out(rin, rout, a, fee) <= rout,
{
    let k = 10000 - fee;
    let num = amm_numer(rout, a, fee);
    let den = amm_denom(rin, a, fee);
    assert(den >= 10000) by (nonlinear_arith)
        requires
            den == rin * 10000 + a * k,
            1 <= rin,
            0 <= a,
            0 < k,
    ;
    assert(0 <= num && num <= den * rout) by (nonlinear_arith)
        requires
            num == a * k * rout,
            den == rin * 10000 + a * k,
            0 <= rin,
            0 <= rout,
            0 <= a,
            0 < k,
    ;
    lemma_quot_le(num, den, rout);
}

/// Raising the fee can only lower the output: with reserves and input
/// fixed, the truncated output for the higher fee is at most the one for
/// the lower fee.
pub proof fn lemma_amm_fee_mono(rin: int, rout: int, a: int, fee1: int, fee2: int)
    requires
        1 <= rin,
        0 <= rout,
        0 <= a,
        0 <= fee1 <= fee2 < 10000,
    ensures
        amm_out(rin, rout, a, fee2) <= amm_out(rin, rout, a, fee1),
{
    let k1 = 10000 - fee1;
    let k2 = 10000 - fee2;
    let b = rin * 10000;
    assert(amm_denom(rin, a, fee1) >= 10000 && amm_denom(rin, a, fee2) >= 10000)
        by (nonlinear_arith)
        requires
            1 <= rin,
            0 <= a,
            0 < k1,
            0 < k2,
            amm_denom(rin, a, fee1) == rin * 10000 + a * k1,
            amm_denom(rin, a, fee2) == rin * 10000 + a * k2,
    ;
    assert(amm_numer(rout, a, fee2) * amm_denom(rin, a, fee1) <= amm_numer(rout, a, fee1)
        * amm_denom(rin, a, fee2)) by (nonlinear_arith)
        requires
            amm_numer(rout, a, fee1) == a * k1 * rout,
            amm_numer(rout, a, fee2) == a * k2 * rout,
            amm_denom(rin, a, fee1) == b + a * k1,
            amm_denom(rin, a, fee2) == b + a * k2,
            b == rin * 10000,
            0 <= a,
            0 <= rout,
            1 <= rin,
            0 < k2 <= k1,
    ;
    assert(0 <= amm_numer(rout, a, fee2)) by (nonlinear_arith)
        requires
            amm_numer(rout, a, fee2) == a * k2 * rout,
            0 <= a,
            0 <= rout,
            0 < k2,
    ;
    lemma_div_cross(
        amm_numer(rout, a, fee2),
        amm_denom(rin, a, fee2),
        amm_numer(rout, a, fee1),
        amm_denom(rin, a, fee1),
    );
}

/// Raising the fee strictly lowers the exact (untruncated) output: the
/// comparison of the two exact fractions, cross-multiplied, is strict
/// whenever input, both reserves and the fee gap are positive.
pub proof fn lemma_amm_fee_strict_exact(rin: int, rout: int, a: int, fee1: int, fee2: int)
    requires
        1 <= rin,
        1 <= rout,
        1 <= a,
        0 <= fee1 < fee2 < 10000,
    ensures
        amm_numer(rout, a, fee2) * amm_denom(rin, a, fee1) < amm_numer(rout, a, fee1)
            * amm_denom(rin, a, fee2),
{
    let k1 = 10000 - fee1;
    let k2 = 10000 - fee2;
    let b = rin * 10000;
    assert(a * k2 * rout * (b + a * k1) < a * k1 * rout * (b + a * k2)) by (nonlinear_arith)
        requires
            1 <= a,
            1 <= rout,
            b >= 10000,
            0 < k2 < k1,
    ;
}

/// A larger input never yields a smaller output from the same pool.
pub proof fn lemma_amm_input_mono(rin: int, rout: int, a1: int, a2: int, fee: int)
    requires
        1 <= rin,
        0 <= rout,
        0 <= a1 <= a2,
        0 <= fee < 10000,
    ensures
        amm_out(rin, rout, a1, fee) <= amm_out(rin, rout, a2, fee),
{
    let k = 10000 - fee;
    let b = rin * 10000;
    assert(amm_denom(rin, a1, fee) >= 10000 && amm_denom(rin, a2, fee) >= 10000)
        by (nonlinear_arith)
        requires
            1 <= rin,
            0 <= a1 <= a2,
            0 < k,
            amm_denom(rin, a1, fee) == rin * 10000 + a1 * k,
            amm_denom(rin, a2, fee) == rin * 10000 + a2 * k,
    ;
    assert(amm_numer(rout, a1, fee) * amm_denom(rin, a2, fee) <= amm_numer(rout, a2, fee)
        * amm_denom(rin, a1, fee)) by (nonlinear_arith)
        requires
            amm_numer(rout, a1, fee) == a1 * k * rout,
            amm_numer(rout, a2, fee) == a2 * k * rout,
            amm_denom(rin, a1, fee) == b + a1 * k,
            amm_denom(rin, a2, fee) == b + a2 * k,
            b == rin * 10000,
            0 <= a1 <= a2,
            0 <= rout,
            1 <= rin,
            0 < k,
    ;
    assert(0 <= amm_numer(rout, a1, fee)) by (nonlinear_arith)
        requires
            amm_numer(rout, a1, fee) == a1 * k * rout,
            0 <= a1,
            0 <= rout,
            0 < k,
    ;
    lemma_div_cross(
        amm_numer(rout, a1, fee),
        amm_denom(rin, a1, fee),
        amm_numer(rout, a2, fee),
        amm_denom(rin, a2, fee),
    );
}

} // verus!
