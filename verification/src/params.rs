use vstd::prelude::*;

verus! {

use crate::errors::SpellError;
use vstd::arithmetic::mul::lemma_mul_inequality;

/// The size and probe-count derivation works at the fixed target
/// false-positive rate 0.05. The real-valued formulas
///
///   m = ceil(n * ln(1/0.05) / (ln 2)^2)      and
///   k = round(m / n * ln 2)
///
/// are evaluated in fixed-point arithmetic with nine fractional decimal
/// digits, so that the derivation is an exact integer function of `n` and
/// gives identical parameters on every run and every machine:
/// `M_RATIO_NUM / SCALE` stands for `ln(1/0.05) / (ln 2)^2 = 6.235224229...`
/// and `LN2_NUM / SCALE` for `ln 2 = 0.693147180...`.
pub const M_RATIO_NUM: u64 = 6_235_224_230;

/// Fixed-point numerator of `ln 2` at scale `SCALE`.
pub const LN2_NUM: u64 = 693_147_181;

/// The common fixed-point scale, 10^9.
pub const SCALE: u64 = 1_000_000_000;

/// The bit-array size derived from the expected word count `n`:
/// `ceil(n * M_RATIO_NUM / SCALE)`, a pure function of `n` alone.
pub open spec fn m_of(n: nat) -> nat {
    (n * (M_RATIO_NUM as nat) + (SCALE - 1) as nat) / (SCALE as nat)
}

/// The probe count derived from `n`: `round(m_of(n) / n * ln 2)`, evaluated
/// as `floor((2 * m * LN2_NUM + n * SCALE) / (2 * n * SCALE))`, a pure
/// function of `n` alone.
pub open spec fn k_of(n: nat) -> nat
    recommends
        1 <= n,
{
    (2 * m_of(n) * (LN2_NUM as nat) + n * (SCALE as nat)) / (2 * n * (SCALE as nat))
}

/// The word counts for which parameter derivation succeeds: a positive
/// count whose derived size and probe count are positive and fit the
/// machine word. A degenerate empty dictionary is rejected explicitly.
pub open spec fn params_ok(n: nat) -> bool {
    &&& 1 <= n
    &&& 1 <= m_of(n) <= usize::MAX
    &&& 1 <= k_of(n) <= usize::MAX
}

/// Derivation is owed to succeed for every word count a real list can
/// have: whenever `7 * n + 1` fits the machine word, the derived size
/// stays between `6 * n` and `7 * n` and the probe count between 1 and 6,
/// so `derive_params` only ever fails on an empty list or an
/// astronomically long one.
pub proof fn lemma_params_ok_for_realistic_counts(n: nat)
    requires
        1 <= n,
        7 * n + 1 <= usize::MAX,
    ensures
        params_ok(n),
        6 * n <= m_of(n) <= 7 * n,
        1 <= k_of(n) <= 6,
{
    let a = M_RATIO_NUM as int;
    let c = SCALE as int;
    let l = LN2_NUM as int;
    let ni = n as int;
    let num = ni * a + (c - 1);
    assert(m_of(n) == num / c);
    // lower bound: n * a dominates 6 * n * c, so m_of(n) >= 6 * n
    assert((6 * c) * ni <= a * ni) by {
        lemma_mul_inequality(6 * c, a, ni);
    }
    assert((6 * ni) * c <= num);
    assert((6 * ni) * c / c <= num / c) by {
        vstd::arithmetic::div_mod::lemma_div_is_ordered((6 * ni) * c, num, c);
    }
    assert((6 * ni) * c / c == 6 * ni) by {
        vstd::arithmetic::div_mod::lemma_div_by_multiple(6 * ni, c);
    }
    assert(6 * ni <= m_of(n));
    // upper bound: num stays below 7 * n * c, so m_of(n) <= 7 * n
    if ni == 1 {
        assert(num == 7_235_224_229);
        assert(m_of(n) == 7);
    } else {
        assert(2 * (7 * c - a) <= ni * (7 * c - a)) by {
            lemma_mul_inequality(2, ni, 7 * c - a);
        }
        assert(num <= (7 * ni) * c);
        assert(num / c <= (7 * ni) * c / c) by {
            vstd::arithmetic::div_mod::lemma_div_is_ordered(num, (7 * ni) * c, c);
        }
        assert((7 * ni) * c / c == 7 * ni) by {
            vstd::arithmetic::div_mod::lemma_div_by_multiple(7 * ni, c);
        }
    }
    assert(m_of(n) <= 7 * ni);
    let mi = m_of(n) as int;
    let d = 2 * ni * c;
    let mnum = 2 * mi * l + ni * c;
    assert(1 * (2 * c) <= ni * (2 * c)) by {
        lemma_mul_inequality(1, ni, 2 * c);
    }
    assert(0 < d);
    assert(k_of(n) == mnum / d);
    // the numerator covers the denominator, so k_of(n) >= 1
    assert((6 * ni) * (2 * l) <= mi * (2 * l)) by {
        lemma_mul_inequality(6 * ni, mi, 2 * l);
    }
    assert((2 * c) * ni <= (12 * l + c) * ni) by {
        lemma_mul_inequality(2 * c, 12 * l + c, ni);
    }
    assert(d <= mnum);
    assert(d / d <= mnum / d) by {
        vstd::arithmetic::div_mod::lemma_div_is_ordered(d, mnum, d);
    }
    assert(d / d == 1) by {
        vstd::arithmetic::div_mod::lemma_div_by_self(d);
    }
    // and six denominators cover the numerator, so k_of(n) <= 6
    assert(mi * (2 * l) <= (7 * ni) * (2 * l)) by {
        lemma_mul_inequality(mi, 7 * ni, 2 * l);
    }
    assert((14 * l + c) * ni <= (12 * c) * ni) by {
        lemma_mul_inequality(14 * l + c, 12 * c, ni);
    }
    assert(mnum <= 6 * d);
    assert(mnum / d <= 6 * d / d) by {
        vstd::arithmetic::div_mod::lemma_div_is_ordered(mnum, 6 * d, d);
    }
    assert(6 * d / d == 6) by {
        vstd::arithmetic::div_mod::lemma_div_by_multiple(6, d);
    }
}

/// Derive `(k, m)` from the expected word count at the fixed rate.
///
/// Returns `Ok((k_of(n), m_of(n)))` exactly when `params_ok(n)` holds and
/// `Err(InvalidParameters)` otherwise, so equal word counts always yield
/// equal parameters.
pub fn derive_params(word_count: usize) -> (r: Result<(usize, usize), SpellError>)
    ensures
        r is Ok <==> params_ok(word_count as nat),
        r matches Ok(p) ==> p.0 == k_of(word_count as nat) && p.1 == m_of(word_count as nat),
        r matches Err(e) ==> e == SpellError::InvalidParameters,
{
    if word_count == 0 {
        return Err(SpellError::InvalidParameters);
    }
    let n = word_count as u128;
    proof {
        lemma_mul_inequality(n as int, u64::MAX as int, M_RATIO_NUM as int);
    }
    let m_wide = (n * (M_RATIO_NUM as u128) + (SCALE as u128 - 1)) / (SCALE as u128);
    if m_wide < 1 || m_wide > (usize::MAX as u128) {
        return Err(SpellError::InvalidParameters);
    }
    let m = m_wide as usize;
    proof {
        lemma_mul_inequality(2 * m_wide as int, 2 * u64::MAX as int, LN2_NUM as int);
        lemma_mul_inequality(n as int, u64::MAX as int, SCALE as int);
        lemma_mul_inequality(1, n as int, 2 * SCALE as int);
    }
    let k_wide = (2 * m_wide * (LN2_NUM as u128) + n * (SCALE as u128)) / (2 * n * (SCALE as u128));
    if k_wide < 1 || k_wide > (usize::MAX as u128) {
        return Err(SpellError::InvalidParameters);
    }
    let k = k_wide as usize;
    Ok((k, m))
}

} // verus!
