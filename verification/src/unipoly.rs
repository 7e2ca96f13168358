//! Dense univariate polynomials (formal power series) over machine
//! integers: ring operations, schoolbook division by a monic divisor,
//! exponentiation by squaring, and the rendering rules for display.
//!
//! Contracts are stated over `Seq<int>` coefficient sequences in ascending
//! power order; the canonical form of a sequence has no trailing zero
//! coefficients and is never empty, the zero polynomial being `[0]`.

use vstd::prelude::*;

use crate::algebraic::{One, ScalarMul, ScalarPow, Zero};
use crate::AlgebraError;

verus! {

/// The coefficient of `x^i`, zero outside the stored range.
pub open spec fn coef(s: Seq<int>, i: int) -> int {
    if 0 <= i < s.len() {
        s[i]
    } else {
        0
    }
}

/// The canonical zero polynomial.
pub open spec fn zero_poly() -> Seq<int> {
    seq![0int]
}

/// A canonical coefficient sequence: non-empty, with no trailing zero
/// unless it is the single coefficient of the zero polynomial.
pub open spec fn is_canonical(s: Seq<int>) -> bool {
    s.len() >= 1 && (s.len() > 1 ==> s.last() != 0)
}

/// Trims trailing zero coefficients down to canonical form.
pub open spec fn pcanon(s: Seq<int>) -> Seq<int>
    decreases s.len(),
{
    if s.len() == 0 {
        zero_poly()
    } else if s.len() == 1 {
        s
    } else if s.last() == 0 {
        pcanon(s.drop_last())
    } else {
        s
    }
}

/// The degree of a canonical sequence; the zero polynomial has degree 0 by
/// convention.
pub open spec fn pdeg(s: Seq<int>) -> int {
    s.len() - 1
}

/// Pointwise sum, out to the longer length.
pub open spec fn padd(a: Seq<int>, b: Seq<int>) -> Seq<int> {
    Seq::new(vstd::math::max(a.len() as int, b.len() as int) as nat, |i: int| coef(a, i) + coef(b, i))
}

/// Pointwise difference, out to the longer length.
pub open spec fn psub(a: Seq<int>, b: Seq<int>) -> Seq<int> {
    Seq::new(vstd::math::max(a.len() as int, b.len() as int) as nat, |i: int| coef(a, i) - coef(b, i))
}

/// Pointwise negation.
pub open spec fn pneg(a: Seq<int>) -> Seq<int> {
    Seq::new(a.len(), |i: int| -a[i])
}

/// The first `j` terms of the convolution sum for the coefficient of `x^k`:
/// the sum of `coef(a, i) * coef(b, k - i)` over `0 <= i < j`.
pub open spec fn conv_sum(a: Seq<int>, b: Seq<int>, k: int, j: int) -> int
    decreases j,
{
    if j <= 0 {
        0
    } else {
        conv_sum(a, b, k, j - 1) + coef(a, j - 1) * coef(b, k - (j - 1))
    }
}

/// The full convolution coefficient of `x^k` in the product.
pub open spec fn cmul(a: Seq<int>, b: Seq<int>, k: int) -> int {
    conv_sum(a, b, k, k + 1)
}

/// The raw product of two non-empty coefficient sequences.
pub open spec fn pmul(a: Seq<int>, b: Seq<int>) -> Seq<int> {
    Seq::new((a.len() + b.len() - 1) as nat, |k: int| cmul(a, b, k))
}

/// The single-term polynomial `c * x^p`, before canonicalization.
pub open spec fn pterm(c: int, p: int) -> Seq<int> {
    Seq::new((p + 1) as nat, |i: int| if i == p {
        c
    } else {
        0
    })
}

/// Two sequences that agree as coefficient functions.
pub open spec fn eqc(a: Seq<int>, b: Seq<int>) -> bool {
    forall|i: int| coef(a, i) == coef(b, i)
}

/// Canonicalization keeps the coefficient function.
pub proof fn lemma_pcanon_eqc(s: Seq<int>)
    ensures
        eqc(pcanon(s), s),
        is_canonical(pcanon(s)),
        pcanon(s).len() <= s.len() || (s.len() == 0 && pcanon(s) == zero_poly()),
    decreases s.len(),
{
    if s.len() == 0 {
        assert(forall|i: int| coef(zero_poly(), i) == 0);
    } else if s.len() == 1 {
    } else if s.last() == 0 {
        lemma_pcanon_eqc(s.drop_last());
        assert forall|i: int| coef(pcanon(s), i) == coef(s, i) by {
            assert(coef(pcanon(s.drop_last()), i) == coef(s.drop_last(), i));
        }
    }
}

/// Sequences with the same coefficient function canonicalize identically.
pub proof fn lemma_eqc_pcanon(a: Seq<int>, b: Seq<int>)
    requires
        eqc(a, b),
    ensures
        pcanon(a) == pcanon(b),
    decreases a.len() + b.len(),
{
    if a.len() == b.len() {
        assert(a =~= b) by {
            assert forall|i: int| 0 <= i < a.len() implies a[i] == b[i] by {
                assert(coef(a, i) == coef(b, i));
            }
        }
    } else if a.len() > b.len() {
        assert(coef(a, a.len() - 1) == coef(b, a.len() - 1));
        if a.len() == 1 {
            assert(a =~= zero_poly());
        } else {
            assert(a.last() == 0);
            assert(eqc(a.drop_last(), b)) by {
                assert forall|i: int| coef(a.drop_last(), i) == coef(b, i) by {
                    assert(coef(a, i) == coef(b, i));
                }
            }
            lemma_eqc_pcanon(a.drop_last(), b);
        }
    } else {
        assert(coef(b, b.len() - 1) == coef(a, b.len() - 1));
        if b.len() == 1 {
            assert(b =~= zero_poly());
        } else {
            assert(b.last() == 0);
            assert(eqc(a, b.drop_last())) by {
                assert forall|i: int| coef(a, i) == coef(b.drop_last(), i) by {
                    assert(coef(a, i) == coef(b, i));
                }
            }
            lemma_eqc_pcanon(a, b.drop_last());
        }
    }
}

/// A canonical sequence is already its own canonical form.
pub proof fn lemma_pcanon_identity(s: Seq<int>)
    requires
        is_canonical(s),
    ensures
        pcanon(s) == s,
{
}

/// Adding a polynomial and then subtracting it returns the original, up to
/// canonical form.
pub proof fn lemma_add_sub_cancel(p: Seq<int>, q: Seq<int>)
    ensures
        pcanon(psub(padd(p, q), q)) == pcanon(p),
{
    let s = psub(padd(p, q), q);
    assert(eqc(s, p)) by {
        assert forall|i: int| coef(s, i) == coef(p, i) by {
            if 0 <= i < s.len() {
            }
        }
    }
    lemma_eqc_pcanon(s, p);
}

/// A sequence of zero coefficients of any length collapses to the
/// canonical zero polynomial.
pub proof fn lemma_zeros_canon(s: Seq<int>)
    requires
        forall|i: int| 0 <= i < s.len() ==> s[i] == 0,
    ensures
        pcanon(s) == zero_poly(),
{
    assert(eqc(s, zero_poly()));
    lemma_eqc_pcanon(s, zero_poly());
}

/// The coefficients a machine-integer vector stands for.
pub open spec fn int_view(v: Seq<i64>) -> Seq<int> {
    v.map_values(|x: i64| x as int)
}

/// Whether pointwise sums of two coefficient functions stay representable.
pub open spec fn add_fits(a: Seq<int>, b: Seq<int>) -> bool {
    forall|i: int| i64::MIN <= #[trigger] (coef(a, i) + coef(b, i)) <= i64::MAX
}

/// Whether pointwise differences of two coefficient functions stay
/// representable.
pub open spec fn sub_fits(a: Seq<int>, b: Seq<int>) -> bool {
    forall|i: int| i64::MIN <= #[trigger] (coef(a, i) - coef(b, i)) <= i64::MAX
}

/// A dense univariate polynomial with machine-integer coefficients in
/// ascending power order, kept in canonical form.
#[derive(Debug, Clone, PartialEq, Eq)]
pub struct FormalPowerSeries {
    c: Vec<i64>,
}

/// The usual short name for the type.
pub type FPS = FormalPowerSeries;

impl View for FormalPowerSeries {
    type V = Seq<int>;

    closed spec fn view(&self) -> Seq<int> {
        int_view(self.c@)
    }
}

impl FormalPowerSeries {
    /// A well-formed polynomial: its coefficient sequence is canonical.
    pub open spec fn wf(&self) -> bool {
        is_canonical(self@)
    }

    /// Builds a polynomial from raw coefficients in ascending power order,
    /// trimming trailing zero coefficients to canonical form.
    pub fn from_coeff(coeff: Vec<i64>) -> (r: Self)
        ensures
            r.wf(),
            r@ == pcanon(int_view(coeff@)),
    {
        let mut c = coeff;
        let ghost orig = int_view(c@);
        if c.len() == 0 {
            c.push(0);
            proof {
                assert(int_view(c@) =~= zero_poly());
            }
            return FormalPowerSeries { c };
        }
        while c.len() > 1 && c[c.len() - 1] == 0
            invariant
                c@.len() >= 1,
                pcanon(int_view(c@)) == pcanon(orig),
            decreases c@.len(),
        {
            let ghost before = int_view(c@);
            c.pop();
            proof {
                assert(int_view(c@) =~= before.drop_last());
                assert(before.last() == 0);
            }
        }
        proof {
            assert(is_canonical(int_view(c@)));
            lemma_pcanon_identity(int_view(c@));
        }
        FormalPowerSeries { c }
    }

    /// The single-term polynomial `coeff * x^power`; a zero coefficient
    /// collapses to the zero polynomial whatever the power.
    pub fn term(coeff: i64, power: usize) -> (r: Self)
        requires
            power < usize::MAX,
        ensures
            r.wf(),
            r@ == pcanon(pterm(coeff as int, power as int)),
    {
        if coeff == 0 {
            let mut v: Vec<i64> = Vec::new();
            v.push(0);
            proof {
                lemma_zeros_canon(pterm(0, power as int));
                assert(int_view(v@) =~= zero_poly());
            }
            FormalPowerSeries { c: v }
        } else {
            let mut v: Vec<i64> = Vec::new();
            let mut i: usize = 0;
            while i < power
                invariant
                    i <= power,
                    v@.len() == i as int,
                    forall|j: int| 0 <= j < i as int ==> v@[j] == 0,
                decreases power - i,
            {
                v.push(0);
                i = i + 1;
            }
            v.push(coeff);
            proof {
                assert(int_view(v@) =~= pterm(coeff as int, power as int));
                lemma_pcanon_identity(pterm(coeff as int, power as int));
            }
            FormalPowerSeries { c: v }
        }
    }

    /// The indeterminate `x`.
    pub fn x() -> (r: Self)
        ensures
            r.wf(),
            r@ == pcanon(pterm(1, 1)),
    {
        Self::term(1, 1)
    }

    /// The constant polynomial with the given value.
    pub fn integer(num: i64) -> (r: Self)
        ensures
            r.wf(),
            r@ == pcanon(pterm(num as int, 0)),
    {
        Self::term(num, 0)
    }

    /// The coefficients in ascending power order, as a fresh vector.
    pub fn coeff(&self) -> (r: Vec<i64>)
        ensures
            int_view(r@) == self@,
    {
        let mut out: Vec<i64> = Vec::new();
        let mut i: usize = 0;
        while i < self.c.len()
            invariant
                i <= self.c@.len(),
                out@.len() == i as int,
                forall|j: int| 0 <= j < i as int ==> out@[j] == self.c@[j],
            decreases self.c@.len() - i,
        {
            out.push(self.c[i]);
            i = i + 1;
        }
        proof {
            assert(int_view(out@) =~= self@);
        }
        out
    }

    /// The degree: the index of the highest stored coefficient, with the
    /// zero polynomial having degree 0 by convention.
    pub fn degree(&self) -> (r: usize)
        requires
            self.wf(),
        ensures
            r as int == pdeg(self@),
    {
        self.c.len() - 1
    }

    /// The coefficient at the degree; zero exactly for the zero
    /// polynomial.
    pub fn leading_coefficient(&self) -> (r: i64)
        requires
            self.wf(),
        ensures
            r as int == self@.last(),
    {
        self.c[self.c.len() - 1]
    }

    /// Pointwise addition, canonicalized.
    pub fn add(&self, rhs: &Self) -> (r: Self)
        requires
            self.wf(),
            rhs.wf(),
            add_fits(self@, rhs@),
        ensures
            r.wf(),
            r@ == pcanon(padd(self@, rhs@)),
    {
        let n = if self.c.len() >= rhs.c.len() {
            self.c.len()
        } else {
            rhs.c.len()
        };
        let mut raw: Vec<i64> = Vec::new();
        let mut i: usize = 0;
        while i < n
            invariant
                i <= n,
                n as int == vstd::math::max(self@.len() as int, rhs@.len() as int),
                add_fits(self@, rhs@),
                raw@.len() == i as int,
                forall|j: int| 0 <= j < i as int ==> raw@[j] as int == coef(self@, j) + coef(
                    rhs@,
                    j,
                ),
            decreases n - i,
        {
            let a = if i < self.c.len() {
                self.c[i]
            } else {
                0
            };
            let b = if i < rhs.c.len() {
                rhs.c[i]
            } else {
                0
            };
            proof {
                assert(a as int == coef(self@, i as int));
                assert(b as int == coef(rhs@, i as int));
                assert(i64::MIN <= coef(self@, i as int) + coef(rhs@, i as int) <= i64::MAX);
            }
            raw.push(a + b);
            i = i + 1;
        }
        proof {
            assert(int_view(raw@) =~= padd(self@, rhs@));
        }
        Self::from_coeff(raw)
    }

    /// Pointwise subtraction, canonicalized.
    pub fn sub(&self, rhs: &Self) -> (r: Self)
        requires
            self.wf(),
            rhs.wf(),
            sub_fits(self@, rhs@),
        ensures
            r.wf(),
            r@ == pcanon(psub(self@, rhs@)),
    {
        let n = if self.c.len() >= rhs.c.len() {
            self.c.len()
        } else {
            rhs.c.len()
        };
        let mut raw: Vec<i64> = Vec::new();
        let mut i: usize = 0;
        while i < n
            invariant
                i <= n,
                n as int == vstd::math::max(self@.len() as int, rhs@.len() as int),
                sub_fits(self@, rhs@),
                raw@.len() == i as int,
                forall|j: int| 0 <= j < i as int ==> raw@[j] as int == coef(self@, j) - coef(
                    rhs@,
                    j,
                ),
            decreases n - i,
        {
            let a = if i < self.c.len() {
                self.c[i]
            } else {
                0
            };
            let b = if i < rhs.c.len() {
                rhs.c[i]
            } else {
                0
            };
            proof {
                assert(a as int == coef(self@, i as int));
                assert(b as int == coef(rhs@, i as int));
                assert(i64::MIN <= coef(self@, i as int) - coef(rhs@, i as int) <= i64::MAX);
            }
            raw.push(a - b);
            i = i + 1;
        }
        proof {
            assert(int_view(raw@) =~= psub(self@, rhs@));
        }
        Self::from_coeff(raw)
    }

    /// Pointwise negation, canonicalized.
    pub fn neg(&self) -> (r: Self)
        requires
            self.wf(),
            forall|i: int| 0 <= i < self@.len() ==> self@[i] != i64::MIN,
        ensures
            r.wf(),
            r@ == pcanon(pneg(self@)),
    {
        let mut raw: Vec<i64> = Vec::new();
        let mut i: usize = 0;
        while i < self.c.len()
            invariant
                i <= self.c@.len(),
                forall|j: int| 0 <= j < self@.len() ==> self@[j] != i64::MIN,
                raw@.len() == i as int,
                forall|j: int| 0 <= j < i as int ==> raw@[j] as int == -self@[j],
            decreases self.c@.len() - i,
        {
            proof {
                assert(self@[i as int] != i64::MIN);
                assert(self@[i as int] == self.c@[i as int] as int);
            }
            raw.push(-self.c[i]);
            i = i + 1;
        }
        proof {
            assert(int_view(raw@) =~= pneg(self@));
        }
        Self::from_coeff(raw)
    }
}

/// The convolution partial sum is unchanged by terms past the end of the
/// left factor.
proof fn lemma_conv_sum_past_a(a: Seq<int>, b: Seq<int>, k: int, j1: int, j2: int)
    requires
        a.len() <= j1 <= j2,
    ensures
        conv_sum(a, b, k, j2) == conv_sum(a, b, k, j1),
    decreases j2 - j1,
{
    if j2 > j1 {
        lemma_conv_sum_past_a(a, b, k, j1, j2 - 1);
        assert(coef(a, j2 - 1) == 0);
    }
}

/// The convolution partial sum is unchanged by terms past index `k`, where
/// the right factor's coefficient index turns negative.
proof fn lemma_conv_sum_past_k(a: Seq<int>, b: Seq<int>, k: int, j1: int, j2: int)
    requires
        k + 1 <= j1 <= j2,
    ensures
        conv_sum(a, b, k, j2) == conv_sum(a, b, k, j1),
    decreases j2 - j1,
{
    if j2 > j1 {
        lemma_conv_sum_past_k(a, b, k, j1, j2 - 1);
        assert(coef(b, k - (j2 - 1)) == 0);
    }
}

/// In the top coefficient of a product, every term but the one pairing the
/// two leading coefficients vanishes.
proof fn lemma_conv_sum_top(a: Seq<int>, b: Seq<int>, j: int)
    requires
        a.len() >= 1,
        b.len() >= 1,
        0 <= j <= a.len() + b.len() - 1,
    ensures
        conv_sum(a, b, a.len() + b.len() - 2, j) == if j >= a.len() {
            a.last() * b.last()
        } else {
            0
        },
    decreases j,
{
    let k = a.len() + b.len() - 2;
    if j > 0 {
        lemma_conv_sum_top(a, b, j - 1);
        if j - 1 < a.len() - 1 {
            assert(k - (j - 1) >= b.len());
            assert(coef(b, k - (j - 1)) == 0);
        } else if j - 1 == a.len() - 1 {
            assert(coef(a, j - 1) == a.last());
            assert(k - (j - 1) == b.len() - 1);
            assert(coef(b, k - (j - 1)) == b.last());
        } else {
            assert(coef(a, j - 1) == 0);
        }
    }
}

/// The degree law of multiplication: the product of two nonzero
/// polynomials is already canonical, and its degree is the sum of the
/// factors' degrees.
pub proof fn lemma_mul_degree(a: Seq<int>, b: Seq<int>)
    requires
        is_canonical(a),
        is_canonical(b),
        a != zero_poly(),
        b != zero_poly(),
    ensures
        is_canonical(pmul(a, b)),
        pcanon(pmul(a, b)) == pmul(a, b),
        pdeg(pmul(a, b)) == pdeg(a) + pdeg(b),
{
    assert(a.last() != 0) by {
        if a.len() == 1 && a[0] == 0 {
            assert(a =~= zero_poly());
        }
    }
    assert(b.last() != 0) by {
        if b.len() == 1 && b[0] == 0 {
            assert(b =~= zero_poly());
        }
    }
    let p = pmul(a, b);
    lemma_conv_sum_top(a, b, a.len() + b.len() - 1);
    assert(p.last() == conv_sum(a, b, a.len() + b.len() - 2, a.len() + b.len() - 1));
    vstd::arithmetic::mul::lemma_mul_nonzero(a.last(), b.last());
    lemma_pcanon_identity(p);
}

/// Two machine integers multiply without leaving the double-width range.
pub proof fn lemma_i64_range_product(x: int, y: int)
    requires
        i64::MIN <= x <= i64::MAX,
        i64::MIN <= y <= i64::MAX,
    ensures
        i128::MIN <= x * y <= i128::MAX,
{
    lemma_i64_product_fits(x, y);
}

/// Two machine integers multiply without leaving the double-width range.
proof fn lemma_i64_product_fits(x: int, y: int)
    requires
        i64::MIN <= x <= i64::MAX,
        i64::MIN <= y <= i64::MAX,
    ensures
        i128::MIN <= x * y <= i128::MAX,
{
    assert(i128::MIN <= x * y <= i128::MAX) by (nonlinear_arith)
        requires
            -0x8000_0000_0000_0000 <= x <= 0x7fff_ffff_ffff_ffff,
            -0x8000_0000_0000_0000 <= y <= 0x7fff_ffff_ffff_ffff,
    ;
}

/// Whether every partial convolution sum stays in the double-width range
/// and every full convolution coefficient is representable.
pub open spec fn mul_fits(a: Seq<int>, b: Seq<int>) -> bool {
    (forall|k: int, j: int| i128::MIN <= #[trigger] conv_sum(a, b, k, j) <= i128::MAX)
        && (forall|k: int| i64::MIN <= #[trigger] cmul(a, b, k) <= i64::MAX)
}

impl FormalPowerSeries {
    /// Naive convolution product, canonicalized; each coefficient is
    /// accumulated in a double-width intermediate.
    pub fn mul(&self, rhs: &Self) -> (r: Self)
        requires
            self.wf(),
            rhs.wf(),
            self@.len() + rhs@.len() <= usize::MAX,
            mul_fits(self@, rhs@),
        ensures
            r.wf(),
            r@ == pcanon(pmul(self@, rhs@)),
    {
        let la = self.c.len();
        let lb = rhs.c.len();
        let n = la + lb - 1;
        let mut raw: Vec<i64> = Vec::new();
        let mut k: usize = 0;
        while k < n
            invariant
                la == self@.len(),
                lb == rhs@.len(),
                la >= 1,
                lb >= 1,
                n == la + lb - 1,
                k <= n,
                mul_fits(self@, rhs@),
                raw@.len() == k as int,
                forall|t: int| 0 <= t < k as int ==> raw@[t] as int == cmul(self@, rhs@, t),
            decreases n - k,
        {
            let mut acc: i128 = 0;
            let mut i: usize = 0;
            while i < la
                invariant
                    la == self@.len(),
                    lb == rhs@.len(),
                    i <= la,
                    mul_fits(self@, rhs@),
                    acc as int == conv_sum(self@, rhs@, k as int, i as int),
                decreases la - i,
            {
                if i <= k && k - i < lb {
                    proof {
                        assert(self.c@[i as int] as int == coef(self@, i as int));
                        assert(rhs.c@[(k - i) as int] as int == coef(rhs@, k as int - i as int));
                        lemma_i64_product_fits(
                            coef(self@, i as int),
                            coef(rhs@, k as int - i as int),
                        );
                        assert(i128::MIN <= conv_sum(self@, rhs@, k as int, i as int + 1)
                            <= i128::MAX);
                    }
                    acc = acc + (self.c[i] as i128) * (rhs.c[k - i] as i128);
                } else {
                    proof {
                        if i > k {
                            assert(coef(rhs@, k as int - i as int) == 0);
                        } else {
                            assert(coef(rhs@, k as int - i as int) == 0);
                        }
                        assert(coef(self@, i as int) * coef(rhs@, k as int - i as int) == 0) by {
                            vstd::arithmetic::mul::lemma_mul_by_zero_is_zero(
                                coef(self@, i as int),
                            );
                        }
                    }
                }
                i = i + 1;
            }
            proof {
                if la as int >= k as int + 1 {
                    lemma_conv_sum_past_k(self@, rhs@, k as int, k as int + 1, la as int);
                } else {
                    lemma_conv_sum_past_a(self@, rhs@, k as int, la as int, k as int + 1);
                }
                assert(acc as int == cmul(self@, rhs@, k as int));
            }
            raw.push(acc as i64);
            k = k + 1;
        }
        proof {
            assert(int_view(raw@) =~= pmul(self@, rhs@));
        }
        Self::from_coeff(raw)
    }
}

/// Canonicalization never lengthens a sequence and never empties one.
pub proof fn lemma_pcanon_len(s: Seq<int>)
    ensures
        pcanon(s).len() >= 1,
        s.len() >= 1 ==> pcanon(s).len() <= s.len(),
    decreases s.len(),
{
    if s.len() > 1 && s.last() == 0 {
        lemma_pcanon_len(s.drop_last());
    }
}

/// Exponentiation by squaring over canonicalized products: the power
/// `a^e`, computed with `O(log e)` multiplications.
pub open spec fn ppow_sq(a: Seq<int>, e: nat) -> Seq<int>
    decreases e,
{
    if e == 0 {
        seq![1int]
    } else {
        let sq = pcanon(pmul(a, a));
        let half = ppow_sq(sq, e / 2);
        if e % 2 == 1 {
            pcanon(pmul(half, a))
        } else {
            half
        }
    }
}

/// Whether every multiplication performed while raising `a` to the power
/// `e` stays representable.
pub open spec fn pow_fits(a: Seq<int>, e: nat) -> bool
    decreases e,
{
    e > 0 ==> {
        let sq = pcanon(pmul(a, a));
        &&& a.len() + a.len() <= usize::MAX
        &&& mul_fits(a, a)
        &&& pow_fits(sq, e / 2)
        &&& (e % 2 == 1 ==> ppow_sq(sq, e / 2).len() + a.len() <= usize::MAX && mul_fits(
            ppow_sq(sq, e / 2),
            a,
        ))
    }
}

/// The length `k + d.len()` sequence holding `c * d`, shifted up by `k`
/// powers: the subtrahend of one step of schoolbook division.
pub open spec fn shift_scale(d: Seq<int>, c: int, k: int) -> Seq<int> {
    Seq::new((k + d.len()) as nat, |i: int| if i >= k {
        c * d[i - k]
    } else {
        0
    })
}

/// Schoolbook division of `p` by a monic `d`: the quotient and remainder.
/// Each step cancels the dividend's leading term against
/// `lc * x^k * d` and recurses on the shortened remainder.
pub open spec fn pdivmod(p: Seq<int>, d: Seq<int>) -> (Seq<int>, Seq<int>)
    decreases p.len(),
    via pdivmod_decreases
{
    if d.len() <= 1 {
        (p, zero_poly())
    } else if p.len() < d.len() {
        (zero_poly(), p)
    } else {
        let k = p.len() - d.len();
        let lc = p.last();
        let reduced = pcanon(psub(p, shift_scale(d, lc, k)).take(p.len() - 1));
        let qr = pdivmod(reduced, d);
        (pcanon(padd(qr.0, pterm(lc, k))), qr.1)
    }
}

#[via_fn]
proof fn pdivmod_decreases(p: Seq<int>, d: Seq<int>) {
    if d.len() >= 2 && p.len() >= d.len() {
        let k = p.len() - d.len();
        let lc = p.last();
        lemma_pcanon_len(psub(p, shift_scale(d, lc, k)).take(p.len() - 1));
    }
}

/// Whether every step of dividing `p` by `d` stays representable: each
/// scaled divisor coefficient and each running difference fits.
pub open spec fn div_fits(p: Seq<int>, d: Seq<int>) -> bool
    decreases p.len(),
    via div_fits_decreases
{
    if d.len() <= 1 || p.len() < d.len() {
        true
    } else {
        let k = p.len() - d.len();
        let lc = p.last();
        let ss = shift_scale(d, lc, k);
        &&& (forall|i: int| i64::MIN <= #[trigger] (lc * coef(d, i)) <= i64::MAX)
        &&& sub_fits(p, ss)
        &&& div_fits(pcanon(psub(p, ss).take(p.len() - 1)), d)
    }
}

#[via_fn]
proof fn div_fits_decreases(p: Seq<int>, d: Seq<int>) {
    if d.len() >= 2 && p.len() >= d.len() {
        let k = p.len() - d.len();
        let lc = p.last();
        lemma_pcanon_len(psub(p, shift_scale(d, lc, k)).take(p.len() - 1));
    }
}

impl FormalPowerSeries {
    /// A copy of the polynomial.
    pub fn duplicate(&self) -> (r: Self)
        ensures
            r@ == self@,
    {
        FormalPowerSeries { c: self.coeff() }
    }

    /// The power `self^e`, by squaring, with every intermediate product
    /// canonicalized; the result is the `e`-fold product by the base.
    pub fn pow(&self, e: usize) -> (r: Self)
        requires
            self.wf(),
            pow_fits(self@, e as nat),
        ensures
            r.wf(),
            r@ == ppow_sq(self@, e as nat),
            r@ == ppow(self@, e as nat),
        decreases e,
    {
        proof {
            lemma_pow_is_iterated_mul(self@, e as nat);
        }
        if e == 0 {
            Self::one()
        } else {
            let sq = self.mul(self);
            let half = sq.pow(e / 2);
            if e % 2 == 1 {
                half.mul(self)
            } else {
                half
            }
        }
    }

    /// Schoolbook division by a monic divisor: quotient and remainder.
    fn divmod(&self, rhs: &Self) -> (r: (Self, Self))
        requires
            self.wf(),
            rhs.wf(),
            rhs@.last() == 1,
            div_fits(self@, rhs@),
        ensures
            r.0.wf(),
            r.1.wf(),
            r.0@ == pdivmod(self@, rhs@).0,
            r.1@ == pdivmod(self@, rhs@).1,
        decreases self@.len(),
    {
        let ghost p = self@;
        let ghost d = rhs@;
        if rhs.c.len() == 1 {
            let quotient = self.duplicate();
            let remainder = Self::zero();
            proof {
                assert(remainder@ == zero_poly());
            }
            (quotient, remainder)
        } else if self.c.len() < rhs.c.len() {
            let quotient = Self::zero();
            proof {
                assert(quotient@ == zero_poly());
            }
            (quotient, self.duplicate())
        } else {
            let k = self.c.len() - rhs.c.len();
            let lc = self.c[self.c.len() - 1];
            let ghost ss = shift_scale(d, lc as int, k as int);
            let mut raw: Vec<i64> = Vec::new();
            let mut i: usize = 0;
            while i < self.c.len() - 1
                invariant
                    self.wf(),
                    rhs.wf(),
                    d == rhs@,
                    p == self@,
                    rhs@.len() >= 2,
                    self@.len() >= rhs@.len(),
                    k == self@.len() - rhs@.len(),
                    lc as int == p.last(),
                    ss == shift_scale(d, lc as int, k as int),
                    div_fits(p, d),
                    i <= self@.len() - 1,
                    raw@.len() == i as int,
                    forall|j: int| 0 <= j < i as int ==> raw@[j] as int == coef(p, j) - coef(
                        ss,
                        j,
                    ),
                decreases self@.len() - 1 - i,
            {
                proof {
                    assert(self.c@[i as int] as int == coef(p, i as int));
                    if i >= k {
                        assert(rhs.c@[i as int - k as int] as int == coef(d, i as int - k as int));
                        assert(coef(ss, i as int) == lc as int * coef(d, i as int - k as int));
                        assert(i64::MIN <= lc as int * coef(d, i as int - k as int) <= i64::MAX);
                        assert(i64::MIN <= coef(p, i as int) - coef(ss, i as int) <= i64::MAX);
                    } else {
                        assert(coef(ss, i as int) == 0);
                    }
                }
                let entry = if i >= k {
                    self.c[i] - lc * rhs.c[i - k]
                } else {
                    self.c[i]
                };
                raw.push(entry);
                i = i + 1;
            }
            proof {
                assert(int_view(raw@) =~= psub(p, ss).take(p.len() - 1));
                lemma_pcanon_len(psub(p, ss).take(p.len() - 1));
            }
            let reduced = Self::from_coeff(raw);
            let (q0, r0) = reduced.divmod(rhs);
            proof {
                lemma_divmod_quotient_len(reduced@, d);
                lemma_pcanon_eqc(pterm(lc as int, k as int));
                assert(p.last() != 0);
                lemma_pcanon_identity(pterm(lc as int, k as int));
                assert(add_fits(q0@, pterm(lc as int, k as int))) by {
                    assert forall|j: int| i64::MIN <= #[trigger] (coef(q0@, j) + coef(
                        pterm(lc as int, k as int),
                        j,
                    )) <= i64::MAX by {
                        lemma_int_view_bounded(q0@, j);
                        if coef(pterm(lc as int, k as int), j) != 0 {
                            assert(j == k as int);
                            assert(coef(q0@, j) == 0);
                        }
                    }
                }
            }
            let term = Self::term(lc, k);
            let q = q0.add(&term);
            (q, r0)
        }
    }

    /// The quotient of division by a monic divisor; a divisor whose
    /// leading coefficient is not one is reported, never silently ignored.
    pub fn div(&self, rhs: &Self) -> (r: Result<Self, AlgebraError>)
        requires
            self.wf(),
            rhs.wf(),
            rhs@.last() == 1 ==> div_fits(self@, rhs@),
        ensures
            rhs@.last() != 1 ==> r == Err::<Self, AlgebraError>(AlgebraError::DivisorNotMonic),
            rhs@.last() == 1 ==> r is Ok && r->Ok_0@ == pdivmod(self@, rhs@).0 && r->Ok_0.wf(),
    {
        if rhs.leading_coefficient() != 1 {
            Err(AlgebraError::DivisorNotMonic)
        } else {
            let (q, _) = self.divmod(rhs);
            Ok(q)
        }
    }

    /// The remainder of division by a monic divisor; a divisor whose
    /// leading coefficient is not one is reported, never silently ignored.
    pub fn rem(&self, rhs: &Self) -> (r: Result<Self, AlgebraError>)
        requires
            self.wf(),
            rhs.wf(),
            rhs@.last() == 1 ==> div_fits(self@, rhs@),
        ensures
            rhs@.last() != 1 ==> r == Err::<Self, AlgebraError>(AlgebraError::DivisorNotMonic),
            rhs@.last() == 1 ==> r is Ok && r->Ok_0@ == pdivmod(self@, rhs@).1 && r->Ok_0.wf(),
    {
        if rhs.leading_coefficient() != 1 {
            Err(AlgebraError::DivisorNotMonic)
        } else {
            let (_, rest) = self.divmod(rhs);
            Ok(rest)
        }
    }
}

/// Every coefficient that comes out of a machine-integer vector is
/// representable.
proof fn lemma_int_view_bounded(s: Seq<int>, j: int)
    requires
        exists|v: Seq<i64>| s == int_view(v),
    ensures
        i64::MIN <= coef(s, j) <= i64::MAX,
{
    let v = choose|v: Seq<i64>| s == int_view(v);
    if 0 <= j < s.len() {
        assert(s[j] == v[j] as int);
    }
}

/// The quotient of `pdivmod` is canonical and no longer than the degree
/// difference allows; the remainder is canonical and shorter than the
/// divisor (or the zero polynomial).
pub proof fn lemma_divmod_quotient_len(p: Seq<int>, d: Seq<int>)
    requires
        is_canonical(p),
        is_canonical(d),
    ensures
        is_canonical(pdivmod(p, d).0),
        is_canonical(pdivmod(p, d).1),
        pdivmod(p, d).0.len() <= vstd::math::max(1, p.len() - d.len() + 1),
        pdivmod(p, d).1 == zero_poly() || pdivmod(p, d).1.len() < d.len(),
    decreases p.len(),
{
    if d.len() <= 1 {
    } else if p.len() < d.len() {
    } else {
        let k = p.len() - d.len();
        let lc = p.last();
        let inner = psub(p, shift_scale(d, lc, k)).take(p.len() - 1);
        let reduced = pcanon(inner);
        lemma_pcanon_len(inner);
        lemma_pcanon_eqc(inner);
        lemma_divmod_quotient_len(reduced, d);
        let q0 = pdivmod(reduced, d).0;
        let q = padd(q0, pterm(lc, k));
        lemma_pcanon_len(q);
    }
}

/// A convolution coefficient beyond the product's length is zero.
proof fn lemma_conv_sum_vanishes(a: Seq<int>, b: Seq<int>, k: int, j: int)
    requires
        k >= a.len() + b.len() - 1,
    ensures
        conv_sum(a, b, k, j) == 0,
    decreases j,
{
    if j > 0 {
        lemma_conv_sum_vanishes(a, b, k, j - 1);
        if j - 1 < a.len() {
            assert(coef(b, k - (j - 1)) == 0);
            vstd::arithmetic::mul::lemma_mul_by_zero_is_zero(coef(a, j - 1));
        } else {
            assert(coef(a, j - 1) == 0);
            vstd::arithmetic::mul::lemma_mul_by_zero_is_zero(coef(b, k - (j - 1)));
        }
    }
}

/// The coefficient function of a product is the convolution, inside and
/// outside the stored range.
proof fn lemma_coef_pmul(a: Seq<int>, b: Seq<int>, t: int)
    requires
        a.len() >= 1,
        b.len() >= 1,
    ensures
        coef(pmul(a, b), t) == cmul(a, b, t),
{
    if t >= a.len() + b.len() - 1 {
        lemma_conv_sum_vanishes(a, b, t, t + 1);
    }
}

/// The convolution respects coefficient-function equality in its left
/// factor.
proof fn lemma_conv_sum_left_eqc(a: Seq<int>, a2: Seq<int>, b: Seq<int>, k: int, j: int)
    requires
        eqc(a, a2),
    ensures
        conv_sum(a, b, k, j) == conv_sum(a2, b, k, j),
    decreases j,
{
    if j > 0 {
        lemma_conv_sum_left_eqc(a, a2, b, k, j - 1);
        assert(coef(a, j - 1) == coef(a2, j - 1));
    }
}

/// The convolution is additive in its left factor.
proof fn lemma_conv_sum_left_linear(x: Seq<int>, y: Seq<int>, z: Seq<int>, k: int, j: int)
    ensures
        conv_sum(padd(x, y), z, k, j) == conv_sum(x, z, k, j) + conv_sum(y, z, k, j),
    decreases j,
{
    if j > 0 {
        lemma_conv_sum_left_linear(x, y, z, k, j - 1);
        assert(coef(padd(x, y), j - 1) == coef(x, j - 1) + coef(y, j - 1));
        vstd::arithmetic::mul::lemma_mul_is_distributive_add_other_way(
            coef(z, k - (j - 1)),
            coef(x, j - 1),
            coef(y, j - 1),
        );
    }
}

/// Convolving a single term from the left picks out one scaled
/// coefficient of the other factor.
proof fn lemma_conv_sum_term(c: int, t: int, z: Seq<int>, k: int, j: int)
    requires
        t >= 0,
    ensures
        conv_sum(pterm(c, t), z, k, j) == if j > t {
            c * coef(z, k - t)
        } else {
            0
        },
    decreases j,
{
    if j > 0 {
        lemma_conv_sum_term(c, t, z, k, j - 1);
        if j - 1 != t {
            assert(coef(pterm(c, t), j - 1) == 0);
            vstd::arithmetic::mul::lemma_mul_by_zero_is_zero(coef(z, k - (j - 1)));
        } else {
            assert(coef(pterm(c, t), t) == c);
        }
    }
}

/// Convolving a single term from the right picks out one scaled
/// coefficient of the other factor.
proof fn lemma_conv_sum_term_right(z: Seq<int>, c: int, t: int, k: int, j: int)
    requires
        t >= 0,
    ensures
        conv_sum(z, pterm(c, t), k, j) == if j > k - t && k - t >= 0 {
            coef(z, k - t) * c
        } else {
            0
        },
    decreases j,
{
    if j > 0 {
        lemma_conv_sum_term_right(z, c, t, k, j - 1);
        if k - (j - 1) == t && 0 <= j - 1 {
            assert(coef(pterm(c, t), k - (j - 1)) == c);
        } else {
            assert(coef(pterm(c, t), k - (j - 1)) == 0);
            vstd::arithmetic::mul::lemma_mul_by_zero_is_zero(coef(z, j - 1));
        }
    }
}

/// One step's subtrahend, coefficient by coefficient: the divisor scaled
/// by `c` and shifted up by `k`.
proof fn lemma_coef_shift_scale(d: Seq<int>, c: int, k: int, t: int)
    requires
        k >= 0,
    ensures
        coef(shift_scale(d, c, k), t) == c * coef(d, t - k),
{
    if !(0 <= t - k < d.len()) {
        vstd::arithmetic::mul::lemma_mul_by_zero_is_zero(c);
    }
}

/// The division identity, coefficient by coefficient: quotient times
/// divisor plus remainder recovers the dividend.
proof fn lemma_divmod_eqc(p: Seq<int>, d: Seq<int>)
    requires
        is_canonical(p),
        is_canonical(d),
        d.last() == 1,
    ensures
        eqc(padd(pmul(pdivmod(p, d).0, d), pdivmod(p, d).1), p),
    decreases p.len(),
{
    let q = pdivmod(p, d).0;
    let r = pdivmod(p, d).1;
    let s = padd(pmul(q, d), r);
    if d.len() == 1 {
        assert(d =~= pterm(1, 0));
        assert forall|t: int| coef(s, t) == coef(p, t) by {
            lemma_coef_pmul(p, d, t);
            lemma_conv_sum_term_right(p, 1, 0, t, t + 1);
            if t >= 0 {
                assert(cmul(p, d, t) == coef(p, t) * 1);
            }
        }
    } else if p.len() < d.len() {
        assert(q =~= pterm(0, 0));
        assert forall|t: int| coef(s, t) == coef(p, t) by {
            lemma_coef_pmul(q, d, t);
            lemma_conv_sum_term(0, 0, d, t, t + 1);
            vstd::arithmetic::mul::lemma_mul_by_zero_is_zero(coef(d, t));
        }
    } else {
        let k = p.len() - d.len();
        let lc = p.last();
        let ss = shift_scale(d, lc, k);
        let inner = psub(p, ss).take(p.len() - 1);
        let reduced = pcanon(inner);
        let q0 = pdivmod(reduced, d).0;
        lemma_pcanon_eqc(inner);
        lemma_pcanon_len(inner);
        lemma_divmod_quotient_len(reduced, d);
        lemma_divmod_eqc(reduced, d);
        let q0d = pmul(q0, d);
        let mid = padd(q0d, r);
        lemma_pcanon_eqc(padd(q0, pterm(lc, k)));
        assert forall|t: int| coef(s, t) == coef(p, t) by {
            lemma_coef_pmul(q, d, t);
            lemma_conv_sum_left_eqc(q, padd(q0, pterm(lc, k)), d, t, t + 1);
            lemma_conv_sum_left_linear(q0, pterm(lc, k), d, t, t + 1);
            lemma_conv_sum_term(lc, k, d, t, t + 1);
            if t + 1 <= k {
                assert(coef(d, t - k) == 0);
                vstd::arithmetic::mul::lemma_mul_by_zero_is_zero(lc);
            }
            assert(cmul(q, d, t) == cmul(q0, d, t) + lc * coef(d, t - k));
            lemma_coef_pmul(q0, d, t);
            assert(coef(mid, t) == coef(reduced, t));
            assert(coef(reduced, t) == coef(inner, t));
            lemma_coef_shift_scale(d, lc, k, t);
            assert(coef(inner, t) == coef(p, t) - coef(ss, t)) by {
                if t == p.len() - 1 {
                    assert(coef(ss, t) == lc * coef(d, d.len() - 1));
                    assert(lc * 1 == lc) by (nonlinear_arith);
                } else if 0 <= t < p.len() - 1 {
                } else {
                }
            }
        }
    }
}

/// The division identity: for a monic divisor `d`, the quotient and
/// remainder of `pdivmod` satisfy `p == q * d + r` up to canonical form,
/// and the remainder's degree is below the divisor's.
pub proof fn lemma_divmod_identity(p: Seq<int>, d: Seq<int>)
    requires
        is_canonical(p),
        is_canonical(d),
        d.last() == 1,
    ensures
        pcanon(padd(pmul(pdivmod(p, d).0, d), pdivmod(p, d).1)) == p,
        pdivmod(p, d).1 == zero_poly() || pdivmod(p, d).1.len() < d.len(),
{
    lemma_divmod_eqc(p, d);
    lemma_eqc_pcanon(padd(pmul(pdivmod(p, d).0, d), pdivmod(p, d).1), p);
    lemma_pcanon_identity(p);
    lemma_divmod_quotient_len(p, d);
}

/// The character of a single decimal digit.
pub open spec fn digit_char(d: int) -> char {
    if d == 0 {
        '0'
    } else if d == 1 {
        '1'
    } else if d == 2 {
        '2'
    } else if d == 3 {
        '3'
    } else if d == 4 {
        '4'
    } else if d == 5 {
        '5'
    } else if d == 6 {
        '6'
    } else if d == 7 {
        '7'
    } else if d == 8 {
        '8'
    } else {
        '9'
    }
}

/// The decimal digits of a non-negative number, most significant first.
pub open spec fn dec_digits(n: int) -> Seq<char>
    decreases n,
{
    if n < 10 {
        seq![digit_char(n)]
    } else {
        dec_digits(n / 10).push(digit_char(n % 10))
    }
}

/// The decimal rendering of an integer, with a minus sign when negative.
pub open spec fn dec_str(v: int) -> Seq<char> {
    if v < 0 {
        seq!['-'] + dec_digits(-v)
    } else {
        dec_digits(v)
    }
}

/// The rendering of one non-zero term `c * x^p`: the coefficient `1` and
/// the powers one and zero are abbreviated.
pub open spec fn term_str(c: int, p: int) -> Seq<char> {
    if p == 0 {
        dec_str(c)
    } else if c == 1 && p == 1 {
        seq!['x']
    } else if c == 1 {
        seq!['x', '^'] + dec_str(p)
    } else if p == 1 {
        dec_str(c) + seq!['x']
    } else {
        dec_str(c) + seq!['x', '^'] + dec_str(p)
    }
}

/// The rendering of the terms at indices `s.len() - 1` down to `j`, in
/// descending power order: zero coefficients are omitted, and every term
/// after the leading one is preceded by the separator.
pub open spec fn render_acc(s: Seq<int>, j: int) -> Seq<char>
    decreases s.len() - j,
{
    if j < 0 || j >= s.len() {
        Seq::empty()
    } else {
        render_acc(s, j + 1) + (if s[j] == 0 {
            Seq::empty()
        } else {
            (if j != s.len() - 1 {
                seq![' ', '+', ' ']
            } else {
                Seq::<char>::empty()
            }) + term_str(s[j], j)
        })
    }
}

/// The rendering of a whole polynomial; the zero polynomial renders as the
/// empty string.
pub open spec fn render(s: Seq<int>) -> Seq<char> {
    render_acc(s, 0)
}

/// The collected low digits, least significant first, rendered back into
/// reading order.
spec fn rev_digit_chars(ds: Seq<u64>) -> Seq<char>
    decreases ds.len(),
{
    if ds.len() == 0 {
        Seq::empty()
    } else {
        rev_digit_chars(ds.drop_first()) + seq![digit_char(ds.first() as int)]
    }
}

/// Collecting one more digit prepends its character to the rendering.
proof fn lemma_rev_push(ds: Seq<u64>, d: u64)
    ensures
        rev_digit_chars(ds.push(d)) == seq![digit_char(d as int)] + rev_digit_chars(ds),
    decreases ds.len(),
{
    if ds.len() == 0 {
        assert(ds =~= Seq::<u64>::empty());
        assert(rev_digit_chars(Seq::<u64>::empty()) == Seq::<char>::empty());
        assert(ds.push(d).drop_first() =~= Seq::<u64>::empty());
        assert(ds.push(d).first() == d);
        assert(rev_digit_chars(ds.push(d)) == rev_digit_chars(ds.push(d).drop_first()) + seq![
            digit_char(d as int),
        ]);
        assert(rev_digit_chars(ds.push(d)) =~= seq![digit_char(d as int)] + rev_digit_chars(ds));
    } else {
        assert(ds.push(d).drop_first() =~= ds.drop_first().push(d));
        lemma_rev_push(ds.drop_first(), d);
        assert(ds.push(d).len() > 0);
        assert(ds.push(d).first() == ds.first());
        assert(rev_digit_chars(ds.push(d)) == rev_digit_chars(ds.push(d).drop_first()) + seq![
            digit_char(ds.push(d).first() as int),
        ]);
        assert(rev_digit_chars(ds.push(d).drop_first()) == rev_digit_chars(
            ds.drop_first().push(d),
        ));
        assert(rev_digit_chars(ds.push(d)) =~= seq![digit_char(d as int)] + rev_digit_chars(ds));
    }
}

/// Appends the character of one decimal digit.
fn push_digit(out: &mut String, d: u64)
    requires
        d < 10,
    ensures
        final(out)@ == old(out)@ + seq![digit_char(d as int)],
{
    if d == 0 {
        out.append("0");
        proof {
            reveal_strlit("0");
            assert(out@ =~= old(out)@ + seq![digit_char(d as int)]);
        }
    } else if d == 1 {
        out.append("1");
        proof {
            reveal_strlit("1");
            assert(out@ =~= old(out)@ + seq![digit_char(d as int)]);
        }
    } else if d == 2 {
        out.append("2");
        proof {
            reveal_strlit("2");
            assert(out@ =~= old(out)@ + seq![digit_char(d as int)]);
        }
    } else if d == 3 {
        out.append("3");
        proof {
            reveal_strlit("3");
            assert(out@ =~= old(out)@ + seq![digit_char(d as int)]);
        }
    } else if d == 4 {
        out.append("4");
        proof {
            reveal_strlit("4");
            assert(out@ =~= old(out)@ + seq![digit_char(d as int)]);
        }
    } else if d == 5 {
        out.append("5");
        proof {
            reveal_strlit("5");
            assert(out@ =~= old(out)@ + seq![digit_char(d as int)]);
        }
    } else if d == 6 {
        out.append("6");
        proof {
            reveal_strlit("6");
            assert(out@ =~= old(out)@ + seq![digit_char(d as int)]);
        }
    } else if d == 7 {
        out.append("7");
        proof {
            reveal_strlit("7");
            assert(out@ =~= old(out)@ + seq![digit_char(d as int)]);
        }
    } else if d == 8 {
        out.append("8");
        proof {
            reveal_strlit("8");
            assert(out@ =~= old(out)@ + seq![digit_char(d as int)]);
        }
    } else {
        out.append("9");
        proof {
            reveal_strlit("9");
            assert(out@ =~= old(out)@ + seq![digit_char(d as int)]);
        }
    }
}

/// Renders a machine integer in decimal: the digits of its absolute
/// value, most significant first, with a leading minus sign when it is
/// negative.
fn i64_to_string(v: i64) -> (r: String)
    ensures
        r@ == dec_str(v as int),
{
    let mut out = String::new();
    let negative = v < 0;
    let n: u64 = if v < 0 {
        (-(v + 1)) as u64 + 1
    } else {
        v as u64
    };
    proof {
        if v < 0 {
            assert(n as int == -(v as int));
        }
    }
    if negative {
        out.append("-");
        proof {
            reveal_strlit("-");
            assert(out@ =~= seq!['-']);
        }
    }
    let ghost sign = out@;
    let mut rest: Vec<u64> = Vec::new();
    let mut m: u64 = n;
    while m >= 10
        invariant
            dec_digits(n as int) == dec_digits(m as int) + rev_digit_chars(rest@),
            forall|t: int| 0 <= t < rest@.len() ==> rest@[t] < 10,
        decreases m,
    {
        let ghost before = rest@;
        let d = m % 10;
        rest.push(d);
        proof {
            lemma_rev_push(before, d);
            assert(dec_digits(m as int) == dec_digits(m as int / 10).push(
                digit_char(m as int % 10),
            ));
            assert(dec_digits(m as int / 10) + rev_digit_chars(rest@) =~= dec_digits(
                m as int,
            ) + rev_digit_chars(before));
        }
        m = m / 10;
    }
    push_digit(&mut out, m);
    let ghost lead = sign + seq![digit_char(m as int)];
    proof {
        assert(out@ =~= lead);
        assert(rest@.skip(rest@.len() as int) =~= Seq::<u64>::empty());
        assert(out@ =~= lead + rev_digit_chars(rest@.skip(rest@.len() as int)));
    }
    let mut j: usize = rest.len();
    while j > 0
        invariant
            j <= rest@.len(),
            forall|t: int| 0 <= t < rest@.len() ==> rest@[t] < 10,
            lead == sign + seq![digit_char(m as int)],
            out@ == lead + rev_digit_chars(rest@.skip(j as int)),
        decreases j,
    {
        j = j - 1;
        let ghost suffix = rest@.skip(j as int + 1);
        push_digit(&mut out, rest[j]);
        proof {
            assert(rest@.skip(j as int).drop_first() =~= suffix);
            assert(rest@.skip(j as int).first() == rest@[j as int]);
            assert(out@ =~= lead + rev_digit_chars(rest@.skip(j as int)));
        }
    }
    proof {
        assert(rest@.skip(0) =~= rest@);
        if v < 0 {
            assert(out@ =~= seq!['-'] + dec_digits(-(v as int)));
        } else {
            assert(out@ =~= dec_digits(v as int));
        }
    }
    out
}

impl FormalPowerSeries {
    /// Renders the polynomial in descending power order under the display
    /// rules: zero terms omitted, ` + ` between terms, the coefficient `1`
    /// and the powers one and zero abbreviated.
    pub fn to_display_string(&self) -> (r: String)
        requires
            self.wf(),
            self@.len() <= i64::MAX,
        ensures
            r@ == render(self@),
    {
        let mut out = String::new();
        let mut j: usize = self.c.len();
        proof {
            assert(out@ =~= render_acc(self@, j as int));
        }
        while j > 0
            invariant
                self.wf(),
                self@.len() <= i64::MAX,
                j <= self.c@.len(),
                out@ == render_acc(self@, j as int),
            decreases j,
        {
            j = j - 1;
            let ghost above = out@;
            let cj = self.c[j];
            proof {
                assert(cj as int == self@[j as int]);
            }
            if cj != 0 {
                if j != self.c.len() - 1 {
                    out.append(" + ");
                    proof {
                        reveal_strlit(" + ");
                        assert(" + "@ =~= seq![' ', '+', ' ']);
                    }
                }
                let ghost with_sep = out@;
                if j == 0 {
                    let digits = i64_to_string(cj);
                    out.append(digits.as_str());
                } else if cj == 1 && j == 1 {
                    out.append("x");
                    proof {
                        reveal_strlit("x");
                        assert("x"@ =~= seq!['x']);
                    }
                } else if cj == 1 {
                    out.append("x^");
                    let digits = i64_to_string(j as i64);
                    out.append(digits.as_str());
                    proof {
                        reveal_strlit("x^");
                        assert("x^"@ =~= seq!['x', '^']);
                    }
                } else if j == 1 {
                    let digits = i64_to_string(cj);
                    out.append(digits.as_str());
                    out.append("x");
                    proof {
                        reveal_strlit("x");
                        assert("x"@ =~= seq!['x']);
                    }
                } else {
                    let digits = i64_to_string(cj);
                    out.append(digits.as_str());
                    out.append("x^");
                    let power = i64_to_string(j as i64);
                    out.append(power.as_str());
                    proof {
                        reveal_strlit("x^");
                        assert("x^"@ =~= seq!['x', '^']);
                    }
                }
                proof {
                    assert(out@ =~= with_sep + term_str(self@[j as int], j as int));
                }
            }
            proof {
                assert(out@ =~= render_acc(self@, j as int));
            }
        }
        out
    }


    /// In-place pointwise addition.
    pub fn add_assign(&mut self, rhs: &Self)
        requires
            old(self).wf(),
            rhs.wf(),
            add_fits(old(self)@, rhs@),
        ensures
            final(self).wf(),
            final(self)@ == pcanon(padd(old(self)@, rhs@)),
    {
        *self = self.add(rhs);
    }

    /// In-place pointwise subtraction.
    pub fn sub_assign(&mut self, rhs: &Self)
        requires
            old(self).wf(),
            rhs.wf(),
            sub_fits(old(self)@, rhs@),
        ensures
            final(self).wf(),
            final(self)@ == pcanon(psub(old(self)@, rhs@)),
    {
        *self = self.sub(rhs);
    }

    /// In-place convolution product.
    pub fn mul_assign(&mut self, rhs: &Self)
        requires
            old(self).wf(),
            rhs.wf(),
            old(self)@.len() + rhs@.len() <= usize::MAX,
            mul_fits(old(self)@, rhs@),
        ensures
            final(self).wf(),
            final(self)@ == pcanon(pmul(old(self)@, rhs@)),
    {
        *self = self.mul(rhs);
    }

    /// The derivative: each coefficient multiplied by its power, shifted
    /// down by one.
    pub fn diff(&self) -> (r: Self)
        requires
            self.wf(),
            self@.len() <= i64::MAX,
            forall|i: int| 0 <= i < self@.len() ==> i64::MIN <= #[trigger] (self@[i] * i)
                <= i64::MAX,
        ensures
            r.wf(),
            r@ == pcanon(pdiff(self@)),
    {
        let mut raw: Vec<i64> = Vec::new();
        let mut i: usize = 1;
        while i < self.c.len()
            invariant
                self.wf(),
                self@.len() <= i64::MAX,
                forall|t: int| 0 <= t < self@.len() ==> i64::MIN <= #[trigger] (self@[t] * t)
                    <= i64::MAX,
                1 <= i <= self.c@.len() || (self.c@.len() == 1 && i == 1),
                raw@.len() == i as int - 1,
                forall|t: int| 0 <= t < i as int - 1 ==> raw@[t] as int == self@[t + 1] * (t + 1),
            decreases self.c@.len() - i,
        {
            proof {
                assert(self.c@[i as int] as int == self@[i as int]);
                assert(i64::MIN <= self@[i as int] * (i as int) <= i64::MAX);
            }
            raw.push(self.c[i] * (i as i64));
            i = i + 1;
        }
        proof {
            assert(int_view(raw@) =~= pdiff(self@));
        }
        Self::from_coeff(raw)
    }

    /// Normalization to a monic polynomial: deliberately unsupported.
    pub fn monic(&self) -> (r: Result<Self, AlgebraError>)
        ensures
            r is Err && r->Err_0 == AlgebraError::Unimplemented,
    {
        Err(AlgebraError::Unimplemented)
    }

    /// Evaluation at a point: deliberately unsupported.
    pub fn dubs(&self, x: i64) -> (r: Result<i64, AlgebraError>)
        ensures
            r is Err && r->Err_0 == AlgebraError::Unimplemented,
    {
        Err(AlgebraError::Unimplemented)
    }

    /// The logarithm of a power series: deliberately unsupported.
    pub fn log(&self) -> (r: Result<Self, AlgebraError>)
        ensures
            r is Err && r->Err_0 == AlgebraError::Unimplemented,
    {
        Err(AlgebraError::Unimplemented)
    }

    /// Pseudo-division: deliberately unsupported.
    pub fn pseudo_div(&self, rhs: &Self) -> (r: Result<Self, AlgebraError>)
        ensures
            r is Err && r->Err_0 == AlgebraError::Unimplemented,
    {
        Err(AlgebraError::Unimplemented)
    }

    /// Pseudo-remainder: deliberately unsupported.
    pub fn pseudo_rem(&self, rhs: &Self) -> (r: Result<Self, AlgebraError>)
        ensures
            r is Err && r->Err_0 == AlgebraError::Unimplemented,
    {
        Err(AlgebraError::Unimplemented)
    }

    /// The polynomial greatest common divisor: deliberately unsupported.
    pub fn gcd(&self, rhs: &Self) -> (r: Result<Self, AlgebraError>)
        ensures
            r is Err && r->Err_0 == AlgebraError::Unimplemented,
    {
        Err(AlgebraError::Unimplemented)
    }

    /// The antiderivative, which integer coefficients cannot represent
    /// exactly: deliberately unsupported.
    pub fn integral(&self) -> (r: Result<Self, AlgebraError>)
        ensures
            r is Err && r->Err_0 == AlgebraError::Unimplemented,
    {
        Err(AlgebraError::Unimplemented)
    }
}

/// The coefficient sequence of the derivative.
pub open spec fn pdiff(s: Seq<int>) -> Seq<int> {
    Seq::new((s.len() - 1) as nat, |i: int| s[i + 1] * (i + 1))
}

impl ScalarMul for FormalPowerSeries {
    open spec fn scalar_mul_req(&self, e: nat) -> bool {
        self.wf() && e <= i64::MAX && (forall|i: int|
            0 <= i < self@.len() ==> i64::MIN <= #[trigger] (self@[i] * e) <= i64::MAX)
    }

    open spec fn scalar_mul_post(&self, e: nat, r: &Self) -> bool {
        r.wf() && r@ == pcanon(Seq::new(self@.len(), |i: int| self@[i] * e))
    }

    fn scalar_mul(&self, e: usize) -> (r: Self) {
        let mut raw: Vec<i64> = Vec::new();
        let mut i: usize = 0;
        while i < self.c.len()
            invariant
                self.wf(),
                e <= i64::MAX,
                forall|t: int| 0 <= t < self@.len() ==> i64::MIN <= #[trigger] (self@[t]
                    * (e as nat)) <= i64::MAX,
                i <= self.c@.len(),
                raw@.len() == i as int,
                forall|t: int| 0 <= t < i as int ==> raw@[t] as int == self@[t] * (e as nat),
            decreases self.c@.len() - i,
        {
            proof {
                assert(self.c@[i as int] as int == self@[i as int]);
                assert(i64::MIN <= self@[i as int] * (e as nat) <= i64::MAX);
            }
            raw.push(self.c[i] * (e as i64));
            i = i + 1;
        }
        proof {
            assert(int_view(raw@) =~= Seq::new(self@.len(), |i: int| self@[i] * (e as nat)));
        }
        Self::from_coeff(raw)
    }
}

impl ScalarPow for FormalPowerSeries {
    open spec fn scalar_pow_req(&self, e: nat) -> bool {
        self.wf() && pow_fits(self@, e)
    }

    open spec fn scalar_pow_post(&self, e: nat, r: &Self) -> bool {
        r.wf() && r@ == ppow(self@, e)
    }

    fn scalar_pow(&self, e: usize) -> (r: Self) {
        self.pow(e)
    }
}



/// The convolution is subtractive in its left factor.
proof fn lemma_conv_sum_left_sub(x: Seq<int>, y: Seq<int>, z: Seq<int>, k: int, j: int)
    ensures
        conv_sum(psub(x, y), z, k, j) == conv_sum(x, z, k, j) - conv_sum(y, z, k, j),
    decreases j,
{
    if j > 0 {
        lemma_conv_sum_left_sub(x, y, z, k, j - 1);
        assert(coef(psub(x, y), j - 1) == coef(x, j - 1) - coef(y, j - 1));
        vstd::arithmetic::mul::lemma_mul_is_distributive_sub_other_way(
            coef(z, k - (j - 1)),
            coef(x, j - 1),
            coef(y, j - 1),
        );
    }
}

/// Against a factor whose coefficients vanish above `t`, the convolution
/// coefficient at `t + d.len() - 1` reduces to one product.
proof fn lemma_conv_sum_dominant(w: Seq<int>, d: Seq<int>, t: int, k: int, j: int)
    requires
        d.len() >= 1,
        t >= 0,
        k == t + d.len() - 1,
        forall|s: int| s > t ==> coef(w, s) == 0,
    ensures
        conv_sum(w, d, k, j) == if j > t {
            coef(w, t) * d.last()
        } else {
            0
        },
    decreases j,
{
    if j > 0 {
        lemma_conv_sum_dominant(w, d, t, k, j - 1);
        if j - 1 < t {
            assert(coef(d, k - (j - 1)) == 0);
            vstd::arithmetic::mul::lemma_mul_by_zero_is_zero(coef(w, j - 1));
        } else if j - 1 == t {
            assert(coef(d, k - t) == d.last());
        } else {
            assert(coef(w, j - 1) == 0);
            vstd::arithmetic::mul::lemma_mul_by_zero_is_zero(coef(d, k - (j - 1)));
        }
    }
}

/// Two coefficient functions that differ somewhere differ at a last
/// index, past which they agree.
proof fn lemma_last_difference(a: Seq<int>, b: Seq<int>, bound: int)
    requires
        !eqc(a, b),
        bound >= 0,
        forall|s: int| s >= bound ==> coef(a, s) == coef(b, s),
    ensures
        exists|t: int|
            0 <= t && #[trigger] coef(a, t) != coef(b, t) && (forall|s: int|
                s > t ==> coef(a, s) == coef(b, s)),
    decreases bound,
{
    if bound == 0 {
        assert(forall|s: int| s < 0 ==> coef(a, s) == coef(b, s));
        assert(eqc(a, b));
        assert(false);
    } else if coef(a, bound - 1) != coef(b, bound - 1) {
        let t = bound - 1;
        assert(0 <= t && coef(a, t) != coef(b, t) && (forall|s: int|
            s > t ==> coef(a, s) == coef(b, s)));
    } else {
        lemma_last_difference(a, b, bound - 1);
    }
}

/// Division by a monic divisor is unique: any quotient and remainder
/// that satisfy the division identity, with the remainder below the
/// divisor's degree, are the quotient and remainder.
pub proof fn lemma_divmod_unique(
    p: Seq<int>,
    d: Seq<int>,
    q1: Seq<int>,
    r1: Seq<int>,
    q2: Seq<int>,
    r2: Seq<int>,
)
    requires
        is_canonical(p),
        is_canonical(d),
        d.last() == 1,
        is_canonical(q1),
        is_canonical(r1),
        is_canonical(q2),
        is_canonical(r2),
        pcanon(padd(pmul(q1, d), r1)) == p,
        pcanon(padd(pmul(q2, d), r2)) == p,
        r1 == zero_poly() || r1.len() < d.len(),
        r2 == zero_poly() || r2.len() < d.len(),
    ensures
        q1 == q2,
        r1 == r2,
{
    let a1 = padd(pmul(q1, d), r1);
    let a2 = padd(pmul(q2, d), r2);
    lemma_pcanon_eqc(a1);
    lemma_pcanon_eqc(a2);
    assert(forall|t: int| coef(a1, t) == coef(a2, t));
    assert(forall|t: int|
        #[trigger] cmul(q1, d, t) + coef(r1, t) == cmul(q2, d, t) + coef(r2, t)) by {
        assert forall|t: int|
            #[trigger] cmul(q1, d, t) + coef(r1, t) == cmul(q2, d, t) + coef(r2, t) by {
            lemma_coef_pmul(q1, d, t);
            lemma_coef_pmul(q2, d, t);
            assert(coef(a1, t) == coef(pmul(q1, d), t) + coef(r1, t));
            assert(coef(a2, t) == coef(pmul(q2, d), t) + coef(r2, t));
        }
    }
    // Quotients: a last disagreement would surface, scaled by the monic
    // leading coefficient, in the product at one index where both
    // remainders are already zero.
    assert(eqc(q1, q2)) by {
        if !eqc(q1, q2) {
            let bound = vstd::math::max(q1.len() as int, q2.len() as int);
            lemma_last_difference(q1, q2, bound);
            let t = choose|t: int|
                0 <= t && #[trigger] coef(q1, t) != coef(q2, t) && (forall|s: int|
                    s > t ==> coef(q1, s) == coef(q2, s));
            let delta = psub(q1, q2);
            assert(forall|s: int| s > t ==> coef(delta, s) == 0);
            let k = t + d.len() - 1;
            lemma_conv_sum_left_sub(q1, q2, d, k, k + 1);
            lemma_conv_sum_dominant(delta, d, t, k, k + 1);
            assert(coef(delta, t) * d.last() == coef(delta, t) * 1);
            assert(coef(r1, k) == 0) by {
                if r1 == zero_poly() {
                    if 0 <= k < r1.len() {
                        assert(r1[k] == 0);
                    }
                }
            }
            assert(coef(r2, k) == 0) by {
                if r2 == zero_poly() {
                    if 0 <= k < r2.len() {
                        assert(r2[k] == 0);
                    }
                }
            }
            assert(cmul(q1, d, k) + coef(r1, k) == cmul(q2, d, k) + coef(r2, k));
            assert(coef(delta, t) == coef(q1, t) - coef(q2, t));
            assert(false);
        }
    }
    lemma_eqc_pcanon(q1, q2);
    lemma_pcanon_identity(q1);
    lemma_pcanon_identity(q2);
    assert(eqc(r1, r2)) by {
        assert forall|t: int| coef(r1, t) == coef(r2, t) by {
            lemma_conv_sum_left_eqc(q1, q2, d, t, t + 1);
            assert(cmul(q1, d, t) + coef(r1, t) == cmul(q2, d, t) + coef(r2, t));
        }
    }
    lemma_eqc_pcanon(r1, r2);
    lemma_pcanon_identity(r1);
    lemma_pcanon_identity(r2);
}

/// The convolution respects coefficient-function equality in its right
/// factor.
proof fn lemma_conv_sum_right_eqc(x: Seq<int>, b: Seq<int>, b2: Seq<int>, k: int, j: int)
    requires
        eqc(b, b2),
    ensures
        conv_sum(x, b, k, j) == conv_sum(x, b2, k, j),
    decreases j,
{
    if j > 0 {
        lemma_conv_sum_right_eqc(x, b, b2, k, j - 1);
        assert(coef(b, k - (j - 1)) == coef(b2, k - (j - 1)));
    }
}

/// The convolution is additive in its right factor, taken coefficient
/// function by coefficient function.
proof fn lemma_conv_sum_right_split(
    x: Seq<int>,
    a: Seq<int>,
    b: Seq<int>,
    c: Seq<int>,
    k: int,
    j: int,
)
    requires
        forall|i: int| coef(a, i) == coef(b, i) + coef(c, i),
    ensures
        conv_sum(x, a, k, j) == conv_sum(x, b, k, j) + conv_sum(x, c, k, j),
    decreases j,
{
    if j > 0 {
        lemma_conv_sum_right_split(x, a, b, c, k, j - 1);
        assert(coef(a, k - (j - 1)) == coef(b, k - (j - 1)) + coef(c, k - (j - 1)));
        vstd::arithmetic::mul::lemma_mul_is_distributive_add(
            coef(x, j - 1),
            coef(b, k - (j - 1)),
            coef(c, k - (j - 1)),
        );
    }
}

/// Convolving against a scaled, shifted factor scales the shifted
/// convolution.
proof fn lemma_conv_sum_scale_shift(x: Seq<int>, y: Seq<int>, c: int, t: int, k: int, j: int)
    requires
        t >= 0,
    ensures
        conv_sum(x, shift_scale(y, c, t), k, j) == c * conv_sum(x, y, k - t, j),
    decreases j,
{
    if j <= 0 {
        vstd::arithmetic::mul::lemma_mul_by_zero_is_zero(c);
    } else {
        lemma_conv_sum_scale_shift(x, y, c, t, k, j - 1);
        lemma_coef_shift_scale(y, c, t, k - (j - 1));
        let xi = coef(x, j - 1);
        let yi = coef(y, k - t - (j - 1));
        let s0 = conv_sum(x, y, k - t, j - 1);
        assert(xi * (c * yi) == c * (xi * yi)) by (nonlinear_arith);
        vstd::arithmetic::mul::lemma_mul_is_distributive_add(c, s0, xi * yi);
    }
}

/// One step of associativity: multiplying a product by a single term on
/// the right associates.
proof fn lemma_cmul_assoc_term(x: Seq<int>, y: Seq<int>, c: int, t: int, k: int)
    requires
        x.len() >= 1,
        y.len() >= 1,
        t >= 0,
    ensures
        cmul(pmul(x, y), pterm(c, t), k) == cmul(x, pmul(y, pterm(c, t)), k),
{
    let p = pmul(x, y);
    let ss = shift_scale(y, c, t);
    // The left side picks one scaled coefficient of the product.
    lemma_conv_sum_term_right(p, c, t, k, k + 1);
    lemma_coef_pmul(x, y, k - t);
    // The right factor is the shifted, scaled copy of y.
    assert(eqc(pmul(y, pterm(c, t)), ss)) by {
        assert forall|i: int| coef(pmul(y, pterm(c, t)), i) == coef(ss, i) by {
            lemma_coef_pmul(y, pterm(c, t), i);
            lemma_conv_sum_term_right(y, c, t, i, i + 1);
            lemma_coef_shift_scale(y, c, t, i);
            if !(i >= t) {
                vstd::arithmetic::mul::lemma_mul_by_zero_is_zero(c);
            }
            assert(coef(y, i - t) * c == c * coef(y, i - t)) by (nonlinear_arith);
        }
    }
    lemma_conv_sum_right_eqc(x, pmul(y, pterm(c, t)), ss, k, k + 1);
    lemma_conv_sum_scale_shift(x, y, c, t, k, k + 1);
    lemma_conv_sum_past_k(x, y, k - t, k - t + 1, k + 1);
    assert(cmul(x, y, k - t) * c == c * cmul(x, y, k - t)) by (nonlinear_arith);
    if k - t < 0 {
        vstd::arithmetic::mul::lemma_mul_by_zero_is_zero(c);
    }
}

/// Associativity of the convolution, coefficient by coefficient.
proof fn lemma_cmul_assoc(x: Seq<int>, y: Seq<int>, z: Seq<int>, k: int)
    requires
        x.len() >= 1,
        y.len() >= 1,
        z.len() >= 1,
    ensures
        cmul(pmul(x, y), z, k) == cmul(x, pmul(y, z), k),
    decreases z.len(),
{
    if z.len() == 1 {
        assert(z =~= pterm(z[0], 0));
        lemma_cmul_assoc_term(x, y, z[0], 0, k);
    } else {
        let zlow = z.drop_last();
        let top = pterm(z.last(), z.len() - 1);
        assert(forall|j: int| coef(z, j) == coef(zlow, j) + coef(top, j));
        // Split the left side over the top term of z.
        lemma_conv_sum_right_split(pmul(x, y), z, zlow, top, k, k + 1);
        lemma_cmul_assoc(x, y, zlow, k);
        lemma_cmul_assoc_term(x, y, z.last(), z.len() - 1, k);
        // Split the right side the same way.
        assert(forall|j: int|
            coef(pmul(y, z), j) == coef(pmul(y, zlow), j) + coef(pmul(y, top), j)) by {
            assert forall|j: int|
                coef(pmul(y, z), j) == coef(pmul(y, zlow), j) + coef(pmul(y, top), j) by {
                lemma_coef_pmul(y, z, j);
                lemma_coef_pmul(y, zlow, j);
                lemma_coef_pmul(y, top, j);
                lemma_conv_sum_right_split(y, z, zlow, top, j, j + 1);
            }
        }
        lemma_conv_sum_right_split(x, pmul(y, z), pmul(y, zlow), pmul(y, top), k, k + 1);
    }
}

/// Associativity of the canonicalized product on canonical polynomials.
pub proof fn lemma_pmulc_assoc(a: Seq<int>, b: Seq<int>, c: Seq<int>)
    requires
        is_canonical(a),
        is_canonical(b),
        is_canonical(c),
    ensures
        pcanon(pmul(pcanon(pmul(a, b)), c)) == pcanon(pmul(a, pcanon(pmul(b, c)))),
{
    let ab = pmul(a, b);
    let bc = pmul(b, c);
    lemma_pcanon_eqc(ab);
    lemma_pcanon_eqc(bc);
    lemma_pcanon_len(ab);
    lemma_pcanon_len(bc);
    assert(eqc(pmul(pcanon(ab), c), pmul(a, pcanon(bc)))) by {
        assert forall|k: int| coef(pmul(pcanon(ab), c), k) == coef(pmul(a, pcanon(bc)), k) by {
            lemma_coef_pmul(pcanon(ab), c, k);
            lemma_conv_sum_left_eqc(pcanon(ab), ab, c, k, k + 1);
            lemma_cmul_assoc(a, b, c, k);
            lemma_conv_sum_right_eqc(a, bc, pcanon(bc), k, k + 1);
            lemma_coef_pmul(a, pcanon(bc), k);
        }
    }
    lemma_eqc_pcanon(pmul(pcanon(ab), c), pmul(a, pcanon(bc)));
}

/// Multiplying by the constant one, on either side, returns the
/// polynomial.
pub proof fn lemma_pmulc_one(a: Seq<int>)
    requires
        is_canonical(a),
    ensures
        pcanon(pmul(a, seq![1int])) == a,
        pcanon(pmul(seq![1int], a)) == a,
{
    let one = seq![1int];
    assert(one =~= pterm(1, 0));
    assert(eqc(pmul(a, one), a)) by {
        assert forall|k: int| coef(pmul(a, one), k) == coef(a, k) by {
            lemma_coef_pmul(a, one, k);
            lemma_conv_sum_term_right(a, 1, 0, k, k + 1);
            assert(coef(a, k) * 1 == coef(a, k)) by (nonlinear_arith);
        }
    }
    lemma_eqc_pcanon(pmul(a, one), a);
    assert(eqc(pmul(one, a), a)) by {
        assert forall|k: int| coef(pmul(one, a), k) == coef(a, k) by {
            lemma_coef_pmul(one, a, k);
            lemma_conv_sum_term(1, 0, a, k, k + 1);
            if k >= 0 {
                assert(1 * coef(a, k) == coef(a, k)) by (nonlinear_arith);
            }
        }
    }
    lemma_eqc_pcanon(pmul(one, a), a);
    lemma_pcanon_identity(a);
}

/// The power of a polynomial by repeated multiplication: `e` factors of
/// `a`, each product canonicalized.
pub open spec fn ppow(a: Seq<int>, e: nat) -> Seq<int>
    decreases e,
{
    if e == 0 {
        seq![1int]
    } else {
        pcanon(pmul(ppow(a, (e - 1) as nat), a))
    }
}

/// Every repeated-multiplication power is canonical.
proof fn lemma_ppow_canonical(a: Seq<int>, e: nat)
    ensures
        is_canonical(ppow(a, e)),
{
    if e != 0 {
        lemma_pcanon_eqc(pmul(ppow(a, (e - 1) as nat), a));
    }
}

/// Powers multiply by adding exponents.
proof fn lemma_ppow_add(a: Seq<int>, m: nat, n: nat)
    requires
        is_canonical(a),
    ensures
        ppow(a, m + n) == pcanon(pmul(ppow(a, m), ppow(a, n))),
    decreases n,
{
    lemma_ppow_canonical(a, m);
    if n == 0 {
        lemma_pmulc_one(ppow(a, m));
    } else {
        lemma_ppow_add(a, m, (n - 1) as nat);
        lemma_ppow_canonical(a, (n - 1) as nat);
        lemma_pmulc_assoc(ppow(a, m), ppow(a, (n - 1) as nat), a);
        assert(ppow(a, m + n) == pcanon(pmul(ppow(a, (m + n - 1) as nat), a)));
    }
}

/// A power of the canonicalized square is the doubled power.
proof fn lemma_ppow_square(a: Seq<int>, k: nat)
    requires
        is_canonical(a),
    ensures
        ppow(pcanon(pmul(a, a)), k) == ppow(a, 2 * k),
    decreases k,
{
    let sq = pcanon(pmul(a, a));
    lemma_pcanon_eqc(pmul(a, a));
    assert(sq == ppow(a, 2)) by {
        lemma_pmulc_one(a);
        assert(ppow(a, 0) == seq![1int]);
        assert(ppow(a, 1) == pcanon(pmul(ppow(a, 0), a)));
        assert(ppow(a, 1) == a);
        assert(ppow(a, 2) == pcanon(pmul(ppow(a, 1), a)));
    }
    if k != 0 {
        lemma_ppow_square(a, (k - 1) as nat);
        assert(ppow(sq, k) == pcanon(pmul(ppow(a, (2 * k - 2) as nat), sq)));
        lemma_ppow_add(a, (2 * k - 2) as nat, 2);
    }
}

/// Exponentiation by squaring computes the repeated-multiplication power:
/// `pow` yields exactly `e` successive canonicalized products by the
/// base.
pub proof fn lemma_pow_is_iterated_mul(a: Seq<int>, e: nat)
    requires
        is_canonical(a),
    ensures
        ppow_sq(a, e) == ppow(a, e),
    decreases e,
{
    if e != 0 {
        let sq = pcanon(pmul(a, a));
        lemma_pcanon_eqc(pmul(a, a));
        lemma_pow_is_iterated_mul(sq, e / 2);
        lemma_ppow_square(a, e / 2);
        if e % 2 == 1 {
            assert(e == 2 * (e / 2) + 1);
            assert(ppow(a, 2 * (e / 2) + 1) == pcanon(pmul(ppow(a, 2 * (e / 2)), a)));
        } else {
            assert(e == 2 * (e / 2));
        }
    }
}

impl Zero for FormalPowerSeries {
    open spec fn is_zero_spec(&self) -> bool {
        self@ == zero_poly()
    }

    fn zero() -> (r: Self) {
        let mut v: Vec<i64> = Vec::new();
        v.push(0);
        proof {
            assert(int_view(v@) =~= zero_poly());
        }
        FormalPowerSeries { c: v }
    }

    fn is_zero(&self) -> (r: bool) {
        let answer = self.c.len() == 1 && self.c[0] == 0;
        proof {
            assert(self@.len() == self.c@.len());
            if answer {
                assert(self@ =~= zero_poly());
            } else if self@ == zero_poly() {
                assert(self@.len() == 1);
                assert(self@[0] == int_view(self.c@)[0]);
                assert(self.c@[0] as int == 0);
                assert(false);
            }
        }
        answer
    }
}

impl One for FormalPowerSeries {
    open spec fn is_one_spec(&self) -> bool {
        self@ == seq![1int]
    }

    fn one() -> (r: Self) {
        let mut v: Vec<i64> = Vec::new();
        v.push(1);
        proof {
            assert(int_view(v@) =~= seq![1int]);
        }
        FormalPowerSeries { c: v }
    }
}

} // verus!
