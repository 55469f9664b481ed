//! Dense polynomials of fixed capacity over the field.
use vstd::prelude::*;
use vstd::arithmetic::div_mod::{lemma_add_mod_noop, lemma_mul_mod_noop_general};

use crate::field::{
    CHARACTERISTIC, reduce, residue, lemma_residue_add, lemma_residue_idempotent, lemma_residue_mul,
};

verus! {

/// The number of coefficients a polynomial holds: degrees `0` to `CAPACITY - 1`.
pub const CAPACITY: usize = 256;

/// What can go wrong while computing with polynomials.
#[derive(Debug, Clone, Copy, PartialEq, Eq, Structural)]
pub enum FieldError {
    /// Two samples have x-coordinates congruent modulo the characteristic.
    DuplicateOrCongruentSample,
    /// A coefficient would land at a degree at or beyond `CAPACITY`.
    CapacityExceeded,
}

/// A polynomial whose coefficient of `x^k` sits at index `k`.
#[derive(Debug)]
pub struct Polynomial {
    coeffs: Vec<i64>,
}

impl View for Polynomial {
    type V = Seq<int>;

    closed spec fn view(&self) -> Seq<int> {
        self.coeffs@.map_values(|c: i64| c as int)
    }
}

/// `CAPACITY` coefficients, each a residue in `[0, CHARACTERISTIC)`.
pub open spec fn is_field_poly(s: Seq<int>) -> bool {
    &&& s.len() == CAPACITY
    &&& forall|k: int| 0 <= k < s.len() ==> 0 <= #[trigger] s[k] < CHARACTERISTIC
}

/// The zero polynomial.
pub open spec fn zero_spec() -> Seq<int> {
    Seq::new(CAPACITY as nat, |k: int| 0int)
}

/// Coefficient-wise sum, reduced.
pub open spec fn add_spec(a: Seq<int>, b: Seq<int>) -> Seq<int> {
    Seq::new(CAPACITY as nat, |k: int| residue(a[k] + b[k]))
}

/// Every coefficient multiplied by `f`, reduced.
pub open spec fn scale_spec(a: Seq<int>, f: int) -> Seq<int> {
    Seq::new(CAPACITY as nat, |k: int| residue(a[k] * f))
}

/// The product term `a[i] * b[k - i]` of the coefficient of `x^k`, or zero
/// where an index falls outside the sequences.
pub open spec fn conv_term(a: Seq<int>, b: Seq<int>, i: int, k: int) -> int {
    if 0 <= i < a.len() && 0 <= k - i < b.len() {
        a[i] * b[k - i]
    } else {
        0
    }
}

/// `conv_term(a, b, i, k)` summed over `i` in `[0, n)`.
pub open spec fn conv_partial(a: Seq<int>, b: Seq<int>, k: int, n: int) -> int
    decreases n,
{
    if n <= 0 {
        0
    } else {
        conv_partial(a, b, k, n - 1) + conv_term(a, b, n - 1, k)
    }
}

/// The coefficient of `x^k` in the exact product: the sum over `i + j == k`
/// of `a[i] * b[j]`.
pub open spec fn conv(a: Seq<int>, b: Seq<int>, k: int) -> int {
    conv_partial(a, b, k, k + 1)
}

/// Whether some nonzero product term lands at a degree of `CAPACITY` or more.
pub open spec fn overflows(a: Seq<int>, b: Seq<int>) -> bool {
    exists|i: int, j: int|
        0 <= i < a.len() && 0 <= j < b.len() && i + j >= CAPACITY && #[trigger] (a[i] * b[j]) != 0
}

/// The product truncated to `CAPACITY` coefficients, each reduced.
pub open spec fn product_spec(a: Seq<int>, b: Seq<int>) -> Seq<int> {
    Seq::new(CAPACITY as nat, |k: int| residue(conv(a, b, k)))
}

/// `x` raised to `k`.
pub open spec fn power(x: int, k: nat) -> int
    decreases k,
{
    if k == 0 {
        1
    } else {
        x * power(x, (k - 1) as nat)
    }
}

/// The sum of `s[k] * x^k` over `k` in `[0, n)`.
pub open spec fn eval_upto(s: Seq<int>, x: int, n: int) -> int
    decreases n,
{
    if n <= 0 {
        0
    } else {
        eval_upto(s, x, n - 1) + s[n - 1] * power(x, (n - 1) as nat)
    }
}

/// The value of the polynomial at `x`, as an integer.
pub open spec fn eval(s: Seq<int>, x: int) -> int {
    eval_upto(s, x, s.len() as int)
}

/// Every coefficient from degree `d` up is zero.
pub open spec fn degree_below(s: Seq<int>, d: int) -> bool {
    forall|k: int| d <= k < s.len() ==> #[trigger] s[k] == 0
}

/// Terms past index `k` contribute nothing to the coefficient of `x^k`.
pub proof fn lemma_conv_partial_stable(a: Seq<int>, b: Seq<int>, k: int, n: int)
    requires
        0 <= k,
        k + 1 <= n,
    ensures
        conv_partial(a, b, k, n) == conv(a, b, k),
    decreases n,
{
    if n > k + 1 {
        lemma_conv_partial_stable(a, b, k, n - 1);
    }
}

/// The pairs `(k, s[k])` with `s[k]` nonzero and `k < n`, highest degree first.
pub open spec fn terms_below(s: Seq<int>, n: int) -> Seq<(int, int)>
    decreases n,
{
    if n <= 0 {
        Seq::empty()
    } else if s[n - 1] != 0 {
        seq![(n - 1, s[n - 1])] + terms_below(s, n - 1)
    } else {
        terms_below(s, n - 1)
    }
}

impl Polynomial {
    /// Holds `CAPACITY` coefficients, each a residue.
    pub open spec fn wf(&self) -> bool {
        is_field_poly(self@)
    }

    /// The view is the coefficient vector read as integers.
    proof fn lemma_view(&self)
        ensures
            self@.len() == self.coeffs@.len(),
            forall|k: int| 0 <= k < self@.len() ==> #[trigger] self@[k] == self.coeffs@[k] as int,
            self.wf() ==> forall|k: int|
                0 <= k < CAPACITY ==> 0 <= #[trigger] self.coeffs@[k] < CHARACTERISTIC,
    {
        if self.wf() {
            assert forall|k: int| 0 <= k < CAPACITY implies 0 <= #[trigger] self.coeffs@[k]
                < CHARACTERISTIC by {
                assert(0 <= self@[k] < CHARACTERISTIC);
            }
        }
    }

    /// The zero polynomial.
    pub fn new() -> (r: Polynomial)
        ensures
            r.wf(),
            r@ == zero_spec(),
    {
        let mut coeffs: Vec<i64> = Vec::new();
        let mut k: usize = 0;
        while k < CAPACITY
            invariant
                k <= CAPACITY,
                coeffs@.len() == k,
                forall|j: int| 0 <= j < k ==> coeffs@[j] == 0,
            decreases CAPACITY - k,
        {
            coeffs.push(0);
            k = k + 1;
        }
        let r = Polynomial { coeffs };
        assert(r@ =~= zero_spec());
        r
    }

    /// The coefficient of `x^k`.
    pub fn coefficient(&self, k: usize) -> (c: i64)
        requires
            self.wf(),
            k < CAPACITY,
        ensures
            c as int == self@[k as int],
    {
        self.coeffs[k]
    }

    /// Replaces the coefficient of `x^k` by the residue of `c`.
    pub fn set_coefficient(&mut self, k: usize, c: i64)
        requires
            old(self).wf(),
            k < CAPACITY,
        ensures
            final(self).wf(),
            final(self)@ == old(self)@.update(k as int, residue(c as int)),
    {
        let r = reduce(c);
        self.coeffs.set(k, r);
        assert(self@ =~= old(self)@.update(k as int, residue(c as int)));
    }

    /// Every coefficient multiplied by `factor`, reduced.
    pub fn scalar_mul(self, factor: i64) -> (r: Polynomial)
        requires
            self.wf(),
        ensures
            r.wf(),
            r@ == scale_spec(self@, factor as int),
    {
        proof { self.lemma_view(); }
        let f = reduce(factor);
        let mut coeffs = self.coeffs;
        let ghost orig = coeffs@;
        let mut k: usize = 0;
        while k < CAPACITY
            invariant
                k <= CAPACITY,
                coeffs@.len() == CAPACITY,
                orig.len() == CAPACITY,
                f as int == residue(factor as int),
                0 <= f < CHARACTERISTIC,
                forall|j: int| 0 <= j < CAPACITY ==> 0 <= #[trigger] orig[j] < CHARACTERISTIC,
                forall|j: int| 0 <= j < k ==> #[trigger] coeffs@[j] as int == residue(orig[j] * factor),
                forall|j: int| k <= j < CAPACITY ==> #[trigger] coeffs@[j] == orig[j],
            decreases CAPACITY - k,
        {
            let c = coeffs[k];
            assert(0 <= c * f < 25) by (nonlinear_arith) requires 0 <= c < 5, 0 <= f < 5;
            let v = reduce(c * f);
            proof {
                lemma_mul_mod_noop_general(c as int, factor as int, CHARACTERISTIC as int);
            }
            coeffs.set(k, v);
            k = k + 1;
        }
        let r = Polynomial { coeffs };
        proof { r.lemma_view(); }
        assert(r@ =~= scale_spec(self@, factor as int));
        r
    }

    /// Coefficient-wise sum, reduced.
    pub fn add(self, rhs: Polynomial) -> (r: Polynomial)
        requires
            self.wf(),
            rhs.wf(),
        ensures
            r.wf(),
            r@ == add_spec(self@, rhs@),
    {
        proof {
            self.lemma_view();
            rhs.lemma_view();
        }
        let mut sum = Polynomial::new();
        let mut k: usize = 0;
        while k < CAPACITY
            invariant
                k <= CAPACITY,
                self.coeffs@.len() == CAPACITY,
                rhs.coeffs@.len() == CAPACITY,
                forall|j: int| 0 <= j < CAPACITY ==> 0 <= #[trigger] self.coeffs@[j] < CHARACTERISTIC,
                forall|j: int| 0 <= j < CAPACITY ==> 0 <= #[trigger] rhs.coeffs@[j] < CHARACTERISTIC,
                sum.coeffs@.len() == CAPACITY,
                forall|j: int| 0 <= j < k ==> #[trigger] sum.coeffs@[j] as int == residue(self.coeffs@[j] + rhs.coeffs@[j]),
            decreases CAPACITY - k,
        {
            let v = reduce(self.coeffs[k] + rhs.coeffs[k]);
            sum.coeffs.set(k, v);
            k = k + 1;
        }
        proof { sum.lemma_view(); }
        assert(sum@ =~= add_spec(self@, rhs@));
        sum
    }

    /// The product, each coefficient reduced; fails when a nonzero product
    /// term would land at a degree of `CAPACITY` or more.
    pub fn mul(self, rhs: Polynomial) -> (r: Result<Polynomial, FieldError>)
        requires
            self.wf(),
            rhs.wf(),
        ensures
            r is Err <==> overflows(self@, rhs@),
            r matches Err(e) ==> e == FieldError::CapacityExceeded,
            r matches Ok(p) ==> p.wf() && p@ == product_spec(self@, rhs@),
    {
        proof {
            self.lemma_view();
            rhs.lemma_view();
        }
        let ghost sa = self@;
        let ghost sb = rhs@;
        let mut prod = Polynomial::new();
        proof {
            prod.lemma_view();
            assert forall|k: int| 0 <= k < CAPACITY implies #[trigger] prod.coeffs@[k] == 0 by {
                assert(prod@[k] == zero_spec()[k]);
            }
        }
        let mut o: usize = 0;
        while o < CAPACITY
            invariant
                o <= CAPACITY,
                sa == self@,
                sb == rhs@,
                sa.len() == CAPACITY,
                sb.len() == CAPACITY,
                self.coeffs@.len() == CAPACITY,
                rhs.coeffs@.len() == CAPACITY,
                prod.coeffs@.len() == CAPACITY,
                forall|j: int| 0 <= j < CAPACITY ==> #[trigger] sa[j] == self.coeffs@[j] as int,
                forall|j: int| 0 <= j < CAPACITY ==> #[trigger] sb[j] == rhs.coeffs@[j] as int,
                forall|j: int| 0 <= j < CAPACITY ==> 0 <= #[trigger] self.coeffs@[j] < CHARACTERISTIC,
                forall|j: int| 0 <= j < CAPACITY ==> 0 <= #[trigger] rhs.coeffs@[j] < CHARACTERISTIC,
                forall|k: int|
                    0 <= k < CAPACITY ==> #[trigger] prod.coeffs@[k] as int == conv_partial(sa, sb, k, o as int),
                forall|k: int| 0 <= k < CAPACITY ==> 0 <= #[trigger] prod.coeffs@[k] <= 16 * o,
                forall|i: int, j: int|
                    0 <= i < o && 0 <= j < CAPACITY && i + j >= CAPACITY ==> #[trigger] (sa[i] * sb[j]) == 0,
            decreases CAPACITY - o,
        {
            let mut i: usize = 0;
            while i < CAPACITY
                invariant
                    o < CAPACITY,
                    i <= CAPACITY,
                    sa == self@,
                    sb == rhs@,
                    sa.len() == CAPACITY,
                    sb.len() == CAPACITY,
                    self.coeffs@.len() == CAPACITY,
                    rhs.coeffs@.len() == CAPACITY,
                    prod.coeffs@.len() == CAPACITY,
                    forall|j: int| 0 <= j < CAPACITY ==> #[trigger] sa[j] == self.coeffs@[j] as int,
                    forall|j: int| 0 <= j < CAPACITY ==> #[trigger] sb[j] == rhs.coeffs@[j] as int,
                    forall|j: int| 0 <= j < CAPACITY ==> 0 <= #[trigger] self.coeffs@[j] < CHARACTERISTIC,
                    forall|j: int| 0 <= j < CAPACITY ==> 0 <= #[trigger] rhs.coeffs@[j] < CHARACTERISTIC,
                    forall|k: int|
                        0 <= k < CAPACITY ==> #[trigger] prod.coeffs@[k] as int == conv_partial(sa, sb, k, o as int)
                            + (if o <= k < o + i { sa[o as int] * sb[k - o] } else { 0 }),
                    forall|k: int| 0 <= k < CAPACITY ==> 0 <= #[trigger] prod.coeffs@[k] <= 16 * o
                        + (if o <= k < o + i { 16int } else { 0 }),
                    forall|i2: int, j: int|
                        0 <= i2 < o && 0 <= j < CAPACITY && i2 + j >= CAPACITY ==> #[trigger] (sa[i2] * sb[j]) == 0,
                    forall|j: int|
                        0 <= j < i && o + j >= CAPACITY ==> #[trigger] (sa[o as int] * sb[j]) == 0,
                decreases CAPACITY - i,
            {
                let l = self.coeffs[o];
                let rc = rhs.coeffs[i];
                assert(0 <= l * rc <= 16) by (nonlinear_arith) requires 0 <= l < 5, 0 <= rc < 5;
                let t = l * rc;
                if o + i < CAPACITY {
                    let cur = prod.coeffs[o + i];
                    prod.coeffs.set(o + i, cur + t);
                } else if t != 0 {
                    assert(sa[o as int] * sb[i as int] != 0);
                    return Err(FieldError::CapacityExceeded);
                }
                i = i + 1;
            }
            assert forall|k: int| 0 <= k < CAPACITY implies #[trigger] prod.coeffs@[k] as int
                == conv_partial(sa, sb, k, o + 1) by {
                assert(conv_partial(sa, sb, k, o + 1) == conv_partial(sa, sb, k, o as int)
                    + conv_term(sa, sb, o as int, k));
            }
            o = o + 1;
        }
        let mut k: usize = 0;
        while k < CAPACITY
            invariant
                k <= CAPACITY,
                sa.len() == CAPACITY,
                sb.len() == CAPACITY,
                prod.coeffs@.len() == CAPACITY,
                forall|j: int|
                    k <= j < CAPACITY ==> #[trigger] prod.coeffs@[j] as int == conv_partial(sa, sb, j, CAPACITY as int),
                forall|j: int| k <= j < CAPACITY ==> 0 <= #[trigger] prod.coeffs@[j] <= 16 * CAPACITY,
                forall|j: int| 0 <= j < k ==> #[trigger] prod.coeffs@[j] as int == residue(conv(sa, sb, j)),
                forall|j: int| 0 <= j < k ==> 0 <= #[trigger] prod.coeffs@[j] < CHARACTERISTIC,
            decreases CAPACITY - k,
        {
            proof { lemma_conv_partial_stable(sa, sb, k as int, CAPACITY as int); }
            let v = reduce(prod.coeffs[k]);
            prod.coeffs.set(k, v);
            k = k + 1;
        }
        proof {
            prod.lemma_view();
            assert(prod@ =~= product_spec(sa, sb));
            assert(!overflows(sa, sb));
        }
        Ok(prod)
    }

    /// The value at `x`, reduced.
    pub fn evaluate(&self, x: i64) -> (r: i64)
        requires
            self.wf(),
        ensures
            r as int == residue(eval(self@, x as int)),
    {
        proof { self.lemma_view(); }
        let ghost s = self@;
        let xr = reduce(x);
        let mut acc: i64 = 0;
        let mut xp: i64 = 1;
        let mut k: usize = 0;
        while k < CAPACITY
            invariant
                k <= CAPACITY,
                s == self@,
                s.len() == CAPACITY,
                self.coeffs@.len() == CAPACITY,
                forall|j: int| 0 <= j < CAPACITY ==> #[trigger] s[j] == self.coeffs@[j] as int,
                forall|j: int| 0 <= j < CAPACITY ==> 0 <= #[trigger] self.coeffs@[j] < CHARACTERISTIC,
                xr as int == residue(x as int),
                0 <= acc < CHARACTERISTIC,
                0 <= xp < CHARACTERISTIC,
                acc as int == residue(eval_upto(s, x as int, k as int)),
                xp as int == residue(power(x as int, k as nat)),
            decreases CAPACITY - k,
        {
            let c = self.coeffs[k];
            assert(0 <= c * xp <= 16) by (nonlinear_arith) requires 0 <= c < 5, 0 <= xp < 5;
            assert(0 <= xp * xr <= 16) by (nonlinear_arith) requires 0 <= xr < 5, 0 <= xp < 5;
            let ghost e = eval_upto(s, x as int, k as int);
            let ghost pw = power(x as int, k as nat);
            proof {
                lemma_residue_idempotent(e);
                lemma_residue_idempotent(pw);
                lemma_residue_idempotent(c as int);
                lemma_residue_idempotent(x as int);
                lemma_residue_mul(c as int, xp as int, c as int, pw);
                lemma_residue_add(acc as int, c * xp, e, c * pw);
                lemma_residue_mul(xp as int, xr as int, pw, x as int);
                assert(power(x as int, (k + 1) as nat) == x * pw);
                assert(pw * x == x * pw) by (nonlinear_arith);
            }
            acc = reduce(acc + c * xp);
            xp = reduce(xp * xr);
            k = k + 1;
        }
        acc
    }

    /// The nonzero coefficients with their degrees, highest degree first.
    pub fn nonzero_terms(&self) -> (r: Vec<(usize, i64)>)
        requires
            self.wf(),
        ensures
            r@.map_values(|t: (usize, i64)| (t.0 as int, t.1 as int)) == terms_below(self@, CAPACITY as int),
    {
        proof { self.lemma_view(); }
        let mut out: Vec<(usize, i64)> = Vec::new();
        let mut k: usize = CAPACITY;
        while k > 0
            invariant
                k <= CAPACITY,
                self@.len() == CAPACITY,
                self.coeffs@.len() == CAPACITY,
                forall|j: int| 0 <= j < CAPACITY ==> #[trigger] self@[j] == self.coeffs@[j] as int,
                out@.map_values(|t: (usize, i64)| (t.0 as int, t.1 as int)) + terms_below(self@, k as int)
                    == terms_below(self@, CAPACITY as int),
            decreases k,
        {
            let c = self.coeffs[k - 1];
            let ghost before = out@;
            if c != 0 {
                out.push((k - 1, c));
            }
            proof {
                let f = |t: (usize, i64)| (t.0 as int, t.1 as int);
                let rest = terms_below(self@, k - 1);
                if c != 0 {
                    assert(out@.map_values(f) =~= before.map_values(f).push((k - 1, self@[k - 1])));
                    assert(before.map_values(f) + terms_below(self@, k as int) =~= out@.map_values(f) + rest);
                } else {
                    assert(out@ == before);
                }
            }
            k = k - 1;
        }
        assert(out@.map_values(|t: (usize, i64)| (t.0 as int, t.1 as int)) =~= out@.map_values(
            |t: (usize, i64)| (t.0 as int, t.1 as int),
        ) + terms_below(self@, 0));
        out
    }
}

} // verus!
