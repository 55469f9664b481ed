//! Lagrange interpolation through a list of sample points.
use vstd::prelude::*;

use crate::algebra::{lemma_eval_add, lemma_eval_linear, lemma_eval_product_linear, lemma_eval_scale, lemma_conv_linear};
use crate::field::{
    CHARACTERISTIC, reduce, residue, modular_inverse, lemma_nonzero_residue_invertible,
    lemma_residue_add, lemma_residue_idempotent, lemma_residue_mul, lemma_zero_residue_not_invertible,
};
use crate::polynomial::{
    CAPACITY, FieldError, Polynomial, degree_below, eval, is_field_poly, overflows,
    scale_spec, zero_spec,
};

verus! {

/// Some sample other than the `i`-th has an x-coordinate congruent to its own.
pub open spec fn has_congruent_partner(xs: Seq<i64>, i: int) -> bool {
    exists|j: int| 0 <= j < xs.len() && j != i && #[trigger] residue(xs[j] as int) == residue(xs[i] as int)
}

/// Two distinct samples have congruent x-coordinates.
pub open spec fn has_congruent_pair(xs: Seq<i64>) -> bool {
    exists|i: int| 0 <= i < xs.len() && #[trigger] has_congruent_partner(xs, i)
}

/// The x-coordinates of the samples.
pub open spec fn xs_of(points: Seq<(i64, i64)>) -> Seq<i64> {
    points.map_values(|pt: (i64, i64)| pt.0)
}

/// `s` is a field polynomial of degree below the number of samples that takes
/// the value `ys[m]` at `xs[m]` for every sample, modulo the characteristic.
pub open spec fn interpolates(s: Seq<int>, xs: Seq<i64>, ys: Seq<i64>) -> bool {
    &&& is_field_poly(s)
    &&& degree_below(s, xs.len() as int)
    &&& forall|m: int| 0 <= m < xs.len() ==> residue(eval(s, #[trigger] xs[m] as int)) == residue(ys[m] as int)
}

/// The value of `(x + (p - xj)) * inv`, built as a polynomial, at `x`.
proof fn lemma_factor_value(dividend: Seq<int>, factor: Seq<int>, inv: int, xj: int, x: int)
    requires
        is_field_poly(dividend),
        degree_below(dividend, 2),
        dividend[1] == 1,
        dividend[0] == residue(CHARACTERISTIC - xj),
        factor == scale_spec(dividend, inv),
    ensures
        residue(eval(factor, x)) == residue((x - xj) * inv),
{
    lemma_eval_scale(dividend, inv, x);
    lemma_eval_linear(dividend, x, CAPACITY as int);
    let d = eval(dividend, x);
    assert(d == dividend[0] + x);
    lemma_residue_idempotent(CHARACTERISTIC - xj);
    lemma_residue_idempotent(x);
    lemma_residue_add(dividend[0], x, CHARACTERISTIC - xj, x);
    assert(residue(CHARACTERISTIC - xj + x) == residue(x - xj)) by {
        assert(CHARACTERISTIC - xj + x == (x - xj) + CHARACTERISTIC);
    }
    lemma_residue_idempotent(inv);
    lemma_residue_mul(inv, d, inv, x - xj);
    assert(inv * (x - xj) == (x - xj) * inv) by (nonlinear_arith);
}

/// The basis polynomial of the `i`-th sample: one at `domain[i]`, zero at
/// every other x-coordinate, of degree below the number of samples.
pub fn basis_polynomial(i: usize, domain: &Vec<i64>) -> (r: Result<Polynomial, FieldError>)
    requires
        i < domain.len(),
        domain.len() <= CAPACITY,
    ensures
        r is Err <==> has_congruent_partner(domain@, i as int),
        r matches Err(e) ==> e == FieldError::DuplicateOrCongruentSample,
        r matches Ok(p) ==> {
            &&& p.wf()
            &&& degree_below(p@, domain.len() as int)
            &&& residue(eval(p@, domain@[i as int] as int)) == 1
            &&& forall|m: int|
                0 <= m < domain.len() && m != i ==> residue(eval(p@, #[trigger] domain@[m] as int)) == 0
        },
{
    let n = domain.len();
    let mut acc = Polynomial::new();
    acc.set_coefficient(0, 1);
    proof {
        assert(residue(1) == 1);
        assert forall|k: int| 1 <= k < CAPACITY implies #[trigger] acc@[k] == 0 by {
            assert(acc@[k] == zero_spec()[k]);
        }
        lemma_eval_linear(acc@, domain@[i as int] as int, CAPACITY as int);
    }
    let xi = reduce(domain[i]);
    let mut j: usize = 0;
    while j < n
        invariant
            n == domain.len(),
            n <= CAPACITY,
            i < n,
            j <= n,
            xi as int == residue(domain@[i as int] as int),
            acc.wf(),
            degree_below(acc@, j - (if i < j { 1int } else { 0 }) + 1),
            residue(eval(acc@, domain@[i as int] as int)) == 1,
            forall|m: int|
                0 <= m < j && m != i ==> residue(eval(acc@, #[trigger] domain@[m] as int)) == 0,
            forall|m: int|
                0 <= m < j && m != i ==> #[trigger] residue(domain@[m] as int) != residue(domain@[i as int] as int),
        decreases n - j,
    {
        if j != i {
            let xj = reduce(domain[j]);
            let divisor = reduce(xi - xj);
            let inv = match modular_inverse(divisor, CHARACTERISTIC) {
                Some(v) => v,
                None => {
                    proof {
                        if divisor != 0 {
                            lemma_nonzero_residue_invertible(divisor as int);
                        }
                        assert(residue(domain@[j as int] as int) == residue(domain@[i as int] as int));
                    }
                    return Err(FieldError::DuplicateOrCongruentSample);
                },
            };
            proof {
                if divisor == 0 {
                    lemma_zero_residue_not_invertible(divisor as int, CHARACTERISTIC as int);
                }
            }
            let mut dividend = Polynomial::new();
            dividend.set_coefficient(1, 1);
            dividend.set_coefficient(0, CHARACTERISTIC - xj);
            let ghost dv = dividend@;
            proof {
                assert(residue(1) == 1);
                assert forall|k: int| 2 <= k < CAPACITY implies #[trigger] dv[k] == 0 by {
                    assert(dv[k] == zero_spec()[k]);
                }
            }
            let factor = dividend.scalar_mul(inv);
            let ghost a = acc@;
            let ghost b = factor@;
            let ghost cnt = j - (if i < j { 1int } else { 0 });
            proof {
                assert(degree_below(b, 2)) by {
                    assert forall|k: int| 2 <= k < CAPACITY implies #[trigger] b[k] == 0 by {
                        assert(b[k] == residue(dv[k] * inv));
                        assert(residue(0) == 0);
                    }
                }
                assert(!overflows(a, b)) by {
                    assert forall|i2: int, j2: int|
                        0 <= i2 < a.len() && 0 <= j2 < b.len() && i2 + j2 >= CAPACITY
                        implies #[trigger] (a[i2] * b[j2]) == 0 by {
                        if j2 >= 2 {
                            assert(b[j2] == 0);
                        } else {
                            assert(a[i2] == 0);
                        }
                    }
                }
            }
            let prod = match acc.mul(factor) {
                Ok(p) => p,
                Err(e) => {
                    return Err(e);
                },
            };
            proof {
                let c = prod@;
                assert forall|k: int| cnt + 2 <= k < CAPACITY implies #[trigger] c[k] == 0 by {
                    lemma_conv_linear(a, b, k);
                    assert(a[k] == 0 && a[k - 1] == 0);
                    assert(residue(0) == 0);
                }
                let xiv = domain@[i as int] as int;
                let xjv = domain@[j as int] as int;
                lemma_eval_product_linear(a, b, xiv);
                lemma_factor_value(dv, b, inv as int, xj as int, xiv);
                lemma_residue_idempotent(eval(a, xiv));
                lemma_residue_idempotent(xiv);
                lemma_residue_idempotent(xjv);
                lemma_residue_idempotent(eval(b, xiv));
                lemma_residue_mul(eval(a, xiv), eval(b, xiv), 1, (xiv - xj) * inv);
                lemma_residue_add(xiv, -xj, xi as int, -xj);
                lemma_residue_mul(xiv - xj, inv as int, xi - xj, inv as int);
                lemma_residue_mul(xi - xj, inv as int, divisor as int, inv as int);
                assert(residue(divisor * inv) == 1);
                assert(residue(eval(c, xiv)) == 1);
                lemma_eval_product_linear(a, b, xjv);
                lemma_factor_value(dv, b, inv as int, xj as int, xjv);
                lemma_residue_idempotent(eval(a, xjv));
                lemma_residue_idempotent(eval(b, xjv));
                lemma_residue_add(xjv, -xj, xj as int, -xj);
                lemma_residue_mul(xjv - xj, inv as int, 0, inv as int);
                lemma_residue_mul(eval(a, xjv), eval(b, xjv), eval(a, xjv), 0);
                assert forall|m: int|
                    0 <= m < j + 1 && m != i implies residue(eval(c, #[trigger] domain@[m] as int)) == 0 by {
                    let xm = domain@[m] as int;
                    if m < j {
                        lemma_eval_product_linear(a, b, xm);
                        lemma_residue_idempotent(eval(a, xm));
                        lemma_residue_idempotent(eval(b, xm));
                        lemma_residue_mul(eval(a, xm), eval(b, xm), 0, eval(b, xm));
                    }
                }
            }
            acc = prod;
        }
        j = j + 1;
    }
    Ok(acc)
}

/// The y-coordinates of the samples.
pub open spec fn ys_of(points: Seq<(i64, i64)>) -> Seq<i64> {
    points.map_values(|pt: (i64, i64)| pt.1)
}

/// The polynomial of degree below the number of samples that passes through
/// every sample modulo the characteristic. Fails when there are more samples
/// than coefficients, or when two samples have congruent x-coordinates.
pub fn lagrange_interpolation(points: Vec<(i64, i64)>) -> (r: Result<Polynomial, FieldError>)
    ensures
        points.len() > CAPACITY ==> r == Err::<Polynomial, FieldError>(FieldError::CapacityExceeded),
        points.len() <= CAPACITY ==> (r is Err <==> has_congruent_pair(xs_of(points@))),
        points.len() <= CAPACITY && r is Err ==> r == Err::<Polynomial, FieldError>(
            FieldError::DuplicateOrCongruentSample,
        ),
        r matches Ok(p) ==> p.wf() && interpolates(p@, xs_of(points@), ys_of(points@)),
        points.len() == 0 ==> (r matches Ok(p) && p@ == zero_spec()),
        points.len() == 1 ==> (r matches Ok(p) && p@ == zero_spec().update(0, residue(points@[0].1 as int))),
{
    let n = points.len();
    if n > CAPACITY {
        return Err(FieldError::CapacityExceeded);
    }
    let ghost xs = xs_of(points@);
    let ghost ys = ys_of(points@);
    let mut domain: Vec<i64> = Vec::new();
    let mut image: Vec<i64> = Vec::new();
    let mut k: usize = 0;
    while k < n
        invariant
            n == points.len(),
            k <= n,
            xs == xs_of(points@),
            ys == ys_of(points@),
            domain@ == xs.subrange(0, k as int),
            image@ == ys.subrange(0, k as int),
        decreases n - k,
    {
        let (x, y) = points[k];
        domain.push(x);
        image.push(y);
        proof {
            assert(domain@ =~= xs.subrange(0, k + 1));
            assert(image@ =~= ys.subrange(0, k + 1));
        }
        k = k + 1;
    }
    assert(domain@ =~= xs);
    assert(image@ =~= ys);
    let mut result = Polynomial::new();
    proof {
        assert forall|k2: int| 0 <= k2 < CAPACITY implies #[trigger] result@[k2] == 0 by {
            assert(result@[k2] == zero_spec()[k2]);
        }
        assert forall|m: int| 0 <= m < n implies residue(eval(result@, #[trigger] xs[m] as int)) == 0 by {
            crate::algebra::lemma_eval_upto_tail_zero(result@, xs[m] as int, 0, CAPACITY as int);
        }
    }
    let mut i: usize = 0;
    while i < n
        invariant
            n == points.len(),
            n <= CAPACITY,
            i <= n,
            domain@ == xs,
            image@ == ys,
            xs == xs_of(points@),
            ys == ys_of(points@),
            xs.len() == n,
            ys.len() == n,
            result.wf(),
            degree_below(result@, n as int),
            forall|m: int|
                0 <= m < n ==> residue(eval(result@, #[trigger] xs[m] as int)) == (if m < i {
                    residue(ys[m] as int)
                } else {
                    0
                }),
            forall|m: int| 0 <= m < i ==> !#[trigger] has_congruent_partner(xs, m),
        decreases n - i,
    {
        let basis = match basis_polynomial(i, &domain) {
            Ok(b) => b,
            Err(e) => {
                assert(has_congruent_partner(xs, i as int));
                assert(has_congruent_pair(xs));
                return Err(e);
            },
        };
        let ghost bv = basis@;
        let y = image[i];
        let scaled = basis.scalar_mul(y);
        let ghost sv = scaled@;
        let ghost rv = result@;
        let next = result.add(scaled);
        proof {
            assert(residue(0) == 0);
            assert forall|k2: int| n <= k2 < CAPACITY implies #[trigger] next@[k2] == 0 by {
                assert(bv[k2] == 0);
                assert(sv[k2] == residue(bv[k2] * y));
                assert(rv[k2] == 0);
            }
            assert forall|m: int| 0 <= m < n implies residue(eval(next@, #[trigger] xs[m] as int)) == (if m < i + 1 {
                residue(ys[m] as int)
            } else {
                0
            }) by {
                let xm = xs[m] as int;
                lemma_eval_add(rv, sv, xm);
                lemma_eval_scale(bv, y as int, xm);
                lemma_residue_idempotent(eval(rv, xm));
                lemma_residue_idempotent(eval(sv, xm));
                lemma_residue_idempotent(eval(bv, xm));
                lemma_residue_idempotent(y as int);
                let eb: int = if m == i { 1 } else { 0 };
                lemma_residue_idempotent(eb);
                lemma_residue_mul(y as int, eval(bv, xm), y as int, eb);
                let er: int = if m < i { residue(ys[m] as int) } else { 0 };
                lemma_residue_idempotent(er);
                lemma_residue_add(eval(rv, xm), eval(sv, xm), er, y * eb);
                if m == i {
                    assert(y == ys[m]);
                    assert(er + y * eb == y);
                } else {
                    assert(y * eb == 0);
                }
            }
        }
        result = next;
        i = i + 1;
    }
    proof {
        assert(!has_congruent_pair(xs));
        if n == 0 {
            assert(result@ =~= zero_spec());
        }
        if n == 1 {
            assert(!has_congruent_partner(xs, 0));
            let x0 = xs[0] as int;
            crate::algebra::lemma_eval_upto_tail_zero(result@, x0, 1, CAPACITY as int);
            assert(eval(result@, x0) == result@[0]) by {
                assert(crate::polynomial::eval_upto(result@, x0, 1) == crate::polynomial::eval_upto(result@, x0, 0) + result@[0] * crate::polynomial::power(x0, 0));
            }
            lemma_residue_idempotent(result@[0]);
            assert(ys[0] == points@[0].1);
            assert(result@ =~= zero_spec().update(0, residue(points@[0].1 as int)));
        }
    }
    Ok(result)
}

} // verus!
