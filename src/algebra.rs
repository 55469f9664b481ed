//! How evaluation at a point interacts with the polynomial operations, and
//! the algebraic laws the operations obey.
use vstd::prelude::*;

use crate::field::{CHARACTERISTIC, residue, lemma_residue_add, lemma_residue_mul};
use crate::polynomial::{
    CAPACITY, add_spec, conv, conv_partial, conv_term, degree_below, eval, eval_upto,
    is_field_poly, overflows, power, product_spec, scale_spec, zero_spec, lemma_conv_partial_stable,
};

verus! {

/// Evaluation is additive in the coefficients.
pub proof fn lemma_eval_upto_sum(s: Seq<int>, a: Seq<int>, b: Seq<int>, x: int, n: int)
    requires
        n <= s.len(),
        n <= a.len(),
        n <= b.len(),
        forall|k: int| 0 <= k < n ==> #[trigger] s[k] == a[k] + b[k],
    ensures
        eval_upto(s, x, n) == eval_upto(a, x, n) + eval_upto(b, x, n),
    decreases n,
{
    if n > 0 {
        lemma_eval_upto_sum(s, a, b, x, n - 1);
        let pw = power(x, (n - 1) as nat);
        assert((a[n - 1] + b[n - 1]) * pw == a[n - 1] * pw + b[n - 1] * pw) by (nonlinear_arith);
    }
}

/// Evaluation commutes with scaling the coefficients.
pub proof fn lemma_eval_upto_scale(s: Seq<int>, a: Seq<int>, f: int, x: int, n: int)
    requires
        n <= s.len(),
        n <= a.len(),
        forall|k: int| 0 <= k < n ==> #[trigger] s[k] == a[k] * f,
    ensures
        eval_upto(s, x, n) == f * eval_upto(a, x, n),
    decreases n,
{
    if n > 0 {
        lemma_eval_upto_scale(s, a, f, x, n - 1);
        let pw = power(x, (n - 1) as nat);
        let e = eval_upto(a, x, n - 1);
        assert(f * e + (a[n - 1] * f) * pw == f * (e + a[n - 1] * pw)) by (nonlinear_arith);
    }
}

/// Coefficient-wise congruent polynomials have congruent values.
pub proof fn lemma_eval_upto_congruent(s: Seq<int>, t: Seq<int>, x: int, n: int)
    requires
        n <= s.len(),
        n <= t.len(),
        forall|k: int| 0 <= k < n ==> residue(#[trigger] s[k]) == residue(t[k]),
    ensures
        residue(eval_upto(s, x, n)) == residue(eval_upto(t, x, n)),
    decreases n,
{
    if n > 0 {
        lemma_eval_upto_congruent(s, t, x, n - 1);
        let pw = power(x, (n - 1) as nat);
        lemma_residue_mul(s[n - 1], pw, t[n - 1], pw);
        lemma_residue_add(eval_upto(s, x, n - 1), s[n - 1] * pw, eval_upto(t, x, n - 1), t[n - 1] * pw);
    }
}

/// The value of a sum is the sum of the values.
pub proof fn lemma_eval_add(a: Seq<int>, b: Seq<int>, x: int)
    requires
        is_field_poly(a),
        is_field_poly(b),
    ensures
        residue(eval(add_spec(a, b), x)) == residue(eval(a, x) + eval(b, x)),
{
    let n = CAPACITY as int;
    let s = Seq::new(CAPACITY as nat, |k: int| a[k] + b[k]);
    lemma_eval_upto_congruent(add_spec(a, b), s, x, n);
    lemma_eval_upto_sum(s, a, b, x, n);
}

/// The value of a scaled polynomial is the scaled value.
pub proof fn lemma_eval_scale(a: Seq<int>, f: int, x: int)
    requires
        is_field_poly(a),
    ensures
        residue(eval(scale_spec(a, f), x)) == residue(f * eval(a, x)),
{
    let n = CAPACITY as int;
    let s = Seq::new(CAPACITY as nat, |k: int| a[k] * f);
    lemma_eval_upto_congruent(scale_spec(a, f), s, x, n);
    lemma_eval_upto_scale(s, a, f, x, n);
}

/// A polynomial of degree at most one evaluates to `b[0] + b[1] * x`.
pub proof fn lemma_eval_linear(b: Seq<int>, x: int, n: int)
    requires
        2 <= n <= b.len(),
        degree_below(b, 2),
    ensures
        eval_upto(b, x, n) == b[0] + b[1] * x,
    decreases n,
{
    if n > 2 {
        lemma_eval_linear(b, x, n - 1);
        assert(b[n - 1] == 0);
    } else {
        assert(eval_upto(b, x, 1) == eval_upto(b, x, 0) + b[0] * power(x, 0));
        assert(power(x, 0) == 1);
        assert(power(x, 1) == x * power(x, 0));
    }
}

/// A polynomial that is zero from degree `d` up evaluates the same over any
/// prefix of at least `d` coefficients.
pub proof fn lemma_eval_upto_tail_zero(a: Seq<int>, x: int, d: int, n: int)
    requires
        0 <= d <= n <= a.len(),
        degree_below(a, d),
    ensures
        eval_upto(a, x, n) == eval_upto(a, x, d),
    decreases n,
{
    if n > d {
        lemma_eval_upto_tail_zero(a, x, d, n - 1);
        assert(a[n - 1] == 0);
    }
}

/// Multiplying by a factor of degree at most one: the coefficient of `x^k`
/// is `a[k] * b[0] + a[k - 1] * b[1]`.
pub proof fn lemma_conv_linear(a: Seq<int>, b: Seq<int>, k: int)
    requires
        a.len() == CAPACITY,
        b.len() == CAPACITY,
        degree_below(b, 2),
        0 <= k < CAPACITY,
    ensures
        conv(a, b, k) == a[k] * b[0] + (if k >= 1 { a[k - 1] * b[1] } else { 0 }),
{
    lemma_conv_prefix_zero(a, b, k, k - 1);
    assert(conv_partial(a, b, k, k + 1) == conv_partial(a, b, k, k) + conv_term(a, b, k, k));
    if k >= 1 {
        assert(conv_partial(a, b, k, k) == conv_partial(a, b, k, k - 1) + conv_term(a, b, k - 1, k));
    }
}

/// Terms whose index into `b` is two or more vanish for a factor of degree
/// at most one.
proof fn lemma_conv_prefix_zero(a: Seq<int>, b: Seq<int>, k: int, n: int)
    requires
        b.len() == CAPACITY,
        degree_below(b, 2),
        n <= k - 1,
    ensures
        conv_partial(a, b, k, n) == 0,
    decreases n,
{
    if n > 0 {
        lemma_conv_prefix_zero(a, b, k, n - 1);
        if 0 <= k - (n - 1) < b.len() {
            assert(b[k - (n - 1)] == 0);
        }
    }
}

/// Shifting the coefficients up by one degree multiplies the value by `x`.
proof fn lemma_eval_upto_shift(sh: Seq<int>, a: Seq<int>, x: int, n: int)
    requires
        1 <= n <= sh.len(),
        n <= a.len() + 1,
        sh[0] == 0,
        forall|k: int| 1 <= k < n ==> #[trigger] sh[k] == a[k - 1],
    ensures
        eval_upto(sh, x, n) == x * eval_upto(a, x, n - 1),
    decreases n,
{
    if n == 1 {
        assert(eval_upto(sh, x, 1) == eval_upto(sh, x, 0) + sh[0] * power(x, 0));
        assert(x * 0 == 0);
    } else {
        lemma_eval_upto_shift(sh, a, x, n - 1);
        let pw = power(x, (n - 2) as nat);
        let e = eval_upto(a, x, n - 2);
        assert(power(x, (n - 1) as nat) == x * pw);
        assert(eval_upto(sh, x, n) == eval_upto(sh, x, n - 1) + sh[n - 1] * power(x, (n - 1) as nat));
        assert(eval_upto(a, x, n - 1) == e + a[n - 2] * pw);
        assert(x * e + a[n - 2] * (x * pw) == x * (e + a[n - 2] * pw)) by (nonlinear_arith);
    }
}

/// Multiplying by a factor of degree at most one multiplies the values,
/// when no term overflows.
pub proof fn lemma_eval_product_linear(a: Seq<int>, b: Seq<int>, x: int)
    requires
        is_field_poly(a),
        is_field_poly(b),
        degree_below(b, 2),
        !overflows(a, b),
    ensures
        residue(eval(product_spec(a, b), x)) == residue(eval(a, x) * eval(b, x)),
{
    let n = CAPACITY as int;
    let b0 = b[0];
    let b1 = b[1];
    let sh = Seq::new(CAPACITY as nat, |k: int| if k >= 1 { a[k - 1] } else { 0 });
    let u = Seq::new(CAPACITY as nat, |k: int| a[k] * b0);
    let v = Seq::new(CAPACITY as nat, |k: int| sh[k] * b1);
    let c = Seq::new(CAPACITY as nat, |k: int| u[k] + v[k]);
    assert forall|k: int| 0 <= k < n implies residue(#[trigger] product_spec(a, b)[k]) == residue(c[k]) by {
        lemma_conv_linear(a, b, k);
        crate::field::lemma_residue_idempotent(conv(a, b, k));
    }
    lemma_eval_upto_congruent(product_spec(a, b), c, x, n);
    lemma_eval_upto_sum(c, u, v, x, n);
    lemma_eval_upto_scale(u, a, b0, x, n);
    lemma_eval_upto_scale(v, sh, b1, x, n);
    lemma_eval_upto_shift(sh, a, x, n);
    lemma_eval_linear(b, x, n);
    let ea = eval(a, x);
    let ep = eval_upto(a, x, n - 1);
    assert(ea == ep + a[n - 1] * power(x, (n - 1) as nat));
    if a[n - 1] != 0 && b1 != 0 {
        assert(a[n - 1] * b[1] != 0) by (nonlinear_arith) requires a[n - 1] != 0, b[1] != 0;
        assert(overflows(a, b));
    }
    assert(b1 * (x * ep) == b1 * (x * ea)) by (nonlinear_arith)
        requires
            a[n - 1] == 0 || b1 == 0,
            ea == ep + a[n - 1] * power(x, (n - 1) as nat);
    assert(b0 * ea + b1 * (x * ea) == ea * (b0 + b1 * x)) by (nonlinear_arith);
}

/// Summing the terms of `a * b` up to `n` and those of `b * a` from the
/// other end covers every term of `b * a` once.
proof fn lemma_conv_partial_swap(a: Seq<int>, b: Seq<int>, k: int, n: int)
    requires
        0 <= n <= k + 1,
    ensures
        conv_partial(a, b, k, n) + conv_partial(b, a, k, k + 1 - n) == conv_partial(b, a, k, k + 1),
    decreases n,
{
    if n > 0 {
        lemma_conv_partial_swap(a, b, k, n - 1);
        assert(conv_partial(b, a, k, k + 2 - n) == conv_partial(b, a, k, k + 1 - n) + conv_term(
            b,
            a,
            k + 1 - n,
            k,
        ));
        if 0 <= n - 1 < a.len() && 0 <= k - (n - 1) < b.len() {
            assert(a[n - 1] * b[k - (n - 1)] == b[k + 1 - n] * a[k - (k + 1 - n)]) by (nonlinear_arith)
                requires k - (n - 1) == k + 1 - n, k - (k + 1 - n) == n - 1;
        }
    }
}

/// Addition of polynomials is commutative.
pub proof fn law_add_commutative(a: Seq<int>, b: Seq<int>)
    ensures
        add_spec(a, b) == add_spec(b, a),
{
    assert(add_spec(a, b) =~= add_spec(b, a));
}

/// Addition of polynomials is associative.
pub proof fn law_add_associative(a: Seq<int>, b: Seq<int>, c: Seq<int>)
    ensures
        add_spec(add_spec(a, b), c) == add_spec(a, add_spec(b, c)),
{
    assert forall|k: int| 0 <= k < CAPACITY implies #[trigger] add_spec(add_spec(a, b), c)[k] == add_spec(
        a,
        add_spec(b, c),
    )[k] by {
        crate::field::lemma_residue_idempotent(a[k] + b[k]);
        crate::field::lemma_residue_idempotent(b[k] + c[k]);
        crate::field::lemma_residue_idempotent(a[k]);
        crate::field::lemma_residue_idempotent(c[k]);
        lemma_residue_add(residue(a[k] + b[k]), c[k], a[k] + b[k], c[k]);
        lemma_residue_add(a[k], residue(b[k] + c[k]), a[k], b[k] + c[k]);
        assert(a[k] + b[k] + c[k] == a[k] + (b[k] + c[k]));
    }
    assert(add_spec(add_spec(a, b), c) =~= add_spec(a, add_spec(b, c)));
}

/// The zero polynomial is the identity of addition.
pub proof fn law_add_zero_identity(a: Seq<int>)
    requires
        is_field_poly(a),
    ensures
        add_spec(a, zero_spec()) == a,
{
    assert forall|k: int| 0 <= k < CAPACITY implies #[trigger] add_spec(a, zero_spec())[k] == a[k] by {
        vstd::arithmetic::div_mod::lemma_small_mod(a[k] as nat, CHARACTERISTIC as nat);
    }
    assert(add_spec(a, zero_spec()) =~= a);
}

/// Multiplication of polynomials is commutative, and overflows for the
/// same pairs of factors in either order.
pub proof fn law_mul_commutative(a: Seq<int>, b: Seq<int>)
    ensures
        product_spec(a, b) == product_spec(b, a),
        overflows(a, b) == overflows(b, a),
{
    assert forall|k: int| 0 <= k < CAPACITY implies #[trigger] conv(a, b, k) == conv(b, a, k) by {
        lemma_conv_partial_swap(a, b, k, k + 1);
    }
    assert(product_spec(a, b) =~= product_spec(b, a));
    if overflows(a, b) {
        let (i, j) = choose|i: int, j: int|
            0 <= i < a.len() && 0 <= j < b.len() && i + j >= CAPACITY && #[trigger] (a[i] * b[j]) != 0;
        assert(b[j] * a[i] != 0) by (nonlinear_arith) requires a[i] * b[j] != 0;
    }
    if overflows(b, a) {
        let (i, j) = choose|i: int, j: int|
            0 <= i < b.len() && 0 <= j < a.len() && i + j >= CAPACITY && #[trigger] (b[i] * a[j]) != 0;
        assert(a[j] * b[i] != 0) by (nonlinear_arith) requires b[i] * a[j] != 0;
    }
}

/// The sum of `f(i)` over `i` in `[0, n)`.
pub open spec fn sum(f: spec_fn(int) -> int, n: int) -> int
    decreases n,
{
    if n <= 0 {
        0
    } else {
        sum(f, n - 1) + f(n - 1)
    }
}

proof fn lemma_sum_ext(f: spec_fn(int) -> int, g: spec_fn(int) -> int, n: int)
    requires
        forall|i: int| 0 <= i < n ==> #[trigger] f(i) == g(i),
    ensures
        sum(f, n) == sum(g, n),
    decreases n,
{
    if n > 0 {
        lemma_sum_ext(f, g, n - 1);
    }
}

proof fn lemma_sum_add(f: spec_fn(int) -> int, g: spec_fn(int) -> int, h: spec_fn(int) -> int, n: int)
    requires
        forall|i: int| 0 <= i < n ==> #[trigger] h(i) == f(i) + g(i),
    ensures
        sum(h, n) == sum(f, n) + sum(g, n),
    decreases n,
{
    if n > 0 {
        lemma_sum_add(f, g, h, n - 1);
    }
}

proof fn lemma_sum_scale(f: spec_fn(int) -> int, h: spec_fn(int) -> int, c: int, n: int)
    requires
        forall|i: int| 0 <= i < n ==> #[trigger] h(i) == c * f(i),
    ensures
        sum(h, n) == c * sum(f, n),
    decreases n,
{
    if n > 0 {
        lemma_sum_scale(f, h, c, n - 1);
        assert(c * sum(f, n - 1) + c * f(n - 1) == c * (sum(f, n - 1) + f(n - 1))) by (nonlinear_arith);
    }
}

proof fn lemma_sum_zero(f: spec_fn(int) -> int, n: int)
    requires
        forall|i: int| 0 <= i < n ==> #[trigger] f(i) == 0,
    ensures
        sum(f, n) == 0,
    decreases n,
{
    if n > 0 {
        lemma_sum_zero(f, n - 1);
    }
}

/// Splitting `[0, n)` at `d`, with the upper part reindexed from zero.
proof fn lemma_sum_split(f: spec_fn(int) -> int, g: spec_fn(int) -> int, d: int, n: int)
    requires
        0 <= d <= n,
        forall|j: int| 0 <= j < n - d ==> #[trigger] g(j) == f(d + j),
    ensures
        sum(f, n) == sum(f, d) + sum(g, n - d),
    decreases n,
{
    if n > d {
        lemma_sum_split(f, g, d, n - 1);
        assert(g(n - 1 - d) == f(d + (n - 1 - d)));
    }
}

/// The order of a double sum over a rectangle does not matter.
proof fn lemma_sum_swap(t: spec_fn(int, int) -> int, n: int, m: int)
    requires
        0 <= m,
    ensures
        sum(|i: int| sum(|j: int| t(i, j), m), n) == sum(|j: int| sum(|i: int| t(i, j), n), m),
    decreases n,
{
    if n > 0 {
        lemma_sum_swap(t, n - 1, m);
        lemma_sum_add(
            |j: int| sum(|i: int| t(i, j), n - 1),
            |j: int| t(n - 1, j),
            |j: int| sum(|i: int| t(i, j), n),
            m,
        );
    } else {
        lemma_sum_zero(|j: int| sum(|i: int| t(i, j), n), m);
    }
}

proof fn lemma_conv_as_sum(a: Seq<int>, b: Seq<int>, k: int, n: int)
    ensures
        conv_partial(a, b, k, n) == sum(|i: int| conv_term(a, b, i, k), n),
    decreases n,
{
    if n > 0 {
        lemma_conv_as_sum(a, b, k, n - 1);
    }
}

/// The exact coefficients of a product.
pub open spec fn conv_seq(a: Seq<int>, b: Seq<int>) -> Seq<int> {
    Seq::new(CAPACITY as nat, |k: int| conv(a, b, k))
}

/// Without reduction, `(a * b) * c` and `a * (b * c)` agree coefficient by
/// coefficient.
proof fn lemma_conv_associative(a: Seq<int>, b: Seq<int>, c: Seq<int>, k: int)
    requires
        a.len() == CAPACITY,
        b.len() == CAPACITY,
        c.len() == CAPACITY,
        0 <= k < CAPACITY,
    ensures
        conv(conv_seq(a, b), c, k) == conv(a, conv_seq(b, c), k),
{
    let kk = k + 1;
    let ab = conv_seq(a, b);
    let bc = conv_seq(b, c);
    let t = |m: int, i: int| conv_term(a, b, i, m) * c[k - m];
    // left side as a double sum, rows indexed by the degree of the inner product
    lemma_conv_as_sum(ab, c, k, kk);
    assert forall|m: int| 0 <= m < kk implies #[trigger] conv_term(ab, c, m, k) == sum(
        |i: int| t(m, i),
        kk,
    ) by {
        lemma_conv_partial_stable(a, b, m, kk);
        lemma_conv_as_sum(a, b, m, kk);
        assert forall|i: int| 0 <= i < kk implies #[trigger] t(m, i) == c[k - m] * conv_term(a, b, i, m) by {
            let x = conv_term(a, b, i, m);
            assert(x * c[k - m] == c[k - m] * x) by (nonlinear_arith);
        }
        lemma_sum_scale(|i: int| conv_term(a, b, i, m), |i: int| t(m, i), c[k - m], kk);
        assert(conv(a, b, m) * c[k - m] == c[k - m] * conv(a, b, m)) by (nonlinear_arith);
    }
    lemma_sum_ext(|m: int| conv_term(ab, c, m, k), |m: int| sum(|i: int| t(m, i), kk), kk);
    lemma_sum_swap(t, kk, kk);
    // right side: each row is `a[i]` times a coefficient of `b * c`
    lemma_conv_as_sum(a, bc, k, kk);
    assert forall|i: int| 0 <= i < kk implies #[trigger] conv_term(a, bc, i, k) == sum(
        |m: int| t(m, i),
        kk,
    ) by {
        let u = |m: int| t(m, i);
        let w = |j: int| conv_term(b, c, j, k - i);
        let v = |j: int| u(i + j);
        lemma_sum_split(u, v, i, kk);
        assert forall|m: int| 0 <= m < i implies #[trigger] u(m) == 0 by {
            assert(conv_term(a, b, i, m) == 0);
        }
        lemma_sum_zero(u, i);
        assert forall|j: int| 0 <= j < kk - i implies #[trigger] v(j) == a[i] * w(j) by {
            assert(conv_term(a, b, i, i + j) == a[i] * b[j]);
            assert(w(j) == b[j] * c[k - i - j]);
            assert(k - (i + j) == k - i - j);
            assert((a[i] * b[j]) * c[k - i - j] == a[i] * (b[j] * c[k - i - j])) by (nonlinear_arith);
        }
        lemma_sum_scale(w, v, a[i], kk - i);
        lemma_conv_as_sum(b, c, k - i, kk - i);
        assert(conv_term(a, bc, i, k) == a[i] * bc[k - i]);
    }
    lemma_sum_ext(|i: int| conv_term(a, bc, i, k), |i: int| sum(|m: int| t(m, i), kk), kk);
}

/// Coefficient-wise congruent left factors give congruent products.
proof fn lemma_conv_congruent_left(s: Seq<int>, t: Seq<int>, c: Seq<int>, k: int, n: int)
    requires
        s.len() == t.len(),
        forall|m: int| 0 <= m < s.len() ==> residue(#[trigger] s[m]) == residue(t[m]),
    ensures
        residue(conv_partial(s, c, k, n)) == residue(conv_partial(t, c, k, n)),
    decreases n,
{
    if n > 0 {
        lemma_conv_congruent_left(s, t, c, k, n - 1);
        let i = n - 1;
        if 0 <= i < s.len() && 0 <= k - i < c.len() {
            lemma_residue_mul(s[i], c[k - i], t[i], c[k - i]);
        }
        lemma_residue_add(conv_partial(s, c, k, n - 1), conv_term(s, c, i, k), conv_partial(t, c, k, n - 1), conv_term(t, c, i, k));
    }
}

/// Coefficient-wise congruent right factors give congruent products.
proof fn lemma_conv_congruent_right(a: Seq<int>, s: Seq<int>, t: Seq<int>, k: int, n: int)
    requires
        s.len() == t.len(),
        forall|m: int| 0 <= m < s.len() ==> residue(#[trigger] s[m]) == residue(t[m]),
    ensures
        residue(conv_partial(a, s, k, n)) == residue(conv_partial(a, t, k, n)),
    decreases n,
{
    if n > 0 {
        lemma_conv_congruent_right(a, s, t, k, n - 1);
        let i = n - 1;
        if 0 <= i < a.len() && 0 <= k - i < s.len() {
            lemma_residue_mul(a[i], s[k - i], a[i], t[k - i]);
        }
        lemma_residue_add(conv_partial(a, s, k, n - 1), conv_term(a, s, i, k), conv_partial(a, t, k, n - 1), conv_term(a, t, i, k));
    }
}

/// Multiplication of polynomials is associative.
pub proof fn law_mul_associative(a: Seq<int>, b: Seq<int>, c: Seq<int>)
    requires
        is_field_poly(a),
        is_field_poly(b),
        is_field_poly(c),
    ensures
        product_spec(product_spec(a, b), c) == product_spec(a, product_spec(b, c)),
{
    let ab = product_spec(a, b);
    let bc = product_spec(b, c);
    assert forall|m: int| 0 <= m < CAPACITY implies residue(#[trigger] ab[m]) == residue(conv_seq(a, b)[m]) by {
        crate::field::lemma_residue_idempotent(conv(a, b, m));
    }
    assert forall|m: int| 0 <= m < CAPACITY implies residue(#[trigger] bc[m]) == residue(conv_seq(b, c)[m]) by {
        crate::field::lemma_residue_idempotent(conv(b, c, m));
    }
    assert forall|k: int| 0 <= k < CAPACITY implies #[trigger] product_spec(ab, c)[k] == product_spec(a, bc)[k] by {
        lemma_conv_congruent_left(ab, conv_seq(a, b), c, k, k + 1);
        lemma_conv_congruent_right(a, bc, conv_seq(b, c), k, k + 1);
        lemma_conv_associative(a, b, c, k);
    }
    assert(product_spec(ab, c) =~= product_spec(a, bc));
}

} // verus!
