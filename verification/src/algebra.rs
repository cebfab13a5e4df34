//! Ring laws behind the correctness of K-PKE: linearity of the NTT and its
//! inverse, the laws of NTT-domain multiplication, and sums of polynomials.
use vstd::prelude::*;
use crate::field::{
    fadd, fmul, lemma_cong, lemma_poly_add_assoc, lemma_poly_add_comm, lemma_poly_add_sub,
    lemma_poly_add_zero, poly_add, poly_sub, poly_wf, poly_zero,
};
use crate::pke::{col_dot, matrix_entry, row_dot, vec_dot};
use crate::ntt::{
    basemul, block_one, gamma, inv_ntt, lemma_inv_ntt_ntt, lemma_ntt_add, lemma_ntt_inv_ntt, lemma_ntt_mulx,
    lemma_ntt_one, lemma_ntt_scale, lemma_ntt_wf, ntt, ntt_mulx, poly_mulx, poly_scale,
};

verus! {

/// The NTT maps differences to differences.
pub proof fn lemma_ntt_sub(f: Seq<u16>, g: Seq<u16>)
    requires
        poly_wf(f),
        poly_wf(g),
    ensures
        ntt(poly_sub(f, g)) == poly_sub(ntt(f), ntt(g)),
{
    let d = poly_sub(f, g);
    lemma_poly_add_sub(f, g);
    lemma_ntt_add(d, g);
    lemma_ntt_wf(d);
    lemma_ntt_wf(g);
    lemma_poly_add_sub(ntt(d), ntt(g));
}

/// NTT^-1 of a polynomial is reduced.
pub proof fn lemma_inv_ntt_wf(f: Seq<u16>)
    ensures
        poly_wf(inv_ntt(f)),
{
}

/// NTT^-1 maps sums to sums and differences to differences.
pub proof fn lemma_inv_ntt_linear(a: Seq<u16>, b: Seq<u16>)
    requires
        poly_wf(a),
        poly_wf(b),
    ensures
        inv_ntt(poly_add(a, b)) == poly_add(inv_ntt(a), inv_ntt(b)),
        inv_ntt(poly_sub(a, b)) == poly_sub(inv_ntt(a), inv_ntt(b)),
{
    let x = inv_ntt(a);
    let y = inv_ntt(b);
    lemma_ntt_inv_ntt(a);
    lemma_ntt_inv_ntt(b);
    lemma_ntt_add(x, y);
    lemma_inv_ntt_ntt(poly_add(x, y));
    lemma_ntt_sub(x, y);
    lemma_inv_ntt_ntt(poly_sub(x, y));
}

/// `(x mod q) u + (y mod q) v = x u + y v (mod q)`.
proof fn lemma_cong2(x: int, y: int, u: int, v: int)
    ensures
        ((x % 3329) * u + (y % 3329) * v) % 3329 == (x * u + y * v) % 3329,
{
    lemma_cong((x % 3329) * u, (y % 3329) * v);
    lemma_cong(x % 3329, u);
    lemma_cong(y % 3329, v);
    lemma_cong(x, u);
    lemma_cong(y, v);
    vstd::arithmetic::div_mod::lemma_mod_twice(x, 3329);
    vstd::arithmetic::div_mod::lemma_mod_twice(y, 3329);
    lemma_cong(u, x % 3329);
    lemma_cong(u, x);
    lemma_cong(v, y % 3329);
    lemma_cong(v, y);
    assert((x % 3329) * u == u * (x % 3329)) by (nonlinear_arith);
    assert((y % 3329) * v == v * (y % 3329)) by (nonlinear_arith);
    assert(x * u == u * x) by (nonlinear_arith);
    assert(y * v == v * y) by (nonlinear_arith);
    lemma_cong(x * u, y * v);
}

/// The two coefficients of block `j` of `f * g` in the NTT domain.
proof fn lemma_basemul_coeffs(f: Seq<u16>, g: Seq<u16>, j: int)
    requires
        0 <= j < 128,
    ensures
        basemul(f, g)[2 * j] as int == (f[2 * j] * g[2 * j] + f[2 * j + 1] * (g[2 * j + 1] * gamma(
            j as nat,
        ))) % 3329,
        basemul(f, g)[2 * j + 1] as int == (f[2 * j] * g[2 * j + 1] + f[2 * j + 1] * g[2 * j]) % 3329,
{
    let a0 = f[2 * j] as int;
    let a1 = f[2 * j + 1] as int;
    let b0 = g[2 * j] as int;
    let b1 = g[2 * j + 1] as int;
    let gm = gamma(j as nat) as int;
    assert((2 * j) / 2 == j && (2 * j) % 2 == 0);
    assert((2 * j + 1) / 2 == j && (2 * j + 1) % 2 == 1);
    lemma_cong(a1 * b1, gm);
    lemma_cong(a0 * b0, a1 * b1 * gm);
    lemma_cong(a0 * b1, a1 * b0);
    assert(a1 * b1 * gm == a1 * (b1 * gm)) by (nonlinear_arith);
    assert(fmul(fmul(f[2 * j + 1], g[2 * j + 1]), gamma(j as nat)) as int == ((a1 * b1 % 3329) * gm) % 3329);
}

/// Multiplication in the NTT domain is commutative.
pub proof fn lemma_basemul_comm(f: Seq<u16>, g: Seq<u16>)
    ensures
        basemul(f, g) == basemul(g, f),
{
    assert forall|i: int| 0 <= i < 256 implies #[trigger] basemul(f, g)[i] == basemul(g, f)[i] by {
        let j = i / 2;
        lemma_basemul_coeffs(f, g, j);
        lemma_basemul_coeffs(g, f, j);
        let gm = gamma(j as nat) as int;
        assert(f[2 * j] * g[2 * j] + f[2 * j + 1] * (g[2 * j + 1] * gm) == g[2 * j] * f[2 * j] + g[2 * j
            + 1] * (f[2 * j + 1] * gm)) by (nonlinear_arith);
        assert(f[2 * j] * g[2 * j + 1] + f[2 * j + 1] * g[2 * j] == g[2 * j] * f[2 * j + 1] + g[2 * j
            + 1] * f[2 * j]) by (nonlinear_arith);
        assert(i == 2 * j || i == 2 * j + 1);
    }
    assert(basemul(f, g) =~= basemul(g, f));
}

/// The ring identities behind associativity in `Z_q[X]/(X^2 - gm)`.
proof fn lemma_assoc_identity(f0: int, f1: int, g0: int, g1: int, h0: int, h1: int, gm: int)
    ensures
        (f0 * g0 + f1 * (g1 * gm)) * h0 + (f0 * g1 + f1 * g0) * (h1 * gm) == (g0 * h0 + g1 * (h1 * gm))
            * f0 + (g0 * h1 + g1 * h0) * (f1 * gm),
        (f0 * g0 + f1 * (g1 * gm)) * h1 + (f0 * g1 + f1 * g0) * h0 == (g0 * h0 + g1 * (h1 * gm)) * f1
            + (g0 * h1 + g1 * h0) * f0,
{
    assert((f0 * g0 + f1 * (g1 * gm)) * h0 == f0 * g0 * h0 + f1 * g1 * h0 * gm) by (nonlinear_arith);
    assert((f0 * g1 + f1 * g0) * (h1 * gm) == f0 * g1 * h1 * gm + f1 * g0 * h1 * gm) by (nonlinear_arith);
    assert((g0 * h0 + g1 * (h1 * gm)) * f0 == g0 * h0 * f0 + g1 * (h1 * gm) * f0) by (nonlinear_arith);
    assert(g0 * h0 * f0 == f0 * g0 * h0) by (nonlinear_arith);
    assert(g1 * (h1 * gm) * f0 == f0 * g1 * h1 * gm) by (nonlinear_arith);
    assert((g0 * h1 + g1 * h0) * (f1 * gm) == g0 * h1 * (f1 * gm) + g1 * h0 * (f1 * gm)) by (nonlinear_arith);
    assert(g0 * h1 * (f1 * gm) == f1 * g0 * h1 * gm) by (nonlinear_arith);
    assert(g1 * h0 * (f1 * gm) == f1 * g1 * h0 * gm) by (nonlinear_arith);
    assert((f0 * g0 + f1 * (g1 * gm)) * h1 == f0 * g0 * h1 + f1 * g1 * h1 * gm) by (nonlinear_arith);
    assert((f0 * g1 + f1 * g0) * h0 == f0 * g1 * h0 + f1 * g0 * h0) by (nonlinear_arith);
    assert((g0 * h0 + g1 * (h1 * gm)) * f1 == g0 * h0 * f1 + g1 * (h1 * gm) * f1) by (nonlinear_arith);
    assert(g0 * h0 * f1 == f1 * g0 * h0) by (nonlinear_arith);
    assert(g1 * (h1 * gm) * f1 == f1 * g1 * h1 * gm) by (nonlinear_arith);
    assert((g0 * h1 + g1 * h0) * f0 == f0 * g0 * h1 + f0 * g1 * h0) by (nonlinear_arith);
}

/// Multiplication in the NTT domain is associative.
pub proof fn lemma_basemul_assoc(f: Seq<u16>, g: Seq<u16>, h: Seq<u16>)
    ensures
        basemul(basemul(f, g), h) == basemul(f, basemul(g, h)),
{
    let fg = basemul(f, g);
    let gh = basemul(g, h);
    assert forall|i: int| 0 <= i < 256 implies #[trigger] basemul(fg, h)[i] == basemul(f, gh)[i] by {
        let j = i / 2;
        let gm = gamma(j as nat) as int;
        let f0 = f[2 * j] as int;
        let f1 = f[2 * j + 1] as int;
        let g0 = g[2 * j] as int;
        let g1 = g[2 * j + 1] as int;
        let h0 = h[2 * j] as int;
        let h1 = h[2 * j + 1] as int;
        let x0 = f0 * g0 + f1 * (g1 * gm);
        let x1 = f0 * g1 + f1 * g0;
        let y0 = g0 * h0 + g1 * (h1 * gm);
        let y1 = g0 * h1 + g1 * h0;
        lemma_basemul_coeffs(f, g, j);
        lemma_basemul_coeffs(g, h, j);
        lemma_basemul_coeffs(fg, h, j);
        lemma_basemul_coeffs(f, gh, j);
        // (f g) h
        lemma_cong2(x0, x1, h0, h1 * gm);
        lemma_cong2(x0, x1, h1, h0);
        // f (g h)
        lemma_cong2(y0, y1, f0, f1 * gm);
        lemma_cong2(y0, y1, f1, f0);
        assert((y0 % 3329) * f0 + (y1 % 3329) * (f1 * gm) == f0 * (y0 % 3329) + f1 * ((y1 % 3329) * gm))
            by (nonlinear_arith);
        assert((y0 % 3329) * f1 + (y1 % 3329) * f0 == f0 * (y1 % 3329) + f1 * (y0 % 3329)) by (
        nonlinear_arith);
        lemma_assoc_identity(f0, f1, g0, g1, h0, h1, gm);
        assert(i == 2 * j || i == 2 * j + 1);
    }
    assert(basemul(fg, h) =~= basemul(f, gh));
}

/// Multiplication in the NTT domain distributes over addition.
pub proof fn lemma_basemul_add(f: Seq<u16>, g: Seq<u16>, h: Seq<u16>)
    ensures
        basemul(poly_add(f, g), h) == poly_add(basemul(f, h), basemul(g, h)),
{
    let s = poly_add(f, g);
    assert forall|i: int| 0 <= i < 256 implies #[trigger] basemul(s, h)[i] == poly_add(
        basemul(f, h),
        basemul(g, h),
    )[i] by {
        let j = i / 2;
        let gm = gamma(j as nat) as int;
        let f0 = f[2 * j] as int;
        let f1 = f[2 * j + 1] as int;
        let g0 = g[2 * j] as int;
        let g1 = g[2 * j + 1] as int;
        let h0 = h[2 * j] as int;
        let h1 = h[2 * j + 1] as int;
        lemma_basemul_coeffs(s, h, j);
        lemma_basemul_coeffs(f, h, j);
        lemma_basemul_coeffs(g, h, j);
        assert(s[2 * j] as int == (f0 + g0) % 3329);
        assert(s[2 * j + 1] as int == (f1 + g1) % 3329);
        lemma_cong2(f0 + g0, f1 + g1, h0, h1 * gm);
        lemma_cong2(f0 + g0, f1 + g1, h1, h0);
        lemma_cong(f0 * h0 + f1 * (h1 * gm), g0 * h0 + g1 * (h1 * gm));
        lemma_cong(f0 * h1 + f1 * h0, g0 * h1 + g1 * h0);
        assert((f0 + g0) * h0 + (f1 + g1) * (h1 * gm) == (f0 * h0 + f1 * (h1 * gm)) + (g0 * h0 + g1 * (h1
            * gm))) by (nonlinear_arith);
        assert((f0 + g0) * h1 + (f1 + g1) * h0 == (f0 * h1 + f1 * h0) + (g0 * h1 + g1 * h0)) by (
        nonlinear_arith);
        assert(i == 2 * j || i == 2 * j + 1);
    }
    assert(basemul(s, h) =~= poly_add(basemul(f, h), basemul(g, h)));
}

/// Multiplying zero gives zero.
pub proof fn lemma_basemul_zero(h: Seq<u16>)
    ensures
        basemul(poly_zero(), h) == poly_zero(),
{
    assert forall|i: int| 0 <= i < 256 implies #[trigger] basemul(poly_zero(), h)[i] == 0 by {
        let j = i / 2;
        lemma_basemul_coeffs(poly_zero(), h, j);
        let z0 = poly_zero()[2 * j] as int;
        let z1 = poly_zero()[2 * j + 1] as int;
        assert(z0 == 0 && z1 == 0);
        let h0 = h[2 * j] as int;
        let h1 = h[2 * j + 1] as int;
        let gm = gamma(j as nat) as int;
        assert(z0 * h0 + z1 * (h1 * gm) == 0 && z0 * h1 + z1 * h0 == 0) by (nonlinear_arith)
            requires
                z0 == 0,
                z1 == 0,
        ;
        assert(i == 2 * j || i == 2 * j + 1);
    }
    assert(basemul(poly_zero(), h) =~= poly_zero());
}

/// A product in the NTT domain is reduced.
pub proof fn lemma_basemul_wf(f: Seq<u16>, g: Seq<u16>)
    ensures
        poly_wf(basemul(f, g)),
{
}

/// `sum_{j < n} f(j)`.
pub open spec fn psum(f: spec_fn(int) -> Seq<u16>, n: nat) -> Seq<u16>
    decreases n,
{
    if n == 0 {
        poly_zero()
    } else {
        poly_add(psum(f, (n - 1) as nat), f(n - 1))
    }
}

pub proof fn lemma_psum_wf(f: spec_fn(int) -> Seq<u16>, n: nat)
    ensures
        poly_wf(psum(f, n)),
    decreases n,
{
    if n > 0 {
        lemma_psum_wf(f, (n - 1) as nat);
    }
}

/// Sums of equal terms are equal.
pub proof fn lemma_psum_ext(f: spec_fn(int) -> Seq<u16>, g: spec_fn(int) -> Seq<u16>, n: nat)
    requires
        forall|j: int| 0 <= j < n ==> #[trigger] f(j) == g(j),
    ensures
        psum(f, n) == psum(g, n),
    decreases n,
{
    if n > 0 {
        lemma_psum_ext(f, g, (n - 1) as nat);
    }
}

/// A sum of zeros is zero.
proof fn lemma_psum_zero(n: nat)
    ensures
        psum(|j: int| poly_zero(), n) == poly_zero(),
    decreases n,
{
    if n > 0 {
        lemma_psum_zero((n - 1) as nat);
        lemma_poly_add_zero(poly_zero());
    }
}

/// The sum of termwise sums is the sum of the two sums.
proof fn lemma_psum_add(f: spec_fn(int) -> Seq<u16>, g: spec_fn(int) -> Seq<u16>, n: nat)
    ensures
        psum(|j: int| poly_add(f(j), g(j)), n) == poly_add(psum(f, n), psum(g, n)),
    decreases n,
{
    if n == 0 {
        lemma_poly_add_zero(poly_zero());
    } else {
        let m = (n - 1) as nat;
        lemma_psum_add(f, g, m);
        let a = psum(f, m);
        let b = psum(g, m);
        let x = f(n - 1);
        let y = g(n - 1);
        lemma_poly_add_assoc(a, b, poly_add(x, y));
        lemma_poly_add_assoc(b, x, y);
        lemma_poly_add_comm(b, x);
        lemma_poly_add_assoc(x, b, y);
        lemma_poly_add_assoc(a, x, poly_add(b, y));
        lemma_poly_add_assoc(poly_add(a, x), b, y);
    }
}

/// Multiplying a sum multiplies each term.
proof fn lemma_basemul_psum(f: spec_fn(int) -> Seq<u16>, n: nat, y: Seq<u16>)
    ensures
        basemul(psum(f, n), y) == psum(|j: int| basemul(f(j), y), n),
    decreases n,
{
    if n == 0 {
        lemma_basemul_zero(y);
    } else {
        lemma_basemul_psum(f, (n - 1) as nat, y);
        lemma_basemul_add(psum(f, (n - 1) as nat), f(n - 1), y);
    }
}

/// Multiplying by a sum multiplies by each term.
proof fn lemma_basemul_psum_right(s: Seq<u16>, f: spec_fn(int) -> Seq<u16>, n: nat)
    ensures
        basemul(s, psum(f, n)) == psum(|j: int| basemul(s, f(j)), n),
{
    lemma_basemul_comm(s, psum(f, n));
    lemma_basemul_psum(f, n, s);
    let l = |j: int| basemul(f(j), s);
    let r = |j: int| basemul(s, f(j));
    assert forall|j: int| 0 <= j < n implies #[trigger] l(j) == r(j) by {
        lemma_basemul_comm(f(j), s);
    }
    lemma_psum_ext(l, r, n);
}

/// Double sums can be taken in either order.
proof fn lemma_psum_swap(g: spec_fn(int, int) -> Seq<u16>, n: nat, m: nat)
    ensures
        psum(|i: int| psum(|j: int| g(i, j), m), n) == psum(|j: int| psum(|i: int| g(i, j), n), m),
    decreases n,
{
    if n == 0 {
        lemma_psum_ext(|j: int| psum(|i: int| g(i, j), 0), |j: int| poly_zero(), m);
        lemma_psum_zero(m);
    } else {
        let k = (n - 1) as nat;
        lemma_psum_swap(g, k, m);
        let inner = |j: int| psum(|i: int| g(i, j), k);
        let last = |j: int| g(k as int, j);
        lemma_psum_add(inner, last, m);
        let l = |j: int| poly_add(inner(j), last(j));
        let r = |j: int| psum(|i: int| g(i, j), n);
        assert forall|j: int| 0 <= j < m implies #[trigger] l(j) == r(j) by {}
        lemma_psum_ext(l, r, m);
        lemma_psum_ext(|j: int| g(k as int, j), last, m);
    }
}

/// A dot product of vectors in the NTT domain is a sum of products.
pub proof fn lemma_vec_dot_psum(a: Seq<Seq<u16>>, b: Seq<Seq<u16>>, n: nat)
    ensures
        vec_dot(a, b, n) == psum(|j: int| basemul(a[j], b[j]), n),
    decreases n,
{
    if n > 0 {
        lemma_vec_dot_psum(a, b, (n - 1) as nat);
    }
}

pub proof fn lemma_row_dot_psum(rho: Seq<u8>, i: nat, v: Seq<Seq<u16>>, n: nat)
    ensures
        row_dot(rho, i, v, n) == psum(|j: int| basemul(matrix_entry(rho, i, j as nat), v[j]), n),
    decreases n,
{
    if n > 0 {
        lemma_row_dot_psum(rho, i, v, (n - 1) as nat);
    }
}

pub proof fn lemma_col_dot_psum(rho: Seq<u8>, i: nat, v: Seq<Seq<u16>>, n: nat)
    ensures
        col_dot(rho, i, v, n) == psum(|j: int| basemul(matrix_entry(rho, j as nat, i), v[j]), n),
    decreases n,
{
    if n > 0 {
        lemma_col_dot_psum(rho, i, v, (n - 1) as nat);
    }
}

/// `(A s) . y = s . (A^T y)` in the NTT domain, for the matrix A-hat of `rho`.
pub proof fn lemma_matrix_transpose(rho: Seq<u8>, s: Seq<Seq<u16>>, y: Seq<Seq<u16>>, k: nat)
    ensures
        vec_dot(Seq::new(k, |i: int| row_dot(rho, i as nat, s, k)), y, k) == vec_dot(
            s,
            Seq::new(k, |j: int| col_dot(rho, j as nat, y, k)),
            k,
        ),
{
    let a = |i: int, j: int| matrix_entry(rho, i as nat, j as nat);
    let g = |i: int, j: int| basemul(s[j], basemul(a(i, j), y[i]));
    let rows = Seq::new(k, |i: int| row_dot(rho, i as nat, s, k));
    let cols = Seq::new(k, |j: int| col_dot(rho, j as nat, y, k));
    lemma_vec_dot_psum(rows, y, k);
    lemma_vec_dot_psum(s, cols, k);
    let lhs = |i: int| basemul(rows[i], y[i]);
    let lhs2 = |i: int| psum(|j: int| g(i, j), k);
    assert forall|i: int| 0 <= i < k implies #[trigger] lhs(i) == lhs2(i) by {
        let row = |j: int| basemul(a(i, j), s[j]);
        lemma_row_dot_psum(rho, i as nat, s, k);
        lemma_psum_ext(|j: int| basemul(matrix_entry(rho, i as nat, j as nat), s[j]), row, k);
        lemma_basemul_psum(row, k, y[i]);
        let t = |j: int| basemul(row(j), y[i]);
        let u = |j: int| g(i, j);
        assert forall|j: int| 0 <= j < k implies #[trigger] t(j) == u(j) by {
            lemma_basemul_comm(a(i, j), s[j]);
            lemma_basemul_assoc(s[j], a(i, j), y[i]);
        }
        lemma_psum_ext(t, u, k);
    }
    lemma_psum_ext(lhs, lhs2, k);
    let rhs = |j: int| basemul(s[j], cols[j]);
    let rhs2 = |j: int| psum(|i: int| g(i, j), k);
    assert forall|j: int| 0 <= j < k implies #[trigger] rhs(j) == rhs2(j) by {
        let col = |i: int| basemul(a(i, j), y[i]);
        lemma_col_dot_psum(rho, j as nat, y, k);
        lemma_psum_ext(|i: int| basemul(matrix_entry(rho, i as nat, j as nat), y[i]), col, k);
        lemma_basemul_psum_right(s[j], col, k);
        let t = |i: int| basemul(s[j], col(i));
        let u = |i: int| g(i, j);
        assert forall|i: int| 0 <= i < k implies #[trigger] t(i) == u(i) by {}
        lemma_psum_ext(t, u, k);
    }
    lemma_psum_ext(rhs, rhs2, k);
    lemma_psum_swap(g, k, k);
}

/// A dot product in the NTT domain is reduced.
pub proof fn lemma_vec_dot_wf(a: Seq<Seq<u16>>, b: Seq<Seq<u16>>, n: nat)
    ensures
        poly_wf(vec_dot(a, b, n)),
    decreases n,
{
    if n > 0 {
        lemma_vec_dot_wf(a, b, (n - 1) as nat);
    }
}

/// A dot product is additive in its second argument.
pub proof fn lemma_vec_dot_add_right(s: Seq<Seq<u16>>, x: Seq<Seq<u16>>, a: Seq<Seq<u16>>, b: Seq<Seq<u16>>, n: nat)
    requires
        forall|i: int| 0 <= i < n ==> #[trigger] x[i] == poly_add(a[i], b[i]),
    ensures
        vec_dot(s, x, n) == poly_add(vec_dot(s, a, n), vec_dot(s, b, n)),
{
    lemma_vec_dot_psum(s, x, n);
    lemma_vec_dot_psum(s, a, n);
    lemma_vec_dot_psum(s, b, n);
    let fa = |j: int| basemul(s[j], a[j]);
    let fb = |j: int| basemul(s[j], b[j]);
    let fx = |j: int| basemul(s[j], x[j]);
    let fab = |j: int| poly_add(fa(j), fb(j));
    assert forall|j: int| 0 <= j < n implies #[trigger] fx(j) == fab(j) by {
        lemma_basemul_comm(s[j], x[j]);
        lemma_basemul_add(a[j], b[j], s[j]);
        lemma_basemul_comm(a[j], s[j]);
        lemma_basemul_comm(b[j], s[j]);
    }
    lemma_psum_ext(fx, fab, n);
    lemma_psum_add(fa, fb, n);
}

/// A dot product is additive in its first argument.
pub proof fn lemma_vec_dot_add_left(x: Seq<Seq<u16>>, a: Seq<Seq<u16>>, b: Seq<Seq<u16>>, y: Seq<Seq<u16>>, n: nat)
    requires
        forall|i: int| 0 <= i < n ==> #[trigger] x[i] == poly_add(a[i], b[i]),
    ensures
        vec_dot(x, y, n) == poly_add(vec_dot(a, y, n), vec_dot(b, y, n)),
{
    lemma_vec_dot_psum(x, y, n);
    lemma_vec_dot_psum(a, y, n);
    lemma_vec_dot_psum(b, y, n);
    let fa = |j: int| basemul(a[j], y[j]);
    let fb = |j: int| basemul(b[j], y[j]);
    let fx = |j: int| basemul(x[j], y[j]);
    let fab = |j: int| poly_add(fa(j), fb(j));
    assert forall|j: int| 0 <= j < n implies #[trigger] fx(j) == fab(j) by {
        lemma_basemul_add(a[j], b[j], y[j]);
    }
    lemma_psum_ext(fx, fab, n);
    lemma_psum_add(fa, fb, n);
}

/// `(x mod q) u + w = x u + w (mod q)`.
proof fn lemma_cong1(x: int, u: int, w: int)
    ensures
        ((x % 3329) * u + w) % 3329 == (x * u + w) % 3329,
{
    lemma_cong((x % 3329) * u, w);
    lemma_cong(x * u, w);
    lemma_cong(u, x);
    assert((x % 3329) * u == u * (x % 3329)) by (nonlinear_arith);
    assert(x * u == u * x) by (nonlinear_arith);
}

/// Multiplication by X commutes with multiplication in the NTT domain.
pub proof fn lemma_basemul_mulx(f: Seq<u16>, g: Seq<u16>)
    ensures
        basemul(ntt_mulx(f), g) == ntt_mulx(basemul(f, g)),
{
    let mf = ntt_mulx(f);
    let fg = basemul(f, g);
    assert forall|p: int| 0 <= p < 256 implies #[trigger] basemul(mf, g)[p] == ntt_mulx(fg)[p] by {
        let j = p / 2;
        let gm = gamma(j as nat) as int;
        let f0 = f[2 * j] as int;
        let f1 = f[2 * j + 1] as int;
        let g0 = g[2 * j] as int;
        let g1 = g[2 * j + 1] as int;
        assert((2 * j) / 2 == j && (2 * j) % 2 == 0 && (2 * j + 1) % 2 == 1);
        lemma_basemul_coeffs(mf, g, j);
        lemma_basemul_coeffs(f, g, j);
        assert(mf[2 * j] as int == (gm * f1) % 3329);
        assert(mf[2 * j + 1] as int == f0);
        lemma_cong1(gm * f1, g0, f0 * (g1 * gm));
        lemma_cong1(gm * f1, g1, f0 * g0);
        lemma_cong(gm, f0 * g1 + f1 * g0);
        assert(gm * f1 * g0 + f0 * (g1 * gm) == gm * (f0 * g1 + f1 * g0)) by (nonlinear_arith);
        assert(gm * f1 * g1 + f0 * g0 == f0 * g0 + f1 * (g1 * gm)) by (nonlinear_arith);
        assert(p == 2 * j || p == 2 * j + 1);
    }
    assert(basemul(mf, g) =~= ntt_mulx(fg));
}

/// Multiplying by the constant `c` in the NTT domain scales every coefficient.
#[verifier::spinoff_prover]
pub proof fn lemma_basemul_one(g: Seq<u16>, c: u16)
    requires
        c < 3329,
    ensures
        basemul(poly_scale(block_one(7), c), g) == poly_scale(g, c),
{
    let o = poly_scale(block_one(7), c);
    assert forall|p: int| 0 <= p < 256 implies #[trigger] basemul(o, g)[p] == poly_scale(g, c)[p] by {
        let j = p / 2;
        assert((2 * j) % 2 == 0 && (2 * j + 1) % 2 == 1);
        lemma_basemul_coeffs(o, g, j);
        vstd::arithmetic::div_mod::lemma_small_mod(c as nat, 3329);
        assert(o[2 * j] == c && o[2 * j + 1] == 0);
        let gm = gamma(j as nat) as int;
        assert(0 * (g[2 * j + 1] * gm) == 0 && 0 * g[2 * j] == 0) by (nonlinear_arith);
        assert(c * g[2 * j] == g[2 * j] * c && c * g[2 * j + 1] == g[2 * j + 1] * c) by (nonlinear_arith);
        assert(p == 2 * j || p == 2 * j + 1);
    }
    assert(basemul(o, g) =~= poly_scale(g, c));
}

/// The polynomial 1.
pub open spec fn poly_one() -> Seq<u16> {
    Seq::new(256, |p: int| if p == 0 { 1u16 } else { 0u16 })
}

/// `sum_{i < t} f[256 - t + i] X^i g` in `Z_q[X]/(X^256 + 1)`: Horner's rule
/// over the top `t` coefficients of `f`.
pub open spec fn horner(f: Seq<u16>, g: Seq<u16>, t: nat) -> Seq<u16>
    decreases t,
{
    if t == 0 {
        poly_zero()
    } else {
        poly_add(poly_mulx(horner(f, g, (t - 1) as nat)), poly_scale(g, f[256 - t]))
    }
}

/// The product `f g` in `Z_q[X]/(X^256 + 1)`.
pub open spec fn poly_mul(f: Seq<u16>, g: Seq<u16>) -> Seq<u16> {
    horner(f, g, 256)
}

proof fn lemma_ntt_zero()
    ensures
        ntt(poly_zero()) == poly_zero(),
{
    assert(poly_scale(poly_zero(), 0) =~= poly_zero());
    lemma_ntt_scale(poly_zero(), 0);
    assert(poly_scale(ntt(poly_zero()), 0) =~= poly_zero());
}

proof fn lemma_ntt_horner(f: Seq<u16>, g: Seq<u16>, t: nat)
    requires
        poly_wf(f),
        g.len() == 256,
        t <= 256,
    ensures
        ntt(horner(f, g, t)) == basemul(ntt(horner(f, poly_one(), t)), ntt(g)),
    decreases t,
{
    if t == 0 {
        lemma_ntt_zero();
        lemma_basemul_zero(ntt(g));
    } else {
        let m = (t - 1) as nat;
        let c = f[256 - t];
        let hg = horner(f, g, m);
        let h1 = horner(f, poly_one(), m);
        lemma_ntt_horner(f, g, m);
        lemma_ntt_add(poly_mulx(hg), poly_scale(g, c));
        lemma_ntt_mulx(hg);
        lemma_ntt_scale(g, c);
        lemma_basemul_mulx(ntt(h1), ntt(g));
        lemma_basemul_one(ntt(g), c);
        lemma_basemul_add(ntt_mulx(ntt(h1)), poly_scale(block_one(7), c), ntt(g));
        lemma_ntt_add(poly_mulx(h1), poly_scale(poly_one(), c));
        lemma_ntt_mulx(h1);
        lemma_ntt_scale(poly_one(), c);
        lemma_ntt_one();
    }
}

#[verifier::spinoff_prover]
proof fn lemma_horner_one(f: Seq<u16>, t: nat)
    requires
        poly_wf(f),
        t <= 256,
    ensures
        horner(f, poly_one(), t) == Seq::new(256, |x: int| if x < t { f[256 - t + x] } else { 0u16 }),
    decreases t,
{
    if t > 0 {
        let m = (t - 1) as nat;
        lemma_horner_one(f, m);
        let c = f[256 - t];
        vstd::arithmetic::div_mod::lemma_small_mod(c as nat, 3329);
        let target = Seq::new(256, |x: int| if x < t { f[256 - t + x] } else { 0u16 });
        assert forall|x: int| 0 <= x < 256 implies #[trigger] horner(f, poly_one(), t)[x] == target[x] by {
            if x > 0 && x - 1 < m {
                vstd::arithmetic::div_mod::lemma_small_mod(f[256 - m + x - 1] as nat, 3329);
            }
        }
        assert(horner(f, poly_one(), t) =~= target);
    }
}

/// Multiplication in the NTT domain is multiplication in `Z_q[X]/(X^256 + 1)`:
/// the NTT of the negacyclic convolution of two polynomials is the
/// NTT-domain product of their NTTs, and NTT^-1 of the NTT-domain product of
/// two NTTs is the negacyclic convolution.
pub proof fn lemma_ntt_mul(f: Seq<u16>, g: Seq<u16>)
    requires
        poly_wf(f),
        poly_wf(g),
    ensures
        ntt(negacyclic(f, g)) == basemul(ntt(f), ntt(g)),
        inv_ntt(basemul(ntt(f), ntt(g))) == negacyclic(f, g),
        poly_mul(f, g) == negacyclic(f, g),
{
    lemma_ntt_horner(f, g, 256);
    lemma_horner_one(f, 256);
    assert(horner(f, poly_one(), 256) =~= f);
    lemma_inv_ntt_ntt(poly_mul(f, g));
    lemma_poly_mul_negacyclic(f, g);
}

/// Coefficient `k` of `g` read negacyclically: `g[k]` for `0 <= k < 256` and
/// `-g[k + 256]` for `-256 <= k < 0`, since `X^256 = -1`.
pub open spec fn nega(g: Seq<u16>, k: int) -> int {
    if k >= 0 {
        g[k] as int
    } else {
        -(g[k + 256] as int)
    }
}

/// `sum_{i < n} f[i] * nega(g, x - i)`.
pub open spec fn conv_sum(f: Seq<u16>, g: Seq<u16>, x: int, n: nat) -> int
    decreases n,
{
    if n == 0 {
        0
    } else {
        conv_sum(f, g, x, (n - 1) as nat) + f[n - 1] * nega(g, x - (n - 1))
    }
}

/// The negacyclic convolution of `f` and `g`: coefficient `x` is
/// `sum_{i <= x} f[i] g[x - i] - sum_{i > x} f[i] g[x + 256 - i]` modulo q.
pub open spec fn negacyclic(f: Seq<u16>, g: Seq<u16>) -> Seq<u16> {
    Seq::new(256, |x: int| (conv_sum(f, g, x, 256) % 3329) as u16)
}

/// The top `t` coefficients of `f`, moved to the bottom.
pub open spec fn top(f: Seq<u16>, t: nat) -> Seq<u16> {
    Seq::new(256, |i: int| if i < t { f[256 - t + i] } else { 0u16 })
}

proof fn lemma_conv_sum_ext(f: Seq<u16>, h: Seq<u16>, g: Seq<u16>, x: int, n: nat)
    requires
        forall|i: int| 0 <= i < n ==> #[trigger] f[i] == h[i],
    ensures
        conv_sum(f, g, x, n) == conv_sum(h, g, x, n),
    decreases n,
{
    if n > 0 {
        lemma_conv_sum_ext(f, h, g, x, (n - 1) as nat);
    }
}

/// Splitting off the first term of a convolution sum.
proof fn lemma_conv_sum_first(f: Seq<u16>, g: Seq<u16>, x: int, n: nat)
    requires
        f.len() == 256,
        n < 256,
    ensures
        conv_sum(f, g, x, n + 1) == f[0] * nega(g, x) + conv_sum(f.skip(1), g, x - 1, n),
    decreases n,
{
    let fs = f.skip(1);
    if n > 0 {
        lemma_conv_sum_first(f, g, x, (n - 1) as nat);
        assert(fs[n - 1] == f[n as int]);
        let v = nega(g, x - n);
        assert(nega(g, (x - 1) - (n - 1)) == v);
        assert(conv_sum(fs, g, x - 1, n) == conv_sum(fs, g, x - 1, (n - 1) as nat) + fs[n - 1] * v);
        assert(conv_sum(f, g, x, n + 1) == conv_sum(f, g, x, n) + f[n as int] * v);
    } else {
        assert(conv_sum(f, g, x, 1) == conv_sum(f, g, x, 0) + f[0] * nega(g, x - 0));
    }
}

/// At `x = -1` the convolution sum is the negation of the one at `x = 255`.
proof fn lemma_conv_sum_wrap(f: Seq<u16>, g: Seq<u16>, n: nat)
    requires
        n <= 256,
    ensures
        conv_sum(f, g, -1, n) == -conv_sum(f, g, 255, n),
    decreases n,
{
    if n > 0 {
        lemma_conv_sum_wrap(f, g, (n - 1) as nat);
        let a = f[n - 1] as int;
        let b = g[255 - (n - 1)] as int;
        assert(nega(g, -1 - (n - 1)) == -b);
        assert(nega(g, 255 - (n - 1)) == b);
        assert(a * (-b) == -(a * b)) by (nonlinear_arith);
    }
}

proof fn lemma_horner_conv(f: Seq<u16>, g: Seq<u16>, t: nat)
    requires
        poly_wf(f),
        poly_wf(g),
        t <= 256,
    ensures
        forall|x: int| 0 <= x < 256 ==> #[trigger] horner(f, g, t)[x] as int == conv_sum(top(f, t), g, x, t) % 3329,
    decreases t,
{
    if t > 0 {
        let m = (t - 1) as nat;
        lemma_horner_conv(f, g, m);
        let c = f[256 - t];
        let r = horner(f, g, m);
        let ft = top(f, t);
        let fm = top(f, m);
        assert forall|i: int| 0 <= i < m implies #[trigger] ft.skip(1)[i] == fm[i] by {}
        assert forall|x: int| 0 <= x < 256 implies #[trigger] horner(f, g, t)[x] as int == conv_sum(ft, g, x, t)
            % 3329 by {
            lemma_conv_sum_first(ft, g, x, m);
            lemma_conv_sum_ext(ft.skip(1), fm, g, x - 1, m);
            assert(ft[0] == c);
            let gx = g[x] as int;
            assert(nega(g, x) == gx);
            let rest = conv_sum(fm, g, x - 1, m);
            assert(c * gx == gx * c) by (nonlinear_arith);
            if x == 0 {
                lemma_conv_sum_wrap(fm, g, m);
                let s255 = conv_sum(fm, g, 255, m);
                assert(r[255] as int == s255 % 3329);
                lemma_cong(3328, s255);
                assert(3328 * s255 == 3329 * s255 - s255) by (nonlinear_arith);
                vstd::arithmetic::div_mod::lemma_mod_multiples_vanish(s255, -s255, 3329);
                lemma_cong(-s255, gx * c);
                lemma_cong((3328 * (s255 % 3329)) % 3329, gx * c);
                lemma_cong(-s255, gx * c);
            } else {
                assert(r[x - 1] as int == rest % 3329);
                lemma_cong(rest, gx * c);
            }
        }
    }
}

/// Horner's rule computes the negacyclic convolution.
pub proof fn lemma_poly_mul_negacyclic(f: Seq<u16>, g: Seq<u16>)
    requires
        poly_wf(f),
        poly_wf(g),
    ensures
        poly_mul(f, g) == negacyclic(f, g),
{
    lemma_horner_conv(f, g, 256);
    assert(top(f, 256) =~= f);
    assert(poly_mul(f, g) =~= negacyclic(f, g));
}

} // verus!
