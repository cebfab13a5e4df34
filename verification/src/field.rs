//! Arithmetic in Z_q with q = 3329, and coefficient-wise polynomial operations.
use vstd::prelude::*;

verus! {

/// The ML-KEM modulus.
pub const Q: u16 = 3329;

/// Number of coefficients of a polynomial.
pub const N: usize = 256;

pub open spec fn fadd(a: u16, b: u16) -> u16 {
    ((a + b) % 3329) as u16
}

pub open spec fn fsub(a: u16, b: u16) -> u16 {
    ((a - b) % 3329) as u16
}

pub open spec fn fmul(a: u16, b: u16) -> u16 {
    ((a * b) % 3329) as u16
}

/// A polynomial: 256 coefficients, each reduced modulo q.
pub open spec fn poly_wf(p: Seq<u16>) -> bool {
    &&& p.len() == 256
    &&& forall|i: int| 0 <= i < 256 ==> #[trigger] p[i] < 3329
}

/// A vector of `k` polynomials.
pub open spec fn polyvec_wf(v: Seq<Seq<u16>>, k: nat) -> bool {
    &&& v.len() == k
    &&& forall|i: int| 0 <= i < k ==> poly_wf(#[trigger] v[i])
}

pub open spec fn poly_add(f: Seq<u16>, g: Seq<u16>) -> Seq<u16> {
    Seq::new(256, |i: int| fadd(f[i], g[i]))
}

pub open spec fn poly_sub(f: Seq<u16>, g: Seq<u16>) -> Seq<u16> {
    Seq::new(256, |i: int| fsub(f[i], g[i]))
}

pub fn field_add(a: u16, b: u16) -> (r: u16)
    requires
        a < 3329,
        b < 3329,
    ensures
        r == fadd(a, b),
        r < 3329,
{
    ((a as u32 + b as u32) % 3329) as u16
}

pub fn field_sub(a: u16, b: u16) -> (r: u16)
    requires
        a < 3329,
        b < 3329,
    ensures
        r == fsub(a, b),
        r < 3329,
{
    let r = ((a as u32 + 3329 - b as u32) % 3329) as u16;
    proof {
        vstd::arithmetic::div_mod::lemma_mod_add_multiples_vanish(a - b, 3329);
    }
    r
}

pub fn field_mul(a: u16, b: u16) -> (r: u16)
    requires
        a < 3329,
        b < 3329,
    ensures
        r == fmul(a, b),
        r < 3329,
{
    assert((a as u32) * (b as u32) < 3329 * 3329) by (nonlinear_arith)
        requires
            a < 3329,
            b < 3329,
    ;
    (((a as u32) * (b as u32)) % 3329) as u16
}

pub fn poly_add_exec(f: &Vec<u16>, g: &Vec<u16>) -> (h: Vec<u16>)
    requires
        poly_wf(f@),
        poly_wf(g@),
    ensures
        h@ == poly_add(f@, g@),
        poly_wf(h@),
{
    let mut h: Vec<u16> = Vec::new();
    for i in 0..256
        invariant
            poly_wf(f@),
            poly_wf(g@),
            h@.len() == i,
            forall|j: int| 0 <= j < i ==> #[trigger] h@[j] == fadd(f@[j], g@[j]) && h@[j] < 3329,
    {
        h.push(field_add(f[i], g[i]));
    }
    assert(h@ =~= poly_add(f@, g@));
    h
}

pub fn poly_sub_exec(f: &Vec<u16>, g: &Vec<u16>) -> (h: Vec<u16>)
    requires
        poly_wf(f@),
        poly_wf(g@),
    ensures
        h@ == poly_sub(f@, g@),
        poly_wf(h@),
{
    let mut h: Vec<u16> = Vec::new();
    for i in 0..256
        invariant
            poly_wf(f@),
            poly_wf(g@),
            h@.len() == i,
            forall|j: int| 0 <= j < i ==> #[trigger] h@[j] == fsub(f@[j], g@[j]) && h@[j] < 3329,
    {
        h.push(field_sub(f[i], g[i]));
    }
    assert(h@ =~= poly_sub(f@, g@));
    h
}

/// Reductions modulo q inside a sum, a difference or a product can be dropped.
pub proof fn lemma_cong(x: int, y: int)
    ensures
        ((x % 3329) + (y % 3329)) % 3329 == (x + y) % 3329,
        ((x % 3329) + y) % 3329 == (x + y) % 3329,
        (x + (y % 3329)) % 3329 == (x + y) % 3329,
        ((x % 3329) - (y % 3329)) % 3329 == (x - y) % 3329,
        ((x % 3329) - y) % 3329 == (x - y) % 3329,
        (x - (y % 3329)) % 3329 == (x - y) % 3329,
        (x * (y % 3329)) % 3329 == (x * y) % 3329,
        ((x % 3329) * y) % 3329 == (x * y) % 3329,
        ((x % 3329) * (y % 3329)) % 3329 == (x * y) % 3329,
{
    vstd::arithmetic::div_mod::lemma_add_mod_noop(x, y, 3329);
    vstd::arithmetic::div_mod::lemma_add_mod_noop_right(x, y, 3329);
    vstd::arithmetic::div_mod::lemma_add_mod_noop_right(y, x, 3329);
    vstd::arithmetic::div_mod::lemma_sub_mod_noop(x, y, 3329);
    vstd::arithmetic::div_mod::lemma_sub_mod_noop_right(x, y, 3329);
    vstd::arithmetic::div_mod::lemma_mod_twice(x, 3329);
    vstd::arithmetic::div_mod::lemma_mod_twice(y, 3329);
    vstd::arithmetic::div_mod::lemma_sub_mod_noop(x % 3329, y, 3329);
    vstd::arithmetic::div_mod::lemma_mul_mod_noop_general(x, y, 3329);
}

/// Addition of polynomials is commutative.
pub proof fn lemma_poly_add_comm(f: Seq<u16>, g: Seq<u16>)
    ensures
        poly_add(f, g) == poly_add(g, f),
{
    assert(poly_add(f, g) =~= poly_add(g, f));
}

/// Addition of polynomials is associative.
pub proof fn lemma_poly_add_assoc(f: Seq<u16>, g: Seq<u16>, h: Seq<u16>)
    ensures
        poly_add(poly_add(f, g), h) == poly_add(f, poly_add(g, h)),
{
    assert forall|i: int| 0 <= i < 256 implies #[trigger] poly_add(poly_add(f, g), h)[i] == poly_add(
        f,
        poly_add(g, h),
    )[i] by {
        lemma_cong(f[i] + g[i], h[i] as int);
        lemma_cong(f[i] as int, g[i] + h[i]);
        assert(f[i] + g[i] + h[i] == f[i] + (g[i] + h[i]));
    }
    assert(poly_add(poly_add(f, g), h) =~= poly_add(f, poly_add(g, h)));
}

/// The zero polynomial.
pub open spec fn poly_zero() -> Seq<u16> {
    Seq::new(256, |i: int| 0u16)
}

/// Adding zero changes nothing.
pub proof fn lemma_poly_add_zero(f: Seq<u16>)
    requires
        poly_wf(f),
    ensures
        poly_add(f, poly_zero()) == f,
        poly_add(poly_zero(), f) == f,
{
    assert(poly_add(f, poly_zero()) =~= f);
    assert(poly_add(poly_zero(), f) =~= f);
}

/// Subtracting what was added gives the polynomial back, and adding back what
/// was subtracted does too.
pub proof fn lemma_poly_add_sub(f: Seq<u16>, g: Seq<u16>)
    requires
        poly_wf(f),
        g.len() == 256,
    ensures
        poly_sub(poly_add(f, g), g) == f,
        poly_add(poly_sub(f, g), g) == f,
{
    assert forall|i: int| 0 <= i < 256 implies #[trigger] poly_sub(poly_add(f, g), g)[i] == f[i]
        && #[trigger] poly_add(poly_sub(f, g), g)[i] == f[i] by {
        lemma_cong(f[i] + g[i], g[i] as int);
        lemma_cong(f[i] - g[i], g[i] as int);
        vstd::arithmetic::div_mod::lemma_small_mod(f[i] as nat, 3329);
    }
    assert(poly_sub(poly_add(f, g), g) =~= f);
    assert(poly_add(poly_sub(f, g), g) =~= f);
}

/// Sums and differences of polynomials are reduced.
pub proof fn lemma_poly_ops_wf(f: Seq<u16>, g: Seq<u16>)
    ensures
        poly_wf(poly_add(f, g)),
        poly_wf(poly_sub(f, g)),
{
}

} // verus!
