//! Elements of `Z_q[X] / (X^256 + 1)`, as coefficients and as transforms.
use crate::mldsa::field;
use crate::mldsa::ntt;
use crate::mldsa::params::{N, Q};
use crate::mldsa::ring;
use crate::mldsa::transform;
use crate::mldsa::zq;
use vstd::prelude::*;

verus! {

/// A polynomial given by its coefficients.
#[derive(Clone, Copy, Debug, PartialEq, Eq)]
pub struct Poly {
    pub coeffs: [i64; N],
}

/// A polynomial given by its transform.
#[derive(Clone, Copy, Debug, PartialEq, Eq)]
pub struct NTTPoly {
    pub coeffs: [i64; N],
}

impl View for Poly {
    type V = Seq<int>;

    open spec fn view(&self) -> Seq<int> {
        transform::ints(self.coeffs@)
    }
}

impl View for NTTPoly {
    type V = Seq<int>;

    open spec fn view(&self) -> Seq<int> {
        transform::ints(self.coeffs@)
    }
}

/// The absolute value of the centered representative of `a`.
pub open spec fn abs_centered(a: int) -> int {
    if field::centered(a) < 0 {
        -field::centered(a)
    } else {
        field::centered(a)
    }
}

/// The largest absolute value among the first `n` centered coefficients.
pub open spec fn max_abs(f: Seq<int>, n: nat) -> int
    decreases n,
{
    if n == 0 {
        0
    } else if max_abs(f, (n - 1) as nat) < abs_centered(f[n - 1]) {
        abs_centered(f[n - 1])
    } else {
        max_abs(f, (n - 1) as nat)
    }
}

/// The infinity norm: the largest absolute value of a centered coefficient.
pub open spec fn inf_norm(f: Seq<int>) -> int {
    max_abs(f, f.len())
}

/// The norm is below a positive bound exactly if every coefficient is.
pub proof fn lemma_norm_below(f: Seq<int>, bound: int)
    requires
        bound > 0,
    ensures
        inf_norm(f) < bound <==> forall|i: int|
            0 <= i < f.len() ==> abs_centered(#[trigger] f[i]) < bound,
{
    lemma_max_below(f, f.len(), bound);
}

proof fn lemma_max_below(f: Seq<int>, n: nat, bound: int)
    requires
        bound > 0,
        n <= f.len(),
    ensures
        max_abs(f, n) < bound <==> forall|i: int|
            0 <= i < n ==> abs_centered(#[trigger] f[i]) < bound,
    decreases n,
{
    if n > 0 {
        lemma_max_below(f, (n - 1) as nat, bound);
        assert(max_abs(f, n) < bound <==> max_abs(f, (n - 1) as nat) < bound && abs_centered(
            f[n - 1],
        ) < bound);
    }
}

/// The terms `a[i] * b[t - i]`, for `i < m`, of a product that is not wrapped.
spec fn school(a: Seq<int>, b: Seq<int>, t: int, m: nat) -> int
    decreases m,
{
    if m == 0 {
        0
    } else {
        school(a, b, t, (m - 1) as nat) + school_term(a, b, t, m - 1)
    }
}

spec fn school_term(a: Seq<int>, b: Seq<int>, t: int, i: int) -> int {
    if 0 <= t - i < 256 {
        a[i] * b[t - i]
    } else {
        0
    }
}

proof fn lemma_school_bound(a: Seq<int>, b: Seq<int>, t: int, m: nat)
    requires
        transform::is_elem(a),
        transform::is_elem(b),
        m <= 256,
    ensures
        0 <= school(a, b, t, m) <= m * 70_231_372_333_056,
    decreases m,
{
    if m > 0 {
        lemma_school_bound(a, b, t, (m - 1) as nat);
        if 0 <= t - (m - 1) < 256 {
            field::lemma_product_bound(a[m - 1], b[t - (m - 1)]);
        }
    }
}

proof fn lemma_school_wraps(a: Seq<int>, b: Seq<int>, k: int, m: nat)
    requires
        a.len() == 256,
        b.len() == 256,
        0 <= k < 256,
        m <= 256,
    ensures
        school(a, b, k, m) - school(a, b, k + 256, m) == ring::product_terms(a, b, k, m),
    decreases m,
{
    if m > 0 {
        lemma_school_wraps(a, b, k, (m - 1) as nat);
        let i = m - 1;
        if k - i < 0 {
            assert(a[i] * -b[k - i + 256] == -(a[i] * b[k - i + 256])) by (nonlinear_arith);
        }
    }
}

impl Poly {
    /// Whether all coefficients are residues in `[0, Q)`.
    pub open spec fn wf(&self) -> bool {
        transform::is_elem(self@)
    }

    pub fn zero() -> (p: Self)
        ensures
            p@ == ring::ring_zero(),
            p.wf(),
    {
        let p = Poly { coeffs: [0i64; 256] };
        proof {
            assert(p@ =~= ring::ring_zero());
        }
        p
    }

    pub fn from_coeffs(coeffs: [i64; N]) -> (p: Self)
        ensures
            p.coeffs == coeffs,
            p@ == transform::ints(coeffs@),
    {
        Poly { coeffs }
    }

    /// Reduces all coefficients to `[0, Q)`.
    pub fn reduce(&mut self)
        ensures
            final(self)@ == Seq::new(256, |i: int| zq::modq(old(self)@[i])),
            final(self).wf(),
    {
        let ghost x = self@;
        let mut i: usize = 0;
        while i < 256
            invariant
                i <= 256,
                x.len() == 256,
                forall|p: int| 0 <= p < i ==> #[trigger] self.coeffs[p] == zq::modq(x[p]),
                forall|p: int| i <= p < 256 ==> #[trigger] self.coeffs[p] == x[p],
            decreases 256 - i,
        {
            self.coeffs[i] = field::reduce(self.coeffs[i]);
            i = i + 1;
        }
        proof {
            assert(self@ =~= Seq::new(256, |i: int| zq::modq(x[i])));
        }
    }

    /// Sum in the ring.
    pub fn add(&self, other: &Poly) -> (r: Poly)
        requires
            self.wf(),
            other.wf(),
        ensures
            r@ == ring::ring_add(self@, other@),
            r.wf(),
    {
        Poly { coeffs: add_coeffs(&self.coeffs, &other.coeffs) }
    }

    /// Difference in the ring.
    pub fn sub(&self, other: &Poly) -> (r: Poly)
        requires
            self.wf(),
            other.wf(),
        ensures
            r@ == ring::ring_sub(self@, other@),
            r.wf(),
    {
        Poly { coeffs: sub_coeffs(&self.coeffs, &other.coeffs) }
    }

    /// Product of every coefficient with `s`.
    pub fn scale(&self, s: i64) -> (r: Poly)
        requires
            self.wf(),
        ensures
            r@ == transform::scaled(s as int, self@),
            r.wf(),
    {
        let c: i64 = field::reduce(s);
        let mut coeffs: [i64; 256] = [0i64; 256];
        let mut i: usize = 0;
        let ghost x = self@;
        while i < 256
            invariant
                i <= 256,
                x == self@,
                transform::is_elem(x),
                c == zq::modq(s as int),
                forall|p: int| 0 <= p < i ==> #[trigger] coeffs[p] == zq::modq(s * x[p]),
            decreases 256 - i,
        {
            proof {
                assert(self.coeffs[i as int] == x[i as int]);
                zq::lemma_modq_mul(s as int, x[i as int]);
                assert(x[i as int] * c == c * x[i as int]) by (nonlinear_arith);
            }
            coeffs[i] = field::mul(self.coeffs[i], c);
            i = i + 1;
        }
        let r = Poly { coeffs };
        proof {
            assert(r@ =~= transform::scaled(s as int, x));
        }
        r
    }

    /// Largest absolute value of a centered coefficient.
    pub fn norm_inf(&self) -> (r: i64)
        ensures
            r == inf_norm(self@),
            0 <= r <= Q / 2,
    {
        let mut r: i64 = 0;
        let mut i: usize = 0;
        while i < 256
            invariant
                i <= 256,
                r == max_abs(self@, i as nat),
                0 <= r <= Q / 2,
            decreases 256 - i,
        {
            let c: i64 = field::reduce_centered(self.coeffs[i]);
            let a: i64 = if c < 0 {
                -c
            } else {
                c
            };
            if r < a {
                r = a;
            }
            i = i + 1;
        }
        r
    }

    /// The transform of the polynomial.
    pub fn ntt(&self) -> (r: NTTPoly)
        requires
            self.wf(),
        ensures
            r@ == transform::ntt_of(self@),
            r.wf(),
    {
        let mut coeffs: [i64; N] = self.coeffs;
        ntt::ntt(&mut coeffs);
        NTTPoly { coeffs }
    }

    /// Product in the ring, term by term.
    pub fn mul_naive(&self, other: &Poly) -> (r: Poly)
        requires
            self.wf(),
            other.wf(),
        ensures
            r@ == ring::ring_mul(self@, other@),
            r.wf(),
    {
        let ghost a = self@;
        let ghost b = other@;
        let mut tmp: [i64; 512] = [0i64; 512];
        let mut i: usize = 0;
        while i < 256
            invariant
                i <= 256,
                a == self@,
                b == other@,
                transform::is_elem(a),
                transform::is_elem(b),
                forall|t: int| 0 <= t < 512 ==> #[trigger] tmp[t] == school(a, b, t, i as nat),
            decreases 256 - i,
        {
            let mut j: usize = 0;
            while j < 256
                invariant
                    i < 256,
                    j <= 256,
                    a == self@,
                    b == other@,
                    transform::is_elem(a),
                    transform::is_elem(b),
                    forall|t: int|
                        0 <= t < 512 ==> #[trigger] tmp[t] == school(a, b, t, i as nat) + (if i
                            <= t < i + j {
                            a[i as int] * b[t - i]
                        } else {
                            0
                        }),
                decreases 256 - j,
            {
                proof {
                    assert(self.coeffs[i as int] == a[i as int]);
                    assert(other.coeffs[j as int] == b[j as int]);
                    field::lemma_product_bound(a[i as int], b[j as int]);
                    lemma_school_bound(a, b, (i + j) as int, i as nat);
                }
                tmp[i + j] = tmp[i + j] + self.coeffs[i] * other.coeffs[j];
                j = j + 1;
            }
            proof {
                assert forall|t: int| 0 <= t < 512 implies #[trigger] tmp[t] == school(
                    a,
                    b,
                    t,
                    (i + 1) as nat,
                ) by {
                    assert(school(a, b, t, (i + 1) as nat) == school(a, b, t, i as nat)
                        + school_term(a, b, t, i as int));
                }
            }
            i = i + 1;
        }
        let mut coeffs: [i64; 256] = [0i64; 256];
        let mut k: usize = 0;
        while k < 256
            invariant
                k <= 256,
                transform::is_elem(a),
                transform::is_elem(b),
                forall|t: int| 0 <= t < 512 ==> #[trigger] tmp[t] == school(a, b, t, 256),
                forall|p: int| 0 <= p < k ==> #[trigger] coeffs[p] == ring::ring_mul(a, b)[p],
            decreases 256 - k,
        {
            proof {
                lemma_school_bound(a, b, k as int, 256);
                lemma_school_bound(a, b, k + 256, 256);
                lemma_school_wraps(a, b, k as int, 256);
                assert(tmp[k as int] == school(a, b, k as int, 256));
                assert(tmp[k + 256] == school(a, b, k + 256, 256));
            }
            coeffs[k] = field::reduce(tmp[k] - tmp[k + 256]);
            k = k + 1;
        }
        let r = Poly { coeffs };
        proof {
            assert(r@ =~= ring::ring_mul(a, b));
        }
        r
    }
}

fn add_coeffs(a: &[i64; 256], b: &[i64; 256]) -> (c: [i64; 256])
    requires
        transform::is_elem(transform::ints(a@)),
        transform::is_elem(transform::ints(b@)),
    ensures
        transform::ints(c@) == ring::ring_add(transform::ints(a@), transform::ints(b@)),
        transform::is_elem(transform::ints(c@)),
{
    let mut c: [i64; 256] = [0i64; 256];
    let mut i: usize = 0;
    let ghost x = transform::ints(a@);
    let ghost y = transform::ints(b@);
    while i < 256
        invariant
            i <= 256,
            x == transform::ints(a@),
            y == transform::ints(b@),
            transform::is_elem(x),
            transform::is_elem(y),
            forall|p: int| 0 <= p < i ==> #[trigger] c[p] == zq::modq(x[p] + y[p]),
        decreases 256 - i,
    {
        proof {
            assert(a[i as int] == x[i as int] && b[i as int] == y[i as int]);
        }
        c[i] = field::add(a[i], b[i]);
        i = i + 1;
    }
    proof {
        assert(transform::ints(c@) =~= ring::ring_add(x, y));
    }
    c
}

pub(crate) fn sub_coeffs(a: &[i64; 256], b: &[i64; 256]) -> (c: [i64; 256])
    requires
        transform::is_elem(transform::ints(a@)),
        transform::is_elem(transform::ints(b@)),
    ensures
        transform::ints(c@) == ring::ring_sub(transform::ints(a@), transform::ints(b@)),
        transform::is_elem(transform::ints(c@)),
{
    let mut c: [i64; 256] = [0i64; 256];
    let mut i: usize = 0;
    let ghost x = transform::ints(a@);
    let ghost y = transform::ints(b@);
    while i < 256
        invariant
            i <= 256,
            x == transform::ints(a@),
            y == transform::ints(b@),
            transform::is_elem(x),
            transform::is_elem(y),
            forall|p: int| 0 <= p < i ==> #[trigger] c[p] == zq::modq(x[p] - y[p]),
        decreases 256 - i,
    {
        proof {
            assert(a[i as int] == x[i as int] && b[i as int] == y[i as int]);
        }
        c[i] = field::sub(a[i], b[i]);
        i = i + 1;
    }
    proof {
        assert(transform::ints(c@) =~= ring::ring_sub(x, y));
    }
    c
}

impl NTTPoly {
    /// Whether all entries are residues in `[0, Q)`.
    pub open spec fn wf(&self) -> bool {
        transform::is_elem(self@)
    }

    /// Entrywise product.
    pub fn mul(&self, other: &NTTPoly) -> (r: NTTPoly)
        requires
            self.wf(),
            other.wf(),
        ensures
            r@ == transform::pointwise(self@, other@),
            r.wf(),
    {
        NTTPoly { coeffs: ntt::pointwise_mul(&self.coeffs, &other.coeffs) }
    }

    /// Entrywise sum.
    pub fn add(&self, other: &NTTPoly) -> (r: NTTPoly)
        requires
            self.wf(),
            other.wf(),
        ensures
            r@ == ring::ring_add(self@, other@),
            r.wf(),
    {
        NTTPoly { coeffs: add_coeffs(&self.coeffs, &other.coeffs) }
    }

    /// The polynomial with this transform.
    pub fn intt(&self) -> (r: Poly)
        requires
            self.wf(),
        ensures
            r@ == transform::intt_of(self@),
            transform::ntt_of(r@) == self@,
            r.wf(),
    {
        let mut coeffs: [i64; N] = self.coeffs;
        ntt::ntt_inv(&mut coeffs);
        Poly { coeffs }
    }
}

/// Product in the ring, by way of the transform.
pub fn poly_mul(a: &Poly, b: &Poly) -> (r: Poly)
    requires
        a.wf(),
        b.wf(),
    ensures
        r@ == ring::ring_mul(a@, b@),
        r.wf(),
{
    let r = a.ntt().mul(&b.ntt()).intt();
    proof {
        ring::lemma_product_by_ntt(a@, b@);
    }
    r
}

} // verus!
