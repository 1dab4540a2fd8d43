//! Vectors and matrices of polynomials, and the rounding of their coefficients.
use crate::mldsa::field;
use crate::mldsa::params::{GAMMA2, M, Q};
use crate::mldsa::poly;
use crate::mldsa::poly::{NTTPoly, Poly};
use crate::mldsa::ring;
use crate::mldsa::rounding;
use crate::mldsa::transform;
use crate::mldsa::zq;
use vstd::arithmetic::power;
use vstd::arithmetic::power2::*;
use vstd::prelude::*;

verus! {

/// A vector of polynomials given by their coefficients.
#[derive(Clone, Debug)]
pub struct PolyVec(pub Vec<Poly>);

/// A vector of polynomials given by their transforms.
#[derive(Clone, Debug)]
pub struct NTTPolyVec(pub Vec<NTTPoly>);

/// A matrix of polynomials given by their transforms.
pub struct NTTMatrix {
    pub rows: Vec<NTTPolyVec>,
}

impl View for PolyVec {
    type V = Seq<Seq<int>>;

    open spec fn view(&self) -> Seq<Seq<int>> {
        Seq::new(self.0@.len(), |i: int| self.0@[i]@)
    }
}

impl View for NTTPolyVec {
    type V = Seq<Seq<int>>;

    open spec fn view(&self) -> Seq<Seq<int>> {
        Seq::new(self.0@.len(), |i: int| self.0@[i]@)
    }
}

impl View for NTTMatrix {
    type V = Seq<Seq<Seq<int>>>;

    open spec fn view(&self) -> Seq<Seq<Seq<int>>> {
        Seq::new(self.rows@.len(), |i: int| self.rows@[i]@)
    }
}

/// Whether every polynomial of a vector has 256 residues.
pub open spec fn all_elems(v: Seq<Seq<int>>) -> bool {
    forall|i: int| 0 <= i < v.len() ==> transform::is_elem(#[trigger] v[i])
}

/// Polynomials given by their coefficients.
pub open spec fn polys(v: Seq<[i64; 256]>) -> Seq<Seq<int>> {
    Seq::new(v.len(), |i: int| transform::ints(v[i]@))
}

/// The coefficients at position `p` of some polynomials.
pub open spec fn at_position(z: Seq<Seq<int>>, p: int) -> Seq<int> {
    Seq::new(z.len(), |j: int| z[j][p])
}

/// Whether a matrix has `l` columns of residues.
pub open spec fn is_matrix(a: Seq<Seq<Seq<int>>>, l: nat) -> bool {
    forall|i: int| 0 <= i < a.len() ==> (#[trigger] a[i]).len() == l && all_elems(a[i])
}

/// `f` applied to every coefficient of every polynomial.
pub open spec fn map_coeffs(v: Seq<Seq<int>>, f: spec_fn(int) -> int) -> Seq<Seq<int>> {
    Seq::new(v.len(), |i: int| Seq::new(256, |j: int| f(v[i][j])))
}

/// The largest norm of the first `n` polynomials.
pub open spec fn max_norm(v: Seq<Seq<int>>, n: nat) -> int
    decreases n,
{
    if n == 0 {
        0
    } else if max_norm(v, (n - 1) as nat) < poly::inf_norm(v[n - 1]) {
        poly::inf_norm(v[n - 1])
    } else {
        max_norm(v, (n - 1) as nat)
    }
}

/// The infinity norm of a vector.
pub open spec fn vec_norm(v: Seq<Seq<int>>) -> int {
    max_norm(v, v.len())
}

/// The norm of a vector is below a positive bound exactly if that of every
/// polynomial is.
pub proof fn lemma_vec_norm_below(v: Seq<Seq<int>>, bound: int)
    requires
        bound > 0,
    ensures
        vec_norm(v) < bound <==> forall|i: int|
            0 <= i < v.len() ==> poly::inf_norm(#[trigger] v[i]) < bound,
{
    lemma_max_norm_below(v, v.len(), bound);
}

proof fn lemma_max_norm_below(v: Seq<Seq<int>>, n: nat, bound: int)
    requires
        bound > 0,
        n <= v.len(),
    ensures
        max_norm(v, n) < bound <==> forall|i: int|
            0 <= i < n ==> poly::inf_norm(#[trigger] v[i]) < bound,
    decreases n,
{
    if n > 0 {
        lemma_max_norm_below(v, (n - 1) as nat, bound);
        assert(max_norm(v, n) < bound <==> max_norm(v, (n - 1) as nat) < bound && poly::inf_norm(
            v[n - 1],
        ) < bound);
    }
}

/// The first `n` terms of the product of a row and a vector of transforms.
pub open spec fn dot(row: Seq<Seq<int>>, v: Seq<Seq<int>>, n: nat) -> Seq<int>
    decreases n,
{
    if n == 0 {
        ring::ring_zero()
    } else {
        ring::ring_add(
            dot(row, v, (n - 1) as nat),
            transform::pointwise(row[n - 1], v[n - 1]),
        )
    }
}

/// The product of a matrix and a vector of transforms.
pub open spec fn mat_vec(a: Seq<Seq<Seq<int>>>, v: Seq<Seq<int>>) -> Seq<Seq<int>> {
    Seq::new(a.len(), |i: int| dot(a[i], v, v.len()))
}

proof fn lemma_dot_entry(d: int, e: int, a: int, x: int, y: int)
    ensures
        zq::modq(zq::modq(d + e) + zq::modq(a * zq::modq(x + y))) == zq::modq(
            zq::modq(d + zq::modq(a * x)) + zq::modq(e + zq::modq(a * y)),
        ),
{
    zq::lemma_modq_mul(a, x + y);
    zq::lemma_modq_add(d + e, a * (x + y));
    zq::lemma_modq_add(d, a * x);
    zq::lemma_modq_add(e, a * y);
    zq::lemma_modq_add(d + a * x, e + a * y);
    assert(a * (x + y) == a * x + a * y) by (nonlinear_arith);
}

/// The product with a row is linear in the vector.
pub proof fn lemma_dot_of_sum(row: Seq<Seq<int>>, x: Seq<Seq<int>>, y: Seq<Seq<int>>, n: nat)
    requires
        n <= row.len(),
        n <= x.len(),
        x.len() == y.len(),
    ensures
        dot(row, vec_add(x, y), n) == ring::ring_add(dot(row, x, n), dot(row, y, n)),
    decreases n,
{
    let s = vec_add(x, y);
    if n == 0 {
        assert(dot(row, s, 0) =~= ring::ring_add(dot(row, x, 0), dot(row, y, 0)));
    } else {
        let m = (n - 1) as nat;
        lemma_dot_of_sum(row, x, y, m);
        let a = row[n - 1];
        let d = dot(row, x, m);
        let e = dot(row, y, m);
        assert forall|p: int| 0 <= p < 256 implies dot(row, s, n)[p] == #[trigger] ring::ring_add(
            dot(row, x, n),
            dot(row, y, n),
        )[p] by {
            lemma_dot_entry(d[p], e[p], a[p], x[n - 1][p], y[n - 1][p]);
        }
        assert(dot(row, s, n) =~= ring::ring_add(dot(row, x, n), dot(row, y, n)));
    }
}

/// The product of a matrix and a sum of vectors is the sum of the products.
pub proof fn lemma_mat_vec_of_sum(a: Seq<Seq<Seq<int>>>, x: Seq<Seq<int>>, y: Seq<Seq<int>>)
    requires
        x.len() == y.len(),
        forall|i: int| 0 <= i < a.len() ==> (#[trigger] a[i]).len() == x.len(),
    ensures
        mat_vec(a, vec_add(x, y)) == vec_add(mat_vec(a, x), mat_vec(a, y)),
{
    assert forall|i: int| 0 <= i < a.len() implies mat_vec(a, vec_add(x, y))[i]
        == #[trigger] vec_add(mat_vec(a, x), mat_vec(a, y))[i] by {
        assert(a[i].len() == x.len());
        lemma_dot_of_sum(a[i], x, y, x.len());
    }
    assert(mat_vec(a, vec_add(x, y)) =~= vec_add(mat_vec(a, x), mat_vec(a, y)));
}

/// The product of a row with a vector is zero where the row or the vector is.
pub proof fn lemma_dot_of_zero(row: Seq<Seq<int>>, v: Seq<Seq<int>>, n: nat)
    requires
        n <= row.len(),
        n <= v.len(),
        forall|j: int|
            0 <= j < n ==> #[trigger] row[j] == ring::ring_zero() || v[j] == ring::ring_zero(),
    ensures
        dot(row, v, n) == ring::ring_zero(),
    decreases n,
{
    if n > 0 {
        lemma_dot_of_zero(row, v, (n - 1) as nat);
        assert(row[n - 1] == ring::ring_zero() || v[n - 1] == ring::ring_zero());
        assert forall|p: int| 0 <= p < 256 implies row[n - 1][p] * #[trigger] v[n - 1][p] == 0 by {
            if row[n - 1] == ring::ring_zero() {
                assert(row[n - 1][p] == 0);
            }
            assert(row[n - 1][p] * v[n - 1][p] == 0) by (nonlinear_arith)
                requires
                    row[n - 1][p] == 0 || v[n - 1][p] == 0,
            ;
        }
        assert forall|p: int| 0 <= p < 256 implies #[trigger] dot(row, v, n)[p] == 0 by {
            assert(row[n - 1][p] * v[n - 1][p] == 0);
        }
        assert(dot(row, v, n) =~= ring::ring_zero());
    }
}

/// Subtracting a vector undoes adding it.
pub proof fn lemma_vec_add_sub(a: Seq<Seq<int>>, b: Seq<Seq<int>>)
    requires
        a.len() == b.len(),
        all_elems(a),
        all_elems(b),
    ensures
        vec_sub(vec_add(a, b), b) == a,
        vec_add(a, b) == vec_add(b, a),
{
    assert forall|i: int| 0 <= i < a.len() implies vec_sub(vec_add(a, b), b)[i] == a[i] && vec_add(
        a,
        b,
    )[i] == vec_add(b, a)[i] by {
        ring::lemma_add_laws(a[i], b[i]);
    }
    assert(vec_sub(vec_add(a, b), b) =~= a);
    assert(vec_add(a, b) =~= vec_add(b, a));
}

/// Sum of two vectors of the same length.
pub open spec fn vec_add(a: Seq<Seq<int>>, b: Seq<Seq<int>>) -> Seq<Seq<int>> {
    Seq::new(a.len(), |i: int| ring::ring_add(a[i], b[i]))
}

/// Difference of two vectors of the same length.
pub open spec fn vec_sub(a: Seq<Seq<int>>, b: Seq<Seq<int>>) -> Seq<Seq<int>> {
    Seq::new(a.len(), |i: int| ring::ring_sub(a[i], b[i]))
}

/// The transforms of the polynomials of a vector.
pub open spec fn vec_ntt(v: Seq<Seq<int>>) -> Seq<Seq<int>> {
    Seq::new(v.len(), |i: int| transform::ntt_of(v[i]))
}

/// The polynomials whose transforms make up a vector.
pub open spec fn vec_intt(v: Seq<Seq<int>>) -> Seq<Seq<int>> {
    Seq::new(v.len(), |i: int| transform::intt_of(v[i]))
}

impl PolyVec {
    /// Whether all coefficients are residues in `[0, Q)`.
    pub open spec fn wf(&self) -> bool {
        all_elems(self@)
    }

    pub fn zeros(n: usize) -> (v: Self)
        ensures
            v@ == Seq::new(n as nat, |i: int| ring::ring_zero()),
            v.wf(),
    {
        let mut out: Vec<Poly> = Vec::new();
        let mut i: usize = 0;
        while i < n
            invariant
                i <= n,
                out.len() == i,
                forall|j: int| 0 <= j < i ==> (#[trigger] out[j])@ == ring::ring_zero(),
            decreases n - i,
        {
            out.push(Poly::zero());
            i = i + 1;
        }
        let v = PolyVec(out);
        proof {
            assert(v@ =~= Seq::new(n as nat, |i: int| ring::ring_zero()));
        }
        v
    }

    pub fn len(&self) -> (n: usize)
        ensures
            n == self@.len(),
    {
        self.0.len()
    }

    /// Sum of two vectors of the same length.
    pub fn add(&self, other: &PolyVec) -> (r: PolyVec)
        requires
            self@.len() == other@.len(),
            self.wf(),
            other.wf(),
        ensures
            r@ == vec_add(self@, other@),
            r.wf(),
    {
        let mut out: Vec<Poly> = Vec::new();
        let mut i: usize = 0;
        while i < self.0.len()
            invariant
                i <= self.0.len(),
                self@.len() == other@.len(),
                self.wf(),
                other.wf(),
                out.len() == i,
                forall|j: int|
                    0 <= j < i ==> (#[trigger] out[j])@ == ring::ring_add(self@[j], other@[j]),
            decreases self.0.len() - i,
        {
            proof {
                assert(transform::is_elem(self@[i as int]) && transform::is_elem(other@[i as int]));
            }
            let p = self.0[i].add(&other.0[i]);
            out.push(p);
            i = i + 1;
        }
        let r = PolyVec(out);
        proof {
            assert(r@ =~= vec_add(self@, other@));
        }
        r
    }

    /// Difference of two vectors of the same length.
    pub fn sub(&self, other: &PolyVec) -> (r: PolyVec)
        requires
            self@.len() == other@.len(),
            self.wf(),
            other.wf(),
        ensures
            r@ == vec_sub(self@, other@),
            r.wf(),
    {
        let mut out: Vec<Poly> = Vec::new();
        let mut i: usize = 0;
        while i < self.0.len()
            invariant
                i <= self.0.len(),
                self@.len() == other@.len(),
                self.wf(),
                other.wf(),
                out.len() == i,
                forall|j: int|
                    0 <= j < i ==> (#[trigger] out[j])@ == ring::ring_sub(self@[j], other@[j]),
            decreases self.0.len() - i,
        {
            proof {
                assert(transform::is_elem(self@[i as int]) && transform::is_elem(other@[i as int]));
            }
            let p = self.0[i].sub(&other.0[i]);
            out.push(p);
            i = i + 1;
        }
        let r = PolyVec(out);
        proof {
            assert(r@ =~= vec_sub(self@, other@));
        }
        r
    }

    /// Largest absolute value of a centered coefficient.
    pub fn norm_inf(&self) -> (r: i64)
        ensures
            r == vec_norm(self@),
    {
        let mut r: i64 = 0;
        let mut i: usize = 0;
        while i < self.0.len()
            invariant
                i <= self.0.len(),
                r == max_norm(self@, i as nat),
            decreases self.0.len() - i,
        {
            let a: i64 = self.0[i].norm_inf();
            if r < a {
                r = a;
            }
            i = i + 1;
        }
        r
    }

    /// Transform of every polynomial.
    pub fn ntt(&self) -> (r: NTTPolyVec)
        requires
            self.wf(),
        ensures
            r@ == vec_ntt(self@),
            r.wf(),
    {
        let mut out: Vec<NTTPoly> = Vec::new();
        let mut i: usize = 0;
        while i < self.0.len()
            invariant
                i <= self.0.len(),
                self.wf(),
                out.len() == i,
                forall|j: int|
                    0 <= j < i ==> (#[trigger] out[j])@ == transform::ntt_of(self@[j])
                        && out[j].wf(),
            decreases self.0.len() - i,
        {
            proof {
                assert(transform::is_elem(self@[i as int]));
            }
            let p = self.0[i].ntt();
            out.push(p);
            i = i + 1;
        }
        let r = NTTPolyVec(out);
        proof {
            assert(r@ =~= vec_ntt(self@));
        }
        r
    }

    /// Product of every coefficient with `2^d`.
    pub fn scale_power2(&self, d: u32) -> (r: PolyVec)
        requires
            d < 64,
            self.wf(),
        ensures
            r@ == Seq::new(
                self@.len(),
                |i: int| transform::scaled(pow2(d as nat) as int, self@[i]),
            ),
            r.wf(),
    {
        let factor: i64 = field::pow(2, d as u64);
        let mut out: Vec<Poly> = Vec::new();
        let mut i: usize = 0;
        while i < self.0.len()
            invariant
                i <= self.0.len(),
                self.wf(),
                factor == zq::modq(power::pow(2, d as nat)),
                out.len() == i,
                forall|j: int|
                    0 <= j < i ==> (#[trigger] out[j])@ == transform::scaled(
                        pow2(d as nat) as int,
                        self@[j],
                    ),
            decreases self.0.len() - i,
        {
            let ghost x = self@[i as int];
            proof {
                assert(transform::is_elem(x));
                lemma_pow2(d as nat);
                assert forall|j: int| 0 <= j < 256 implies transform::scaled(factor as int, x)[j]
                    == transform::scaled(pow2(d as nat) as int, x)[j] by {
                    zq::lemma_modq_mul(pow2(d as nat) as int, x[j]);
                }
                assert(transform::scaled(factor as int, x) =~= transform::scaled(
                    pow2(d as nat) as int,
                    x,
                ));
            }
            let p = self.0[i].scale(factor);
            out.push(p);
            i = i + 1;
        }
        let r = PolyVec(out);
        proof {
            assert(r@ =~= Seq::new(
                self@.len(),
                |i: int| transform::scaled(pow2(d as nat) as int, self@[i]),
            ));
        }
        r
    }

    /// Splits each coefficient `c` as `t1 * 2^d + t0`, with `t0` centered and then
    /// reduced.
    pub fn power2round(&self, d: u32) -> (r: (PolyVec, PolyVec))
        requires
            1 <= d <= 62,
            forall|i: int, j: int|
                0 <= i < self@.len() && 0 <= j < 256 ==> power2round_fits(
                    #[trigger] self@[i][j],
                    d as nat,
                ),
        ensures
            r.0@ == map_coeffs(self@, |c: int| rounding::power2round(c, d as nat).0),
            r.1@ == map_coeffs(self@, |c: int| zq::modq(rounding::power2round(c, d as nat).1)),
            r.1.wf(),
    {
        let mut highs: Vec<Poly> = Vec::new();
        let mut lows: Vec<Poly> = Vec::new();
        let mut i: usize = 0;
        let ghost f0 = |c: int| rounding::power2round(c, d as nat).0;
        let ghost f1 = |c: int| zq::modq(rounding::power2round(c, d as nat).1);
        while i < self.0.len()
            invariant
                i <= self.0.len(),
                1 <= d <= 62,
                forall|i: int, j: int|
                    0 <= i < self@.len() && 0 <= j < 256 ==> power2round_fits(
                        #[trigger] self@[i][j],
                        d as nat,
                    ),
                f0 == (|c: int| rounding::power2round(c, d as nat).0),
                f1 == (|c: int| zq::modq(rounding::power2round(c, d as nat).1)),
                highs.len() == i,
                lows.len() == i,
                forall|j: int|
                    0 <= j < i ==> (#[trigger] highs[j])@ == map_coeffs(self@, f0)[j],
                forall|j: int| 0 <= j < i ==> (#[trigger] lows[j])@ == map_coeffs(self@, f1)[j],
            decreases self.0.len() - i,
        {
            let ghost x = self@[i as int];
            let mut t1: [i64; 256] = [0i64; 256];
            let mut t0: [i64; 256] = [0i64; 256];
            let mut j: usize = 0;
            while j < 256
                invariant
                    i < self.0.len(),
                    x == self@[i as int],
                    1 <= d <= 62,
                    forall|p: int| 0 <= p < 256 ==> power2round_fits(#[trigger] x[p], d as nat),
                    f0 == (|c: int| rounding::power2round(c, d as nat).0),
                    f1 == (|c: int| zq::modq(rounding::power2round(c, d as nat).1)),
                    j <= 256,
                    forall|p: int| 0 <= p < j ==> #[trigger] t1[p] == f0(x[p]),
                    forall|p: int| 0 <= p < j ==> #[trigger] t0[p] == f1(x[p]),
                decreases 256 - j,
            {
                proof {
                    assert(self.0[i as int].coeffs[j as int] == x[j as int]);
                }
                let (h, l): (i64, i64) = power2round_val(self.0[i].coeffs[j], d);
                t1[j] = h;
                t0[j] = field::reduce(l);
                j = j + 1;
            }
            let hp = Poly::from_coeffs(t1);
            let lp = Poly::from_coeffs(t0);
            proof {
                assert(hp@ =~= map_coeffs(self@, f0)[i as int]);
                assert(lp@ =~= map_coeffs(self@, f1)[i as int]);
            }
            highs.push(hp);
            lows.push(lp);
            i = i + 1;
        }
        let r = (PolyVec(highs), PolyVec(lows));
        proof {
            assert(r.0@ =~= map_coeffs(self@, f0));
            assert(r.1@ =~= map_coeffs(self@, f1));
        }
        r
    }

    /// High part of every coefficient.
    pub fn high_bits(&self) -> (r: PolyVec)
        ensures
            r@ == map_coeffs(self@, |c: int| rounding::decompose(c).0),
    {
        let mut out: Vec<Poly> = Vec::new();
        let mut i: usize = 0;
        let ghost f = |c: int| rounding::decompose(c).0;
        while i < self.0.len()
            invariant
                i <= self.0.len(),
                f == (|c: int| rounding::decompose(c).0),
                out.len() == i,
                forall|j: int| 0 <= j < i ==> (#[trigger] out[j])@ == map_coeffs(self@, f)[j],
            decreases self.0.len() - i,
        {
            let ghost x = self@[i as int];
            let mut coeffs: [i64; 256] = [0i64; 256];
            let mut j: usize = 0;
            while j < 256
                invariant
                    i < self.0.len(),
                    x == self@[i as int],
                    f == (|c: int| rounding::decompose(c).0),
                    j <= 256,
                    forall|p: int| 0 <= p < j ==> #[trigger] coeffs[p] == f(x[p]),
                decreases 256 - j,
            {
                proof {
                    assert(self.0[i as int].coeffs[j as int] == x[j as int]);
                }
                coeffs[j] = high_bits_val(self.0[i].coeffs[j]);
                j = j + 1;
            }
            let p = Poly::from_coeffs(coeffs);
            proof {
                assert(p@ =~= map_coeffs(self@, f)[i as int]);
            }
            out.push(p);
            i = i + 1;
        }
        let r = PolyVec(out);
        proof {
            assert(r@ =~= map_coeffs(self@, f));
        }
        r
    }

    /// Hinted high part of every coefficient; `hints[i]` belongs to polynomial `i`.
    pub fn use_hint(&self, hints: &[Vec<bool>]) -> (r: PolyVec)
        requires
            hints@.len() == self@.len(),
            forall|i: int| 0 <= i < hints@.len() ==> (#[trigger] hints@[i])@.len() >= 256,
        ensures
            r@ == vec_use_hint(self@, hint_rows(hints@)),
    {
        let mut out: Vec<Poly> = Vec::new();
        let mut i: usize = 0;
        let ghost goal = vec_use_hint(self@, hint_rows(hints@));
        while i < self.0.len()
            invariant
                i <= self.0.len(),
                hints@.len() == self@.len(),
                forall|i: int| 0 <= i < hints@.len() ==> (#[trigger] hints@[i])@.len() >= 256,
                goal == vec_use_hint(self@, hint_rows(hints@)),
                out.len() == i,
                forall|j: int| 0 <= j < i ==> (#[trigger] out[j])@ == goal[j],
            decreases self.0.len() - i,
        {
            let ghost x = self@[i as int];
            let ghost h = hints@[i as int]@;
            let mut coeffs: [i64; 256] = [0i64; 256];
            let mut j: usize = 0;
            while j < 256
                invariant
                    i < self.0.len(),
                    i < hints@.len(),
                    x == self@[i as int],
                    h == hints@[i as int]@,
                    h.len() >= 256,
                    j <= 256,
                    forall|p: int|
                        0 <= p < j ==> #[trigger] coeffs[p] == rounding::use_hint(h[p], x[p]),
                decreases 256 - j,
            {
                proof {
                    assert(self.0[i as int].coeffs[j as int] == x[j as int]);
                }
                coeffs[j] = use_hint_val(hints[i][j], self.0[i].coeffs[j]);
                j = j + 1;
            }
            let p = Poly::from_coeffs(coeffs);
            proof {
                assert(p@ =~= goal[i as int]);
            }
            out.push(p);
            i = i + 1;
        }
        let r = PolyVec(out);
        proof {
            assert(r@ =~= goal);
        }
        r
    }
}

/// The rows of a hint matrix.
pub open spec fn hint_rows(hints: Seq<Vec<bool>>) -> Seq<Seq<bool>> {
    Seq::new(hints.len(), |i: int| hints[i]@)
}

/// Every coefficient's high part, corrected by its hint.
pub open spec fn vec_use_hint(v: Seq<Seq<int>>, hints: Seq<Seq<bool>>) -> Seq<Seq<int>> {
    Seq::new(
        v.len(),
        |i: int| Seq::new(256, |j: int| rounding::use_hint(hints[i][j], v[i][j])),
    )
}

impl NTTPolyVec {
    /// Whether all entries are residues in `[0, Q)`.
    pub open spec fn wf(&self) -> bool {
        all_elems(self@)
    }

    pub fn zeros(n: usize) -> (v: Self)
        ensures
            v@ == Seq::new(n as nat, |i: int| ring::ring_zero()),
            v.wf(),
    {
        let mut out: Vec<NTTPoly> = Vec::new();
        let mut i: usize = 0;
        while i < n
            invariant
                i <= n,
                out.len() == i,
                forall|j: int| 0 <= j < i ==> (#[trigger] out[j])@ == ring::ring_zero(),
            decreases n - i,
        {
            let p = NTTPoly { coeffs: [0i64; 256] };
            proof {
                assert(p@ =~= ring::ring_zero());
            }
            out.push(p);
            i = i + 1;
        }
        let v = NTTPolyVec(out);
        proof {
            assert(v@ =~= Seq::new(n as nat, |i: int| ring::ring_zero()));
        }
        v
    }

    pub fn len(&self) -> (n: usize)
        ensures
            n == self@.len(),
    {
        self.0.len()
    }

    /// Entrywise sum of two vectors of the same length.
    pub fn add(&self, other: &NTTPolyVec) -> (r: NTTPolyVec)
        requires
            self@.len() == other@.len(),
            self.wf(),
            other.wf(),
        ensures
            r@ == vec_add(self@, other@),
            r.wf(),
    {
        let mut out: Vec<NTTPoly> = Vec::new();
        let mut i: usize = 0;
        while i < self.0.len()
            invariant
                i <= self.0.len(),
                self@.len() == other@.len(),
                self.wf(),
                other.wf(),
                out.len() == i,
                forall|j: int|
                    0 <= j < i ==> (#[trigger] out[j])@ == ring::ring_add(self@[j], other@[j]),
            decreases self.0.len() - i,
        {
            proof {
                assert(transform::is_elem(self@[i as int]) && transform::is_elem(other@[i as int]));
            }
            let p = self.0[i].add(&other.0[i]);
            out.push(p);
            i = i + 1;
        }
        let r = NTTPolyVec(out);
        proof {
            assert(r@ =~= vec_add(self@, other@));
        }
        r
    }

    /// Entrywise difference of two vectors of the same length.
    pub fn sub(&self, other: &NTTPolyVec) -> (r: NTTPolyVec)
        requires
            self@.len() == other@.len(),
            self.wf(),
            other.wf(),
        ensures
            r@ == vec_sub(self@, other@),
            r.wf(),
    {
        let mut out: Vec<NTTPoly> = Vec::new();
        let mut i: usize = 0;
        while i < self.0.len()
            invariant
                i <= self.0.len(),
                self@.len() == other@.len(),
                self.wf(),
                other.wf(),
                out.len() == i,
                forall|j: int|
                    0 <= j < i ==> (#[trigger] out[j])@ == ring::ring_sub(self@[j], other@[j]),
            decreases self.0.len() - i,
        {
            proof {
                assert(transform::is_elem(self@[i as int]) && transform::is_elem(other@[i as int]));
            }
            let p = NTTPoly { coeffs: poly::sub_coeffs(&self.0[i].coeffs, &other.0[i].coeffs) };
            out.push(p);
            i = i + 1;
        }
        let r = NTTPolyVec(out);
        proof {
            assert(r@ =~= vec_sub(self@, other@));
        }
        r
    }

    /// Entrywise product of every polynomial with `c`.
    pub fn scale_poly(&self, c: &NTTPoly) -> (r: NTTPolyVec)
        requires
            self.wf(),
            c.wf(),
        ensures
            r@ == Seq::new(self@.len(), |i: int| transform::pointwise(self@[i], c@)),
            r.wf(),
    {
        let mut out: Vec<NTTPoly> = Vec::new();
        let mut i: usize = 0;
        while i < self.0.len()
            invariant
                i <= self.0.len(),
                self.wf(),
                c.wf(),
                out.len() == i,
                forall|j: int|
                    0 <= j < i ==> (#[trigger] out[j])@ == transform::pointwise(self@[j], c@),
            decreases self.0.len() - i,
        {
            proof {
                assert(transform::is_elem(self@[i as int]));
            }
            let p = self.0[i].mul(c);
            out.push(p);
            i = i + 1;
        }
        let r = NTTPolyVec(out);
        proof {
            assert(r@ =~= Seq::new(self@.len(), |i: int| transform::pointwise(self@[i], c@)));
        }
        r
    }

    /// Inverse transform of every polynomial.
    pub fn intt(&self) -> (r: PolyVec)
        requires
            self.wf(),
        ensures
            r@ == vec_intt(self@),
            vec_ntt(r@) == self@,
            r.wf(),
    {
        let mut out: Vec<Poly> = Vec::new();
        let mut i: usize = 0;
        while i < self.0.len()
            invariant
                i <= self.0.len(),
                self.wf(),
                out.len() == i,
                forall|j: int|
                    0 <= j < i ==> (#[trigger] out[j])@ == transform::intt_of(self@[j])
                        && transform::ntt_of(out[j]@) == self@[j] && out[j].wf(),
            decreases self.0.len() - i,
        {
            proof {
                assert(transform::is_elem(self@[i as int]));
            }
            let p = self.0[i].intt();
            out.push(p);
            i = i + 1;
        }
        let r = PolyVec(out);
        proof {
            assert(r@ =~= vec_intt(self@));
            assert(vec_ntt(r@) =~= self@);
        }
        r
    }
}

impl NTTMatrix {
    /// Product of the matrix with a vector of as many polynomials as it has columns.
    pub fn mul_vec(&self, v: &NTTPolyVec) -> (r: NTTPolyVec)
        requires
            v.wf(),
            is_matrix(self@, v@.len()),
        ensures
            r@ == mat_vec(self@, v@),
            r.wf(),
    {
        let l: usize = v.0.len();
        let mut out: Vec<NTTPoly> = Vec::new();
        let mut i: usize = 0;
        while i < self.rows.len()
            invariant
                i <= self.rows.len(),
                l == v@.len(),
                v.wf(),
                is_matrix(self@, v@.len()),
                out.len() == i,
                forall|j: int|
                    0 <= j < i ==> (#[trigger] out[j])@ == dot(self@[j], v@, v@.len())
                        && out[j].wf(),
            decreases self.rows.len() - i,
        {
            let ghost row = self@[i as int];
            let mut acc = NTTPoly { coeffs: [0i64; 256] };
            let mut j: usize = 0;
            proof {
                assert(row.len() == l && all_elems(row));
                assert(acc@ =~= ring::ring_zero());
            }
            while j < l
                invariant
                    i < self.rows.len(),
                    row == self@[i as int],
                    row.len() == l,
                    all_elems(row),
                    l == v@.len(),
                    v.wf(),
                    j <= l,
                    acc@ == dot(row, v@, j as nat),
                    acc.wf(),
                decreases l - j,
            {
                proof {
                    assert(transform::is_elem(row[j as int]) && transform::is_elem(v@[j as int]));
                    assert(self.rows[i as int].0[j as int]@ == row[j as int]);
                }
                let prod = self.rows[i].0[j].mul(&v.0[j]);
                acc = acc.add(&prod);
                j = j + 1;
            }
            out.push(acc);
            i = i + 1;
        }
        let r = NTTPolyVec(out);
        proof {
            assert(r@ =~= mat_vec(self@, v@));
        }
        r
    }
}

/// Whether rounding `r` up to a multiple of `2^d` stays within 64 bits.
pub open spec fn power2round_fits(r: int, d: nat) -> bool {
    r + pow2((d - 1) as nat) <= i64::MAX + 1
}

/// Splits `r` as `r1 * 2^d + r0` with `r0` in `(-2^(d-1), 2^(d-1)]`.
pub fn power2round_val(r: i64, d: u32) -> (res: (i64, i64))
    requires
        1 <= d <= 62,
        power2round_fits(r as int, d as nat),
    ensures
        res.0 == rounding::power2round(r as int, d as nat).0,
        res.1 == rounding::power2round(r as int, d as nat).1,
{
    proof {
        lemma2_to64();
        lemma2_to64_rest();
        lemma_pow2_strictly_increases((d - 1) as nat, d as nat);
        if d < 62 {
            lemma_pow2_strictly_increases(d as nat, 62);
        }
        lemma_pow2_unfold(d as nat);
        vstd::bits::lemma_u64_shl_is_mul(1, d as u64);
        lemma_pow2_pos((d - 1) as nat);
    }
    let modulus: i64 = (1u64 << (d as u64)) as i64;
    let half: i64 = modulus / 2;
    proof {
        assert(modulus == pow2(d as nat));
        if r < 0 {
            rounding::lemma_truncated(r as int, modulus as int);
        }
    }
    let rem: i64 = r % modulus;
    let r0: i64 = if rem < 0 {
        rem + modulus
    } else {
        rem
    };
    let low: i64 = if r0 > half {
        r0 - modulus
    } else {
        r0
    };
    proof {
        assert(r0 == r as int % (pow2(d as nat) as int));
        rounding::lemma_power2round(r as int, d as nat);
        lemma_i64_floor(r as int, d as nat);
        let x = r - low;
        let q = rounding::power2round(r as int, d as nat).0;
        assert(q * modulus == x);
        if x < 0 {
            rounding::lemma_truncated(x, modulus as int);
            assert(-x == (-q) * modulus + 0) by (nonlinear_arith)
                requires
                    q * modulus == x,
            ;
            vstd::arithmetic::div_mod::lemma_fundamental_div_mod_converse(
                -x,
                modulus as int,
                -q,
                0,
            );
        }
    }
    let high: i64 = (r - low) / modulus;
    (high, low)
}

/// The multiple of `2^d` at or below a 64-bit number is one too.
proof fn lemma_i64_floor(r: int, d: nat)
    requires
        i64::MIN <= r <= i64::MAX,
        1 <= d <= 62,
    ensures
        i64::MIN <= r - r % (pow2(d) as int),
        r % (pow2(d) as int) > pow2((d - 1) as nat) ==> r - r % (pow2(d) as int) + pow2(d)
            <= r + pow2((d - 1) as nat) - 1,
{
    let m = pow2(d) as int;
    lemma_pow2_pos(d);
    lemma_pow2_adds(d, (63 - d) as nat);
    lemma2_to64_rest();
    let c = pow2((63 - d) as nat) as int;
    assert(c * m == pow2(63)) by (nonlinear_arith)
        requires
            m * c == pow2(63),
    ;
    vstd::arithmetic::div_mod::lemma_fundamental_div_mod(r, m);
    assert(r / m >= -c) by (nonlinear_arith)
        requires
            r == m * (r / m) + r % m,
            r >= -(c * m),
            r % m < m,
            m > 0,
    ;
    assert(m * (r / m) >= -(c * m)) by (nonlinear_arith)
        requires
            r / m >= -c,
            m > 0,
    ;
    lemma_pow2_unfold(d);
}

/// High part of `r` modulo `2 * GAMMA2`.
pub fn high_bits_val(r: i64) -> (h: i64)
    ensures
        h == rounding::decompose(r as int).0,
        0 <= h < M,
{
    decompose_val(r).0
}

/// Low part of `r` modulo `2 * GAMMA2`.
pub fn low_bits_val(r: i64) -> (l: i64)
    ensures
        l == rounding::decompose(r as int).1,
        -GAMMA2 <= l <= GAMMA2,
{
    decompose_val(r).1
}

/// Splits `r` as `r1 * 2 GAMMA2 + r0` modulo `Q`.
pub fn decompose_val(r: i64) -> (res: (i64, i64))
    ensures
        res.0 == rounding::decompose(r as int).0,
        res.1 == rounding::decompose(r as int).1,
        0 <= res.0 < M,
        -GAMMA2 <= res.1 <= GAMMA2,
{
    let alpha: i64 = 2 * GAMMA2;
    let c: i64 = field::reduce(r);
    let rem: i64 = c % alpha;
    let r0: i64 = if rem > GAMMA2 {
        rem - alpha
    } else {
        rem
    };
    proof {
        rounding::lemma_decompose(r as int);
    }
    if c - r0 == Q - 1 {
        (0, r0 - 1)
    } else {
        ((c - r0) / alpha, r0)
    }
}

/// High part of `r`, corrected by the hint `h`.
pub fn use_hint_val(h: bool, r: i64) -> (res: i64)
    ensures
        res == rounding::use_hint(h, r as int),
        0 <= res < M,
{
    let (r1, r0): (i64, i64) = decompose_val(r);
    if !h {
        return r1;
    }
    if r0 > 0 {
        (r1 + 1) % M
    } else {
        (r1 - 1 + M) % M
    }
}

} // verus!
