//! Operations on lists of polynomials given by their coefficients.
use crate::mldsa::hints;
use crate::mldsa::ntt;
use crate::mldsa::poly;
use crate::mldsa::polyvec;
use crate::mldsa::ring;
use crate::mldsa::transform;
use crate::statement_ring;
use vstd::prelude::*;

verus! {

/// Appends polynomials to a list.
pub fn push_rows(out: &mut Vec<[i64; 256]>, v: &[[i64; 256]])
    ensures
        final(out)@ == old(out)@ + v@,
        polyvec::polys(final(out)@) == polyvec::polys(old(out)@) + polyvec::polys(v@),
{
    let ghost before = out@;
    let mut i: usize = 0;
    proof {
        assert(before =~= before + v@.subrange(0, 0));
    }
    while i < v.len()
        invariant
            i <= v.len(),
            out@ == before + v@.subrange(0, i as int),
        decreases v.len() - i,
    {
        out.push(v[i]);
        i = i + 1;
        proof {
            assert(out@ =~= before + v@.subrange(0, i as int));
        }
    }
    proof {
        assert(v@.subrange(0, i as int) =~= v@);
        assert(polyvec::polys(out@) =~= polyvec::polys(before) + polyvec::polys(v@));
    }
}

/// The transforms of some polynomials.
pub fn ntt_rows(v: &[[i64; 256]]) -> (out: Vec<[i64; 256]>)
    requires
        polyvec::all_elems(polyvec::polys(v@)),
    ensures
        polyvec::polys(out@) == polyvec::vec_ntt(polyvec::polys(v@)),
        polyvec::all_elems(polyvec::polys(out@)),
        out@.len() == v@.len(),
{
    let ghost ps = polyvec::polys(v@);
    let mut out: Vec<[i64; 256]> = Vec::new();
    let mut i: usize = 0;
    while i < v.len()
        invariant
            i <= v.len(),
            ps == polyvec::polys(v@),
            polyvec::all_elems(ps),
            out@.len() == i,
            forall|k: int|
                0 <= k < i ==> transform::ints((#[trigger] out@[k])@) == transform::ntt_of(ps[k])
                    && transform::is_elem(transform::ints(out@[k]@)),
        decreases v.len() - i,
    {
        let mut row: [i64; 256] = v[i];
        proof {
            assert(transform::is_elem(ps[i as int]));
        }
        ntt::ntt(&mut row);
        out.push(row);
        i = i + 1;
    }
    proof {
        assert(polyvec::polys(out@) =~= polyvec::vec_ntt(ps));
        assert forall|k: int| 0 <= k < out@.len() implies transform::is_elem(
            #[trigger] polyvec::polys(out@)[k],
        ) by {
            assert(transform::is_elem(transform::ints(out@[k]@)));
        }
    }
    out
}

/// Six polynomials of a list.
pub fn six_rows(v: &[[i64; 256]], start: usize) -> (out: [[i64; 256]; 6])
    requires
        start + 6 <= v@.len(),
    ensures
        out@ == v@.subrange(start as int, start + 6),
        polyvec::polys(out@) == polyvec::polys(v@).subrange(start as int, start + 6),
{
    let out: [[i64; 256]; 6] = [
        v[start],
        v[start + 1],
        v[start + 2],
        v[start + 3],
        v[start + 4],
        v[start + 5],
    ];
    proof {
        assert(out@ =~= v@.subrange(start as int, start + 6));
        assert(polyvec::polys(out@) =~= polyvec::polys(v@).subrange(start as int, start + 6));
    }
    out
}

/// Five polynomials of a list.
pub fn five_rows(v: &[[i64; 256]], start: usize) -> (out: [[i64; 256]; 5])
    requires
        start + 5 <= v@.len(),
    ensures
        out@ == v@.subrange(start as int, start + 5),
        polyvec::polys(out@) == polyvec::polys(v@).subrange(start as int, start + 5),
{
    let out: [[i64; 256]; 5] = [v[start], v[start + 1], v[start + 2], v[start + 3], v[start + 4]];
    proof {
        assert(out@ =~= v@.subrange(start as int, start + 5));
        assert(polyvec::polys(out@) =~= polyvec::polys(v@).subrange(start as int, start + 5));
    }
    out
}

/// The differences of six pairs of polynomials.
pub fn sub_rows(a: &[[i64; 256]; 6], b: &[[i64; 256]; 6]) -> (out: [[i64; 256]; 6])
    requires
        polyvec::all_elems(polyvec::polys(a@)),
        polyvec::all_elems(polyvec::polys(b@)),
    ensures
        polyvec::polys(out@) == polyvec::vec_sub(polyvec::polys(a@), polyvec::polys(b@)),
        polyvec::all_elems(polyvec::polys(out@)),
{
    let ghost x = polyvec::polys(a@);
    let ghost y = polyvec::polys(b@);
    let mut out: [[i64; 256]; 6] = [[0i64; 256]; 6];
    let mut i: usize = 0;
    while i < 6
        invariant
            i <= 6,
            x == polyvec::polys(a@),
            y == polyvec::polys(b@),
            polyvec::all_elems(x),
            polyvec::all_elems(y),
            forall|k: int|
                0 <= k < i ==> transform::ints((#[trigger] out[k])@) == ring::ring_sub(x[k], y[k])
                    && transform::is_elem(transform::ints(out[k]@)),
        decreases 6 - i,
    {
        proof {
            assert(transform::is_elem(x[i as int]));
            assert(transform::is_elem(y[i as int]));
        }
        out[i] = poly::sub_coeffs(&a[i], &b[i]);
        i = i + 1;
    }
    proof {
        assert(polyvec::polys(out@) =~= polyvec::vec_sub(x, y));
        assert forall|k: int| 0 <= k < 6 implies transform::is_elem(
            #[trigger] polyvec::polys(out@)[k],
        ) by {
            assert(transform::is_elem(transform::ints(out[k]@)));
        }
    }
    out
}

/// The rows of a hint.
pub open spec fn hint_rows(h: Seq<[bool; 256]>) -> Seq<Seq<bool>> {
    Seq::new(h.len(), |i: int| h[i]@)
}

/// The high parts of six polynomials, corrected by hints.
pub fn hint_all(w: &[[i64; 256]; 6], h: &[[bool; 256]; 6]) -> (out: [[i64; 256]; 6])
    ensures
        polyvec::polys(out@) == polyvec::vec_use_hint(polyvec::polys(w@), hint_rows(h@)),
{
    let mut out: [[i64; 256]; 6] = [[0i64; 256]; 6];
    let mut i: usize = 0;
    while i < 6
        invariant
            i <= 6,
            forall|k: int|
                0 <= k < i ==> transform::ints((#[trigger] out[k])@) == statement_ring::hinted(
                    polyvec::polys(w@)[k],
                    hint_rows(h@)[k],
                ),
        decreases 6 - i,
    {
        out[i] = statement_ring::use_hints(&w[i], &h[i]);
        i = i + 1;
    }
    proof {
        assert(polyvec::polys(out@) =~= polyvec::vec_use_hint(polyvec::polys(w@), hint_rows(h@)));
    }
    out
}

fn row_weight(row: &[bool; 256]) -> (n: usize)
    ensures
        n == hints::row_weight(row@, 256),
        n <= 256,
{
    let mut n: usize = 0;
    let mut j: usize = 0;
    while j < 256
        invariant
            j <= 256,
            n == hints::row_weight(row@, j as nat),
            n <= j,
        decreases 256 - j,
    {
        if row[j] {
            n = n + 1;
        }
        j = j + 1;
    }
    n
}

/// The number of hint bits that are set.
pub fn weight(h: &[[bool; 256]; 6]) -> (n: usize)
    ensures
        n == hints::total_weight(hint_rows(h@), 6),
        n <= 1536,
{
    let mut n: usize = 0;
    let mut i: usize = 0;
    while i < 6
        invariant
            i <= 6,
            n == hints::total_weight(hint_rows(h@), i as nat),
            n <= 256 * i,
        decreases 6 - i,
    {
        n = n + row_weight(&h[i]);
        i = i + 1;
    }
    n
}

} // verus!
