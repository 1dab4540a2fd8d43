//! Forward and inverse number-theoretic transforms over `Z_q[X] / (X^256 + 1)`.
use crate::mldsa::field;
use crate::mldsa::params::{N, N_INV, ZETA};
use crate::mldsa::transform;
use crate::mldsa::zq;
use vstd::arithmetic::power2::*;
use vstd::prelude::*;

verus! {

/// Reverses the eight bits of `k`.
fn reverse_bits(k: u8) -> (r: u8)
    ensures
        r == transform::brv(k as nat, 8),
{
    let mut r: u8 = 0;
    let mut x: u8 = k;
    let mut i: usize = 0;
    proof {
        lemma2_to64();
    }
    while i < 8
        invariant
            i <= 8,
            r < pow2(i as nat),
            transform::brv(k as nat, 8) == r * pow2((8 - i) as nat) + transform::brv(
                x as nat,
                (8 - i) as nat,
            ),
        decreases 8 - i,
    {
        let ghost m = (7 - i) as nat;
        proof {
            lemma2_to64();
            lemma_pow2_unfold((i + 1) as nat);
            lemma_pow2_unfold((8 - i) as nat);
            assert(pow2(i as nat) <= 128) by {
                if i < 7 {
                    lemma_pow2_strictly_increases(i as nat, 7);
                }
            }
            assert(r * (2 * pow2(m)) + (x % 2) * pow2(m) == (2 * r + x % 2) * pow2(m))
                by (nonlinear_arith);
        }
        r = 2 * r + x % 2;
        x = x / 2;
        i = i + 1;
    }
    proof {
        lemma2_to64();
        assert(r * 1 == r);
    }
    r
}

/// Forward twiddle factors: entry `k` is `ZETA` to the bit reversal of `k`.
pub fn get_zeta_fwd() -> (t: [i64; 256])
    ensures
        forall|k: int|
            0 <= k < 256 ==> #[trigger] t[k] == transform::zeta_fwd(k) && field::in_field(
                t[k] as int,
            ),
{
    let mut t: [i64; 256] = [0i64; 256];
    let mut k: usize = 0;
    while k < 256
        invariant
            k <= 256,
            forall|i: int|
                0 <= i < k ==> #[trigger] t[i] == transform::zeta_fwd(i) && field::in_field(
                    t[i] as int,
                ),
        decreases 256 - k,
    {
        t[k] = field::pow(ZETA, reverse_bits(k as u8) as u64);
        k = k + 1;
    }
    t
}

/// Inverse twiddle factors: entry `k` is the inverse of forward entry `k`.
pub fn get_zeta_inv() -> (t: [i64; 256])
    ensures
        forall|k: int|
            0 <= k < 256 ==> #[trigger] t[k] == transform::zeta_inv(k) && field::in_field(
                t[k] as int,
            ),
{
    let mut t: [i64; 256] = [0i64; 256];
    let mut k: usize = 0;
    while k < 256
        invariant
            k <= 256,
            forall|i: int|
                0 <= i < k ==> #[trigger] t[i] == transform::zeta_inv(i) && field::in_field(
                    t[i] as int,
                ),
        decreases 256 - k,
    {
        let brv: u64 = reverse_bits(k as u8) as u64;
        t[k] = field::pow(ZETA, (512 - brv) % 512);
        k = k + 1;
    }
    t
}

/// What position `p` holds while a stage is under way: the blocks before `start`
/// and the first `j` butterflies of the current block are done.
pub open spec fn in_progress(
    x: Seq<int>,
    y: Seq<int>,
    start: int,
    len: int,
    j: int,
    p: int,
) -> int {
    if p < start || (start <= p < start + j) || (start + len <= p < start + len + j) {
        y[p]
    } else {
        x[p]
    }
}

/// Where butterfly `j` of block `b` lies.
pub proof fn lemma_butterfly(s: nat, b: int, j: int)
    requires
        s < 8,
        0 <= b < pow2(s),
        0 <= j < transform::stage_len(s as int),
    ensures
        ({
            let len = transform::stage_len(s as int);
            let p = b * (2 * len) + j;
            &&& 0 <= p
            &&& p + len < 256
            &&& transform::twiddle_index(p, len) == pow2(s) + b
            &&& transform::twiddle_index(p + len, len) == pow2(s) + b
            &&& transform::is_first(p, len)
            &&& !transform::is_first(p + len, len)
        }),
{
    let len = transform::stage_len(s as int);
    transform::lemma_stage_sizes(s);
    let size = 2 * len;
    transform::lemma_block(b, size, j);
    assert(0 <= b * size && b * size + size <= 256) by (nonlinear_arith)
        requires
            0 <= b,
            b + 1 <= pow2(s),
            size * pow2(s) == 256,
            size > 0,
    ;
    transform::lemma_positions(s, b * size + j);
    reveal(transform::block_of);
    reveal(transform::offset_of);
}

/// Forward transform in place, on residues in `[0, Q)`.
pub fn ntt(f: &mut [i64; 256])
    requires
        transform::is_elem(transform::ints(old(f)@)),
    ensures
        transform::ints(final(f)@) == transform::ntt_of(transform::ints(old(f)@)),
        transform::is_elem(transform::ints(final(f)@)),
{
    let zetas: [i64; 256] = get_zeta_fwd();
    let mut k: usize = 1;
    let mut len: usize = 128;
    let ghost f0 = transform::ints(f@);
    let ghost mut s: nat = 0;
    proof {
        transform::lemma_stage_ends(f0);
        transform::lemma_stage_sizes(0);
        lemma2_to64();
        reveal(transform::stage_len);
    }
    while len >= 1
        invariant
            forall|i: int|
                0 <= i < 256 ==> #[trigger] zetas[i] == transform::zeta_fwd(i) && field::in_field(
                    zetas[i] as int,
                ),
            s <= 8,
            len == (if s < 8 {
                transform::stage_len(s as int)
            } else {
                0
            }),
            s < 8 ==> k == pow2(s),
            transform::ints(f@) == transform::stage_values(f0, s),
        decreases len,
    {
        let ghost x = transform::ints(f@);
        let ghost y = transform::ct(x, len as int);
        let ghost mut b: int = 0;
        let mut start: usize = 0;
        proof {
            transform::lemma_stage_sizes(s);
            assert(0 * (2 * len) == 0);
        }
        while start < N
            invariant
                forall|i: int|
                    0 <= i < 256 ==> #[trigger] zetas[i] == transform::zeta_fwd(i)
                        && field::in_field(zetas[i] as int),
                s < 8,
                len == transform::stage_len(s as int),
                1 <= len <= 128,
                (2 * len) * pow2(s) == 256,
                pow2(s) <= 128,
                0 <= b <= pow2(s),
                start == b * (2 * len),
                start <= 256,
                k == pow2(s) + b,
                x.len() == 256,
                forall|i: int| 0 <= i < 256 ==> field::in_field(#[trigger] x[i]),
                y == transform::ct(x, len as int),
                forall|p: int|
                    0 <= p < 256 ==> (#[trigger] f[p]) as int == in_progress(
                        x,
                        y,
                        start as int,
                        len as int,
                        0,
                        p,
                    ),
            decreases 256 - start,
        {
            proof {
                assert(b < pow2(s)) by (nonlinear_arith)
                    requires
                        b * (2 * len) < 256,
                        (2 * len) * pow2(s) == 256,
                        len >= 1,
                ;
                lemma_butterfly(s, b, (len - 1) as int);
            }
            let zeta_k: i64 = zetas[k];
            k = k + 1;
            let mut j: usize = 0;
            while j < len
                invariant
                    s < 8,
                    len == transform::stage_len(s as int),
                    1 <= len <= 128,
                    0 <= b < pow2(s),
                    start == b * (2 * len),
                    start + 2 * len <= 256,
                    zeta_k == transform::zeta_fwd(pow2(s) + b),
                    field::in_field(zeta_k as int),
                    j <= len,
                    x.len() == 256,
                    forall|i: int| 0 <= i < 256 ==> field::in_field(#[trigger] x[i]),
                    y == transform::ct(x, len as int),
                    forall|p: int|
                        0 <= p < 256 ==> (#[trigger] f[p]) as int == in_progress(
                            x,
                            y,
                            start as int,
                            len as int,
                            j as int,
                            p,
                        ),
                decreases len - j,
            {
                let lo: usize = start + j;
                let hi: usize = start + j + len;
                proof {
                    lemma_butterfly(s, b, j as int);
                    assert(f[lo as int] == x[lo as int]);
                    assert(f[hi as int] == x[hi as int]);
                }
                let t: i64 = field::mul(zeta_k, f[hi]);
                let fj: i64 = f[lo];
                f[lo] = field::add(fj, t);
                f[hi] = field::sub(fj, t);
                proof {
                    zq::lemma_modq_add(fj as int, zeta_k * x[hi as int]);
                    assert(f[lo as int] == y[lo as int]);
                    assert(f[hi as int] == y[hi as int]);
                }
                j = j + 1;
            }
            proof {
                assert((b + 1) * (2 * len) == b * (2 * len) + 2 * len) by (nonlinear_arith);
                b = b + 1;
            }
            start = start + 2 * len;
        }
        proof {
            assert(b == pow2(s)) by (nonlinear_arith)
                requires
                    b * (2 * len) >= 256,
                    b <= pow2(s),
                    (2 * len) * pow2(s) == 256,
                    len >= 1,
            ;
            transform::lemma_stage_step(f0, s);
            assert(transform::ints(f@) =~= y);
            s = s + 1;
            transform::lemma_next_stage((s - 1) as nat);
            assert(len >> 1 == len / 2) by (bit_vector);
        }
        len = len >> 1;
    }
    proof {
        transform::lemma_stage_ends(f0);
    }
}

/// Inverse transform in place, with the division by 256.
pub fn ntt_inv(f: &mut [i64; 256])
    requires
        transform::is_elem(transform::ints(old(f)@)),
    ensures
        transform::ints(final(f)@) == transform::intt_of(transform::ints(old(f)@)),
        transform::is_elem(transform::ints(final(f)@)),
        transform::ntt_of(transform::ints(final(f)@)) == transform::ints(old(f)@),
{
    let inv_zetas: [i64; 256] = get_zeta_inv();
    let ghost g = transform::ints(f@);
    let ghost mut s: nat = 8;
    let mut len: usize = 1;
    proof {
        transform::lemma_stage_sizes(7);
        lemma2_to64();
        reveal(transform::stage_len);
    }
    while len <= 128
        invariant
            forall|i: int|
                0 <= i < 256 ==> #[trigger] inv_zetas[i] == transform::zeta_inv(i)
                    && field::in_field(inv_zetas[i] as int),
            s <= 8,
            len == (if s > 0 {
                transform::stage_len(s - 1)
            } else {
                256
            }),
            transform::ints(f@) == transform::unwound(g, s),
            transform::is_elem(transform::ints(f@)),
        decreases s,
    {
        proof {
            if s == 0 {
                assert(false);
            }
        }
        let ghost t = (s - 1) as nat;
        let ghost x = transform::ints(f@);
        let ghost y = transform::gs(x, len as int);
        let ghost mut b: int = 0;
        proof {
            transform::lemma_stage_sizes(t);
            assert(0 * (2 * len) == 0);
            transform::lemma_block(pow2(t) as int, 2 * len, 0);
            assert(pow2(t) * (2 * len) == 256) by (nonlinear_arith)
                requires
                    (2 * len) * pow2(t) == 256,
            ;
        }
        let k_start: usize = N / (2 * len);
        let mut k: usize = k_start;
        let mut start: usize = 0;
        while start < N
            invariant
                forall|i: int|
                    0 <= i < 256 ==> #[trigger] inv_zetas[i] == transform::zeta_inv(i)
                        && field::in_field(inv_zetas[i] as int),
                t < 8,
                len == transform::stage_len(t as int),
                1 <= len <= 128,
                (2 * len) * pow2(t) == 256,
                pow2(t) <= 128,
                0 <= b <= pow2(t),
                start == b * (2 * len),
                start <= 256,
                k == pow2(t) + b,
                x.len() == 256,
                forall|i: int| 0 <= i < 256 ==> field::in_field(#[trigger] x[i]),
                y == transform::gs(x, len as int),
                forall|p: int|
                    0 <= p < 256 ==> (#[trigger] f[p]) as int == in_progress(
                        x,
                        y,
                        start as int,
                        len as int,
                        0,
                        p,
                    ),
            decreases 256 - start,
        {
            proof {
                assert(b < pow2(t)) by (nonlinear_arith)
                    requires
                        b * (2 * len) < 256,
                        (2 * len) * pow2(t) == 256,
                        len >= 1,
                ;
                lemma_butterfly(t, b, (len - 1) as int);
            }
            let zeta_inv_k: i64 = inv_zetas[k];
            k = k + 1;
            let mut j: usize = 0;
            while j < len
                invariant
                    t < 8,
                    len == transform::stage_len(t as int),
                    1 <= len <= 128,
                    0 <= b < pow2(t),
                    start == b * (2 * len),
                    start + 2 * len <= 256,
                    zeta_inv_k == transform::zeta_inv(pow2(t) + b),
                    field::in_field(zeta_inv_k as int),
                    j <= len,
                    x.len() == 256,
                    forall|i: int| 0 <= i < 256 ==> field::in_field(#[trigger] x[i]),
                    y == transform::gs(x, len as int),
                    forall|p: int|
                        0 <= p < 256 ==> (#[trigger] f[p]) as int == in_progress(
                            x,
                            y,
                            start as int,
                            len as int,
                            j as int,
                            p,
                        ),
                decreases len - j,
            {
                let lo: usize = start + j;
                let hi: usize = start + j + len;
                proof {
                    lemma_butterfly(t, b, j as int);
                    assert(f[lo as int] == x[lo as int]);
                    assert(f[hi as int] == x[hi as int]);
                }
                let u: i64 = f[lo];
                let v: i64 = f[hi];
                f[lo] = field::add(u, v);
                let diff: i64 = field::sub(u, v);
                f[hi] = field::mul(zeta_inv_k, diff);
                proof {
                    zq::lemma_modq_mul(zeta_inv_k as int, u - v);
                    assert(f[lo as int] == y[lo as int]);
                    assert(f[hi as int] == y[hi as int]);
                }
                j = j + 1;
            }
            proof {
                assert((b + 1) * (2 * len) == b * (2 * len) + 2 * len) by (nonlinear_arith);
                b = b + 1;
            }
            start = start + 2 * len;
        }
        proof {
            assert(b == pow2(t)) by (nonlinear_arith)
                requires
                    b * (2 * len) >= 256,
                    b <= pow2(t),
                    (2 * len) * pow2(t) == 256,
                    len >= 1,
            ;
            assert(transform::ints(f@) =~= y);
            if t > 0 {
                transform::lemma_next_stage((t - 1) as nat);
            } else {
                reveal(transform::stage_len);
            }
            s = t;
            assert(len <= 128 ==> len << 1 == 2 * len) by (bit_vector);
        }
        len = len << 1;
    }
    proof {
        assert(s == 0) by {
            if s > 0 {
                transform::lemma_stage_sizes((s - 1) as nat);
            }
        }
    }
    let ghost x = transform::ints(f@);
    let mut i: usize = 0;
    while i < 256
        invariant
            i <= 256,
            x.len() == 256,
            forall|p: int| 0 <= p < 256 ==> field::in_field(#[trigger] x[p]),
            forall|p: int| 0 <= p < i ==> #[trigger] f[p] == zq::modq(N_INV * x[p]),
            forall|p: int| i <= p < 256 ==> #[trigger] f[p] == x[p],
        decreases 256 - i,
    {
        proof {
            assert(x[i as int] * N_INV == N_INV * x[i as int]) by (nonlinear_arith);
        }
        f[i] = field::mul(f[i], N_INV);
        i = i + 1;
    }
    proof {
        let h = transform::scaled(N_INV as int, transform::unwound(g, 0));
        assert(transform::ints(f@) =~= h);
        transform::lemma_unwound(g);
        transform::lemma_intt_of_ntt(h);
    }
}

/// Entrywise product of two transforms.
pub fn pointwise_mul(a: &[i64; 256], b: &[i64; 256]) -> (c: [i64; 256])
    requires
        transform::is_elem(transform::ints(a@)),
        transform::is_elem(transform::ints(b@)),
    ensures
        transform::ints(c@) == transform::pointwise(
            transform::ints(a@),
            transform::ints(b@),
        ),
        transform::is_elem(transform::ints(c@)),
{
    let mut c: [i64; 256] = [0i64; 256];
    let mut i: usize = 0;
    let ghost x = transform::ints(a@);
    let ghost y = transform::ints(b@);
    while i < 256
        invariant
            i <= 256,
            x == transform::ints(a@),
            y == transform::ints(b@),
            transform::is_elem(x),
            transform::is_elem(y),
            forall|p: int| 0 <= p < i ==> #[trigger] c[p] == zq::modq(x[p] * y[p]),
        decreases 256 - i,
    {
        proof {
            assert(a[i as int] == x[i as int] && b[i as int] == y[i as int]);
        }
        c[i] = field::mul(a[i], b[i]);
        i = i + 1;
    }
    proof {
        assert(transform::ints(c@) =~= transform::pointwise(x, y));
    }
    c
}

} // verus!
