//! What stands in each cell of the traces.
use crate::cells;
use crate::columns;
use crate::mldsa::polyvec;
use crate::mldsa::transform;
use crate::mldsa::zq;
use crate::mldsa_az_air;
use crate::mldsa_az_full_air;
use crate::mldsa_ct1_full_air;
use crate::mldsa_hint_weight_air;
use crate::mldsa_intt_air;
use crate::mldsa_intt_batch_air;
use crate::mldsa_norm_check_air;
use crate::mldsa_norm_check_batch_air;
use crate::transcript;
use crate::transcript::Circuit;
use vstd::arithmetic::div_mod::*;
use vstd::arithmetic::logarithm::*;
use vstd::arithmetic::power2::*;
use vstd::prelude::*;

verus! {

/// The first `n + 2` of five products, added up.
pub open spec fn products_up_to(a: Seq<int>, z: Seq<int>, n: int) -> int {
    if n == 0 {
        a[0] * z[0] + a[1] * z[1]
    } else if n == 1 {
        a[0] * z[0] + a[1] * z[1] + a[2] * z[2]
    } else if n == 2 {
        a[0] * z[0] + a[1] * z[1] + a[2] * z[2] + a[3] * z[3]
    } else {
        a[0] * z[0] + a[1] * z[1] + a[2] * z[2] + a[3] * z[3] + a[4] * z[4]
    }
}

proof fn lemma_totals(a: Seq<int>, z: Seq<int>, r: int)
    requires
        0 <= r < 4,
    ensures
        mldsa_az_air::total(a, z, (r + 1) as nat) == products_up_to(a, z, r) % 8380417,
        ({
            let left = if r == 0 {
                (a[0] * z[0]) % 8380417
            } else {
                products_up_to(a, z, r - 1) % 8380417
            };
            left + (a[r + 1] * z[r + 1]) % 8380417 == products_up_to(a, z, r) % 8380417 + 8380417
                * mldsa_az_air::carry_at(a, z, r)
        }),
    decreases r,
{
    if r > 0 {
        lemma_totals(a, z, r - 1);
    } else {
        assert(mldsa_az_air::total(a, z, 0) == (a[0] * z[0]) % 8380417);
    }
    let before = if r == 0 {
        a[0] * z[0]
    } else {
        products_up_to(a, z, r - 1)
    };
    assert(mldsa_az_air::total(a, z, r as nat) == before % 8380417);
    let x = a[r + 1] * z[r + 1];
    zq::lemma_modq_add(before, x);
    assert(before + x == products_up_to(a, z, r));
    lemma_fundamental_div_mod(before % 8380417 + x % 8380417, 8380417);
}

/// A row of the trace of one matrix row: five factors of the row, five of the vector, the
/// remainders and the quotients of their products by 8380417, four running sums each with its
/// carry, and the binary digits of remainders and quotients.
pub proof fn lemma_az_cells(a: Seq<Seq<int>>, z: Seq<Seq<int>>, p: int, j: int, r: int, k: int)
    requires
        a.len() == 5,
        z.len() == 5,
        0 <= p < 256,
        0 <= j < 5,
        0 <= r < 4,
        0 <= k < 23,
    ensures
        ({
            let row = mldsa_az_air::az_table(a, z)[p];
            let x = Seq::new(5, |q: int| a[q][p]);
            let y = Seq::new(5, |q: int| z[q][p]);
            &&& mldsa_az_air::az_table(a, z).len() == 256
            &&& row.len() == 258
            &&& row[j] == a[j][p]
            &&& row[5 + j] == z[j][p]
            &&& row[10 + j] == (a[j][p] * z[j][p]) % 8380417
            &&& row[15 + j] == (a[j][p] * z[j][p]) / 8380417
            &&& row[20 + 2 * r] == products_up_to(x, y, r) % 8380417
            &&& (if r == 0 {
                row[10]
            } else {
                row[18 + 2 * r]
            }) + row[11 + r] == row[20 + 2 * r] + 8380417 * row[21 + 2 * r]
            &&& row[28 + 23 * j + k] == (row[10 + j] / (pow2(k as nat) as int)) % 2
            &&& row[143 + 23 * j + k] == (row[15 + j] / (pow2(k as nat) as int)) % 2
        }),
{
    let x = polyvec::at_position(a, p);
    let y = polyvec::at_position(z, p);
    assert(x =~= Seq::new(5, |q: int| a[q][p]));
    assert(y =~= Seq::new(5, |q: int| z[q][p]));
    let row = mldsa_az_air::az_table(a, z)[p];
    assert(row == mldsa_az_air::az_row(x, y));
    lemma_totals(x, y, r);
    mldsa_az_air::lemma_all_bits(mldsa_az_air::rems(x, y), j, k);
    mldsa_az_air::lemma_all_bits(mldsa_az_air::quos(x, y), j, k);
    let inner = mldsa_az_air::interleaved(
        mldsa_az_air::sums(x, y),
        mldsa_az_air::carries(x, y),
    );
    assert(row[20 + 2 * r] == inner[2 * r]);
    assert(row[20 + (2 * r + 1)] == inner[2 * r + 1]);
    assert((2 * r + 1) / 2 == r && (2 * r + 1) % 2 == 1);
    assert(row[28 + (23 * j + k)] == cells::all_bits(mldsa_az_air::rems(x, y))[23 * j + k]);
    assert(row[143 + (23 * j + k)] == cells::all_bits(mldsa_az_air::quos(x, y))[23 * j + k]);
    if r > 0 {
        lemma_totals(x, y, r - 1);
        assert(row[20 + 2 * (r - 1)] == inner[2 * (r - 1)]);
    }
    assert(row[10 + (r + 1)] == mldsa_az_air::rem_at(x, y, r + 1));
    assert(row[10] == mldsa_az_air::rem_at(x, y, 0));
}

/// The 253 cells of one row of a matrix, with the vector's factors elsewhere.
proof fn lemma_block_cells(x: Seq<int>, y: Seq<int>, j: int, r: int, k: int)
    requires
        x.len() == 5,
        y.len() == 5,
        0 <= j < 5,
        0 <= r < 4,
        0 <= k < 23,
    ensures
        ({
            let b = mldsa_az_full_air::block_row(x, y);
            &&& b.len() == 253
            &&& b[j] == x[j]
            &&& b[5 + j] == (x[j] * y[j]) % 8380417
            &&& b[10 + j] == (x[j] * y[j]) / 8380417
            &&& b[15 + r] == products_up_to(x, y, r) % 8380417
            &&& (if r == 0 {
                b[5]
            } else {
                b[14 + r]
            }) + b[6 + r] == b[15 + r] + 8380417 * b[19 + r]
            &&& b[23 + 23 * j + k] == (b[5 + j] / (pow2(k as nat) as int)) % 2
            &&& b[138 + 23 * j + k] == (b[10 + j] / (pow2(k as nat) as int)) % 2
        }),
{
    let b = mldsa_az_full_air::block_row(x, y);
    lemma_totals(x, y, r);
    mldsa_az_air::lemma_all_bits(mldsa_az_air::rems(x, y), j, k);
    mldsa_az_air::lemma_all_bits(mldsa_az_air::quos(x, y), j, k);
    assert(b[15 + r] == mldsa_az_air::sums(x, y)[r]);
    assert(b[19 + r] == mldsa_az_air::carries(x, y)[r]);
    assert(b[23 + (23 * j + k)] == cells::all_bits(mldsa_az_air::rems(x, y))[23 * j + k]);
    assert(b[138 + (23 * j + k)] == cells::all_bits(mldsa_az_air::quos(x, y))[23 * j + k]);
    if r > 0 {
        lemma_totals(x, y, r - 1);
        assert(b[15 + (r - 1)] == mldsa_az_air::sums(x, y)[r - 1]);
    }
    assert(b[5 + (r + 1)] == mldsa_az_air::rem_at(x, y, r + 1));
    assert(b[5] == mldsa_az_air::rem_at(x, y, 0));
}

proof fn lemma_full_at(a: Seq<Seq<int>>, z: Seq<int>, n: nat, i: int, q: int)
    requires
        z.len() == 5,
        0 <= i < n <= a.len(),
        forall|t: int| 0 <= t < a.len() ==> (#[trigger] a[t]).len() == 5,
        0 <= q < 253,
    ensures
        mldsa_az_full_air::full_row(a, z, n).len() == 5 + 253 * n,
        mldsa_az_full_air::full_row(a, z, n).subrange(0, 5) == z,
        mldsa_az_full_air::full_row(a, z, n)[5 + 253 * i + q] == mldsa_az_full_air::block_row(
            a[i],
            z,
        )[q],
    decreases n,
{
    let m = (n - 1) as nat;
    let old = mldsa_az_full_air::full_row(a, z, m);
    let part = mldsa_az_full_air::block_row(a[m as int], z);
    lemma_block_cells(a[m as int], z, 0, 0, 0);
    if m > 0 {
        let t: int = if i < m {
            i
        } else {
            0
        };
        lemma_full_at(a, z, m, t, q);
    } else {
        assert(old == z);
        assert(old.subrange(0, 5) =~= z);
    }
    let all = old + part;
    assert(all.subrange(0, 5) =~= old.subrange(0, 5));
    if i < m {
        assert(all[5 + 253 * i + q] == old[5 + 253 * i + q]);
    } else {
        assert(all[5 + 253 * i + q] == part[q]);
    }
}

/// A row of the trace of a whole matrix product: the vector's five factors, and for each of
/// six matrix rows 253 cells: five factors, remainders, quotients, four sums, four carries,
/// and the binary digits of remainders and quotients.
pub proof fn lemma_full_trace_cells(
    a: Seq<Seq<Seq<int>>>,
    z: Seq<Seq<int>>,
    p: int,
    i: int,
    j: int,
    r: int,
    k: int,
)
    requires
        a.len() == 6,
        forall|t: int| 0 <= t < 6 ==> (#[trigger] a[t]).len() == 5,
        z.len() == 5,
        0 <= p < 256,
        0 <= i < 6,
        0 <= j < 5,
        0 <= r < 4,
        0 <= k < 23,
    ensures
        ({
            let row = mldsa_az_full_air::full_table(a, z)[p];
            let x = Seq::new(5, |q: int| a[i][q][p]);
            let y = Seq::new(5, |q: int| z[q][p]);
            let at = 5 + 253 * i;
            &&& mldsa_az_full_air::full_table(a, z).len() == 256
            &&& row.len() == 1523
            &&& row[j] == z[j][p]
            &&& row[at + j] == a[i][j][p]
            &&& row[at + 5 + j] == (a[i][j][p] * z[j][p]) % 8380417
            &&& row[at + 10 + j] == (a[i][j][p] * z[j][p]) / 8380417
            &&& row[at + 15 + r] == products_up_to(x, y, r) % 8380417
            &&& (if r == 0 {
                row[at + 5]
            } else {
                row[at + 14 + r]
            }) + row[at + 6 + r] == row[at + 15 + r] + 8380417 * row[at + 19 + r]
            &&& row[at + 23 + 23 * j + k] == (row[at + 5 + j] / (pow2(k as nat) as int)) % 2
            &&& row[at + 138 + 23 * j + k] == (row[at + 10 + j] / (pow2(k as nat) as int)) % 2
        }),
{
    let m = mldsa_az_full_air::matrix_at(a, p);
    let y = polyvec::at_position(z, p);
    let x = m[i];
    let row = mldsa_az_full_air::full_table(a, z)[p];
    assert(x =~= Seq::new(5, |q: int| a[i][q][p]));
    assert(y =~= Seq::new(5, |q: int| z[q][p]));
    assert(row == mldsa_az_full_air::full_row(m, y, 6));
    assert forall|t: int| 0 <= t < m.len() implies (#[trigger] m[t]).len() == 5 by {
        assert(a[t].len() == 5);
    }
    lemma_block_cells(x, y, j, r, k);
    lemma_full_at(m, y, 6, i, j);
    lemma_full_at(m, y, 6, i, 5 + j);
    lemma_full_at(m, y, 6, i, 10 + j);
    lemma_full_at(m, y, 6, i, 15 + r);
    lemma_full_at(m, y, 6, i, 5);
    lemma_full_at(m, y, 6, i, 6 + r);
    if r > 0 {
        lemma_full_at(m, y, 6, i, 14 + r);
    }
    lemma_full_at(m, y, 6, i, 19 + r);
    lemma_full_at(m, y, 6, i, 23 + 23 * j + k);
    lemma_full_at(m, y, 6, i, 138 + 23 * j + k);
    assert(row.subrange(0, 5)[j] == y[j]);
}

/// A row of the trace of the products with a challenge: the challenge's entry, and for each
/// of six polynomials its entry, the remainder and the quotient of the product by 8380417,
/// and their binary digits.
pub proof fn lemma_ct1_cells(c: Seq<int>, t1: Seq<Seq<int>>, p: int, i: int, k: int)
    requires
        t1.len() == 6,
        0 <= p < 256,
        0 <= i < 6,
        0 <= k < 23,
    ensures
        ({
            let row = mldsa_ct1_full_air::ct1_table(c, t1)[p];
            let at = 1 + 49 * i;
            &&& mldsa_ct1_full_air::ct1_table(c, t1).len() == 256
            &&& row.len() == 295
            &&& row[0] == c[p]
            &&& row[at] == t1[i][p]
            &&& row[at + 1] == (c[p] * t1[i][p]) % 8380417
            &&& row[at + 2] == (c[p] * t1[i][p]) / 8380417
            &&& row[at + 3 + k] == (row[at + 1] / (pow2(k as nat) as int)) % 2
            &&& row[at + 26 + k] == (row[at + 2] / (pow2(k as nat) as int)) % 2
        }),
{
    let t = polyvec::at_position(t1, p);
    lemma_ct1_at(c[p], t, 6, i, 0);
    lemma_ct1_at(c[p], t, 6, i, 1);
    lemma_ct1_at(c[p], t, 6, i, 2);
    lemma_ct1_at(c[p], t, 6, i, 3 + k);
    lemma_ct1_at(c[p], t, 6, i, 26 + k);
    let b = mldsa_ct1_full_air::product_cells(c[p], t[i]);
    assert(b[3 + k] == cells::bits_of(b[1])[k]);
    assert(b[26 + k] == cells::bits_of(b[2])[k]);
}

proof fn lemma_ct1_at(c: int, t: Seq<int>, n: nat, i: int, q: int)
    requires
        0 <= i < n <= t.len(),
        0 <= q < 49,
    ensures
        mldsa_ct1_full_air::ct1_row(c, t, n).len() == 1 + 49 * n,
        mldsa_ct1_full_air::ct1_row(c, t, n)[0] == c,
        mldsa_ct1_full_air::ct1_row(c, t, n)[1 + 49 * i + q] == mldsa_ct1_full_air::product_cells(
            c,
            t[i],
        )[q],
    decreases n,
{
    let m = (n - 1) as nat;
    let old = mldsa_ct1_full_air::ct1_row(c, t, m);
    let part = mldsa_ct1_full_air::product_cells(c, t[m as int]);
    assert(part.len() == 49);
    if m > 0 {
        let u: int = if i < m {
            i
        } else {
            0
        };
        lemma_ct1_at(c, t, m, u, q);
    }
    let all = old + part;
    if i < m {
        assert(all[1 + 49 * i + q] == old[1 + 49 * i + q]);
    } else {
        assert(all[1 + 49 * i + q] == part[q]);
    }
}

/// The rows of the norm checks: each coefficient with its sign and its size, for one
/// polynomial and for five side by side.
pub proof fn lemma_norm_trace_cells(f: Seq<int>, z: Seq<Seq<int>>, p: int, j: int)
    requires
        f.len() == 256,
        z.len() == 5,
        0 <= p < 256,
        0 <= j < 5,
    ensures
        ({
            let row = mldsa_norm_check_air::norm_table(f)[p];
            &&& mldsa_norm_check_air::norm_table(f).len() == 256
            &&& row.len() == 3
            &&& row[0] == f[p]
            &&& row[1] == (if f[p] > 4190208 {
                1int
            } else {
                0
            })
            &&& row[2] == (if f[p] > 4190208 {
                8380417 - f[p]
            } else {
                f[p]
            })
        }),
        ({
            let row = mldsa_norm_check_batch_air::batch_table(z)[p];
            &&& mldsa_norm_check_batch_air::batch_table(z).len() == 256
            &&& row.len() == 15
            &&& row[3 * j] == z[j][p]
            &&& row[3 * j + 1] == (if z[j][p] > 4190208 {
                1int
            } else {
                0
            })
            &&& row[3 * j + 2] == (if z[j][p] > 4190208 {
                8380417 - z[j][p]
            } else {
                z[j][p]
            })
        }),
{
    assert((3 * j) / 3 == j && (3 * j) % 3 == 0);
    assert((3 * j + 1) / 3 == j && (3 * j + 1) % 3 == 1);
    assert((3 * j + 2) / 3 == j && (3 * j + 2) % 3 == 2);
}

/// The nine cells of a butterfly of `a` and `b` with the factor `z`.
pub proof fn lemma_butterfly_cells(a: int, b: int, z: int)
    requires
        0 <= a < 8380417,
        0 <= b < 8380417,
    ensures
        ({
            let row = mldsa_intt_air::butterfly_row(a, b, z);
            &&& row.len() == 9
            &&& row[0] == a
            &&& row[1] == b
            &&& row[2] == z
            &&& row[3] == a - b + 8380417 * row[4]
            &&& row[4] == (if a < b {
                1int
            } else {
                0
            })
            &&& row[5] == a + b - 8380417 * row[6]
            &&& row[6] == (if a + b >= 8380417 {
                1int
            } else {
                0
            })
            &&& row[7] == (z * row[3]) % 8380417
            &&& row[8] == (z * row[3]) / 8380417
        }),
{
}

/// The trace of an inverse transform has eight stages of 128 butterflies. The one in place
/// `q` of stage `t` joins the entries `2^t` apart that begin at twice the multiple of `2^t`
/// in `q` plus the rest, with the factor of index `2^(7-t) + q / 2^t`; its sum and its product
/// are the entries of the next stage. The first stage reads the transform itself.
pub proof fn lemma_intt_trace_rows(g: Seq<int>, t: int, q: int)
    requires
        0 <= t < 8,
        0 <= q < 128,
    ensures
        ({
            let len = pow2(t as nat) as int;
            let p = (q / len) * (2 * len) + q % len;
            let row = mldsa_intt_air::intt_table(g)[128 * t + q];
            let x = transform::unwound(g, (8 - t) as nat);
            let y = transform::unwound(g, (7 - t) as nat);
            &&& mldsa_intt_air::intt_table(g).len() == 1024
            &&& t == 0 ==> x == g
            &&& 0 <= p < p + len < 256
            &&& row == mldsa_intt_air::butterfly_row(
                x[p],
                x[p + len],
                transform::zeta_inv(pow2((7 - t) as nat) + q / len),
            )
            &&& y[p] == (x[p] + x[p + len]) % 8380417
            &&& y[p + len] == (transform::zeta_inv(pow2((7 - t) as nat) + q / len) * (x[p] - x[p
                + len])) % 8380417
        }),
{
    let s = (7 - t) as nat;
    let r = 128 * t + q;
    assert(r / 128 == t && r % 128 == q);
    transform::lemma_stage_sizes(s);
    let len = transform::stage_len(s as int);
    assert((7 - s) as nat == t as nat);
    let b = q / len;
    let o = q % len;
    lemma_fundamental_div_mod(q, len);
    let p = b * (2 * len) + o;
    assert(mldsa_intt_air::first_input(s, q) == p) by {
        reveal(transform::block_of);
        reveal(transform::offset_of);
    }
    lemma_pow2_pos(s);
    let n = pow2(s) as int;
    assert(0 <= b < n && (b + 1) * (2 * len) <= 256 && (b + 1) * (2 * len) == b * (2 * len) + 2
        * len && 0 <= b * (2 * len)) by (nonlinear_arith)
        requires
            q == len * b + o,
            0 <= o < len,
            0 <= q < 128,
            (2 * len) * n == 256,
            1 <= len,
            1 <= n,
    ;
    lemma_fundamental_div_mod_converse(p, 2 * len, b, o);
    lemma_fundamental_div_mod_converse(p + len, 2 * len, b, o + len);
    lemma_fundamental_div_mod_converse(256, 2 * len, n, 0);
    reveal(transform::twiddle_index);
    reveal(transform::is_first);
    assert(transform::block_of(q, len) == b) by {
        reveal(transform::block_of);
    }
    let x = transform::unwound(g, s + 1);
    assert(transform::unwound(g, s) == transform::gs(x, len));
}

/// The rows of the trace of several inverse transforms: the factor, and for each polynomial
/// the other eight cells of its butterfly and the binary digits of the last two.
pub proof fn lemma_intt_batch_cells(g: Seq<Seq<int>>, r: int, j: int, k: int)
    requires
        0 <= r < 1024,
        0 <= j < g.len(),
        0 <= k < 23,
    ensures
        ({
            let row = mldsa_intt_batch_air::batch_table(g)[r];
            let b = mldsa_intt_air::intt_table(g[j])[r];
            let at = 1 + 54 * j;
            &&& mldsa_intt_batch_air::batch_table(g).len() == 1024
            &&& row.len() == 1 + 54 * g.len()
            &&& row[0] == b[2]
            &&& row[at] == b[0]
            &&& row[at + 1] == b[1]
            &&& row[at + 2] == b[3]
            &&& row[at + 3] == b[4]
            &&& row[at + 4] == b[5]
            &&& row[at + 5] == b[6]
            &&& row[at + 6] == b[7]
            &&& row[at + 7] == b[8]
            &&& row[at + 8 + k] == (b[7] / (pow2(k as nat) as int)) % 2
            &&& row[at + 31 + k] == (b[8] / (pow2(k as nat) as int)) % 2
        }),
{
    let z = mldsa_intt_batch_air::row_zeta(r);
    let bs = mldsa_intt_batch_air::butterflies_at(g, r);
    let b = mldsa_intt_air::intt_table(g[j])[r];
    assert(bs[j] == b);
    lemma_intt_at(z, bs, bs.len(), j, 0);
    lemma_intt_at(z, bs, bs.len(), j, 1);
    lemma_intt_at(z, bs, bs.len(), j, 2);
    lemma_intt_at(z, bs, bs.len(), j, 3);
    lemma_intt_at(z, bs, bs.len(), j, 4);
    lemma_intt_at(z, bs, bs.len(), j, 5);
    lemma_intt_at(z, bs, bs.len(), j, 6);
    lemma_intt_at(z, bs, bs.len(), j, 7);
    lemma_intt_at(z, bs, bs.len(), j, 8 + k);
    lemma_intt_at(z, bs, bs.len(), j, 31 + k);
    let c = mldsa_intt_batch_air::poly_cells(b);
    assert(c[8 + k] == cells::bits_of(b[7])[k]);
    assert(c[31 + k] == cells::bits_of(b[8])[k]);
}

proof fn lemma_intt_at(z: int, bs: Seq<Seq<int>>, n: nat, j: int, q: int)
    requires
        0 <= j < n <= bs.len(),
        0 <= q < 54,
    ensures
        mldsa_intt_batch_air::batch_row(z, bs, n).len() == 1 + 54 * n,
        mldsa_intt_batch_air::batch_row(z, bs, n)[0] == z,
        mldsa_intt_batch_air::batch_row(z, bs, n)[1 + 54 * j + q]
            == mldsa_intt_batch_air::poly_cells(bs[j])[q],
    decreases n,
{
    let m = (n - 1) as nat;
    let old = mldsa_intt_batch_air::batch_row(z, bs, m);
    let part = mldsa_intt_batch_air::poly_cells(bs[m as int]);
    assert(part.len() == 54);
    if m > 0 {
        let u: int = if j < m {
            j
        } else {
            0
        };
        lemma_intt_at(z, bs, m, u, q);
    }
    let all = old + part;
    if j < m {
        assert(all[1 + 54 * j + q] == old[1 + 54 * j + q]);
    } else {
        assert(all[1 + 54 * j + q] == part[q]);
    }
}

/// The trace of a hint's weight: in row `256 i + j` of the first 1536 bit `j` of row `i` of
/// the hint, no bit behind them, and the running sum of the bits; beside it columns that mark
/// the first row and the rows with a bit.
pub proof fn lemma_hint_cells(h: Seq<Seq<bool>>, r: int)
    requires
        0 <= r < 2048,
    ensures
        ({
            let main = mldsa_hint_weight_air::hint_table(h);
            let pre = mldsa_hint_weight_air::preprocessed_table();
            &&& main.len() == 2048
            &&& pre.len() == 2048
            &&& main[r].len() == 2
            &&& pre[r].len() == 2
            &&& main[r][0] == (if r < 1536 && h[r / 256][r % 256] {
                1int
            } else {
                0
            })
            &&& main[r][1] == main[r][0] + (if r == 0 {
                0
            } else {
                main[r - 1][1]
            })
            &&& pre[r][0] == (if r == 0 {
                1int
            } else {
                0
            })
            &&& pre[r][1] == (if r < 1536 {
                1int
            } else {
                0
            })
        }),
{
    if r == 0 {
        assert(mldsa_hint_weight_air::weight_before(h, 0) == 0);
    }
    assert(mldsa_hint_weight_air::weight_before(h, (r + 1) as nat)
        == mldsa_hint_weight_air::weight_before(h, r as nat) + mldsa_hint_weight_air::bit_cell(
        h,
        r,
    ));
}

/// The five cells that the weight's constraints see at a row: the two marks, the bit, the sum
/// and the sum of the row before, which for the first row is the last one.
pub proof fn lemma_mask_cells(pre: Seq<Seq<int>>, main: Seq<Seq<int>>, r: int)
    ensures
        ({
            let mask = mldsa_hint_weight_air::mask_at(pre, main, r);
            &&& mask.len() == 5
            &&& mask[0] == pre[r][0]
            &&& mask[1] == pre[r][1]
            &&& mask[2] == main[r][0]
            &&& mask[3] == main[r][1]
            &&& mask[4] == (if r == 0 {
                main[2047][1]
            } else {
                main[r - 1][1]
            })
        }),
{
}

proof fn lemma_reversed_bit(v: nat, m: nat, k: nat)
    requires
        k < m,
    ensures
        (transform::brv(v, m) as int / (pow2(k) as int)) % 2 == (v as int / (pow2(
            (m - 1 - k) as nat,
        ) as int)) % 2,
    decreases m,
{
    lemma_pow2_pos(k);
    let t = (m - 1) as nat;
    let top = (v % 2) as int;
    let rest = transform::brv(v / 2, t) as int;
    transform::lemma_brv_bound(v / 2, t);
    lemma_pow2_pos(t);
    assert(transform::brv(v, m) as int == top * pow2(t) + rest);
    if k == t {
        lemma2_to64();
        assert((m - 1 - k) as nat == 0);
        lemma_fundamental_div_mod_converse(transform::brv(v, m) as int, pow2(t) as int, top, rest);
        assert(v as int / (pow2(0) as int) == v);
    } else {
        lemma_reversed_bit(v / 2, t, k);
        let e = (m - 2 - k) as nat;
        lemma_pow2_unfold((m - 1 - k) as nat);
        lemma_pow2_pos(e);
        lemma_div_denominator(v as int, 2, pow2(e) as int);
        // The top bit lies above bit `k` and leaves it alone.
        let d = pow2(k) as int;
        let u = (t - 1 - k) as nat;
        lemma_pow2_adds(k, (t - k) as nat);
        lemma_pow2_unfold((t - k) as nat);
        let w = top * pow2(u);
        assert(top * pow2(t) == d * (2 * w)) by (nonlinear_arith)
            requires
                pow2(t) == d * pow2((t - k) as nat),
                pow2((t - k) as nat) == 2 * pow2(u),
                w == top * pow2(u),
        ;
        lemma_hoist_over_denominator(rest, 2 * w, d as nat);
        assert((d * (2 * w) + rest) / d == rest / d + 2 * w);
        assert((rest / d + 2 * w) % 2 == (rest / d) % 2);
        assert(transform::brv(v, m) as int == d * (2 * w) + rest);
        assert((t - 1 - k) as nat == e);
        assert((v / 2) as int == v as int / 2);
        assert(pow2((m - 1 - k) as nat) as int == 2 * pow2(e));
    }
}

/// Where the value of row `i` of `2^m` stands in a committed column: rows with an even number
/// go to the first half of the circle in order, the others to the second half in reverse, and
/// the `m` binary digits of that place are then reversed.
pub proof fn lemma_place_in_column(i: int, m: nat, k: nat)
    requires
        0 <= i < pow2(m),
        k < m,
    ensures
        ({
            let place = if i % 2 == 0 {
                i / 2
            } else {
                pow2(m) - 1 - i / 2
            };
            let at = columns::row_position(i, pow2(m));
            &&& 0 <= at < pow2(m)
            &&& (at / (pow2(k) as int)) % 2 == (place / (pow2((m - 1 - k) as nat) as int)) % 2
        }),
{
    lemma_log_of_power(m);
    let place = if i % 2 == 0 {
        i / 2
    } else {
        pow2(m) - 1 - i / 2
    };
    lemma_reversed_bit(place as nat, m, k);
    transform::lemma_brv_bound(place as nat, m);
}

proof fn lemma_log_of_power(m: nat)
    ensures
        log(2, pow2(m) as int) == m,
{
    lemma_pow2(m);
    lemma_log_pow(2, m);
}

/// Every row has a place in a column.
pub proof fn lemma_place(i: int, n: nat)
    requires
        columns::is_power_of_two(n),
        0 <= i < n,
    ensures
        0 <= columns::row_position(i, n) < n,
{
    let m = log(2, n as int) as nat;
    let place = if i % 2 == 0 {
        i / 2
    } else {
        n - 1 - i / 2
    };
    transform::lemma_brv_bound(place as nat, m);
}

/// The columns of a table: as many as it is wide, each with the cells of its rows at the
/// places of the rows.
pub proof fn lemma_column_cells(table: Seq<Seq<int>>, width: nat, c: int, i: int)
    requires
        0 <= c < width,
        0 <= i < table.len(),
    ensures
        columns::columns(table, width).len() == width,
        columns::columns(table, width)[c].len() == table.len(),
        0 <= columns::row_position(i, table.len()) < table.len() ==> columns::columns(
            table,
            width,
        )[c][i] == table[columns::row_position(i, table.len())][c] as u32,
{
}

/// The five cells that the weight's constraints see of the committed columns at row `r`, each
/// at the place of its row in its column.
pub proof fn lemma_committed_mask_cells(pre: Seq<Seq<u32>>, main: Seq<Seq<u32>>, r: int)
    ensures
        ({
            let mask = mldsa_hint_weight_air::committed_mask(pre, main, r);
            let here = columns::row_position(r, 2048);
            let before = columns::row_position(
                if r == 0 {
                    2047
                } else {
                    r - 1
                },
                2048,
            );
            &&& mask.len() == 5
            &&& mask[0] == pre[0][here]
            &&& mask[1] == pre[1][here]
            &&& mask[2] == main[0][here]
            &&& mask[3] == main[1][here]
            &&& mask[4] == main[1][before]
        }),
{
}

/// A circuit has as many columns as the rows of its trace have cells.
pub proof fn lemma_widths(
    a: Seq<Seq<Seq<int>>>,
    z: Seq<Seq<int>>,
    t1: Seq<Seq<int>>,
    c: Seq<int>,
    g: Seq<Seq<int>>,
    h: Seq<Seq<bool>>,
    p: int,
)
    requires
        a.len() == 6,
        forall|t: int| 0 <= t < 6 ==> (#[trigger] a[t]).len() == 5,
        z.len() == 5,
        t1.len() == 6,
        c.len() == 256,
        0 < g.len() <= usize::MAX,
        0 <= p < 256,
    ensures
        transcript::width(Circuit::AzRow) == Some(
            mldsa_az_air::az_table(a[0], z)[p].len() as int,
        ),
        transcript::width(Circuit::AzFull) == Some(
            mldsa_az_full_air::full_table(a, z)[p].len() as int,
        ),
        transcript::width(Circuit::Ct1Full) == Some(
            mldsa_ct1_full_air::ct1_table(c, t1)[p].len() as int,
        ),
        transcript::width(Circuit::NormCheck) == Some(
            mldsa_norm_check_air::norm_table(c)[p].len() as int,
        ),
        transcript::width(Circuit::NormCheckBatch) == Some(
            mldsa_norm_check_batch_air::batch_table(z)[p].len() as int,
        ),
        transcript::width(Circuit::InttBatch { n_polys: g.len() as usize }) == Some(
            mldsa_intt_batch_air::batch_table(g)[p].len() as int,
        ),
        transcript::width(Circuit::NttBatch { n_polys: g.len() as usize }) == Some(
            mldsa_intt_batch_air::batch_table(g)[p].len() as int,
        ),
        transcript::width(Circuit::HintWeight) == Some(
            mldsa_hint_weight_air::hint_table(h)[p].len() as int,
        ),
        transcript::preprocessed_width(Circuit::HintWeight) == Some(
            mldsa_hint_weight_air::preprocessed_table()[p].len() as int,
        ),
{
    lemma_az_cells(a[0], z, p, 0, 0, 0);
    lemma_full_trace_cells(a, z, p, 0, 0, 0, 0);
    lemma_ct1_cells(c, t1, p, 0, 0);
    lemma_norm_trace_cells(c, z, p, 0);
    lemma_intt_batch_cells(g, p, 0, 0);
}

/// The circuits whose traces come from elsewhere: how many columns they have, where that is
/// fixed, and which of them have columns that are fixed beforehand.
pub proof fn lemma_other_widths(n: usize)
    ensures
        transcript::width(Circuit::Ntt) == Some(9int),
        transcript::width(Circuit::WPrimeFull) == Some(24int),
        transcript::width(Circuit::UseHintWeight) == Some(61int),
        transcript::width(Circuit::RangeQ) == Some(48int),
        transcript::width(Circuit::RangeQBatch) == Some(288int),
        transcript::width(Circuit::HashChain) is None,
        transcript::width(Circuit::MerkleRoot) is None,
        transcript::width(Circuit::PolyMul) is None,
        transcript::width(Circuit::PolyAdd) is None,
        transcript::width(Circuit::UseHint) is None,
        transcript::width(Circuit::UseHintBatch) is None,
        transcript::preprocessed_width(Circuit::HashChain) is None,
        transcript::preprocessed_width(Circuit::MerkleRoot) is None,
        transcript::preprocessed_width(Circuit::UseHintWeight) == Some(1int),
        transcript::preprocessed_width(Circuit::WPrimeFull) == Some(0int),
        transcript::preprocessed_width(Circuit::AzFull) == Some(0int),
        transcript::preprocessed_width(Circuit::Ct1Full) == Some(0int),
        transcript::preprocessed_width(Circuit::NormCheckBatch) == Some(0int),
        transcript::preprocessed_width(Circuit::RangeQBatch) == Some(0int),
        transcript::preprocessed_width(Circuit::RangeQ) == Some(0int),
        transcript::preprocessed_width(Circuit::Ntt) == Some(0int),
        transcript::preprocessed_width(Circuit::PolyMul) == Some(0int),
        transcript::preprocessed_width(Circuit::PolyAdd) == Some(0int),
        transcript::preprocessed_width(Circuit::UseHint) == Some(0int),
        transcript::preprocessed_width(Circuit::UseHintBatch) == Some(0int),
        transcript::preprocessed_width(Circuit::NormCheck) == Some(0int),
        transcript::preprocessed_width(Circuit::AzRow) == Some(0int),
        transcript::preprocessed_width(Circuit::NttBatch { n_polys: n }) == Some(0int),
        transcript::preprocessed_width(Circuit::InttBatch { n_polys: n }) == Some(0int),
{
}

/// The sizes that the circuits announce are those of their traces.
pub proof fn lemma_announced_sizes()
    ensures
        mldsa_norm_check_air::N_COLS == 3,
        mldsa_norm_check_batch_air::N_COLS == 5 * mldsa_norm_check_batch_air::COLS_PER_ROW,
        mldsa_norm_check_batch_air::COLS_PER_ROW == 3,
        mldsa_az_air::N_COLS == 5 * 4 + 8 + 2 * 5 * mldsa_az_air::N_BITS,
        mldsa_az_full_air::N_COLS == 5 + 6 * mldsa_az_full_air::COLS_PER_ROW,
        mldsa_az_full_air::COLS_PER_ROW == 5 * 3 + 8 + 2 * 5 * mldsa_az_full_air::N_BITS,
        mldsa_ct1_full_air::N_COLS == 1 + 6 * mldsa_ct1_full_air::COLS_PER_ROW,
        mldsa_ct1_full_air::COLS_PER_ROW == 3 + 2 * mldsa_ct1_full_air::N_BITS,
        mldsa_intt_batch_air::N_COLS == 1 + 6 * mldsa_intt_batch_air::COLS_PER_POLY,
        mldsa_intt_batch_air::COLS_PER_POLY == 8 + 2 * mldsa_intt_batch_air::N_BITS,
        mldsa_intt_air::N_COLS == 9,
        mldsa_hint_weight_air::N_COLS == 2,
        mldsa_az_air::N_BITS == 23,
        mldsa_az_full_air::N_BITS == 23,
        mldsa_ct1_full_air::N_BITS == 23,
        mldsa_intt_batch_air::N_BITS == 23,
        mldsa_hint_weight_air::HINT_ROWS == 6 * 256,
        pow2(mldsa_norm_check_air::LOG_N_ROWS as nat) == 256,
        pow2(mldsa_norm_check_batch_air::LOG_N_ROWS as nat) == 256,
        pow2(mldsa_az_air::LOG_N_ROWS as nat) == 256,
        pow2(mldsa_az_full_air::LOG_N_ROWS as nat) == 256,
        pow2(mldsa_ct1_full_air::LOG_N_ROWS as nat) == 256,
        pow2(mldsa_hint_weight_air::LOG_N_ROWS as nat) == 2048,
        pow2(mldsa_intt_air::LOG_N_BUTTERFLIES as nat) == mldsa_intt_air::N_BUTTERFLIES,
        pow2(mldsa_intt_batch_air::LOG_N_ROWS as nat) == mldsa_intt_batch_air::N_BUTTERFLIES,
        mldsa_intt_air::N_BUTTERFLIES == 8 * 128,
        mldsa_intt_batch_air::N_BUTTERFLIES == 8 * 128,
        2 * mldsa_norm_check_air::HALF + 1 == 8380417,
        mldsa_norm_check_air::NORM_BOUND == 524288 - 196,
{
    lemma2_to64();
}

} // verus!
