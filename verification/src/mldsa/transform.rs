//! The number-theoretic transform as evaluation at the odd powers of `ZETA`,
//! and the butterfly stages that compute it.
use crate::mldsa::field;
use crate::mldsa::params::{N_INV, ZETA};
use crate::mldsa::zq;
use vstd::arithmetic::div_mod::*;
use vstd::arithmetic::power;
use vstd::arithmetic::power::*;
use vstd::arithmetic::power2::*;
use vstd::prelude::*;

verus! {

/// The integers that a sequence of machine words stands for.
pub open spec fn ints(s: Seq<i64>) -> Seq<int> {
    Seq::new(s.len(), |i: int| s[i] as int)
}

/// A vector of 256 residues in `[0, Q)`.
pub open spec fn is_elem(f: Seq<int>) -> bool {
    &&& f.len() == 256
    &&& forall|i: int| 0 <= i < 256 ==> field::in_field(#[trigger] f[i])
}

/// `f[j] + f[j + step] x + ... + f[j + (n-1) step] x^(n-1)`.
pub open spec fn psum(f: Seq<int>, j: int, step: int, n: nat, x: int) -> int
    decreases n,
{
    if n == 0 {
        0
    } else {
        psum(f, j, step, (n - 1) as nat, x) + f[j + (n - 1) * step] * power::pow(
            x,
            (n - 1) as nat,
        )
    }
}

/// The value at `x` of the polynomial with coefficients `f`.
pub open spec fn eval(f: Seq<int>, x: int) -> int {
    psum(f, 0, 1, 256, x)
}

/// The `bits`-bit reversal of `k`.
pub open spec fn brv(k: nat, bits: nat) -> nat
    decreases bits,
{
    if bits == 0 {
        0
    } else {
        (k % 2) * pow2((bits - 1) as nat) + brv(k / 2, (bits - 1) as nat)
    }
}

/// The point at which entry `i` of a transform is the polynomial's value.
pub open spec fn root(i: int) -> int {
    power::pow(ZETA as int, 2 * brv(i as nat, 8) + 1)
}

/// The transform of `f`: its values at the 256 odd powers of `ZETA`, in
/// bit-reversed order.
pub open spec fn ntt_of(f: Seq<int>) -> Seq<int> {
    Seq::new(256, |i: int| zq::modq(eval(f, root(i))))
}

/// Entrywise product.
pub open spec fn pointwise(a: Seq<int>, b: Seq<int>) -> Seq<int> {
    Seq::new(256, |i: int| zq::modq(a[i] * b[i]))
}

/// The vector of residues whose transform is `g`.
pub open spec fn intt_of(g: Seq<int>) -> Seq<int> {
    choose|f: Seq<int>| is_elem(f) && #[trigger] ntt_of(f) == g
}

/// Twiddle factor of the forward butterflies with index `k`.
pub open spec fn zeta_fwd(k: int) -> int {
    zq::modq(power::pow(ZETA as int, brv(k as nat, 8)))
}

/// Twiddle factor of the inverse butterflies with index `k`.
pub open spec fn zeta_inv(k: int) -> int {
    zq::modq(power::pow(ZETA as int, ((512 - brv(k as nat, 8)) % 512int) as nat))
}

/// Quotient of a position by a block size.
#[verifier::opaque]
pub open spec fn block_of(p: int, size: int) -> int {
    p / size
}

/// Offset of a position in its block.
#[verifier::opaque]
pub open spec fn offset_of(p: int, size: int) -> int {
    p % size
}

/// Index of the twiddle factor for position `p` in the stage at distance `len`.
#[verifier::opaque]
pub open spec fn twiddle_index(p: int, len: int) -> int {
    256int / (2 * len) + p / (2 * len)
}

/// Whether position `p` is the first of its butterfly at distance `len`.
#[verifier::opaque]
pub open spec fn is_first(p: int, len: int) -> bool {
    p % (2 * len) < len
}

/// One stage of forward butterflies at distance `len`.
pub open spec fn ct(x: Seq<int>, len: int) -> Seq<int> {
    Seq::new(
        256,
        |p: int|
            {
                let z = zeta_fwd(twiddle_index(p, len));
                if is_first(p, len) {
                    zq::modq(x[p] + z * x[p + len])
                } else {
                    zq::modq(x[p - len] - z * x[p])
                }
            },
    )
}

/// One stage of inverse butterflies at distance `len`.
pub open spec fn gs(x: Seq<int>, len: int) -> Seq<int> {
    Seq::new(
        256,
        |p: int|
            {
                let z = zeta_inv(twiddle_index(p, len));
                if is_first(p, len) {
                    zq::modq(x[p] + x[p + len])
                } else {
                    zq::modq(z * (x[p - len] - x[p]))
                }
            },
    )
}

/// Distance of the butterflies in stage `s` of 8.
#[verifier::opaque]
pub open spec fn stage_len(s: int) -> int {
    if s == 0 {
        128
    } else if s == 1 {
        64
    } else if s == 2 {
        32
    } else if s == 3 {
        16
    } else if s == 4 {
        8
    } else if s == 5 {
        4
    } else if s == 6 {
        2
    } else {
        1
    }
}

/// Exponent of the root modulo which block `b` is reduced before stage `s`.
pub open spec fn block_exp(s: nat, b: nat) -> nat {
    brv(b, s) * pow2((9 - s) as nat) + pow2((8 - s) as nat)
}

/// What position `p` holds before stage `s`: a coefficient of `f` reduced
/// modulo `X^B - root`, where `B` is the block size.
pub open spec fn stage_value(f: Seq<int>, s: nat, p: int) -> int {
    let b = pow2((8 - s) as nat) as int;
    zq::modq(
        psum(
            f,
            offset_of(p, b),
            b,
            pow2(s),
            power::pow(ZETA as int, block_exp(s, block_of(p, b) as nat)),
        ),
    )
}

pub open spec fn stage_values(f: Seq<int>, s: nat) -> Seq<int> {
    Seq::new(256, |p: int| stage_value(f, s, p))
}

pub proof fn lemma_block(b: int, size: int, r: int)
    requires
        0 <= r < size,
    ensures
        (b * size + r) / size == b,
        (b * size + r) % size == r,
{
    lemma_fundamental_div_mod_converse(b * size + r, size, b, r);
}

proof fn lemma_brv_zero(m: nat)
    ensures
        brv(0, m) == 0,
    decreases m,
{
    if m > 0 {
        lemma_brv_zero((m - 1) as nat);
        assert(0 * pow2((m - 1) as nat) == 0) by (nonlinear_arith);
    }
}

proof fn lemma_brv_split(b: nat, s: nat, h: nat, m: nat)
    requires
        b < pow2(s),
    ensures
        brv(b + pow2(s) * h, s + m) == brv(b, s) * pow2(m) + brv(h, m),
    decreases s,
{
    lemma2_to64();
    if s == 0 {
        assert(b == 0);
        assert(1 * h == h);
        assert(0 * pow2(m) == 0) by (nonlinear_arith);
    } else {
        let t = (s - 1) as nat;
        lemma_pow2_unfold(s);
        let x = b + pow2(s) * h;
        assert(pow2(s) * h == 2 * (pow2(t) * h)) by (nonlinear_arith)
            requires
                pow2(s) == 2 * pow2(t),
        ;
        assert(x % 2 == b % 2);
        assert(x / 2 == b / 2 + pow2(t) * h);
        lemma_brv_split(b / 2, t, h, m);
        lemma_pow2_adds(t, m);
        assert((s + m - 1) as nat == t + m);
        let r = b % 2;
        let v = brv(b / 2, t);
        assert(r * (pow2(t) * pow2(m)) + v * pow2(m) == (r * pow2(t) + v) * pow2(m))
            by (nonlinear_arith);
        assert(brv(x, s + m) == r * pow2(t + m) + brv(x / 2, t + m));
        assert(brv(b, s) == r * pow2(t) + v);
    }
}

/// The bit reversal of `k` fits in the same number of bits.
pub proof fn lemma_brv_bound(k: nat, m: nat)
    ensures
        brv(k, m) < pow2(m),
    decreases m,
{
    lemma2_to64();
    if m > 0 {
        lemma_brv_bound(k / 2, (m - 1) as nat);
        lemma_pow2_unfold(m);
        let t = pow2((m - 1) as nat);
        assert((k % 2) * t <= t) by (nonlinear_arith)
            requires
                k % 2 <= 1,
        ;
    }
}

/// Bit reversal undoes itself.
pub proof fn lemma_brv_involution(k: nat, m: nat)
    requires
        k < pow2(m),
    ensures
        brv(brv(k, m), m) == k,
    decreases m,
{
    lemma2_to64();
    if m > 0 {
        let t = (m - 1) as nat;
        lemma_pow2_unfold(m);
        lemma_brv_bound(k / 2, t);
        lemma_brv_involution(k / 2, t);
        let b = brv(k / 2, t);
        let h = k % 2;
        lemma_brv_split(b, t, h, 1);
        assert(pow2(t) * h == h * pow2(t)) by (nonlinear_arith);
        assert(brv(h / 2, 0) == 0);
        assert(brv(h, 1) == (h % 2) * pow2(0) + brv(h / 2, 0));
        assert(brv(k, m) == h * pow2(t) + b);
    }
}

/// Bit reversal keeps a number below half the range in the even numbers.
pub proof fn lemma_brv_widen(k: nat, m: nat)
    requires
        k < pow2(m),
    ensures
        brv(k, m + 1) == 2 * brv(k, m),
{
    lemma2_to64();
    lemma_brv_split(k, m, 0, 1);
    lemma_brv_zero(1);
    assert(pow2(m) * 0 == 0) by (nonlinear_arith);
}

/// Bit reversal and inversion of all bits may change places.
pub proof fn lemma_brv_complement(k: nat, m: nat)
    requires
        k < pow2(m),
    ensures
        brv((pow2(m) - 1 - k) as nat, m) == pow2(m) - 1 - brv(k, m),
    decreases m,
{
    lemma2_to64();
    if m > 0 {
        let t = (m - 1) as nat;
        lemma_pow2_unfold(m);
        let c = (pow2(m) - 1 - k) as nat;
        assert(c % 2 == 1 - k % 2);
        assert(c / 2 == pow2(t) - 1 - k / 2);
        lemma_brv_complement(k / 2, t);
        if k % 2 == 0 {
            assert((c % 2) * pow2(t) == pow2(t)) by (nonlinear_arith)
                requires
                    c % 2 == 1,
            ;
            assert((k % 2) * pow2(t) == 0) by (nonlinear_arith)
                requires
                    k % 2 == 0,
            ;
        } else {
            assert((c % 2) * pow2(t) == 0) by (nonlinear_arith)
                requires
                    c % 2 == 0,
            ;
            assert((k % 2) * pow2(t) == pow2(t)) by (nonlinear_arith)
                requires
                    k % 2 == 1,
            ;
        }
    }
}

/// How block exponents split, and which twiddle index belongs to them.
proof fn lemma_block_exp(s: nat, b: nat)
    requires
        s < 8,
        b < pow2(s),
    ensures
        block_exp(s, b) == 2 * block_exp(s + 1, 2 * b),
        block_exp(s + 1, 2 * b + 1) == block_exp(s + 1, 2 * b) + 256,
        brv(pow2(s) + b, 8) == block_exp(s + 1, 2 * b),
{
    lemma2_to64();
    let m = (8 - s) as nat;
    lemma_brv_split(b, s, 1, m);
    assert(pow2(s) * 1 == pow2(s));
    lemma_brv_zero((m - 1) as nat);
    assert(brv(1, m) == 1 * pow2((m - 1) as nat) + brv(0, (m - 1) as nat));
    let v = brv(b, s);
    assert((2 * b) % 2 == 0 && (2 * b) / 2 == b);
    assert((2 * b + 1) % 2 == 1 && (2 * b + 1) / 2 == b);
    assert(brv(2 * b, s + 1) == 0 * pow2(s) + v);
    assert(0 * pow2(s) == 0) by (nonlinear_arith);
    assert(brv(2 * b + 1, s + 1) == 1 * pow2(s) + v);
    lemma_pow2_unfold((9 - s) as nat);
    lemma_pow2_unfold((8 - s) as nat);
    lemma_pow2_adds(s, m);
    let w = pow2(m);
    assert(v * (2 * w) == 2 * (v * w)) by (nonlinear_arith);
    assert((pow2(s) + v) * w == pow2(s) * w + v * w) by (nonlinear_arith);
}

/// Splitting a sum into its even and odd terms.
proof fn lemma_psum_split(f: Seq<int>, j: int, h: int, n: nat, x: int)
    ensures
        psum(f, j, h, 2 * n, x) == psum(f, j, 2 * h, n, x * x) + x * psum(
            f,
            j + h,
            2 * h,
            n,
            x * x,
        ),
    decreases n,
{
    if n == 0 {
        assert(x * 0 == 0) by (nonlinear_arith);
    } else {
        let m = (n - 1) as nat;
        lemma_psum_split(f, j, h, m, x);
        let k0 = (2 * m) as nat;
        let k1 = (2 * m + 1) as nat;
        assert(psum(f, j, h, 2 * n, x) == psum(f, j, h, k1, x) + f[j + k1 * h] * power::pow(x, k1));
        assert(psum(f, j, h, k1, x) == psum(f, j, h, k0, x) + f[j + k0 * h] * power::pow(x, k0));
        lemma_pow_multiplies(x, 2, m);
        lemma_square_is_pow2(x);
        reveal(power::pow);
        let y = power::pow(x * x, m);
        assert(power::pow(x, k0) == y);
        assert(power::pow(x, k1) == x * y);
        assert(k0 * h == m * (2 * h)) by (nonlinear_arith)
            requires
                k0 == 2 * m,
        ;
        assert(j + k1 * h == (j + h) + m * (2 * h)) by (nonlinear_arith)
            requires
                k1 == 2 * m + 1,
        ;
        let a = psum(f, j + h, 2 * h, m, x * x);
        let c = f[j + k1 * h];
        assert(x * (a + c * y) == x * a + c * (x * y)) by (nonlinear_arith);
    }
}

pub proof fn lemma_psum_congruent(f: Seq<int>, j: int, step: int, n: nat, x: int, y: int)
    requires
        zq::congruent(x, y),
    ensures
        zq::congruent(psum(f, j, step, n, x), psum(f, j, step, n, y)),
    decreases n,
{
    if n > 0 {
        let m = (n - 1) as nat;
        lemma_psum_congruent(f, j, step, m, x, y);
        zq::lemma_pow_congruent(x, y, m);
        let c = f[j + m * step];
        zq::lemma_congruent_mul(c, c, power::pow(x, m), power::pow(y, m));
    }
}

/// Sizes and numbers of the blocks in stage `s`.
pub proof fn lemma_stage_sizes(s: nat)
    requires
        s < 8,
    ensures
        1 <= stage_len(s as int) <= 128,
        stage_len(s as int) == pow2((7 - s) as nat),
        2 * stage_len(s as int) == pow2((8 - s) as nat),
        (2 * stage_len(s as int)) * pow2(s) == 256,
        pow2(s) <= 128,
{
    lemma2_to64();
    reveal(stage_len);
    let len = stage_len(s as int);
    let n = pow2(s);
    assert((2 * len) * n == 256) by (nonlinear_arith)
        requires
            (len == 128 && n == 1) || (len == 64 && n == 2) || (len == 32 && n == 4) || (len == 16
                && n == 8) || (len == 8 && n == 16) || (len == 4 && n == 32) || (len == 2 && n
                == 64) || (len == 1 && n == 128),
    ;
}

/// The next stage has twice as many blocks of half the size.
pub proof fn lemma_next_stage(s: nat)
    requires
        s < 8,
    ensures
        pow2(s + 1) == 2 * pow2(s),
        s < 7 ==> stage_len(s as int) == 2 * stage_len((s + 1) as int),
        s == 7 ==> stage_len(s as int) == 1,
{
    lemma_pow2_unfold(s + 1);
    reveal(stage_len);
}

/// Where the butterfly of position `p` in stage `s` lies before and after it.
pub proof fn lemma_positions(s: nat, p: int)
    requires
        s < 8,
        0 <= p < 256,
    ensures
        stage_len(s as int) == pow2((7 - s) as nat),
        2 * stage_len(s as int) == pow2((8 - s) as nat),
        ({
            let len = stage_len(s as int);
            let b = block_of(p, 2 * len);
            let r = offset_of(p, 2 * len);
            &&& 0 <= b < pow2(s)
            &&& 0 <= r < 2 * len
            &&& twiddle_index(p, len) == pow2(s) + b
            &&& is_first(p, len) == (r < len)
            &&& r < len ==> {
                &&& offset_of(p, len) == r
                &&& block_of(p, len) == 2 * b
                &&& p + len < 256
                &&& offset_of(p + len, 2 * len) == r + len
                &&& block_of(p + len, 2 * len) == b
                &&& twiddle_index(p + len, len) == twiddle_index(p, len)
                &&& !is_first(p + len, len)
            }
            &&& r >= len ==> {
                &&& offset_of(p, len) == r - len
                &&& block_of(p, len) == 2 * b + 1
                &&& p - len >= 0
                &&& offset_of(p - len, 2 * len) == r - len
                &&& block_of(p - len, 2 * len) == b
                &&& twiddle_index(p - len, len) == twiddle_index(p, len)
                &&& is_first(p - len, len)
            }
        }),
{
    let len = stage_len(s as int);
    let n = pow2(s) as int;
    lemma_stage_sizes(s);
    reveal(block_of);
    reveal(offset_of);
    reveal(twiddle_index);
    reveal(is_first);
    let size = 2 * len;
    let b = p / size;
    let r = p % size;
    lemma_fundamental_div_mod(p, size);
    assert(p == b * size + r) by (nonlinear_arith)
        requires
            p == size * b + r,
    ;
    assert(0 <= b < n) by (nonlinear_arith)
        requires
            p == b * size + r,
            0 <= r < size,
            0 <= p < size * n,
    ;
    assert(n * size == 256) by (nonlinear_arith)
        requires
            size * n == 256,
    ;
    assert((b + 1) * size <= 256) by (nonlinear_arith)
        requires
            b + 1 <= n,
            n * size == 256,
            size > 0,
    ;
    assert((b + 1) * size == b * size + size) by (nonlinear_arith);
    lemma_block(n, size, 0);
    assert(b * size == (2 * b) * len) by (nonlinear_arith)
        requires
            size == 2 * len,
    ;
    if r < len {
        lemma_block(2 * b, len, r);
        lemma_block(b, size, r + len);
    } else {
        assert((2 * b + 1) * len == (2 * b) * len + len) by (nonlinear_arith);
        lemma_block(2 * b + 1, len, r - len);
        lemma_block(b, size, r - len);
    }
}

proof fn lemma_stage_step_at(f: Seq<int>, s: nat, p: int)
    requires
        s < 8,
        0 <= p < 256,
    ensures
        ct(stage_values(f, s), stage_len(s as int))[p] == stage_value(f, s + 1, p),
{
    let len = stage_len(s as int);
    lemma_positions(s, p);
    let b = block_of(p, 2 * len) as nat;
    let r = offset_of(p, 2 * len);
    let n = pow2(s);
    lemma_block_exp(s, b);
    lemma_pow2_unfold(s + 1);
    let e = block_exp(s + 1, 2 * b);
    let d = power::pow(ZETA as int, e);
    let gamma = power::pow(ZETA as int, block_exp(s, b));
    lemma_pow_adds(ZETA as int, e, e);
    assert(d * d == gamma);
    let z = zeta_fwd(twiddle_index(p, len));
    assert(z == zq::modq(d));
    assert((8 - (s + 1)) as nat == (7 - s) as nat);
    if r < len {
        lemma_psum_split(f, r, len, n, d);
        let u = psum(f, r, 2 * len, n, gamma);
        let v = psum(f, r + len, 2 * len, n, gamma);
        zq::lemma_modq_mul(d, v);
        assert(zq::modq(z * zq::modq(v)) == zq::modq(d * v));
        assert(stage_value(f, s + 1, p) == zq::modq(u + d * v));
        assert(stage_values(f, s)[p] == zq::modq(u));
        assert(stage_values(f, s)[p + len] == zq::modq(v));
    } else {
        let q = r - len;
        let dm = power::pow(ZETA as int, e + 256);
        lemma_pow_adds(ZETA as int, e, 256);
        field::lemma_zeta_order();
        let w = power::pow(ZETA as int, 256);
        zq::lemma_congruent_mul(d, d, w, -1);
        assert(d * -1 == -d) by (nonlinear_arith);
        assert(zq::congruent(dm, -d));
        lemma_psum_congruent(f, q, len, (2 * n) as nat, dm, -d);
        lemma_psum_split(f, q, len, n, -d);
        assert((-d) * (-d) == d * d) by (nonlinear_arith);
        let u = psum(f, q, 2 * len, n, gamma);
        let v = psum(f, q + len, 2 * len, n, gamma);
        assert((-d) * v == -(d * v)) by (nonlinear_arith);
        zq::lemma_modq_mul(d, v);
        assert(zq::modq(z * zq::modq(v)) == zq::modq(d * v));
        assert(stage_value(f, s + 1, p) == zq::modq(u - d * v));
        assert(stage_values(f, s)[p - len] == zq::modq(u));
        assert(stage_values(f, s)[p] == zq::modq(v));
    }
}

/// Each stage of butterflies takes the values before it to those before the next.
pub proof fn lemma_stage_step(f: Seq<int>, s: nat)
    requires
        s < 8,
    ensures
        ct(stage_values(f, s), stage_len(s as int)) == stage_values(f, s + 1),
{
    let l = ct(stage_values(f, s), stage_len(s as int));
    let r = stage_values(f, s + 1);
    assert forall|p: int| 0 <= p < 256 implies l[p] == r[p] by {
        lemma_stage_step_at(f, s, p);
    }
    assert(l =~= r);
}

/// Before the first stage the values are the coefficients, after the last they
/// are the transform.
pub proof fn lemma_stage_ends(f: Seq<int>)
    requires
        is_elem(f),
    ensures
        stage_values(f, 0) == f,
        stage_values(f, 8) == ntt_of(f),
{
    lemma2_to64();
    reveal(block_of);
    reveal(offset_of);
    assert forall|p: int| 0 <= p < 256 implies stage_value(f, 0, p) == f[p] by {
        let x = power::pow(ZETA as int, block_exp(0, (p / 256) as nat));
        reveal_with_fuel(psum, 2);
        lemma_pow0(x);
        assert(f[p + 0 * 256] * 1 == f[p]);
        assert(psum(f, p % 256, 256, 1, x) == f[p]);
    }
    assert(stage_values(f, 0) =~= f);
    assert forall|p: int| 0 <= p < 256 implies stage_value(f, 8, p) == ntt_of(f)[p] by {
        assert(p % 1 == 0 && p / 1 == p);
        let v = brv(p as nat, 8);
        assert(v * 2 == 2 * v);
        assert(block_exp(8, p as nat) == 2 * brv(p as nat, 8) + 1);
    }
    assert(stage_values(f, 8) =~= ntt_of(f));
}

/// The twiddle factors of the two directions are inverse to each other.
pub proof fn lemma_zetas_inverse(k: int)
    ensures
        zq::modq(zeta_fwd(k) * zeta_inv(k)) == 1,
{
    lemma2_to64();
    lemma_brv_bound(k as nat, 8);
    let e = brv(k as nat, 8);
    let g = ((512 - e) % 512int) as nat;
    lemma_pow_adds(ZETA as int, e, g);
    zq::lemma_modq_mul(power::pow(ZETA as int, e), power::pow(ZETA as int, g));
    field::lemma_zeta_order();
    lemma_pow0(ZETA as int);
}

/// `x` with every entry multiplied by `c`.
pub open spec fn scaled(c: int, x: Seq<int>) -> Seq<int> {
    Seq::new(256, |p: int| zq::modq(c * x[p]))
}

proof fn lemma_butterfly_scaled(c: int, z: int, a: int, b: int)
    ensures
        zq::modq(zq::modq(c * a) + z * zq::modq(c * b)) == zq::modq(c * zq::modq(a + z * b)),
        zq::modq(zq::modq(c * a) - z * zq::modq(c * b)) == zq::modq(c * zq::modq(a - z * b)),
{
    let u = c * a;
    let v = c * (z * b);
    assert(zq::modq(z * zq::modq(c * b)) == zq::modq(v)) by {
        zq::lemma_modq_mul(z, c * b);
        assert(z * (c * b) == v) by (nonlinear_arith)
            requires
                v == c * (z * b),
        ;
    }
    assert(zq::modq(c * zq::modq(a + z * b)) == zq::modq(u + v)) by {
        zq::lemma_modq_mul(c, a + z * b);
        assert(c * (a + z * b) == u + v) by (nonlinear_arith)
            requires
                u == c * a,
                v == c * (z * b),
        ;
    }
    assert(zq::modq(c * zq::modq(a - z * b)) == zq::modq(u - v)) by {
        zq::lemma_modq_mul(c, a - z * b);
        assert(c * (a - z * b) == u - v) by (nonlinear_arith)
            requires
                u == c * a,
                v == c * (z * b),
        ;
    }
}

proof fn lemma_ct_scaled_at(c: int, x: Seq<int>, s: nat, p: int)
    requires
        s < 8,
        0 <= p < 256,
    ensures
        ct(scaled(c, x), stage_len(s as int))[p] == scaled(c, ct(x, stage_len(s as int)))[p],
{
    let len = stage_len(s as int);
    lemma_positions(s, p);
    let z = zeta_fwd(twiddle_index(p, len));
    if is_first(p, len) {
        lemma_butterfly_scaled(c, z, x[p], x[p + len]);
    } else {
        lemma_butterfly_scaled(c, z, x[p - len], x[p]);
    }
}

proof fn lemma_ct_scaled(c: int, x: Seq<int>, s: nat)
    requires
        s < 8,
    ensures
        ct(scaled(c, x), stage_len(s as int)) == scaled(c, ct(x, stage_len(s as int))),
{
    let l = ct(scaled(c, x), stage_len(s as int));
    let r = scaled(c, ct(x, stage_len(s as int)));
    assert forall|p: int| 0 <= p < 256 implies l[p] == r[p] by {
        lemma_ct_scaled_at(c, x, s, p);
    }
    assert(l =~= r);
}

proof fn lemma_half_sums(a: int, b: int, m: int)
    requires
        zq::congruent(m, a - b),
    ensures
        zq::modq(zq::modq(a + b) + m) == zq::modq(2 * a),
        zq::modq(zq::modq(a + b) - m) == zq::modq(2 * b),
{
}

proof fn lemma_sum_difference(a: int, w: int)
    ensures
        zq::modq(zq::modq(a + w) + zq::modq(a - w)) == zq::modq(2 * a),
        zq::modq(zq::modq(a + w) - zq::modq(a - w)) == zq::modq(2 * w),
{
}

proof fn lemma_butterfly_inverse(z: int, y: int, a: int, b: int)
    requires
        zq::modq(z * y) == 1,
    ensures
        zq::modq(zq::modq(a + b) + z * zq::modq(y * (a - b))) == zq::modq(2 * a),
        zq::modq(zq::modq(a + b) - z * zq::modq(y * (a - b))) == zq::modq(2 * b),
        zq::modq(zq::modq(a + z * b) + zq::modq(a - z * b)) == zq::modq(2 * a),
        zq::modq(y * (zq::modq(a + z * b) - zq::modq(a - z * b))) == zq::modq(2 * b),
{
    let t = y * (a - b);
    assert(zq::modq(z * zq::modq(t)) == zq::modq(a - b)) by {
        zq::lemma_modq_mul(z, t);
        assert(z * t == (z * y) * (a - b)) by (nonlinear_arith)
            requires
                t == y * (a - b),
        ;
        zq::lemma_modq_mul(z * y, a - b);
    }
    lemma_half_sums(a, b, z * zq::modq(t));
    let w = z * b;
    let d = zq::modq(a + w) - zq::modq(a - w);
    lemma_sum_difference(a, w);
    assert(zq::modq(y * d) == zq::modq(2 * b)) by {
        zq::lemma_modq_mul(y, d);
        zq::lemma_modq_mul(y, 2 * w);
        assert(y * (2 * w) == (z * y) * (2 * b)) by (nonlinear_arith)
            requires
                w == z * b,
        ;
        zq::lemma_modq_mul(z * y, 2 * b);
    }
}

proof fn lemma_ct_gs_at(x: Seq<int>, s: nat, p: int)
    requires
        s < 8,
        0 <= p < 256,
    ensures
        ct(gs(x, stage_len(s as int)), stage_len(s as int))[p] == zq::modq(2 * x[p]),
        gs(ct(x, stage_len(s as int)), stage_len(s as int))[p] == zq::modq(2 * x[p]),
{
    let len = stage_len(s as int);
    lemma_positions(s, p);
    let k = twiddle_index(p, len);
    let z = zeta_fwd(k);
    let y = zeta_inv(k);
    lemma_zetas_inverse(k);
    if is_first(p, len) {
        lemma_butterfly_inverse(z, y, x[p], x[p + len]);
    } else {
        lemma_butterfly_inverse(z, y, x[p - len], x[p]);
    }
}

/// Forward and inverse stages undo each other up to a factor of two.
proof fn lemma_ct_gs(x: Seq<int>, s: nat)
    requires
        s < 8,
    ensures
        ct(gs(x, stage_len(s as int)), stage_len(s as int)) == scaled(2, x),
        gs(ct(x, stage_len(s as int)), stage_len(s as int)) == scaled(2, x),
{
    let len = stage_len(s as int);
    assert forall|p: int| 0 <= p < 256 implies ct(gs(x, len), len)[p] == scaled(2, x)[p]
        && gs(ct(x, len), len)[p] == scaled(2, x)[p] by {
        lemma_ct_gs_at(x, s, p);
    }
    assert(ct(gs(x, len), len) =~= scaled(2, x));
    assert(gs(ct(x, len), len) =~= scaled(2, x));
}

/// `g` after the inverse butterflies of the stages 7 down to `s`.
pub open spec fn unwound(g: Seq<int>, s: nat) -> Seq<int>
    decreases 8 - s,
{
    if s >= 8 {
        g
    } else {
        gs(unwound(g, s + 1), stage_len(s as int))
    }
}

/// The factor that is left after `s` forward stages on an unwound vector.
proof fn lemma_rewind(g: Seq<int>, f: Seq<int>, s: nat)
    requires
        is_elem(f),
        f == scaled(N_INV as int, unwound(g, 0)),
        s <= 8,
    ensures
        stage_values(f, s) == scaled(pow2(s) * N_INV, unwound(g, s)),
    decreases s,
{
    lemma2_to64();
    lemma_stage_ends(f);
    if s > 0 {
        let t = (s - 1) as nat;
        lemma_rewind(g, f, t);
        lemma_stage_step(f, t);
        let c = (pow2(t) * N_INV) as int;
        lemma_ct_scaled(c, unwound(g, t), t);
        let y = unwound(g, s);
        assert(unwound(g, t) == gs(y, stage_len(t as int)));
        lemma_ct_gs(y, t);
        lemma_pow2_unfold(s);
        assert(c * 2 == pow2(s) * N_INV) by (nonlinear_arith)
            requires
                c == pow2(t) * N_INV,
                pow2(s) == 2 * pow2(t),
        ;
        assert forall|p: int| 0 <= p < 256 implies scaled(c, scaled(2, y))[p] == scaled(
            pow2(s) * N_INV,
            y,
        )[p] by {
            zq::lemma_modq_mul(c, 2 * y[p]);
            assert(c * (2 * y[p]) == (c * 2) * y[p]) by (nonlinear_arith);
        }
        assert(scaled(c, scaled(2, y)) =~= scaled(pow2(s) * N_INV, y));
    } else {
        assert(1 * N_INV == N_INV);
    }
}

/// Unwinding all stages and dividing by 256 yields a vector with transform `g`.
pub proof fn lemma_unwound(g: Seq<int>)
    requires
        is_elem(g),
    ensures
        ({
            let f = scaled(N_INV as int, unwound(g, 0));
            is_elem(f) && ntt_of(f) == g
        }),
{
    let f = scaled(N_INV as int, unwound(g, 0));
    assert(is_elem(f));
    lemma_rewind(g, f, 8);
    lemma_stage_ends(f);
    lemma2_to64();
    assert forall|p: int| 0 <= p < 256 implies scaled(256 * N_INV, g)[p] == g[p] by {
        zq::lemma_modq_mul(256 * N_INV, g[p]);
        assert(1 * g[p] == g[p]);
    }
    assert(scaled(256 * N_INV, g) =~= g);
}

proof fn lemma_stage_injective(a: Seq<int>, b: Seq<int>, s: nat)
    requires
        s < 8,
        stage_values(a, s + 1) == stage_values(b, s + 1),
    ensures
        stage_values(a, s) == stage_values(b, s),
{
    lemma_stage_step(a, s);
    lemma_stage_step(b, s);
    let x = stage_values(a, s);
    let y = stage_values(b, s);
    lemma_ct_gs(x, s);
    lemma_ct_gs(y, s);
    assert(scaled(2, x) == scaled(2, y));
    assert forall|p: int| 0 <= p < 256 implies x[p] == y[p] by {
        assert(scaled(2, x)[p] == scaled(2, y)[p]);
        assert(zq::modq(2 * x[p]) == zq::modq(2 * y[p]));
    }
    assert(x =~= y);
}

/// The transform is injective on vectors of residues.
pub proof fn lemma_ntt_injective(a: Seq<int>, b: Seq<int>)
    requires
        is_elem(a),
        is_elem(b),
        ntt_of(a) == ntt_of(b),
    ensures
        a == b,
{
    lemma_stage_ends(a);
    lemma_stage_ends(b);
    lemma_stage_injective(a, b, 7);
    lemma_stage_injective(a, b, 6);
    lemma_stage_injective(a, b, 5);
    lemma_stage_injective(a, b, 4);
    lemma_stage_injective(a, b, 3);
    lemma_stage_injective(a, b, 2);
    lemma_stage_injective(a, b, 1);
    lemma_stage_injective(a, b, 0);
}

/// The inverse transform undoes the transform.
pub proof fn lemma_intt_of_ntt(f: Seq<int>)
    requires
        is_elem(f),
    ensures
        intt_of(ntt_of(f)) == f,
{
    let h = intt_of(ntt_of(f));
    assert(is_elem(f) && ntt_of(f) == ntt_of(f));
    assert(is_elem(h) && ntt_of(h) == ntt_of(f));
    lemma_ntt_injective(h, f);
}

/// The transform undoes the inverse transform.
pub proof fn lemma_ntt_of_intt(g: Seq<int>)
    requires
        is_elem(g),
    ensures
        is_elem(intt_of(g)),
        ntt_of(intt_of(g)) == g,
{
    lemma_unwound(g);
    let f = scaled(N_INV as int, unwound(g, 0));
    assert(is_elem(f) && ntt_of(f) == g);
}

} // verus!
