//! The samplers and hashes that draw on SHAKE-128 and SHAKE-256.
use crate::bytes;
use crate::mldsa::bits;
use crate::mldsa::params::{K, L, N, Q, TAU};
use crate::mldsa::poly::{NTTPoly, Poly};
use crate::mldsa::polyvec;
use crate::mldsa::polyvec::{NTTMatrix, NTTPolyVec};
use crate::mldsa::sampling;
use crate::mldsa::transform;
use crate::mldsa::zq;
use sha3::digest::{ExtendableOutput, Update, XofReader};
use sha3::{Shake128, Shake256};
use vstd::arithmetic::power2::*;
use vstd::prelude::*;

verus! {

/// Byte `i` of the output stream of SHAKE-128 on `data`.
pub uninterp spec fn shake128_byte(data: Seq<u8>, i: int) -> u8;

/// Byte `i` of the output stream of SHAKE-256 on `data`.
pub uninterp spec fn shake256_byte(data: Seq<u8>, i: int) -> u8;

/// The first `n` bytes of the output stream of SHAKE-128 on `data`.
pub open spec fn shake128_stream(data: Seq<u8>, n: nat) -> Seq<u8> {
    Seq::new(n, |i: int| shake128_byte(data, i))
}

/// The first `n` bytes of the output stream of SHAKE-256 on `data`.
pub open spec fn shake256_stream(data: Seq<u8>, n: nat) -> Seq<u8> {
    Seq::new(n, |i: int| shake256_byte(data, i))
}

/// `sha3::Shake128`: absorbs `data` in one piece and reads `n` bytes. Believed of it:
/// the bytes are a function of `data`, and a longer read of the same `data` begins
/// with the bytes of a shorter one.
#[verifier::external_body]
fn shake128(data: &[u8], n: usize) -> (out: Vec<u8>)
    requires
        n <= isize::MAX,
    ensures
        out@ == Seq::new(n as nat, |i: int| shake128_byte(data@, i)),
{
    let mut hasher = Shake128::default();
    hasher.update(data);
    let mut out = vec![0u8; n];
    hasher.finalize_xof().read(&mut out);
    out
}

/// `sha3::Shake256`: absorbs `data` in one piece and reads `n` bytes. Believed of it:
/// the bytes are a function of `data`, and a longer read of the same `data` begins
/// with the bytes of a shorter one.
#[verifier::external_body]
fn shake256(data: &[u8], n: usize) -> (out: Vec<u8>)
    requires
        n <= isize::MAX,
    ensures
        out@ == Seq::new(n as nat, |i: int| shake256_byte(data@, i)),
{
    let mut hasher = Shake256::default();
    hasher.update(data);
    let mut out = vec![0u8; n];
    hasher.finalize_xof().read(&mut out);
    out
}

/// Bytes by which the samplers extend a stream that was too short.
const STREAM_STEP: usize = 840;

/// Bytes after which the checked samplers give up.
pub const STREAM_LIMIT: usize = 8400;

/// Whether 256 of the first `t` numbers in the stream for `seed` are residues.
pub open spec fn rej_ready(seed: Seq<u8>, t: nat) -> bool {
    sampling::accepted(shake128_stream(seed, 3 * t), t).len() >= 256
}

/// Whether the stream for `seed` yields 256 residues before its length exceeds what
/// memory can hold.
pub open spec fn rej_terminates(seed: Seq<u8>) -> bool {
    exists|t: nat| #[trigger] rej_ready(seed, t) && 3 * t + 840 <= isize::MAX
}

/// The first 256 residues in the stream for `seed`.
pub open spec fn rej_poly(seed: Seq<u8>) -> Seq<int> {
    let t = choose|t: nat| #[trigger] rej_ready(seed, t);
    sampling::accepted(shake128_stream(seed, 3 * t), t).subrange(0, 256)
}

/// Any stretch of the stream with 256 residues gives the same ones.
pub proof fn lemma_rej_poly(seed: Seq<u8>, t: nat)
    requires
        rej_ready(seed, t),
    ensures
        rej_poly(seed) == sampling::accepted(shake128_stream(seed, 3 * t), t).subrange(0, 256),
        transform::is_elem(rej_poly(seed)),
{
    let u = choose|u: nat| #[trigger] rej_ready(seed, u);
    let (lo, hi) = if t <= u {
        (t, u)
    } else {
        (u, t)
    };
    let long = shake128_stream(seed, 3 * hi);
    sampling::lemma_accepted_prefix(shake128_stream(seed, 3 * lo), long, lo);
    sampling::lemma_accepted_grows(long, lo, hi);
    sampling::lemma_accepted_residues(shake128_stream(seed, 3 * t), t);
    let a = sampling::accepted(long, lo);
    let b = sampling::accepted(long, hi);
    assert(a.subrange(0, 256) =~= b.subrange(0, 256));
    assert forall|i: int| 0 <= i < 256 implies crate::mldsa::field::in_field(
        #[trigger] rej_poly(seed)[i],
    ) by {
        let c = sampling::accepted(shake128_stream(seed, 3 * t), t);
        assert(c.subrange(0, 256)[i] == c[i]);
    }
}

/// The first 256 residues among the numbers in `stream`, if there are as many.
pub fn rej_ntt_from(stream: &[u8]) -> (res: Option<[i64; N]>)
    ensures
        match res {
            Some(c) => {
                &&& sampling::accepted(stream@, stream@.len() / 3).len() >= 256
                &&& transform::ints(c@) == sampling::accepted(
                    stream@,
                    stream@.len() / 3,
                ).subrange(0, 256)
            },
            None => sampling::accepted(stream@, stream@.len() / 3).len() < 256,
        },
{
    let mut coeffs: [i64; 256] = [0i64; 256];
    let mut j: usize = 0;
    let mut t: usize = 0;
    let len: usize = stream.len();
    let total: usize = len / 3;
    while t < total
        invariant
            t <= total,
            len == stream@.len(),
            total == len / 3,
            j < 256,
            sampling::accepted(stream@, t as nat).len() == j,
            forall|i: int|
                0 <= i < j ==> #[trigger] coeffs[i] == sampling::accepted(stream@, t as nat)[i],
        decreases total - t,
    {
        let b2: u8 = stream[3 * t + 2];
        proof {
            assert(b2 & 0x7f == b2 % 128) by (bit_vector);
        }
        let z: i64 = stream[3 * t] as i64 + 256 * (stream[3 * t + 1] as i64) + 65536 * ((b2
            & 0x7f) as i64);
        let ghost old = sampling::accepted(stream@, t as nat);
        proof {
            assert(z == sampling::triple(stream@, t as int));
        }
        if z < Q {
            coeffs[j] = z;
            j = j + 1;
            if j == 256 {
                proof {
                    let now = sampling::accepted(stream@, (t + 1) as nat);
                    let all = sampling::accepted(stream@, total as nat);
                    sampling::lemma_accepted_grows(stream@, (t + 1) as nat, total as nat);
                    assert(now == old.push(z as int));
                    assert(transform::ints(coeffs@) =~= all.subrange(0, 256));
                }
                return Some(coeffs);
            }
        }
        t = t + 1;
    }
    None
}

/// The first 256 residues in the stream for `seed`.
pub fn rej_ntt_poly(seed: &[u8]) -> (c: [i64; N])
    requires
        rej_terminates(seed@),
    ensures
        transform::ints(c@) == rej_poly(seed@),
        transform::is_elem(transform::ints(c@)),
{
    let ghost goal = choose|t: nat|
        #[trigger] rej_ready(seed@, t) && 3 * t + 840 <= isize::MAX;
    let mut n: usize = STREAM_STEP;
    loop
        invariant
            rej_ready(seed@, goal),
            3 * goal + 840 <= isize::MAX,
            n % 3 == 0,
            840 <= n <= isize::MAX,
        decreases 3 * goal + 840 - n,
    {
        let stream: Vec<u8> = shake128(seed, n);
        let ghost t = (n / 3) as nat;
        proof {
            assert(3 * t == n);
        }
        match rej_ntt_from(stream.as_slice()) {
            Some(c) => {
                proof {
                    assert(rej_ready(seed@, t));
                    lemma_rej_poly(seed@, t);
                }
                return c;
            },
            None => {
                proof {
                    if t >= goal {
                        sampling::lemma_accepted_prefix(
                            shake128_stream(seed@, 3 * goal),
                            stream@,
                            goal,
                        );
                        sampling::lemma_accepted_grows(stream@, goal, t);
                    }
                }
                n = n + STREAM_STEP;
            },
        }
    }
}

/// Whether `rej_ntt_poly` finds its residues within `STREAM_LIMIT` bytes.
pub fn rej_within_limit(seed: &[u8]) -> (r: bool)
    ensures
        r == rej_ready(seed@, (STREAM_LIMIT / 3) as nat),
        r ==> rej_terminates(seed@),
{
    let stream: Vec<u8> = shake128(seed, STREAM_LIMIT);
    let r: bool = rej_ntt_from(stream.as_slice()).is_some();
    proof {
        assert((STREAM_LIMIT / 3) as nat == 2800);
        assert(r == rej_ready(seed@, 2800));
    }
    r
}

/// The seed of the matrix entry in row `i` and column `j`.
pub open spec fn entry_seed(rho: Seq<u8>, i: int, j: int) -> Seq<u8> {
    rho + seq![j as u8, i as u8]
}

/// Whether every entry of the matrix can be sampled.
pub open spec fn matrix_terminates(rho: Seq<u8>) -> bool {
    forall|i: int, j: int|
        0 <= i < K && 0 <= j < L ==> rej_terminates(#[trigger] entry_seed(rho, i, j))
}

/// Whether every entry of the matrix can be sampled within `STREAM_LIMIT` bytes.
pub open spec fn matrix_within_limit(rho: Seq<u8>) -> bool {
    forall|i: int, j: int|
        0 <= i < K && 0 <= j < L ==> rej_ready(
            #[trigger] entry_seed(rho, i, j),
            (STREAM_LIMIT / 3) as nat,
        )
}

/// The public matrix for the seed `rho`, as transforms.
pub open spec fn matrix_of(rho: Seq<u8>) -> Seq<Seq<Seq<int>>> {
    Seq::new(
        K as nat,
        |i: int| Seq::new(L as nat, |j: int| rej_poly(entry_seed(rho, i, j))),
    )
}

fn entry_seed_bytes(rho: &[u8; 32], i: usize, j: usize) -> (seed: Vec<u8>)
    requires
        i < K,
        j < L,
    ensures
        seed@ == entry_seed(rho@, i as int, j as int),
{
    let mut seed: Vec<u8> = bytes::to_vec(rho.as_slice());
    seed.push(j as u8);
    seed.push(i as u8);
    proof {
        assert(seed@ =~= entry_seed(rho@, i as int, j as int));
    }
    seed
}

/// Expands the public matrix from the seed `rho`.
pub fn expand_a(rho: &[u8; 32]) -> (a: NTTMatrix)
    requires
        matrix_terminates(rho@),
    ensures
        a@ == matrix_of(rho@),
        a@.len() == K,
        polyvec::is_matrix(a@, L as nat),
{
    let mut rows: Vec<NTTPolyVec> = Vec::new();
    let mut i: usize = 0;
    while i < K
        invariant
            i <= K,
            matrix_terminates(rho@),
            rows.len() == i,
            forall|r: int|
                0 <= r < i ==> (#[trigger] rows[r])@ == matrix_of(rho@)[r] && rows[r].wf(),
        decreases K - i,
    {
        let mut cols: Vec<NTTPoly> = Vec::new();
        let mut j: usize = 0;
        while j < L
            invariant
                i < K,
                j <= L,
                matrix_terminates(rho@),
                cols.len() == j,
                forall|c: int|
                    0 <= c < j ==> (#[trigger] cols[c])@ == rej_poly(
                        entry_seed(rho@, i as int, c),
                    ) && cols[c].wf(),
            decreases L - j,
        {
            let seed: Vec<u8> = entry_seed_bytes(rho, i, j);
            let coeffs: [i64; N] = rej_ntt_poly(seed.as_slice());
            cols.push(NTTPoly { coeffs });
            j = j + 1;
        }
        let row = NTTPolyVec(cols);
        proof {
            assert(row@ =~= matrix_of(rho@)[i as int]);
        }
        rows.push(row);
        i = i + 1;
    }
    let a = NTTMatrix { rows };
    proof {
        assert(a@ =~= matrix_of(rho@));
        assert forall|r: int| 0 <= r < a@.len() implies (#[trigger] a@[r]).len() == L
            && polyvec::all_elems(a@[r]) by {
            assert(rows[r]@ == matrix_of(rho@)[r]);
        }
    }
    a
}

/// `expand_a` where every entry is found within `STREAM_LIMIT` bytes.
pub fn try_expand_a(rho: &[u8; 32]) -> (res: Option<NTTMatrix>)
    ensures
        res is Some <==> matrix_within_limit(rho@),
        res matches Some(a) ==> a@ == matrix_of(rho@) && polyvec::is_matrix(a@, L as nat),
{
    if matrix_fits(rho) {
        Some(expand_a(rho))
    } else {
        None
    }
}

/// Whether every matrix entry is found within `STREAM_LIMIT` bytes.
pub fn matrix_fits(rho: &[u8; 32]) -> (r: bool)
    ensures
        r == matrix_within_limit(rho@),
        r ==> matrix_terminates(rho@),
{
    let mut i: usize = 0;
    while i < K
        invariant
            i <= K,
            forall|p: int, q: int|
                0 <= p < i && 0 <= q < L ==> {
                    &&& rej_ready(#[trigger] entry_seed(rho@, p, q), (STREAM_LIMIT / 3) as nat)
                    &&& rej_terminates(entry_seed(rho@, p, q))
                },
        decreases K - i,
    {
        let mut j: usize = 0;
        while j < L
            invariant
                i < K,
                j <= L,
                forall|p: int, q: int|
                    0 <= p < i && 0 <= q < L || p == i && 0 <= q < j ==> {
                        &&& rej_ready(
                            #[trigger] entry_seed(rho@, p, q),
                            (STREAM_LIMIT / 3) as nat,
                        )
                        &&& rej_terminates(entry_seed(rho@, p, q))
                    },
            decreases L - j,
        {
            let seed: Vec<u8> = entry_seed_bytes(rho, i, j);
            if !rej_within_limit(seed.as_slice()) {
                proof {
                    assert(!rej_ready(
                        entry_seed(rho@, i as int, j as int),
                        (STREAM_LIMIT / 3) as nat,
                    ));
                }
                return false;
            }
            j = j + 1;
        }
        i = i + 1;
    }
    true
}

/// Whether `m` draws from the stream for `seed` finish a challenge.
pub open spec fn ball_ready(seed: Seq<u8>, m: nat) -> bool {
    sampling::ball_after(shake256_stream(seed, 8 + m), m).next >= 256
}

/// Whether the stream for `seed` finishes a challenge before its length exceeds what
/// memory can hold.
pub open spec fn ball_terminates(seed: Seq<u8>) -> bool {
    exists|m: nat| #[trigger] ball_ready(seed, m) && m + 848 <= isize::MAX
}

/// The challenge for `seed`.
pub open spec fn ball_poly(seed: Seq<u8>) -> Seq<int> {
    let m = choose|m: nat| #[trigger] ball_ready(seed, m);
    sampling::ball_residues(sampling::ball_after(shake256_stream(seed, 8 + m), m))
}

/// Any number of draws that finishes the challenge gives the same one.
pub proof fn lemma_ball_poly(seed: Seq<u8>, m: nat)
    requires
        ball_ready(seed, m),
    ensures
        ball_poly(seed) == sampling::ball_residues(
            sampling::ball_after(shake256_stream(seed, 8 + m), m),
        ),
{
    let u = choose|u: nat| #[trigger] ball_ready(seed, u);
    let (lo, hi) = if m <= u {
        (m, u)
    } else {
        (u, m)
    };
    let long = shake256_stream(seed, 8 + hi);
    sampling::lemma_ball_prefix(shake256_stream(seed, 8 + lo), long, lo);
    sampling::lemma_ball_done(long, lo, hi);
}

/// The challenge has exactly `TAU` non-zero coefficients, each `1` or `-1`.
pub proof fn lemma_ball_weight(seed: Seq<u8>)
    requires
        ball_terminates(seed),
    ensures
        transform::is_elem(ball_poly(seed)),
        sampling::nonzeros(ball_poly(seed), 256) == TAU,
        forall|i: int|
            0 <= i < 256 ==> #[trigger] ball_poly(seed)[i] == 0 || ball_poly(seed)[i] == 1
                || ball_poly(seed)[i] == Q - 1,
{
    let m = choose|m: nat| #[trigger] ball_ready(seed, m) && m + 848 <= isize::MAX;
    lemma_ball_poly(seed, m);
    sampling::lemma_ball_residues(shake256_stream(seed, 8 + m), m);
}

/// The challenge drawn from `stream`, if the stream is long enough to finish it.
pub fn ball_from(stream: &[u8]) -> (res: Option<Poly>)
    requires
        stream@.len() >= 8,
    ensures
        match res {
            Some(c) => {
                &&& sampling::ball_after(stream@, (stream@.len() - 8) as nat).next >= 256
                &&& c@ == sampling::ball_residues(
                    sampling::ball_after(stream@, (stream@.len() - 8) as nat),
                )
            },
            None => sampling::ball_after(stream@, (stream@.len() - 8) as nat).next < 256,
        },
{
    let mut c: [i64; 256] = [0i64; 256];
    let mut i: usize = 207;
    let mut p: usize = 8;
    let mut sign: usize = 0;
    proof {
        assert(transform::ints(c@) =~= sampling::ball_start().coeffs);
        sampling::lemma_ball_shape(stream@, 0);
    }
    while p < stream.len() && i < 256
        invariant
            8 <= p <= stream@.len(),
            207 <= i <= 256,
            sign == i - 207,
            ({
                let b = sampling::ball_after(stream@, (p - 8) as nat);
                i == b.next && transform::ints(c@) == b.coeffs && sampling::ball_wf(b)
            }),
        decreases stream.len() - p,
    {
        let ghost b = sampling::ball_after(stream@, (p - 8) as nat);
        let draw: usize = stream[p] as usize;
        proof {
            sampling::lemma_ball_shape(stream@, (p - 7) as nat);
        }
        if draw <= i {
            let x: u8 = stream[sign / 8];
            let s: u8 = (sign % 8) as u8;
            proof {
                vstd::bits::lemma_u8_shr_is_div(x, s);
                let y = x >> s;
                assert(y & 1 == y % 2) by (bit_vector);
                assert(y & 1 <= 1) by (bit_vector);
            }
            c[i] = c[draw];
            c[draw] = 1 - 2 * (((x >> s) & 1) as i64);
            proof {
                let n = sampling::ball_step(stream@, b, draw as int);
                assert(bits::bit_at(stream@, sign as int) == ((x >> s) & 1) as int);
                assert(transform::ints(c@) =~= n.coeffs);
            }
            i = i + 1;
            sign = sign + 1;
        }
        p = p + 1;
    }
    if i < 256 {
        return None;
    }
    let ghost b = sampling::ball_after(stream@, (p - 8) as nat);
    proof {
        sampling::lemma_ball_done(stream@, (p - 8) as nat, (stream@.len() - 8) as nat);
    }
    let mut j: usize = 0;
    while j < 256
        invariant
            j <= 256,
            sampling::ball_wf(b),
            forall|k: int| 0 <= k < j ==> #[trigger] c[k] == zq::modq(b.coeffs[k]),
            forall|k: int| j <= k < 256 ==> #[trigger] c[k] == b.coeffs[k],
        decreases 256 - j,
    {
        proof {
            assert(c[j as int] == b.coeffs[j as int]);
        }
        if c[j] < 0 {
            c[j] = c[j] + Q;
        }
        j = j + 1;
    }
    let r = Poly::from_coeffs(c);
    proof {
        assert(r@ =~= sampling::ball_residues(b));
    }
    Some(r)
}

/// Samples the challenge for the seed `c_tilde`.
pub fn sample_in_ball(c_tilde: &[u8]) -> (c: Poly)
    requires
        ball_terminates(c_tilde@),
    ensures
        c@ == ball_poly(c_tilde@),
        c.wf(),
{
    let ghost goal = choose|m: nat|
        #[trigger] ball_ready(c_tilde@, m) && m + 848 <= isize::MAX;
    let mut n: usize = STREAM_STEP;
    loop
        invariant
            ball_terminates(c_tilde@),
            ball_ready(c_tilde@, goal),
            goal + 848 <= isize::MAX,
            840 <= n <= isize::MAX,
        decreases goal + 848 - n,
    {
        let stream: Vec<u8> = shake256(c_tilde, n);
        let ghost m = (n - 8) as nat;
        match ball_from(stream.as_slice()) {
            Some(c) => {
                proof {
                    assert(ball_ready(c_tilde@, m));
                    lemma_ball_poly(c_tilde@, m);
                    lemma_ball_weight(c_tilde@);
                }
                return c;
            },
            None => {
                proof {
                    if m >= goal {
                        sampling::lemma_ball_prefix(
                            shake256_stream(c_tilde@, 8 + goal),
                            stream@,
                            goal,
                        );
                        sampling::lemma_ball_done(stream@, goal, m);
                    }
                }
                n = n + STREAM_STEP;
            },
        }
    }
}

/// Whether `sample_in_ball` finishes within `STREAM_LIMIT` bytes.
pub fn ball_fits(c_tilde: &[u8]) -> (r: bool)
    ensures
        r == ball_ready(c_tilde@, (STREAM_LIMIT - 8) as nat),
        r ==> ball_terminates(c_tilde@),
{
    let stream: Vec<u8> = shake256(c_tilde, STREAM_LIMIT);
    let r: bool = ball_from(stream.as_slice()).is_some();
    proof {
        assert(r == ball_ready(c_tilde@, 8392));
    }
    r
}

/// `sample_in_ball` where it finishes within `STREAM_LIMIT` bytes.
pub fn try_sample_in_ball(c_tilde: &[u8]) -> (res: Option<Poly>)
    ensures
        res is Some <==> ball_ready(c_tilde@, (STREAM_LIMIT - 8) as nat),
        res matches Some(c) ==> c@ == ball_poly(c_tilde@) && c.wf(),
{
    if ball_fits(c_tilde) {
        Some(sample_in_ball(c_tilde))
    } else {
        None
    }
}

/// The 64-byte hash of a public key.
pub open spec fn key_hash(pk: Seq<u8>) -> Seq<u8> {
    shake256_stream(pk, 64)
}

/// The 64-byte representative of a message under the key hash `tr`.
pub open spec fn message_hash(tr: Seq<u8>, msg: Seq<u8>) -> Seq<u8> {
    shake256_stream(tr + msg, 64)
}

/// The commitment hash, `n` bytes long, of a message representative and an encoded `w1`.
pub open spec fn commit_hash(mu: Seq<u8>, w1: Seq<u8>, n: nat) -> Seq<u8> {
    shake256_stream(mu + w1, n)
}

/// A shorter commitment hash is the start of a longer one, and with 64 bytes it is the
/// representative of a message and the hash of the whole input.
pub proof fn lemma_hashes_agree(mu: Seq<u8>, w1: Seq<u8>, n: nat, m: nat)
    requires
        n <= m,
    ensures
        commit_hash(mu, w1, n).len() == n,
        commit_hash(mu, w1, n) == commit_hash(mu, w1, m).subrange(0, n as int),
        commit_hash(mu, w1, 64) == message_hash(mu, w1),
        message_hash(mu, w1) == key_hash(mu + w1),
{
    assert(commit_hash(mu, w1, n) =~= commit_hash(mu, w1, m).subrange(0, n as int));
}

/// The 64-byte hash of a public key.
pub fn hash_pk(pk: &[u8]) -> (tr: [u8; 64])
    ensures
        tr@ == key_hash(pk@),
{
    let out: Vec<u8> = shake256(pk, 64);
    let tr: [u8; 64] = bytes::first_64(out.as_slice());
    proof {
        assert(tr@ =~= shake256_stream(pk@, 64));
    }
    tr
}

/// The 64-byte representative of a message under the key hash `tr`.
pub fn hash_mu(tr: &[u8; 64], msg: &[u8]) -> (mu: [u8; 64])
    ensures
        mu@ == message_hash(tr@, msg@),
{
    let input: Vec<u8> = bytes::concat(tr.as_slice(), msg);
    let out: Vec<u8> = shake256(input.as_slice(), 64);
    let mu: [u8; 64] = bytes::first_64(out.as_slice());
    proof {
        assert(mu@ =~= shake256_stream(tr@ + msg@, 64));
    }
    mu
}

/// The commitment hash of a message representative and an encoded `w1`.
pub fn hash_commit(mu: &[u8; 64], w1_enc: &[u8], out_len: usize) -> (c: Vec<u8>)
    requires
        out_len <= isize::MAX,
    ensures
        c@ == commit_hash(mu@, w1_enc@, out_len as nat),
{
    let input: Vec<u8> = bytes::concat(mu.as_slice(), w1_enc);
    shake256(input.as_slice(), out_len)
}

} // verus!
