//! What the samplers compute from a stream of bytes.
use crate::mldsa::bits;
use crate::mldsa::field;
use crate::mldsa::params::{Q, TAU};
use crate::mldsa::ring;
use crate::mldsa::transform;
use crate::mldsa::zq;
use vstd::prelude::*;

verus! {

/// The 23-bit number in bytes `3t`, `3t + 1` and `3t + 2`.
pub open spec fn triple(bytes: Seq<u8>, t: int) -> int {
    bytes[3 * t] + 256 * bytes[3 * t + 1] + 65536 * (bytes[3 * t + 2] as int % 128)
}

/// The residues among the first `t` numbers: those below `Q`, in order.
pub open spec fn accepted(bytes: Seq<u8>, t: nat) -> Seq<int>
    decreases t,
{
    if t == 0 {
        seq![]
    } else if triple(bytes, t - 1) < Q {
        accepted(bytes, (t - 1) as nat).push(triple(bytes, t - 1))
    } else {
        accepted(bytes, (t - 1) as nat)
    }
}

/// The numbers below `Q` depend on the bytes that they are made of alone.
pub proof fn lemma_accepted_prefix(a: Seq<u8>, b: Seq<u8>, t: nat)
    requires
        3 * t <= a.len(),
        3 * t <= b.len(),
        forall|i: int| 0 <= i < 3 * t ==> a[i] == b[i],
    ensures
        accepted(a, t) == accepted(b, t),
    decreases t,
{
    if t > 0 {
        lemma_accepted_prefix(a, b, (t - 1) as nat);
    }
}

/// Later numbers only add to the earlier ones.
pub proof fn lemma_accepted_grows(bytes: Seq<u8>, s: nat, t: nat)
    requires
        s <= t,
    ensures
        accepted(bytes, s).len() <= accepted(bytes, t).len(),
        accepted(bytes, s) == accepted(bytes, t).subrange(0, accepted(bytes, s).len() as int),
    decreases t,
{
    if s < t {
        lemma_accepted_grows(bytes, s, (t - 1) as nat);
    }
    assert(accepted(bytes, s) =~= accepted(bytes, t).subrange(
        0,
        accepted(bytes, s).len() as int,
    ));
}

/// All accepted numbers are residues.
pub proof fn lemma_accepted_residues(bytes: Seq<u8>, t: nat)
    ensures
        forall|i: int|
            0 <= i < accepted(bytes, t).len() ==> field::in_field(
                #[trigger] accepted(bytes, t)[i],
            ),
    decreases t,
{
    if t > 0 {
        let prev = accepted(bytes, (t - 1) as nat);
        lemma_accepted_residues(bytes, (t - 1) as nat);
        assert forall|i: int| 0 <= i < accepted(bytes, t).len() implies field::in_field(
            #[trigger] accepted(bytes, t)[i],
        ) by {
            if i < prev.len() {
                assert(accepted(bytes, t)[i] == prev[i]);
            }
        }
    }
}

/// A challenge under construction: the next place and the coefficients so far.
pub struct Ball {
    pub next: int,
    pub coeffs: Seq<int>,
}

/// The challenge before any place is drawn.
pub open spec fn ball_start() -> Ball {
    Ball { next: 256 - TAU, coeffs: ring::ring_zero() }
}

/// The `k`-th sign, `1` or `-1`, from the first eight bytes.
pub open spec fn ball_sign(bytes: Seq<u8>, k: int) -> int {
    1 - 2 * bits::bit_at(bytes, k)
}

/// One draw: a byte above the next place is rejected; another one's coefficient
/// moves to the next place and gives way to a new sign.
pub open spec fn ball_step(bytes: Seq<u8>, b: Ball, draw: int) -> Ball {
    if b.next >= 256 || draw > b.next {
        b
    } else {
        Ball {
            next: b.next + 1,
            coeffs: b.coeffs.update(b.next, b.coeffs[draw]).update(
                draw,
                ball_sign(bytes, b.next - (256 - TAU)),
            ),
        }
    }
}

/// The challenge after `m` draws, from the bytes behind the first eight.
pub open spec fn ball_after(bytes: Seq<u8>, m: nat) -> Ball
    decreases m,
{
    if m == 0 {
        ball_start()
    } else {
        ball_step(bytes, ball_after(bytes, (m - 1) as nat), bytes[8 + m - 1] as int)
    }
}

/// The residues of a finished challenge.
pub open spec fn ball_residues(b: Ball) -> Seq<int> {
    Seq::new(256, |i: int| zq::modq(b.coeffs[i]))
}

/// A challenge depends on the bytes drawn alone.
pub proof fn lemma_ball_prefix(a: Seq<u8>, b: Seq<u8>, m: nat)
    requires
        8 + m <= a.len(),
        8 + m <= b.len(),
        forall|i: int| 0 <= i < 8 + m ==> a[i] == b[i],
    ensures
        ball_after(a, m) == ball_after(b, m),
    decreases m,
{
    if m > 0 {
        lemma_ball_prefix(a, b, (m - 1) as nat);
        lemma_ball_shape(a, (m - 1) as nat);
        let k = ball_after(a, (m - 1) as nat).next - (256 - TAU);
        if k < TAU {
            assert(0 <= k / 8 < 8);
            assert(bits::bit_at(a, k) == bits::bit_at(b, k));
        }
    }
}

/// A finished challenge is not changed by further draws.
pub proof fn lemma_ball_done(bytes: Seq<u8>, m: nat, n: nat)
    requires
        m <= n,
        ball_after(bytes, m).next >= 256,
    ensures
        ball_after(bytes, n) == ball_after(bytes, m),
    decreases n,
{
    if m < n {
        lemma_ball_done(bytes, m, (n - 1) as nat);
    }
}

/// The number of non-zero entries among the first `n`.
pub open spec fn nonzeros(c: Seq<int>, n: nat) -> nat
    decreases n,
{
    if n == 0 {
        0
    } else {
        nonzeros(c, (n - 1) as nat) + (if c[n - 1] != 0 {
            1nat
        } else {
            0nat
        })
    }
}

proof fn lemma_nonzeros_update(c: Seq<int>, j: int, x: int, n: nat)
    requires
        0 <= j < c.len(),
        n <= c.len(),
    ensures
        nonzeros(c.update(j, x), n) + (if j < n && c[j] != 0 {
            1nat
        } else {
            0nat
        }) == nonzeros(c, n) + (if j < n && x != 0 {
            1nat
        } else {
            0nat
        }),
    decreases n,
{
    if n > 0 {
        lemma_nonzeros_update(c, j, x, (n - 1) as nat);
    }
}

proof fn lemma_nonzeros_zero(c: Seq<int>, n: nat)
    requires
        n <= c.len(),
        forall|i: int| 0 <= i < n ==> #[trigger] c[i] == 0,
    ensures
        nonzeros(c, n) == 0,
    decreases n,
{
    if n > 0 {
        lemma_nonzeros_zero(c, (n - 1) as nat);
    }
}

/// Whether a challenge under construction holds as many signs as places are drawn.
pub open spec fn ball_wf(b: Ball) -> bool {
    &&& 256 - TAU <= b.next <= 256
    &&& b.coeffs.len() == 256
    &&& forall|i: int| 0 <= i < 256 ==> -1 <= #[trigger] b.coeffs[i] <= 1
    &&& forall|i: int| b.next <= i < 256 ==> #[trigger] b.coeffs[i] == 0
    &&& nonzeros(b.coeffs, 256) == b.next - (256 - TAU)
}

pub proof fn lemma_ball_shape(bytes: Seq<u8>, m: nat)
    ensures
        ball_wf(ball_after(bytes, m)),
    decreases m,
{
    if m == 0 {
        lemma_nonzeros_zero(ball_start().coeffs, 256);
    } else {
        lemma_ball_shape(bytes, (m - 1) as nat);
        let b = ball_after(bytes, (m - 1) as nat);
        let draw = bytes[8 + m - 1] as int;
        if b.next < 256 && draw <= b.next {
            let s = ball_sign(bytes, b.next - (256 - TAU));
            bits::lemma_bit_at_range(bytes, b.next - (256 - TAU));
            let c1 = b.coeffs.update(b.next, b.coeffs[draw]);
            lemma_nonzeros_update(b.coeffs, b.next, b.coeffs[draw], 256);
            lemma_nonzeros_update(c1, draw, s, 256);
        }
    }
}

proof fn lemma_nonzeros_residues(c: Seq<int>, r: Seq<int>, n: nat)
    requires
        n <= c.len(),
        n <= r.len(),
        forall|i: int| 0 <= i < n ==> -1 <= #[trigger] c[i] <= 1 && r[i] == zq::modq(c[i]),
    ensures
        nonzeros(r, n) == nonzeros(c, n),
    decreases n,
{
    if n > 0 {
        lemma_nonzeros_residues(c, r, (n - 1) as nat);
        assert(-1 <= c[n - 1] <= 1 && r[n - 1] == zq::modq(c[n - 1]));
    }
}

/// A finished challenge has exactly `TAU` non-zero coefficients, each `1` or `-1`.
pub proof fn lemma_ball_residues(bytes: Seq<u8>, m: nat)
    requires
        ball_after(bytes, m).next >= 256,
    ensures
        ({
            let r = ball_residues(ball_after(bytes, m));
            &&& transform::is_elem(r)
            &&& nonzeros(r, 256) == TAU
            &&& forall|i: int|
                0 <= i < 256 ==> #[trigger] r[i] == 0 || r[i] == 1 || r[i] == Q - 1
        }),
{
    lemma_ball_shape(bytes, m);
    let b = ball_after(bytes, m);
    let r = ball_residues(b);
    assert forall|i: int| 0 <= i < 256 implies #[trigger] r[i] == 0 || r[i] == 1 || r[i] == Q
        - 1 by {
        assert(-1 <= b.coeffs[i] <= 1);
    }
    lemma_nonzeros_residues(b.coeffs, r, 256);
}

} // verus!
