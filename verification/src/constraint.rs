//! Constraints on the rows of a trace, as polynomials over the field with 2^31 - 1
//! elements.
use crate::mldsa::bits;
use crate::mldsa::params::Q;
use vstd::arithmetic::div_mod::*;
use vstd::arithmetic::power2::*;
use vstd::prelude::*;

verus! {

/// The number of elements of the field.
pub const P: u32 = 2_147_483_647;

/// Bits of a range decomposition.
pub const N_BITS: usize = 23;

/// One summand of a constraint: a coefficient times one, two or three cells of a row.
#[derive(Clone, Copy, Debug, PartialEq, Eq, Structural)]
pub enum Term {
    Linear { coeff: i64, x: usize },
    Quadratic { coeff: i64, x: usize, y: usize },
    Cubic { coeff: i64, x: usize, y: usize, z: usize },
}

/// The value of a term on a row.
pub open spec fn term_value(t: Term, row: Seq<int>) -> int {
    match t {
        Term::Linear { coeff, x } => coeff * row[x as int],
        Term::Quadratic { coeff, x, y } => coeff * (row[x as int] * row[y as int]),
        Term::Cubic { coeff, x, y, z } => coeff * ((row[x as int] * row[y as int])
            * row[z as int]),
    }
}

/// Whether a term reads cells before `n` only.
pub open spec fn term_fits(t: Term, n: int) -> bool {
    match t {
        Term::Linear { coeff, x } => x < n,
        Term::Quadratic { coeff, x, y } => x < n && y < n,
        Term::Cubic { coeff, x, y, z } => x < n && y < n && z < n,
    }
}

/// The value of the first `n` terms on a row.
pub open spec fn partial_value(ts: Seq<Term>, row: Seq<int>, n: nat) -> int
    decreases n,
{
    if n == 0 {
        0
    } else {
        partial_value(ts, row, (n - 1) as nat) + term_value(ts[n - 1], row)
    }
}

/// The value of a constraint on a row.
pub open spec fn value(ts: Seq<Term>, row: Seq<int>) -> int {
    partial_value(ts, row, ts.len())
}

/// Whether a constraint reads cells before `n` only.
pub open spec fn fits(ts: Seq<Term>, n: int) -> bool {
    forall|i: int| 0 <= i < ts.len() ==> term_fits(#[trigger] ts[i], n)
}

/// The constraints as sequences.
pub open spec fn views(cs: Seq<Vec<Term>>) -> Seq<Seq<Term>> {
    Seq::new(cs.len(), |i: int| cs[i]@)
}

/// The cells of a row as integers.
pub open spec fn cells(row: Seq<u32>) -> Seq<int> {
    Seq::new(row.len(), |i: int| row[i] as int)
}

/// Whether a row meets a constraint.
pub open spec fn holds(ts: Seq<Term>, row: Seq<int>) -> bool {
    value(ts, row) % (P as int) == 0
}

/// Whether a row meets all constraints.
pub open spec fn satisfies(cs: Seq<Seq<Term>>, row: Seq<int>) -> bool {
    forall|i: int| 0 <= i < cs.len() ==> holds(#[trigger] cs[i], row)
}

/// Whether all constraints read cells before `n` only.
pub open spec fn all_fit(cs: Seq<Seq<Term>>, n: int) -> bool {
    forall|i: int| 0 <= i < cs.len() ==> fits(#[trigger] cs[i], n)
}

/// The values of constraints on a row, as field elements.
pub open spec fn residues(cs: Seq<Seq<Term>>, row: Seq<int>) -> Seq<u32> {
    Seq::new(cs.len(), |i: int| (value(cs[i], row) % (P as int)) as u32)
}

/// A row meets all constraints exactly where all their values are zero.
pub proof fn lemma_residues(cs: Seq<Seq<Term>>, row: Seq<int>)
    ensures
        satisfies(cs, row) <==> forall|i: int|
            0 <= i < cs.len() ==> #[trigger] residues(cs, row)[i] == 0,
{
    if satisfies(cs, row) {
        assert forall|i: int| 0 <= i < cs.len() implies #[trigger] residues(cs, row)[i] == 0 by {
            assert(holds(cs[i], row));
        }
    }
    if forall|i: int| 0 <= i < cs.len() ==> #[trigger] residues(cs, row)[i] == 0 {
        assert forall|i: int| 0 <= i < cs.len() implies holds(#[trigger] cs[i], row) by {
            assert(residues(cs, row)[i] == 0);
        }
    }
}

pub proof fn lemma_fit_concat(a: Seq<Seq<Term>>, b: Seq<Seq<Term>>, n: int)
    requires
        all_fit(a, n),
        all_fit(b, n),
    ensures
        all_fit(a + b, n),
{
    assert forall|i: int| 0 <= i < (a + b).len() implies fits(#[trigger] (a + b)[i], n) by {
        if i < a.len() {
            assert((a + b)[i] == a[i]);
        } else {
            assert((a + b)[i] == b[i - a.len()]);
        }
    }
}

pub proof fn lemma_satisfies_concat(a: Seq<Seq<Term>>, b: Seq<Seq<Term>>, row: Seq<int>)
    requires
        satisfies(a, row),
        satisfies(b, row),
    ensures
        satisfies(a + b, row),
{
    assert forall|i: int| 0 <= i < (a + b).len() implies holds(#[trigger] (a + b)[i], row) by {
        if i < a.len() {
            assert((a + b)[i] == a[i]);
        } else {
            assert((a + b)[i] == b[i - a.len()]);
        }
    }
}

fn times(a: u64, b: u32) -> (r: u64)
    requires
        a < P,
    ensures
        r < P,
        r == (a * b) % (P as int),
{
    proof {
        assert(0 <= a * b <= 2147483646 * 4294967295) by (nonlinear_arith)
            requires
                0 <= a <= 2147483646,
                0 <= b <= 4294967295,
        ;
    }
    (a * (b as u64)) % (P as u64)
}

fn residue(c: i64) -> (r: u64)
    ensures
        r < P,
        r == (c as int) % (P as int),
{
    let r: i64 = c % 2147483647;
    if r < 0 {
        (r + 2147483647) as u64
    } else {
        r as u64
    }
}

proof fn lemma_times(c: int, m: int, x: int)
    requires
        m == c % (P as int),
    ensures
        (m * x) % (P as int) == (c * x) % (P as int),
{
    lemma_mul_mod_noop_left(c, x, P as int);
}

fn term_residue(t: &Term, row: &[u32]) -> (r: u64)
    requires
        term_fits(*t, row@.len() as int),
    ensures
        r < P,
        r == term_value(*t, cells(row@)) % (P as int),
{
    match t {
        Term::Linear { coeff, x } => {
            let c: u64 = residue(*coeff);
            proof {
                lemma_times(*coeff as int, c as int, row@[*x as int] as int);
            }
            times(c, row[*x])
        },
        Term::Quadratic { coeff, x, y } => {
            let c: u64 = residue(*coeff);
            let d: u64 = times(c, row[*x]);
            proof {
                let k = *coeff as int;
                let a = row@[*x as int] as int;
                let b = row@[*y as int] as int;
                lemma_times(k, c as int, a);
                lemma_times(k * a, d as int, b);
                assert((k * a) * b == k * (a * b)) by (nonlinear_arith);
            }
            times(d, row[*y])
        },
        Term::Cubic { coeff, x, y, z } => {
            let c: u64 = residue(*coeff);
            let d: u64 = times(c, row[*x]);
            let e: u64 = times(d, row[*y]);
            proof {
                let k = *coeff as int;
                let a = row@[*x as int] as int;
                let b = row@[*y as int] as int;
                let g = row@[*z as int] as int;
                lemma_times(k, c as int, a);
                lemma_times(k * a, d as int, b);
                lemma_times((k * a) * b, e as int, g);
                assert(((k * a) * b) * g == k * ((a * b) * g)) by (nonlinear_arith);
            }
            times(e, row[*z])
        },
    }
}

/// The value of a constraint on a row, as a field element.
pub fn constraint_residue(ts: &Vec<Term>, row: &[u32]) -> (r: u32)
    requires
        fits(ts@, row@.len() as int),
    ensures
        r == value(ts@, cells(row@)) % (P as int),
{
    let mut acc: u64 = 0;
    let mut i: usize = 0;
    while i < ts.len()
        invariant
            i <= ts.len(),
            fits(ts@, row@.len() as int),
            acc < P,
            acc == partial_value(ts@, cells(row@), i as nat) % (P as int),
        decreases ts.len() - i,
    {
        let t: u64 = term_residue(&ts[i], row);
        proof {
            lemma_add_mod_noop(
                partial_value(ts@, cells(row@), i as nat),
                term_value(ts@[i as int], cells(row@)),
                P as int,
            );
        }
        acc = (acc + t) % (P as u64);
        i = i + 1;
    }
    acc as u32
}

/// The values of constraints on a row, as field elements.
pub fn evaluate(cs: &Vec<Vec<Term>>, row: &[u32]) -> (out: Vec<u32>)
    requires
        all_fit(views(cs@), row@.len() as int),
    ensures
        out@ == residues(views(cs@), cells(row@)),
{
    let mut out: Vec<u32> = Vec::new();
    let mut i: usize = 0;
    while i < cs.len()
        invariant
            i <= cs.len(),
            all_fit(views(cs@), row@.len() as int),
            out@.len() == i,
            forall|j: int|
                0 <= j < i ==> #[trigger] out@[j] == residues(views(cs@), cells(row@))[j],
        decreases cs.len() - i,
    {
        proof {
            assert(fits(views(cs@)[i as int], row@.len() as int));
        }
        out.push(constraint_residue(&cs[i], row));
        i = i + 1;
    }
    proof {
        assert(out@ =~= residues(views(cs@), cells(row@)));
    }
    out
}

pub proof fn lemma_linear(coeff: i64, x: usize, row: Seq<int>, k: int)
    requires
        coeff == k,
    ensures
        term_value(Term::Linear { coeff, x }, row) == k * row[x as int],
{
}

pub proof fn lemma_quadratic(coeff: i64, x: usize, y: usize, row: Seq<int>, k: int)
    requires
        coeff == k,
    ensures
        term_value(Term::Quadratic { coeff, x, y }, row) == k * (row[x as int] * row[y as int]),
{
}

/// `x * y = r + c * Q`.
pub open spec fn product_mod_q(x: usize, y: usize, r: usize, c: usize) -> Seq<Term> {
    seq![
        Term::Quadratic { coeff: 1, x, y },
        Term::Linear { coeff: (-1) as i64, x: r },
        Term::Linear { coeff: (-8380417) as i64, x: c },
    ]
}

pub fn push_product(cs: &mut Vec<Vec<Term>>, x: usize, y: usize, r: usize, c: usize)
    ensures
        views(final(cs)@) == views(old(cs)@).push(product_mod_q(x, y, r, c)),
{
    let mut ts: Vec<Term> = Vec::new();
    ts.push(Term::Quadratic { coeff: 1, x, y });
    ts.push(Term::Linear { coeff: -1, x: r });
    ts.push(Term::Linear { coeff: -8380417, x: c });
    proof {
        assert(ts@ =~= product_mod_q(x, y, r, c));
    }
    cs.push(ts);
    proof {
        assert(views(cs@) =~= views(old(cs)@).push(product_mod_q(x, y, r, c)));
    }
}

pub proof fn lemma_product_value(x: usize, y: usize, r: usize, c: usize, row: Seq<int>)
    ensures
        value(product_mod_q(x, y, r, c), row) == row[x as int] * row[y as int] - row[r as int] - Q
            * row[c as int],
{
    reveal_with_fuel(partial_value, 4);
    let ts = product_mod_q(x, y, r, c);
    assert(ts.len() == 3);
    lemma_quadratic(1, x, y, row, 1);
    lemma_linear((-1) as i64, r, row, -1);
    lemma_linear((-8380417) as i64, c, row, -8380417);
}

/// `x + y = s + c * Q`.
pub open spec fn sum_mod_q(x: usize, y: usize, s: usize, c: usize) -> Seq<Term> {
    seq![
        Term::Linear { coeff: 1, x },
        Term::Linear { coeff: 1, x: y },
        Term::Linear { coeff: (-1) as i64, x: s },
        Term::Linear { coeff: (-8380417) as i64, x: c },
    ]
}

pub fn push_sum(cs: &mut Vec<Vec<Term>>, x: usize, y: usize, s: usize, c: usize)
    ensures
        views(final(cs)@) == views(old(cs)@).push(sum_mod_q(x, y, s, c)),
{
    let mut ts: Vec<Term> = Vec::new();
    ts.push(Term::Linear { coeff: 1, x });
    ts.push(Term::Linear { coeff: 1, x: y });
    ts.push(Term::Linear { coeff: -1, x: s });
    ts.push(Term::Linear { coeff: -8380417, x: c });
    proof {
        assert(ts@ =~= sum_mod_q(x, y, s, c));
    }
    cs.push(ts);
    proof {
        assert(views(cs@) =~= views(old(cs)@).push(sum_mod_q(x, y, s, c)));
    }
}

pub proof fn lemma_sum_value(x: usize, y: usize, s: usize, c: usize, row: Seq<int>)
    ensures
        value(sum_mod_q(x, y, s, c), row) == row[x as int] + row[y as int] - row[s as int] - Q
            * row[c as int],
{
    reveal_with_fuel(partial_value, 5);
    let ts = sum_mod_q(x, y, s, c);
    assert(ts.len() == 4);
    lemma_linear(1, x, row, 1);
    lemma_linear(1, y, row, 1);
    lemma_linear((-1) as i64, s, row, -1);
    lemma_linear((-8380417) as i64, c, row, -8380417);
}

/// `b * b = b`.
pub open spec fn boolean(b: usize) -> Seq<Term> {
    seq![Term::Quadratic { coeff: 1, x: b, y: b }, Term::Linear { coeff: (-1) as i64, x: b }]
}

pub fn push_boolean(cs: &mut Vec<Vec<Term>>, b: usize)
    ensures
        views(final(cs)@) == views(old(cs)@).push(boolean(b)),
{
    let mut ts: Vec<Term> = Vec::new();
    ts.push(Term::Quadratic { coeff: 1, x: b, y: b });
    ts.push(Term::Linear { coeff: -1, x: b });
    proof {
        assert(ts@ =~= boolean(b));
    }
    cs.push(ts);
    proof {
        assert(views(cs@) =~= views(old(cs)@).push(boolean(b)));
    }
}

pub proof fn lemma_boolean_value(b: usize, row: Seq<int>)
    ensures
        value(boolean(b), row) == row[b as int] * row[b as int] - row[b as int],
        row[b as int] == 0 || row[b as int] == 1 ==> value(boolean(b), row) == 0,
{
    reveal_with_fuel(partial_value, 3);
    let ts = boolean(b);
    assert(ts.len() == 2);
    lemma_quadratic(1, b, b, row, 1);
    lemma_linear((-1) as i64, b, row, -1);
    if row[b as int] == 0 || row[b as int] == 1 {
        assert(row[b as int] * row[b as int] == row[b as int]) by (nonlinear_arith)
            requires
                row[b as int] == 0 || row[b as int] == 1,
        ;
    }
}

/// `x` is the number with the `n` bits in the cells from `start` on.
pub open spec fn binary(x: usize, start: usize, n: nat) -> Seq<Term>
    decreases n,
{
    if n == 0 {
        seq![Term::Linear { coeff: 1, x }]
    } else {
        binary(x, start, (n - 1) as nat).push(
            Term::Linear { coeff: (-pow2((n - 1) as nat)) as i64, x: (start + n - 1) as usize },
        )
    }
}

/// The number with the `n` bits in the cells of `row` from `start` on.
pub open spec fn bit_sum(row: Seq<int>, start: int, n: nat) -> int
    decreases n,
{
    if n == 0 {
        0
    } else {
        bit_sum(row, start, (n - 1) as nat) + pow2((n - 1) as nat) * row[start + n - 1]
    }
}

proof fn lemma_binary_len(x: usize, start: usize, n: nat)
    ensures
        binary(x, start, n).len() == n + 1,
    decreases n,
{
    if n > 0 {
        lemma_binary_len(x, start, (n - 1) as nat);
    }
}

proof fn lemma_partial_prefix(a: Seq<Term>, b: Seq<Term>, row: Seq<int>, n: nat)
    requires
        n <= a.len(),
        n <= b.len(),
        forall|i: int| 0 <= i < n ==> a[i] == b[i],
    ensures
        partial_value(a, row, n) == partial_value(b, row, n),
    decreases n,
{
    if n > 0 {
        lemma_partial_prefix(a, b, row, (n - 1) as nat);
    }
}

/// The value of a binary decomposition.
pub proof fn lemma_binary_value(x: usize, start: usize, n: nat, row: Seq<int>)
    requires
        n <= 62,
        start + n <= usize::MAX,
    ensures
        value(binary(x, start, n), row) == row[x as int] - bit_sum(row, start as int, n),
    decreases n,
{
    lemma2_to64();
    if n == 0 {
        reveal_with_fuel(partial_value, 2);
        lemma_linear(1, x, row, 1);
    } else {
        let m = (n - 1) as nat;
        lemma_binary_value(x, start, m, row);
        lemma_binary_len(x, start, m);
        let a = binary(x, start, m);
        let b = binary(x, start, n);
        lemma_partial_prefix(a, b, row, a.len());
        assert(pow2(m) <= pow2(62)) by {
            if m < 62 {
                lemma_pow2_strictly_increases(m, 62);
            }
        }
        assert(pow2(62) == 4611686018427387904) by {
            lemma2_to64_rest();
        }
        let c = row[start + m];
        lemma_linear((-pow2(m)) as i64, (start + m) as usize, row, -pow2(m));
        assert((-pow2(m)) * c == -(pow2(m) * c)) by (nonlinear_arith);
        assert(b[n as int] == Term::Linear {
            coeff: (-pow2(m)) as i64,
            x: (start + m) as usize,
        });
    }
}

/// A binary decomposition reads its cells only.
pub proof fn lemma_binary_fits(x: usize, start: usize, k: nat, n: int)
    requires
        x < n,
        start + k <= n,
        start + k <= usize::MAX,
    ensures
        fits(binary(x, start, k), n),
    decreases k,
{
    if k > 0 {
        lemma_binary_fits(x, start, (k - 1) as nat, n);
    }
}

/// `x` lies in `[0, 2^23)`, by its bits in the cells from `start` on.
pub open spec fn range_check(x: usize, start: usize) -> Seq<Seq<Term>> {
    seq![binary(x, start, 23)] + Seq::new(23, |k: int| boolean((start + k) as usize))
}

pub proof fn lemma_range_check_fits(x: usize, start: usize, n: int)
    requires
        x < n,
        start + 23 <= n,
        start + 23 <= usize::MAX,
    ensures
        all_fit(range_check(x, start), n),
{
    lemma_binary_fits(x, start, 23, n);
}

/// Adds a binary decomposition.
pub fn push_binary(cs: &mut Vec<Vec<Term>>, x: usize, start: usize)
    requires
        start + 23 <= usize::MAX,
    ensures
        views(final(cs)@) == views(old(cs)@).push(binary(x, start, 23)),
{
    let mut ts: Vec<Term> = Vec::new();
    ts.push(Term::Linear { coeff: 1, x });
    let mut k: usize = 0;
    let mut pw: i64 = 1;
    proof {
        lemma2_to64();
        assert(ts@ =~= binary(x, start, 0));
    }
    while k < 23
        invariant
            k <= 23,
            start + 23 <= usize::MAX,
            pw == pow2(k as nat),
            ts@ == binary(x, start, k as nat),
        decreases 23 - k,
    {
        proof {
            lemma_pow2_unfold((k + 1) as nat);
            lemma2_to64();
            assert(pow2(k as nat) <= pow2(23)) by {
                lemma_pow2_strictly_increases(k as nat, 23);
            }
        }
        ts.push(Term::Linear { coeff: -pw, x: start + k });
        pw = 2 * pw;
        k = k + 1;
        proof {
            assert(ts@ =~= binary(x, start, k as nat));
        }
    }
    cs.push(ts);
    proof {
        assert(views(cs@) =~= views(old(cs)@).push(binary(x, start, 23)));
    }
}

pub fn push_range_check(cs: &mut Vec<Vec<Term>>, x: usize, start: usize)
    requires
        start + 23 <= usize::MAX,
    ensures
        views(final(cs)@) == views(old(cs)@) + range_check(x, start),
{
    push_binary(cs, x, start);
    let ghost base = views(cs@);
    let mut k: usize = 0;
    while k < 23
        invariant
            k <= 23,
            start + 23 <= usize::MAX,
            views(cs@) == base + Seq::new(k as nat, |j: int| boolean((start + j) as usize)),
        decreases 23 - k,
    {
        push_boolean(cs, start + k);
        k = k + 1;
        proof {
            assert(views(cs@) =~= base + Seq::new(
                k as nat,
                |j: int| boolean((start + j) as usize),
            ));
        }
    }
    proof {
        assert(views(cs@) =~= views(old(cs)@) + range_check(x, start));
    }
}

/// Bits of a number make it up.
pub proof fn lemma_bits_make_up(row: Seq<int>, start: int, n: nat, v: int)
    requires
        0 <= v,
        forall|k: int| 0 <= k < n ==> row[#[trigger] (start + k)] == bits::bit_of(v, k as nat),
    ensures
        bit_sum(row, start, n) == v % (pow2(n) as int),
    decreases n,
{
    lemma2_to64();
    if n > 0 {
        let m = (n - 1) as nat;
        lemma_bits_make_up(row, start, m, v);
        lemma_pow2_unfold(n);
        lemma_pow2_pos(m);
        let w = pow2(m) as int;
        assert(row[start + m] == bits::bit_of(v, m));
        let q = v / w;
        let r = v % w;
        lemma_fundamental_div_mod(v, w);
        lemma_fundamental_div_mod(q, 2);
        assert(v == (2 * w) * (q / 2) + (w * (q % 2) + r)) by (nonlinear_arith)
            requires
                v == w * q + r,
                q == 2 * (q / 2) + q % 2,
        ;
        assert(0 <= w * (q % 2) + r < 2 * w) by (nonlinear_arith)
            requires
                0 <= q % 2 <= 1,
                0 <= r < w,
        ;
        lemma_fundamental_div_mod_converse(v, 2 * w, q / 2, w * (q % 2) + r);
    }
}

/// A row that holds the bits of a number below 2^23 passes its range check.
pub proof fn lemma_range_check(x: usize, start: usize, row: Seq<int>)
    requires
        start + 23 <= usize::MAX,
        0 <= row[x as int] < 8388608,
        forall|k: int|
            0 <= k < 23 ==> row[#[trigger] (start + k)] == bits::bit_of(row[x as int], k as nat),
    ensures
        satisfies(range_check(x, start), row),
{
    let cs = range_check(x, start);
    assert forall|i: int| 0 <= i < cs.len() implies holds(#[trigger] cs[i], row) by {
        if i == 0 {
            lemma_binary_value(x, start, 23, row);
            lemma_bits_make_up(row, start as int, 23, row[x as int]);
            lemma2_to64();
            assert(pow2(23) == 8388608);
        } else {
            let k = i - 1;
            let b = (start + k) as usize;
            assert(cs[i] == boolean(b));
            assert(row[start + k] == bits::bit_of(row[x as int], k as nat));
            bits::lemma_bit_of_range(row[x as int], k as nat);
            lemma_boolean_value(b, row);
        }
    }
}

} // verus!
