//! What a proof is about, as far as the channel between prover and verifier sees it:
//! the words that are mixed in, and the circuits whose traces are committed to.
use crate::commitment;
use crate::commitment::CommitmentError;
use crate::mldsa::field;
use crate::mldsa::params::Q;
use crate::mldsa::polyvec;
use crate::mldsa::transform;
use vstd::prelude::*;

verus! {

/// Binary logarithm of the factor by which traces are extended.
pub const LOG_BLOWUP: u32 = 6;

/// The number of positions at which a proof is opened.
pub const N_FRI_QUERIES: usize = 20;

/// Bits of proof of work.
pub const POW_BITS: u32 = 10;

/// Binary logarithm of the largest number of rows that is accepted.
pub const MAX_LOG_SIZE: u32 = 28;

/// The largest size of a proof that is accepted, in bytes.
pub const MAX_PROOF_BYTES: usize = 8_388_608;

/// Bits of security of a proof: those of the positions that are opened and those of
/// the proof of work.
pub fn security_bits() -> (n: u32)
    ensures
        n == LOG_BLOWUP * N_FRI_QUERIES + POW_BITS,
        n == 130,
{
    LOG_BLOWUP * (N_FRI_QUERIES as u32) + POW_BITS
}

/// A circuit.
#[derive(Clone, Copy, Debug, PartialEq, Eq, Structural)]
pub enum Circuit {
    HashChain,
    MerkleRoot,
    Ntt,
    NttBatch { n_polys: usize },
    PolyMul,
    PolyAdd,
    UseHint,
    UseHintBatch,
    UseHintWeight,
    NormCheck,
    NormCheckBatch,
    AzRow,
    AzFull,
    Ct1Full,
    WPrimeFull,
    RangeQ,
    RangeQBatch,
    InttBatch { n_polys: usize },
    HintWeight,
}

/// A circuit with the binary logarithm of its number of rows.
#[derive(Clone, Copy, Debug, PartialEq, Eq, Structural)]
pub struct Component {
    pub circuit: Circuit,
    pub log_n_rows: u32,
}

/// A circuit with 256 rows.
pub open spec fn rows_256(circuit: Circuit) -> Component {
    Component { circuit, log_n_rows: 8 }
}

/// A circuit with 1024 rows.
pub open spec fn rows_1024(circuit: Circuit) -> Component {
    Component { circuit, log_n_rows: 10 }
}

/// The number of columns of a circuit's trace, where it is fixed.
pub open spec fn width(circuit: Circuit) -> Option<int> {
    match circuit {
        Circuit::NttBatch { n_polys } => Some(1 + 54 * n_polys),
        Circuit::InttBatch { n_polys } => Some(1 + 54 * n_polys),
        Circuit::Ntt => Some(9),
        Circuit::NormCheck => Some(3),
        Circuit::NormCheckBatch => Some(15),
        Circuit::AzRow => Some(258),
        Circuit::AzFull => Some(1523),
        Circuit::Ct1Full => Some(295),
        Circuit::WPrimeFull => Some(24),
        Circuit::UseHintWeight => Some(61),
        Circuit::RangeQ => Some(48),
        Circuit::RangeQBatch => Some(288),
        Circuit::HintWeight => Some(2),
        _ => None,
    }
}

/// The number of preprocessed columns of a circuit, where it is fixed.
pub open spec fn preprocessed_width(circuit: Circuit) -> Option<int> {
    match circuit {
        Circuit::HashChain => None,
        Circuit::MerkleRoot => None,
        Circuit::UseHintWeight => Some(1),
        Circuit::HintWeight => Some(2),
        _ => Some(0),
    }
}

impl Circuit {
    /// The number of columns of the trace, where it is fixed.
    pub fn n_cols(&self) -> (n: Option<usize>)
        requires
            width(*self) matches Some(w) ==> w <= usize::MAX,
        ensures
            match width(*self) {
                Some(w) => n == Some(w as usize),
                None => n is None,
            },
    {
        match self {
            Circuit::NttBatch { n_polys } => Some(1 + 54 * *n_polys),
            Circuit::InttBatch { n_polys } => Some(1 + 54 * *n_polys),
            Circuit::Ntt => Some(9),
            Circuit::NormCheck => Some(3),
            Circuit::NormCheckBatch => Some(15),
            Circuit::AzRow => Some(258),
            Circuit::AzFull => Some(1523),
            Circuit::Ct1Full => Some(295),
            Circuit::WPrimeFull => Some(24),
            Circuit::UseHintWeight => Some(61),
            Circuit::RangeQ => Some(48),
            Circuit::RangeQBatch => Some(288),
            Circuit::HintWeight => Some(2),
            _ => None,
        }
    }

    /// The number of preprocessed columns, where it is fixed.
    pub fn n_preprocessed(&self) -> (n: Option<usize>)
        ensures
            match preprocessed_width(*self) {
                Some(w) => n == Some(w as usize),
                None => n is None,
            },
    {
        match self {
            Circuit::HashChain => None,
            Circuit::MerkleRoot => None,
            Circuit::UseHintWeight => Some(1),
            Circuit::HintWeight => Some(2),
            _ => Some(0),
        }
    }
}

/// The logarithms of the sizes of the trace columns of some components, in order.
pub open spec fn column_sizes(cs: Seq<Component>, n: nat) -> Seq<u32>
    decreases n,
{
    if n == 0 {
        seq![]
    } else {
        column_sizes(cs, (n - 1) as nat) + Seq::new(
            width(cs[n - 1].circuit)->Some_0 as nat,
            |i: int| cs[n - 1].log_n_rows,
        )
    }
}

/// The logarithms of the sizes of the preprocessed columns of some components.
pub open spec fn preprocessed_sizes(cs: Seq<Component>, n: nat) -> Seq<u32>
    decreases n,
{
    if n == 0 {
        seq![]
    } else {
        preprocessed_sizes(cs, (n - 1) as nat) + Seq::new(
            preprocessed_width(cs[n - 1].circuit)->Some_0 as nat,
            |i: int| cs[n - 1].log_n_rows,
        )
    }
}

/// Whether the numbers of all columns of some components are fixed and fit.
pub open spec fn is_sized(cs: Seq<Component>) -> bool {
    forall|i: int|
        0 <= i < cs.len() ==> {
            &&& width((#[trigger] cs[i]).circuit) is Some
            &&& width(cs[i].circuit)->Some_0 <= usize::MAX
            &&& preprocessed_width(cs[i].circuit) is Some
        }
}

fn push_repeated(sizes: &mut Vec<u32>, log_size: u32, n: usize)
    ensures
        final(sizes)@ == old(sizes)@ + Seq::new(n as nat, |i: int| log_size),
{
    let ghost before = sizes@;
    let mut i: usize = 0;
    while i < n
        invariant
            i <= n,
            sizes@ == before + Seq::new(i as nat, |k: int| log_size),
        decreases n - i,
    {
        sizes.push(log_size);
        i = i + 1;
        proof {
            assert(sizes@ =~= before + Seq::new(i as nat, |k: int| log_size));
        }
    }
    proof {
        assert(sizes@ =~= before + Seq::new(n as nat, |i: int| log_size));
    }
}

/// The logarithms of the sizes of the preprocessed columns and of the trace columns
/// of some components; none where a number of columns is not fixed.
pub fn tree_sizes(cs: &Vec<Component>) -> (sizes: Option<(Vec<u32>, Vec<u32>)>)
    requires
        forall|i: int|
            0 <= i < cs@.len() ==> (width((#[trigger] cs@[i]).circuit) matches Some(w) ==> w
                <= usize::MAX),
    ensures
        is_sized(cs@) <==> sizes is Some,
        is_sized(cs@) ==> {
            &&& sizes->Some_0.0@ == preprocessed_sizes(cs@, cs@.len())
            &&& sizes->Some_0.1@ == column_sizes(cs@, cs@.len())
        },
{
    let mut pre: Vec<u32> = Vec::new();
    let mut main: Vec<u32> = Vec::new();
    let mut i: usize = 0;
    while i < cs.len()
        invariant
            i <= cs.len(),
            forall|k: int|
                0 <= k < cs@.len() ==> (width((#[trigger] cs@[k]).circuit) matches Some(w) ==> w
                    <= usize::MAX),
            forall|k: int|
                0 <= k < i ==> width((#[trigger] cs@[k]).circuit) is Some && preprocessed_width(
                    cs@[k].circuit,
                ) is Some,
            pre@ == preprocessed_sizes(cs@, i as nat),
            main@ == column_sizes(cs@, i as nat),
        decreases cs.len() - i,
    {
        let c: Component = cs[i];
        let w: usize = match c.circuit.n_cols() {
            Some(w) => w,
            None => {
                return None;
            },
        };
        let p: usize = match c.circuit.n_preprocessed() {
            Some(p) => p,
            None => {
                return None;
            },
        };
        push_repeated(&mut pre, c.log_n_rows, p);
        push_repeated(&mut main, c.log_n_rows, w);
        i = i + 1;
    }
    Some((pre, main))
}

/// The words that a seed adds to the transcript: none where the seed is empty.
pub open spec fn seeded(seed: Seq<u8>) -> Seq<Seq<u32>> {
    if seed.len() == 0 {
        seq![]
    } else {
        seq![commitment::seed_words(seed)]
    }
}

/// Seeds that enter transcripts by the same words are both empty or both not, and are
/// the same where they have one length.
pub proof fn lemma_seeded(s: Seq<u8>, t: Seq<u8>)
    requires
        seeded(s) == seeded(t),
    ensures
        s.len() == 0 <==> t.len() == 0,
        s.len() == t.len() ==> s == t,
{
    assert(s.len() == 0 <==> seeded(s).len() == 0);
    assert(t.len() == 0 <==> seeded(t).len() == 0);
    if s.len() == t.len() {
        if s.len() > 0 {
            assert(seeded(s)[0] == seeded(t)[0]);
            commitment::lemma_seed_words_injective(s, t);
        }
        assert(s =~= t);
    }
}

/// The contents of a transcript.
#[verifier::ext_equal]
pub struct TranscriptView {
    pub seeds: Seq<Seq<u32>>,
    pub components: Seq<Component>,
    pub messages: Seq<Seq<u32>>,
}

/// What is mixed into the channel: seeds before the first commitment, the
/// preprocessed columns and the traces of the components in two commitments, and
/// messages behind them.
#[derive(Debug, PartialEq, Eq)]
pub struct Transcript {
    pub seeds: Vec<Vec<u32>>,
    pub components: Vec<Component>,
    pub messages: Vec<Vec<u32>>,
}

/// The contents of some lists of words.
pub open spec fn words(v: Seq<Vec<u32>>) -> Seq<Seq<u32>> {
    Seq::new(v.len(), |i: int| v[i]@)
}

impl View for Transcript {
    type V = TranscriptView;

    open spec fn view(&self) -> TranscriptView {
        TranscriptView {
            seeds: words(self.seeds@),
            components: self.components@,
            messages: words(self.messages@),
        }
    }
}

/// An empty transcript.
pub open spec fn nothing() -> TranscriptView {
    TranscriptView { seeds: seq![], components: seq![], messages: seq![] }
}

impl TranscriptView {
    /// The transcript with a seed, unless it is empty.
    pub open spec fn seed(self, seed: Seq<u8>) -> TranscriptView {
        TranscriptView { seeds: self.seeds + seeded(seed), ..self }
    }

    /// The transcript with another component.
    pub open spec fn component(self, c: Component) -> TranscriptView {
        TranscriptView { components: self.components.push(c), ..self }
    }

    /// The transcript with another message.
    pub open spec fn message(self, m: Seq<u32>) -> TranscriptView {
        TranscriptView { messages: self.messages.push(m), ..self }
    }

    /// The transcript with the fingerprints of the first `n` of some polynomials.
    pub open spec fn each(self, v: Seq<Seq<int>>, n: nat) -> TranscriptView
        decreases n,
    {
        if n == 0 {
            self
        } else {
            self.each(v, (n - 1) as nat).message(commitment::fingerprint(v[n - 1]))
        }
    }
}

impl Transcript {
    /// An empty transcript.
    pub fn new() -> (t: Self)
        ensures
            t@ == nothing(),
    {
        let t = Transcript { seeds: Vec::new(), components: Vec::new(), messages: Vec::new() };
        proof {
            assert(t@ =~= nothing());
        }
        t
    }

    /// Adds a seed, unless it is empty.
    pub fn seed(&mut self, seed: &[u8])
        ensures
            final(self)@ == old(self)@.seed(seed@),
    {
        if seed.len() > 0 {
            self.seeds.push(commitment::seed_to_u32_words(seed));
        }
        proof {
            assert(self@ =~= old(self)@.seed(seed@));
        }
    }

    /// Adds a component.
    pub fn component(&mut self, circuit: Circuit, log_n_rows: u32)
        ensures
            final(self)@ == old(self)@.component(Component { circuit, log_n_rows }),
    {
        self.components.push(Component { circuit, log_n_rows });
        proof {
            assert(self@ =~= old(self)@.component(Component { circuit, log_n_rows }));
        }
    }

    /// Adds a message of several words.
    pub fn message(&mut self, m: &[u32])
        ensures
            final(self)@ == old(self)@.message(m@),
    {
        let mut w: Vec<u32> = Vec::new();
        let mut i: usize = 0;
        while i < m.len()
            invariant
                i <= m.len(),
                w@ == m@.subrange(0, i as int),
            decreases m.len() - i,
        {
            w.push(m[i]);
            i = i + 1;
            proof {
                assert(m@.subrange(0, i as int) =~= m@.subrange(0, i - 1).push(m@[i - 1]));
            }
        }
        proof {
            assert(m@.subrange(0, i as int) =~= m@);
        }
        self.messages.push(w);
        proof {
            assert(self@ =~= old(self)@.message(m@));
        }
    }

    /// Adds the fingerprint of each of some polynomials.
    pub fn each(&mut self, v: &[[i64; 256]])
        ensures
            final(self)@ == old(self)@.each(polyvec::polys(v@), v@.len()),
    {
        let ghost before = self@;
        let mut i: usize = 0;
        while i < v.len()
            invariant
                i <= v.len(),
                self@ == before.each(polyvec::polys(v@), i as nat),
            decreases v.len() - i,
        {
            let fp: [u32; 4] = commitment::output_fingerprint(v[i].as_slice());
            self.message(fp.as_slice());
            i = i + 1;
        }
    }
}

/// The coefficients of the first `n` of some polynomials, one after the other.
pub open spec fn flat_n(v: Seq<Seq<int>>, n: nat) -> Seq<int>
    decreases n,
{
    if n == 0 {
        seq![]
    } else {
        flat_n(v, (n - 1) as nat) + v[n - 1]
    }
}

/// The coefficients of some polynomials, one after the other.
pub open spec fn flat(v: Seq<Seq<int>>) -> Seq<int> {
    flat_n(v, v.len())
}

proof fn lemma_flat_prefix(a: Seq<Seq<int>>, b: Seq<Seq<int>>, n: nat)
    requires
        n <= a.len(),
    ensures
        flat_n(a + b, n) == flat_n(a, n),
    decreases n,
{
    if n > 0 {
        lemma_flat_prefix(a, b, (n - 1) as nat);
    }
}

/// The coefficients of two lists of polynomials follow each other.
pub proof fn lemma_flat_concat(a: Seq<Seq<int>>, b: Seq<Seq<int>>)
    ensures
        flat(a + b) == flat(a) + flat(b),
    decreases b.len(),
{
    if b.len() == 0 {
        assert(a + b =~= a);
        assert(flat(a) + flat(b) =~= flat(a));
    } else {
        let c = b.drop_last();
        lemma_flat_concat(a, c);
        assert((a + b).drop_last() =~= a + c);
        let m = (a.len() + c.len()) as nat;
        assert(a + b =~= (a + c) + seq![b.last()]);
        lemma_flat_prefix(a + c, seq![b.last()], m);
        assert(b =~= c + seq![b.last()]);
        lemma_flat_prefix(c, seq![b.last()], c.len());
        assert(flat(a + b) == flat_n(a + b, m) + b.last());
        assert(flat(b) == flat_n(b, c.len()) + b.last());
        assert((flat(a) + flat(c)) + b.last() =~= flat(a) + (flat(c) + b.last()));
    }
}

/// Appends the coefficients of some polynomials.
pub fn push_flat(out: &mut Vec<i64>, v: &[[i64; 256]])
    ensures
        transform::ints(final(out)@) == transform::ints(old(out)@) + flat(polyvec::polys(v@)),
{
    let ghost before = transform::ints(out@);
    let ghost ps = polyvec::polys(v@);
    let mut i: usize = 0;
    proof {
        assert(before =~= before + flat_n(ps, 0));
    }
    while i < v.len()
        invariant
            i <= v.len(),
            ps == polyvec::polys(v@),
            transform::ints(out@) == before + flat_n(ps, i as nat),
        decreases v.len() - i,
    {
        let ghost mid = transform::ints(out@);
        let ghost row = transform::ints(v@[i as int]@);
        let mut j: usize = 0;
        proof {
            assert(mid =~= mid + row.subrange(0, 0));
        }
        while j < 256
            invariant
                i < v.len(),
                j <= 256,
                row == transform::ints(v@[i as int]@),
                transform::ints(out@) == mid + row.subrange(0, j as int),
            decreases 256 - j,
        {
            let ghost cur = transform::ints(out@);
            out.push(v[i][j]);
            j = j + 1;
            proof {
                assert(transform::ints(out@) =~= cur.push(row[j - 1]));
                assert(row.subrange(0, j as int) =~= row.subrange(0, j - 1).push(row[j - 1]));
                assert(transform::ints(out@) =~= mid + row.subrange(0, j as int));
            }
        }
        i = i + 1;
        proof {
            assert(row.subrange(0, 256) =~= row);
            assert(before + flat_n(ps, i as nat) =~= mid + row);
        }
    }
}

/// The fingerprint of some polynomials.
pub fn fingerprint_all(v: &[[i64; 256]]) -> (fp: [u32; 4])
    ensures
        fp@ == commitment::fingerprint(flat(polyvec::polys(v@))),
        commitment::is_fingerprint(fp@),
{
    let mut out: Vec<i64> = Vec::new();
    push_flat(&mut out, v);
    proof {
        assert(transform::ints(Seq::<i64>::empty()) + flat(polyvec::polys(v@)) =~= flat(
            polyvec::polys(v@),
        ));
    }
    commitment::output_fingerprint(out.as_slice())
}

/// The fingerprint of two lists of polynomials.
pub fn fingerprint_both(v: &[[i64; 256]], w: &[[i64; 256]]) -> (fp: [u32; 4])
    ensures
        fp@ == commitment::fingerprint(flat(polyvec::polys(v@) + polyvec::polys(w@))),
        commitment::is_fingerprint(fp@),
{
    let mut out: Vec<i64> = Vec::new();
    push_flat(&mut out, v);
    push_flat(&mut out, w);
    proof {
        lemma_flat_concat(polyvec::polys(v@), polyvec::polys(w@));
        assert(transform::ints(Seq::<i64>::empty()) + flat(polyvec::polys(v@)) =~= flat(
            polyvec::polys(v@),
        ));
    }
    commitment::output_fingerprint(out.as_slice())
}

/// An input of a statement.
#[derive(Clone, Copy, Debug, PartialEq, Eq, Structural)]
pub enum Input {
    F,
    A,
    B,
    R,
    Z,
    ARow,
    AHat,
    ZHat,
    CHat,
    T1Hat,
    Az,
    Ct1,
    WPrime,
    Polys,
    Poly,
}

/// Why a statement is refused.
#[derive(Clone, Copy, Debug, PartialEq, Eq)]
pub enum StatementError {
    /// Coefficient `index` of an input, or of its polynomial `row`, is no residue.
    OutOfRange { input: Input, row: Option<usize>, index: usize, value: i64 },
    /// The matrix has `got` polynomials.
    MatrixSize { got: usize },
    /// There is nothing to prove anything about.
    Empty,
    /// The trace would have `2^log_size` rows.
    TooLarge { log_size: u32 },
    /// The logarithm of the number of rows is below `min` or above the limit.
    LogSize { log_size: u32, min: u32 },
    /// The hint has `got` rows.
    HintRows { got: usize },
    /// Row `index` of the hint has `got` bits.
    HintColumns { index: usize, got: usize },
    /// No signature of a batch is valid.
    NoValidSignature,
    /// A commitment is refused.
    Commitment(CommitmentError),
}

/// The first coefficient, from `i` on, that is no residue.
pub open spec fn fault_from(c: Seq<int>, i: nat) -> Option<nat>
    decreases c.len() - i,
{
    if i >= c.len() {
        None
    } else if !field::in_field(c[i as int]) {
        Some(i)
    } else {
        fault_from(c, i + 1)
    }
}

/// What is wrong with a polynomial, if anything.
pub open spec fn poly_error(input: Input, row: Option<usize>, c: Seq<int>) -> Option<
    StatementError,
> {
    match fault_from(c, 0) {
        Some(i) => Some(
            StatementError::OutOfRange {
                input,
                row,
                index: i as usize,
                value: c[i as int] as i64,
            },
        ),
        None => None,
    }
}

/// What is wrong with some polynomials from `j` on, if anything.
pub open spec fn polys_error_from(input: Input, v: Seq<Seq<int>>, j: nat) -> Option<
    StatementError,
>
    decreases v.len() - j,
{
    if j >= v.len() {
        None
    } else if poly_error(input, Some(j as usize), v[j as int]) is Some {
        poly_error(input, Some(j as usize), v[j as int])
    } else {
        polys_error_from(input, v, j + 1)
    }
}

/// What is wrong with some polynomials, if anything.
pub open spec fn polys_error(input: Input, v: Seq<Seq<int>>) -> Option<StatementError> {
    polys_error_from(input, v, 0)
}

/// What is wrong with two polynomials from coefficient `i` on, if anything: at each
/// position the first polynomial comes first.
pub open spec fn pair_error_from(
    x: Input,
    a: Seq<int>,
    y: Input,
    b: Seq<int>,
    row: Option<usize>,
    i: nat,
) -> Option<StatementError>
    decreases a.len() - i,
{
    if i >= a.len() {
        None
    } else if !field::in_field(a[i as int]) {
        Some(
            StatementError::OutOfRange {
                input: x,
                row,
                index: i as usize,
                value: a[i as int] as i64,
            },
        )
    } else if !field::in_field(b[i as int]) {
        Some(
            StatementError::OutOfRange {
                input: y,
                row,
                index: i as usize,
                value: b[i as int] as i64,
            },
        )
    } else {
        pair_error_from(x, a, y, b, row, i + 1)
    }
}

/// Whether a coefficient is a residue.
pub fn is_residue(v: i64) -> (r: bool)
    ensures
        r == field::in_field(v as int),
{
    0 <= v && v < Q
}

/// Refuses a polynomial with a coefficient that is no residue.
pub fn check_poly(input: Input, row: Option<usize>, c: &[i64; 256]) -> (res: Option<StatementError>)
    ensures
        res == poly_error(input, row, transform::ints(c@)),
        res is None <==> transform::is_elem(transform::ints(c@)),
{
    let ghost cs = transform::ints(c@);
    let mut i: usize = 0;
    while i < 256
        invariant
            i <= 256,
            cs == transform::ints(c@),
            fault_from(cs, 0) == fault_from(cs, i as nat),
            forall|k: int| 0 <= k < i ==> field::in_field(#[trigger] cs[k]),
        decreases 256 - i,
    {
        if !is_residue(c[i]) {
            proof {
                assert(cs[i as int] as i64 == c@[i as int]);
            }
            return Some(StatementError::OutOfRange { input, row, index: i, value: c[i] });
        }
        i = i + 1;
    }
    None
}

/// Refuses polynomials with a coefficient that is no residue.
pub fn check_polys(input: Input, v: &[[i64; 256]]) -> (res: Option<StatementError>)
    ensures
        res == polys_error(input, polyvec::polys(v@)),
        res is None <==> polyvec::all_elems(polyvec::polys(v@)),
{
    let ghost ps = polyvec::polys(v@);
    let mut j: usize = 0;
    while j < v.len()
        invariant
            j <= v.len(),
            ps == polyvec::polys(v@),
            polys_error(input, ps) == polys_error_from(input, ps, j as nat),
            forall|k: int| 0 <= k < j ==> transform::is_elem(#[trigger] ps[k]),
        decreases v.len() - j,
    {
        match check_poly(input, Some(j), &v[j]) {
            Some(e) => {
                proof {
                    assert(!transform::is_elem(ps[j as int]));
                }
                return Some(e);
            },
            None => {},
        }
        j = j + 1;
    }
    None
}

/// Refuses two polynomials with a coefficient that is no residue.
pub fn check_pair(
    x: Input,
    a: &[i64; 256],
    y: Input,
    b: &[i64; 256],
    row: Option<usize>,
) -> (res: Option<StatementError>)
    ensures
        res == pair_error_from(x, transform::ints(a@), y, transform::ints(b@), row, 0),
        res is None <==> transform::is_elem(transform::ints(a@)) && transform::is_elem(
            transform::ints(b@),
        ),
{
    let ghost s = transform::ints(a@);
    let ghost t = transform::ints(b@);
    let mut i: usize = 0;
    while i < 256
        invariant
            i <= 256,
            s == transform::ints(a@),
            t == transform::ints(b@),
            pair_error_from(x, s, y, t, row, 0) == pair_error_from(x, s, y, t, row, i as nat),
            forall|k: int| 0 <= k < i ==> field::in_field(#[trigger] s[k]),
            forall|k: int| 0 <= k < i ==> field::in_field(#[trigger] t[k]),
        decreases 256 - i,
    {
        if !is_residue(a[i]) {
            proof {
                assert(!field::in_field(s[i as int]));
            }
            return Some(StatementError::OutOfRange { input: x, row, index: i, value: a[i] });
        }
        if !is_residue(b[i]) {
            proof {
                assert(!field::in_field(t[i as int]));
            }
            return Some(StatementError::OutOfRange { input: y, row, index: i, value: b[i] });
        }
        i = i + 1;
    }
    None
}

/// A trace to prove something about: its columns, or none where the circuit builds
/// them.
pub open spec fn trace_view(t: Option<Vec<Vec<u32>>>) -> Option<Seq<Seq<u32>>> {
    match t {
        Some(cols) => Some(words(cols@)),
        None => None,
    }
}

/// The traces of some components.
pub open spec fn traces_view(ts: Seq<Option<Vec<Vec<u32>>>>) -> Seq<Option<Seq<Seq<u32>>>> {
    Seq::new(ts.len(), |i: int| trace_view(ts[i]))
}

/// What a prover works on.
#[derive(Debug, PartialEq, Eq)]
pub struct Task {
    /// The transcript.
    pub transcript: Transcript,
    /// Binary logarithm of the largest number of rows.
    pub log_size: u32,
    /// The preprocessed columns that this library builds.
    pub preprocessed: Vec<Vec<u32>>,
    /// The traces that this library builds, one for each component.
    pub traces: Vec<Option<Vec<Vec<u32>>>>,
}

/// What a verifier replays: the transcript, and the height to which the commitments
/// are lifted, where it is fixed.
#[derive(Debug, PartialEq, Eq)]
pub struct Replay {
    pub transcript: Transcript,
    pub lifting: Option<u32>,
}

/// The height to which a prover's commitments are lifted.
pub fn lifting_log_size(log_size: u32) -> (n: u32)
    requires
        log_size <= MAX_LOG_SIZE,
    ensures
        n == log_size + LOG_BLOWUP,
{
    log_size + LOG_BLOWUP
}

} // verus!
