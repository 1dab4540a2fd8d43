//! Statements about chains and trees of hashes, and about batches of signatures.
//!
//! The trace of these statements and the field element that it ends in come from the
//! circuit; here they are arguments.
use crate::commitment;
use crate::digest;
use crate::mldsa::verify;
use crate::statement_ring;
use crate::transcript;
use crate::transcript::{Circuit, Component, Replay, StatementError, Task, Transcript, TranscriptView, MAX_LOG_SIZE};
use vstd::prelude::*;
use vstd::string::*;
use vstd::utf8::*;

verus! {

/// The transcript of a statement that is bound to a seed and to the field element that
/// its trace ends in.
pub open spec fn value_transcript(seed: Seq<u8>, c: Component, value: u32) -> TranscriptView {
    transcript::nothing().seed(seed).component(c).message(seq![value])
}

/// What is wrong with the leaves or the size of their trace, if anything.
pub open spec fn leaves_error(count: nat, log_size: u32) -> Option<StatementError> {
    if count == 0 {
        Some(StatementError::Empty)
    } else if log_size > MAX_LOG_SIZE {
        Some(StatementError::TooLarge { log_size })
    } else {
        None
    }
}

fn value_transcript_of(seed: &[u8], circuit: Circuit, log_n_rows: u32, value: u32) -> (t:
    Transcript)
    ensures
        t@ == value_transcript(seed@, Component { circuit, log_n_rows }, value),
{
    let mut t: Transcript = Transcript::new();
    t.seed(seed);
    t.component(circuit, log_n_rows);
    let m: [u32; 1] = [value];
    t.message(m.as_slice());
    proof {
        assert(m@ =~= seq![value]);
    }
    t
}

fn prove_value(
    leaves: &[u64],
    seed: &[u8],
    circuit: Circuit,
    log_size: u32,
    value: u32,
) -> (res: Result<Task, StatementError>)
    ensures
        match leaves_error(leaves@.len(), log_size) {
            Some(e) => res == Err::<Task, StatementError>(e),
            None => res is Ok && statement_ring::is_task(
                res->Ok_0,
                value_transcript(seed@, Component { circuit, log_n_rows: log_size }, value),
                log_size,
                seq![None],
            ),
        },
{
    if leaves.len() == 0 {
        return Err(StatementError::Empty);
    }
    if log_size > MAX_LOG_SIZE {
        return Err(StatementError::TooLarge { log_size });
    }
    let mut traces: Vec<Option<Vec<Vec<u32>>>> = Vec::new();
    traces.push(None);
    proof {
        assert(transcript::traces_view(traces@) =~= seq![None]);
    }
    Ok(
        Task {
            transcript: value_transcript_of(seed, circuit, log_size, value),
            log_size,
            preprocessed: Vec::new(),
            traces,
        },
    )
}

/// Whether a verifier replays the transcript that is bound to a seed and to the value
/// in a commitment for a proof, or says what is wrong.
pub open spec fn replays_value(
    res: Result<Replay, StatementError>,
    proof_bytes: Seq<u8>,
    text: Seq<u8>,
    seed: Seq<u8>,
    c: Component,
    min_log_size: u32,
) -> bool {
    if c.log_n_rows < min_log_size || c.log_n_rows > MAX_LOG_SIZE {
        res == Err::<Replay, StatementError>(
            StatementError::LogSize { log_size: c.log_n_rows, min: min_log_size },
        )
    } else {
        match commitment::value_in(text, proof_bytes) {
            Some(v) => {
                &&& res is Ok
                &&& res->Ok_0.transcript@ == value_transcript(seed, c, v)
                &&& res->Ok_0.lifting is None
            },
            None => res matches Err(StatementError::Commitment(e)) && commitment::is_value_fault(
                text,
                proof_bytes,
                e,
            ),
        }
    }
}

/// Transcripts bound to different values, or to different seeds of one length, differ; so
/// do one with a seed and one without.
pub proof fn lemma_value_bound(s: Seq<u8>, t: Seq<u8>, c: Component, v: u32, w: u32)
    requires
        value_transcript(s, c, v) == value_transcript(t, c, w),
    ensures
        v == w,
        s.len() == 0 <==> t.len() == 0,
        s.len() == t.len() ==> s == t,
{
    let p = value_transcript(s, c, v);
    let q = value_transcript(t, c, w);
    assert(p.messages[0][0] == v && q.messages[0][0] == w);
    assert(p.seeds =~= transcript::seeded(s));
    assert(q.seeds =~= transcript::seeded(t));
    transcript::lemma_seeded(s, t);
}

/// Who verifies a statement with the prover's proof, seed and size and the commitment
/// for them replays the prover's transcript.
pub proof fn lemma_value_replayed(
    res: Result<Replay, StatementError>,
    proof_bytes: Seq<u8>,
    seed: Seq<u8>,
    c: Component,
    min_log_size: u32,
    value: u32,
)
    requires
        value < commitment::M31_MODULUS,
        min_log_size <= c.log_n_rows <= MAX_LOG_SIZE,
        replays_value(
            res,
            proof_bytes,
            encode_utf8(
                crate::hexcode::hex_chars(commitment::value_commitment(value, proof_bytes)),
            ),
            seed,
            c,
            min_log_size,
        ),
    ensures
        res is Ok,
        res->Ok_0.transcript@ == value_transcript(seed, c, value),
{
    commitment::lemma_commitment_128_roundtrip(value, proof_bytes);
}

fn replay_value(
    proof_bytes: &[u8],
    commitment_hex: &str,
    circuit: Circuit,
    log_size: u32,
    min_log_size: u32,
    seed: &[u8],
) -> (res: Result<Replay, StatementError>)
    ensures
        replays_value(
            res,
            proof_bytes@,
            commitment_hex.spec_bytes(),
            seed@,
            Component { circuit, log_n_rows: log_size },
            min_log_size,
        ),
{
    if log_size < min_log_size || log_size > MAX_LOG_SIZE {
        return Err(StatementError::LogSize { log_size, min: min_log_size });
    }
    match commitment::parse_commitment_128(commitment_hex, proof_bytes) {
        Ok(value) => Ok(
            Replay {
                transcript: value_transcript_of(seed, circuit, log_size, value),
                lifting: None,
            },
        ),
        Err(e) => Err(StatementError::Commitment(e)),
    }
}

/// States that a chain of hashes over the leaves ends in `value`, on a trace of
/// `2^log_size` rows.
pub fn prove_hash_chain_poseidon2(leaves: &[u64], seed: &[u8], log_size: u32, value: u32) -> (res:
    Result<Task, StatementError>)
    ensures
        match leaves_error(leaves@.len(), log_size) {
            Some(e) => res == Err::<Task, StatementError>(e),
            None => res is Ok && statement_ring::is_task(
                res->Ok_0,
                value_transcript(
                    seed@,
                    Component { circuit: Circuit::HashChain, log_n_rows: log_size },
                    value,
                ),
                log_size,
                seq![None],
            ),
        },
{
    prove_value(leaves, seed, Circuit::HashChain, log_size, value)
}

/// What the verifier of a chain of hashes replays; no chain has fewer than
/// `2^min_log_size` rows.
pub fn verify_hash_chain_poseidon2(
    proof_bytes: &[u8],
    commitment_hex: &str,
    log_size: u32,
    min_log_size: u32,
    seed: &[u8],
) -> (res: Result<Replay, StatementError>)
    ensures
        replays_value(
            res,
            proof_bytes@,
            commitment_hex.spec_bytes(),
            seed@,
            Component { circuit: Circuit::HashChain, log_n_rows: log_size },
            min_log_size,
        ),
{
    replay_value(proof_bytes, commitment_hex, Circuit::HashChain, log_size, min_log_size, seed)
}

/// `prove_hash_chain_poseidon2`, bound to the root of a batch.
pub fn prove_hash_chain(leaves: &[u64], merkle_root_seed: &[u8], log_size: u32, value: u32) -> (res:
    Result<Task, StatementError>)
    ensures
        match leaves_error(leaves@.len(), log_size) {
            Some(e) => res == Err::<Task, StatementError>(e),
            None => res is Ok && statement_ring::is_task(
                res->Ok_0,
                value_transcript(
                    merkle_root_seed@,
                    Component { circuit: Circuit::HashChain, log_n_rows: log_size },
                    value,
                ),
                log_size,
                seq![None],
            ),
        },
{
    prove_hash_chain_poseidon2(leaves, merkle_root_seed, log_size, value)
}

/// `verify_hash_chain_poseidon2`, bound to the root of a batch.
pub fn verify_hash_chain(
    proof_bytes: &[u8],
    commitment_hex: &str,
    log_size: u32,
    min_log_size: u32,
    merkle_root_seed: &[u8],
) -> (res: Result<Replay, StatementError>)
    ensures
        replays_value(
            res,
            proof_bytes@,
            commitment_hex.spec_bytes(),
            merkle_root_seed@,
            Component { circuit: Circuit::HashChain, log_n_rows: log_size },
            min_log_size,
        ),
{
    verify_hash_chain_poseidon2(
        proof_bytes,
        commitment_hex,
        log_size,
        min_log_size,
        merkle_root_seed,
    )
}

/// States that the root of the tree over the leaves is `value`, on a trace of
/// `2^log_size` rows.
pub fn prove_merkle_root(leaves: &[u64], seed: &[u8], log_size: u32, value: u32) -> (res: Result<
    Task,
    StatementError,
>)
    ensures
        match leaves_error(leaves@.len(), log_size) {
            Some(e) => res == Err::<Task, StatementError>(e),
            None => res is Ok && statement_ring::is_task(
                res->Ok_0,
                value_transcript(
                    seed@,
                    Component { circuit: Circuit::MerkleRoot, log_n_rows: log_size },
                    value,
                ),
                log_size,
                seq![None],
            ),
        },
{
    prove_value(leaves, seed, Circuit::MerkleRoot, log_size, value)
}

/// What the verifier of the root of a tree replays; no tree has fewer than
/// `2^min_log_size` rows.
pub fn verify_merkle_root(
    proof_bytes: &[u8],
    commitment_hex: &str,
    log_size: u32,
    min_log_size: u32,
    seed: &[u8],
) -> (res: Result<Replay, StatementError>)
    ensures
        replays_value(
            res,
            proof_bytes@,
            commitment_hex.spec_bytes(),
            seed@,
            Component { circuit: Circuit::MerkleRoot, log_n_rows: log_size },
            min_log_size,
        ),
{
    replay_value(proof_bytes, commitment_hex, Circuit::MerkleRoot, log_size, min_log_size, seed)
}

/// The number in the first eight bytes of `b`, lowest first.
pub open spec fn le_u64(b: Seq<u8>) -> int {
    commitment::le_word(b, 0) + 4294967296 * commitment::le_word(b, 4)
}

/// The leaf of a signature of `msg` under `pk`.
pub open spec fn signature_leaf(pk: Seq<u8>, msg: Seq<u8>) -> u64 {
    le_u64(digest::sha3_256(pk + msg)@) as u64
}

/// The leaf of a signature of `msg` under `pk`.
pub fn leaf_of(pk: &[u8], msg: &[u8]) -> (leaf: u64)
    ensures
        leaf == signature_leaf(pk@, msg@),
{
    let data: Vec<u8> = crate::bytes::concat(pk, msg);
    let d: [u8; 32] = digest::sha3(data.as_slice());
    let lo: u32 = commitment::read_word(d.as_slice(), 0);
    let hi: u32 = commitment::read_word(d.as_slice(), 4);
    lo as u64 + 4294967296 * (hi as u64)
}

/// A key, a message and a signature.
pub type Entry = (Vec<u8>, Vec<u8>, Vec<u8>);

/// Whether the signature of an entry is valid.
pub open spec fn entry_valid(e: Entry) -> bool {
    verify::is_valid(e.0@, e.1@, e.2@)
}

/// The leaves of the valid signatures among the first `n` entries, in their order.
pub open spec fn valid_leaves(entries: Seq<Entry>, n: nat) -> Seq<u64>
    decreases n,
{
    if n == 0 {
        seq![]
    } else if entry_valid(entries[n - 1]) {
        valid_leaves(entries, (n - 1) as nat).push(
            signature_leaf(entries[n - 1].0@, entries[n - 1].1@),
        )
    } else {
        valid_leaves(entries, (n - 1) as nat)
    }
}

/// Whether `res` is what is made of a batch: the leaves of the valid signatures and the
/// number of the others, or a refusal where no signature is valid.
pub open spec fn is_batch_result(
    res: Result<(Vec<u64>, usize), StatementError>,
    entries: Seq<Entry>,
) -> bool {
    let leaves = valid_leaves(entries, entries.len());
    if leaves.len() == 0 {
        res == Err::<(Vec<u64>, usize), StatementError>(StatementError::NoValidSignature)
    } else {
        &&& res is Ok
        &&& res->Ok_0.0@ == leaves
        &&& res->Ok_0.1 == entries.len() - leaves.len()
    }
}

/// Whether the samplers finish on an entry, where its signature is well formed.
pub open spec fn entry_terminates(e: Entry) -> bool {
    verify::well_formed_pair(e.0@, e.2@) ==> verify::samplers_terminate(e.0@, e.2@)
}

/// The number of the first `n` entries whose signatures are valid.
pub open spec fn valid_count(entries: Seq<Entry>, n: nat) -> nat
    decreases n,
{
    if n == 0 {
        0
    } else {
        valid_count(entries, (n - 1) as nat) + (if entry_valid(entries[n - 1]) {
            1nat
        } else {
            0nat
        })
    }
}

/// Every valid signature adds one leaf and no other does; there is none exactly where no
/// signature is valid.
pub proof fn lemma_leaves_counted(entries: Seq<Entry>, n: nat)
    ensures
        valid_leaves(entries, n).len() == valid_count(entries, n) <= n,
        valid_count(entries, n) == 0 <==> forall|i: int|
            0 <= i < n ==> !entry_valid(#[trigger] entries[i]),
    decreases n,
{
    if n > 0 {
        lemma_leaves_counted(entries, (n - 1) as nat);
        if valid_count(entries, n) == 0 {
            assert forall|i: int| 0 <= i < n implies !entry_valid(#[trigger] entries[i]) by {
                if i < n - 1 {
                    assert(valid_count(entries, (n - 1) as nat) == 0);
                }
            }
        }
    }
}

/// What is made of a batch: a refusal where no signature is valid, and else as many leaves
/// as there are valid signatures, at least one, and the number of the others.
pub proof fn lemma_batch_counts(
    res: Result<(Vec<u64>, usize), StatementError>,
    entries: Seq<Entry>,
)
    requires
        is_batch_result(res, entries),
    ensures
        res is Err <==> forall|i: int|
            0 <= i < entries.len() ==> !entry_valid(#[trigger] entries[i]),
        entries.len() == 0 ==> res is Err,
        res matches Ok((leaves, rejected)) ==> leaves@.len() == valid_count(
            entries,
            entries.len(),
        ) && leaves@.len() >= 1 && leaves@.len() + rejected == entries.len(),
{
    lemma_leaves_counted(entries, entries.len());
}

/// Collects the leaves of the valid signatures of a batch, in their order, and counts
/// the others. At least one signature must be valid.
pub fn prove_mldsa_batch(entries: &[Entry]) -> (res: Result<(Vec<u64>, usize), StatementError>)
    requires
        forall|i: int| 0 <= i < entries@.len() ==> entry_terminates(#[trigger] entries@[i]),
    ensures
        is_batch_result(res, entries@),
{
    let mut leaves: Vec<u64> = Vec::new();
    let mut rejected: usize = 0;
    let mut i: usize = 0;
    while i < entries.len()
        invariant
            i <= entries.len(),
            forall|k: int| 0 <= k < entries@.len() ==> entry_terminates(#[trigger] entries@[k]),
            leaves@ == valid_leaves(entries@, i as nat),
            rejected == i - leaves@.len(),
        decreases entries.len() - i,
    {
        let e: &Entry = &entries[i];
        proof {
            assert(entry_terminates(entries@[i as int]));
        }
        if verify::ml_dsa_verify(e.0.as_slice(), e.1.as_slice(), e.2.as_slice()) {
            leaves.push(leaf_of(e.0.as_slice(), e.1.as_slice()));
        } else {
            rejected = rejected + 1;
        }
        i = i + 1;
    }
    if leaves.len() == 0 {
        return Err(StatementError::NoValidSignature);
    }
    Ok((leaves, rejected))
}

/// Whether the samplers finish on an entry within their limit, where its key and its
/// signature have their lengths.
pub open spec fn entry_within_limit(e: Entry) -> bool {
    e.0@.len() == crate::mldsa::params::PK_BYTES && e.2@.len() == crate::mldsa::params::SIG_BYTES
        ==> verify::samplers_within_limit(e.0@, e.2@)
}

/// `prove_mldsa_batch` where the samplers finish on every entry within their limit.
pub fn try_prove_mldsa_batch(entries: &[Entry]) -> (res: Option<
    Result<(Vec<u64>, usize), StatementError>,
>)
    ensures
        res is None <==> exists|i: int|
            0 <= i < entries@.len() && !entry_within_limit(#[trigger] entries@[i]),
        res matches Some(r) ==> is_batch_result(r, entries@),
{
    let mut i: usize = 0;
    while i < entries.len()
        invariant
            i <= entries.len(),
            forall|k: int|
                0 <= k < i ==> entry_within_limit(#[trigger] entries@[k]) && entry_terminates(
                    entries@[k],
                ),
        decreases entries.len() - i,
    {
        let e: &Entry = &entries[i];
        if !verify::samplers_fit(e.0.as_slice(), e.2.as_slice()) {
            proof {
                assert(!entry_within_limit(entries@[i as int]));
            }
            return None;
        }
        i = i + 1;
    }
    Some(prove_mldsa_batch(entries))
}

} // verus!
