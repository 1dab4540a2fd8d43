//! What the calls of prover and verifier come to for chains, trees and batches, and for the
//! statements that combine others.
use crate::columns;
use crate::commitment;
use crate::commitment::CommitmentError;
use crate::mldsa::polyvec;
use crate::mldsa::transform;
use crate::mldsa::values;
use crate::mldsa::verify;
use crate::mldsa_az_full_air;
use crate::mldsa_ct1_full_air;
use crate::mldsa_intt_batch_air;
use crate::rows;
use crate::statement_batch;
use crate::statement_chain;
use crate::statement_chain::Entry;
use crate::statement_content;
use crate::statement_faults;
use crate::statement_full;
use crate::statement_ring;
use crate::statement_witness;
use crate::statement_witness::{
    Claim, DifferenceCommitments, Differences, Products, Witness, WitnessCommitments,
};
use crate::transcript;
use crate::transcript::{Circuit, Component, Replay, StatementError, Task, TranscriptView};
use vstd::prelude::*;
use vstd::string::*;
use vstd::utf8::*;

verus! {

/// What the transcript of a chain or a tree holds.
pub open spec fn value_content(
    seed: Seq<u8>,
    circuit: Circuit,
    log_n_rows: u32,
    value: u32,
) -> TranscriptView {
    TranscriptView {
        seeds: if seed.len() == 0 {
            seq![]
        } else {
            seq![commitment::seed_words(seed)]
        },
        components: seq![Component { circuit, log_n_rows }],
        messages: seq![seq![value]],
    }
}

/// A chain of hashes: refused without leaves and above `2^28` rows. A verifier with the same
/// size, seed and proof and the commitment to the value replays the transcript of the seed,
/// the one component and the value; of another text, proof or size it keeps to its own.
pub proof fn lemma_hash_chain_poseidon2_calls(
    leaves: &[u64],
    seed: &[u8],
    log_size: u32,
    value: u32,
    res: Result<Task, StatementError>,
    proof_bytes: &[u8],
    made: String,
    text: &str,
    min: u32,
    rep: Result<Replay, StatementError>,
    read: Result<u32, CommitmentError>,
)
    requires
        call_ensures(statement_chain::prove_hash_chain_poseidon2, (leaves, seed, log_size, value), res),
        call_ensures(commitment::build_commitment_128, (value, proof_bytes), made),
        call_ensures(
            statement_chain::verify_hash_chain_poseidon2,
            (proof_bytes, text, log_size, min, seed),
            rep,
        ),
        call_ensures(commitment::parse_commitment_128, (text, proof_bytes), read),
    ensures
        leaves@.len() == 0 ==> res == Err::<Task, StatementError>(StatementError::Empty),
        leaves@.len() > 0 && log_size > 28 ==> res == Err::<Task, StatementError>(
            StatementError::TooLarge { log_size },
        ),
        leaves@.len() > 0 && log_size <= 28 ==> res is Ok && res->Ok_0.transcript@
            == value_content(seed@, Circuit::HashChain, log_size, value) && res->Ok_0.log_size
            == log_size && res->Ok_0.preprocessed@.len() == 0 && res->Ok_0.traces@.len() == 1,
        min > log_size || log_size > 28 ==> rep == Err::<Replay, StatementError>(
            StatementError::LogSize { log_size, min },
        ),
        min <= log_size <= 28 ==> {
            &&& rep is Ok <==> read is Ok
            &&& read is Ok ==> rep->Ok_0.transcript@ == value_content(
                seed@,
                Circuit::HashChain,
                log_size,
                read->Ok_0,
            ) && rep->Ok_0.lifting is None
        },
        text@ == made@ && value < 0x7fffffff ==> read == Ok::<u32, CommitmentError>(value),
{
    let c = Component { circuit: Circuit::HashChain, log_n_rows: log_size };
    statement_content::lemma_value_content(seed@, c, value);
    if res is Ok {
        let views = transcript::traces_view(res->Ok_0.traces@);
        assert(views.len() == 1);
    }
    if read is Ok {
        statement_content::lemma_value_content(seed@, c, read->Ok_0);
    }
    if text@ == made@ && value < 0x7fffffff {
        commitment::lemma_commitment_128_roundtrip(value, proof_bytes@);
    }
}

/// A chain of hashes under the root of a tree: refused without leaves and above `2^28` rows. A verifier with the same
/// size, seed and proof and the commitment to the value replays the transcript of the seed,
/// the one component and the value; of another text, proof or size it keeps to its own.
pub proof fn lemma_hash_chain_calls(
    leaves: &[u64],
    seed: &[u8],
    log_size: u32,
    value: u32,
    res: Result<Task, StatementError>,
    proof_bytes: &[u8],
    made: String,
    text: &str,
    min: u32,
    rep: Result<Replay, StatementError>,
    read: Result<u32, CommitmentError>,
)
    requires
        call_ensures(statement_chain::prove_hash_chain, (leaves, seed, log_size, value), res),
        call_ensures(commitment::build_commitment_128, (value, proof_bytes), made),
        call_ensures(
            statement_chain::verify_hash_chain,
            (proof_bytes, text, log_size, min, seed),
            rep,
        ),
        call_ensures(commitment::parse_commitment_128, (text, proof_bytes), read),
    ensures
        leaves@.len() == 0 ==> res == Err::<Task, StatementError>(StatementError::Empty),
        leaves@.len() > 0 && log_size > 28 ==> res == Err::<Task, StatementError>(
            StatementError::TooLarge { log_size },
        ),
        leaves@.len() > 0 && log_size <= 28 ==> res is Ok && res->Ok_0.transcript@
            == value_content(seed@, Circuit::HashChain, log_size, value) && res->Ok_0.log_size
            == log_size && res->Ok_0.preprocessed@.len() == 0 && res->Ok_0.traces@.len() == 1,
        min > log_size || log_size > 28 ==> rep == Err::<Replay, StatementError>(
            StatementError::LogSize { log_size, min },
        ),
        min <= log_size <= 28 ==> {
            &&& rep is Ok <==> read is Ok
            &&& read is Ok ==> rep->Ok_0.transcript@ == value_content(
                seed@,
                Circuit::HashChain,
                log_size,
                read->Ok_0,
            ) && rep->Ok_0.lifting is None
        },
        text@ == made@ && value < 0x7fffffff ==> read == Ok::<u32, CommitmentError>(value),
{
    let c = Component { circuit: Circuit::HashChain, log_n_rows: log_size };
    statement_content::lemma_value_content(seed@, c, value);
    if res is Ok {
        let views = transcript::traces_view(res->Ok_0.traces@);
        assert(views.len() == 1);
    }
    if read is Ok {
        statement_content::lemma_value_content(seed@, c, read->Ok_0);
    }
    if text@ == made@ && value < 0x7fffffff {
        commitment::lemma_commitment_128_roundtrip(value, proof_bytes@);
    }
}

/// A tree of hashes: refused without leaves and above `2^28` rows. A verifier with the same
/// size, seed and proof and the commitment to the value replays the transcript of the seed,
/// the one component and the value; of another text, proof or size it keeps to its own.
pub proof fn lemma_merkle_root_calls(
    leaves: &[u64],
    seed: &[u8],
    log_size: u32,
    value: u32,
    res: Result<Task, StatementError>,
    proof_bytes: &[u8],
    made: String,
    text: &str,
    min: u32,
    rep: Result<Replay, StatementError>,
    read: Result<u32, CommitmentError>,
)
    requires
        call_ensures(statement_chain::prove_merkle_root, (leaves, seed, log_size, value), res),
        call_ensures(commitment::build_commitment_128, (value, proof_bytes), made),
        call_ensures(
            statement_chain::verify_merkle_root,
            (proof_bytes, text, log_size, min, seed),
            rep,
        ),
        call_ensures(commitment::parse_commitment_128, (text, proof_bytes), read),
    ensures
        leaves@.len() == 0 ==> res == Err::<Task, StatementError>(StatementError::Empty),
        leaves@.len() > 0 && log_size > 28 ==> res == Err::<Task, StatementError>(
            StatementError::TooLarge { log_size },
        ),
        leaves@.len() > 0 && log_size <= 28 ==> res is Ok && res->Ok_0.transcript@
            == value_content(seed@, Circuit::MerkleRoot, log_size, value) && res->Ok_0.log_size
            == log_size && res->Ok_0.preprocessed@.len() == 0 && res->Ok_0.traces@.len() == 1,
        min > log_size || log_size > 28 ==> rep == Err::<Replay, StatementError>(
            StatementError::LogSize { log_size, min },
        ),
        min <= log_size <= 28 ==> {
            &&& rep is Ok <==> read is Ok
            &&& read is Ok ==> rep->Ok_0.transcript@ == value_content(
                seed@,
                Circuit::MerkleRoot,
                log_size,
                read->Ok_0,
            ) && rep->Ok_0.lifting is None
        },
        text@ == made@ && value < 0x7fffffff ==> read == Ok::<u32, CommitmentError>(value),
{
    let c = Component { circuit: Circuit::MerkleRoot, log_n_rows: log_size };
    statement_content::lemma_value_content(seed@, c, value);
    if res is Ok {
        let views = transcript::traces_view(res->Ok_0.traces@);
        assert(views.len() == 1);
    }
    if read is Ok {
        statement_content::lemma_value_content(seed@, c, read->Ok_0);
    }
    if text@ == made@ && value < 0x7fffffff {
        commitment::lemma_commitment_128_roundtrip(value, proof_bytes@);
    }
}

/// A batch of signatures: refused where none is valid, and else the leaves of the valid ones
/// in order and the number of the others. Where `at` lists the valid entries, leaf `k` is
/// what entry `at[k]` gives by itself.
pub proof fn lemma_signature_batch_calls(
    entries: &[Entry],
    res: Result<(Vec<u64>, usize), StatementError>,
    at: Seq<int>,
    k: int,
    pk: &[u8],
    msg: &[u8],
    leaf: u64,
)
    requires
        call_ensures(statement_chain::prove_mldsa_batch, (entries,), res) || call_ensures(
            statement_chain::try_prove_mldsa_batch,
            (entries,),
            Some(res),
        ),
        forall|i: int| 0 <= i < at.len() ==> 0 <= #[trigger] at[i] < entries@.len(),
        forall|i: int, j: int| 0 <= i < j < at.len() ==> #[trigger] at[i] < #[trigger] at[j],
        forall|i: int|
            0 <= i < entries@.len() ==> (verify::is_valid(
                (#[trigger] entries@[i]).0@,
                entries@[i].1@,
                entries@[i].2@,
            ) <==> at.contains(i)),
        0 <= k < at.len() ==> pk@ == entries@[at[k]].0@ && msg@ == entries@[at[k]].1@,
        call_ensures(statement_chain::leaf_of, (pk, msg), leaf),
    ensures
        at.len() == 0 ==> res == Err::<(Vec<u64>, usize), StatementError>(
            StatementError::NoValidSignature,
        ),
        at.len() > 0 ==> res is Ok && res->Ok_0.0@.len() == at.len() && res->Ok_0.1
            == entries@.len() - at.len(),
        0 <= k < at.len() ==> res->Ok_0.0@[k] == leaf,
{
    assert forall|i: int| 0 <= i < entries@.len() implies (statement_chain::entry_valid(
        #[trigger] entries@[i],
    ) <==> at.contains(i)) by {}
    statement_faults::lemma_leaves_listed(entries@, entries@.len(), at);
}

/// What two texts are held to be: commitments to these fingerprints.
pub open spec fn commits_to_fp(text: Seq<u8>, fp: Seq<u32>) -> bool {
    text == encode_utf8(commitment::poly_commitment(fp))
}

/// The matrix product and the products with a challenge together: what each of them is by
/// itself, and one transcript that a verifier with the inputs replays.
pub proof fn lemma_az_ct1_calls(
    a: &[[i64; 256]],
    z: &[[i64; 256]; 5],
    c: &[i64; 256],
    t1: &[[i64; 256]; 6],
    seed: &[u8],
    res: Result<(Task, String, String, [[i64; 256]; 6], [[i64; 256]; 6]), StatementError>,
    az_text: &str,
    ct1_text: &str,
    rep: Result<Replay, StatementError>,
    az: Result<(Task, String, [[i64; 256]; 6]), StatementError>,
    ct1: Result<(Task, String, [[i64; 256]; 6]), StatementError>,
    i: int,
    p: int,
)
    requires
        call_ensures(statement_full::prove_az_ct1_combined, (a, z, c, t1, seed), res),
        call_ensures(
            statement_full::verify_az_ct1_combined,
            (az_text, ct1_text, z, c, t1, seed),
            rep,
        ),
        call_ensures(statement_batch::prove_az_full, (a, z, seed), az),
        call_ensures(statement_batch::prove_ct1_full, (c, t1, seed), ct1),
        0 <= i < 6,
        0 <= p < 256,
    ensures
        res is Ok <==> a@.len() == 30,
        res is Ok && az is Ok ==> res->Ok_0.3@[i]@[p] == az->Ok_0.2@[i]@[p] && res->Ok_0.1@
            == az->Ok_0.1@,
        res is Ok && ct1 is Ok ==> res->Ok_0.4@[i]@[p] == ct1->Ok_0.2@[i]@[p] && res->Ok_0.2@
            == ct1->Ok_0.1@,
        res is Ok && az is Ok && ct1 is Ok ==> transcript::traces_view(res->Ok_0.0.traces@)
            == transcript::traces_view(az->Ok_0.0.traces@) + transcript::traces_view(
            ct1->Ok_0.0.traces@,
        ),
        res is Ok && az_text@ == res->Ok_0.1@ && ct1_text@ == res->Ok_0.2@ ==> {
            &&& rep is Ok
            &&& rep->Ok_0.transcript@ == res->Ok_0.0.transcript@
            &&& rep->Ok_0.lifting is None
            &&& res->Ok_0.0.log_size == 8
            &&& res->Ok_0.0.traces@.len() == 2
            &&& res->Ok_0.0.transcript@ == (TranscriptView {
                seeds: if seed@.len() == 0 {
                    seq![]
                } else {
                    seq![commitment::seed_words(seed@)]
                },
                components: seq![
                    Component { circuit: Circuit::AzFull, log_n_rows: 8 },
                    Component { circuit: Circuit::Ct1Full, log_n_rows: 8 },
                ],
                messages: seq![
                    commitment::fingerprint(transcript::flat(polyvec::polys(z@))),
                    commitment::fingerprint(transcript::flat(polyvec::polys(res->Ok_0.3@))),
                    commitment::fingerprint(
                        transcript::flat(seq![transform::ints(c@)] + polyvec::polys(t1@)),
                    ),
                    commitment::fingerprint(transcript::flat(polyvec::polys(res->Ok_0.4@))),
                ],
            })
        },
{
    if res is Ok {
        let x = polyvec::polys(res->Ok_0.3@);
        let y = polyvec::polys(res->Ok_0.4@);
        assert(x[i][p] == res->Ok_0.3@[i]@[p]);
        assert(y[i][p] == res->Ok_0.4@[i]@[p]);
        if az is Ok {
            assert(polyvec::polys(az->Ok_0.2@)[i][p] == az->Ok_0.2@[i]@[p]);
        }
        if ct1 is Ok {
            assert(polyvec::polys(ct1->Ok_0.2@)[i][p] == ct1->Ok_0.2@[i]@[p]);
        }
        statement_content::lemma_az_ct1_content(
            seed@,
            polyvec::polys(z@),
            transform::ints(c@),
            polyvec::polys(t1@),
            commitment::fingerprint(transcript::flat(x)),
            commitment::fingerprint(transcript::flat(y)),
        );
        statement_ring::lemma_commitment_read_back(transcript::flat(x));
        statement_ring::lemma_commitment_read_back(transcript::flat(y));
        let views = transcript::traces_view(res->Ok_0.0.traces@);
        assert(views.len() == 2);
        if az is Ok && ct1 is Ok {
            assert(views =~= transcript::traces_view(az->Ok_0.0.traces@) + transcript::traces_view(
                ct1->Ok_0.0.traces@,
            ));
        }
    }
}

/// The norms and the hinted high parts together: what each of them is by itself, and one
/// transcript that a verifier with the high parts and the weight replays.
pub proof fn lemma_norm_hint_calls(
    z: &[[i64; 256]; 5],
    w: &[[i64; 256]; 6],
    h: &[[bool; 256]; 6],
    res: (Task, String, String, [i64; 5], [[i64; 256]; 6], usize),
    norm_text: &str,
    uh_text: &str,
    w1: &[[i64; 256]; 6],
    weight: usize,
    rep: Result<Option<Replay>, StatementError>,
    norm: Result<(Task, String, [[i64; 256]; 5], [i64; 5]), StatementError>,
    uh: Result<(Task, String, [[i64; 256]; 6], usize), StatementError>,
    j: int,
    i: int,
    p: int,
)
    requires
        call_ensures(statement_full::prove_norm_use_hint_combined, (z, w, h), res),
        call_ensures(
            statement_full::verify_norm_use_hint_combined,
            (norm_text, uh_text, w1, weight),
            rep,
        ),
        call_ensures(statement_batch::prove_norm_check_batch, (z,), norm),
        call_ensures(statement_batch::prove_use_hint_batch_v2, (w, h), uh),
        0 <= j < 5,
        0 <= i < 6,
        0 <= p < 256,
    ensures
        norm is Ok ==> res.1@ == norm->Ok_0.1@ && res.3@[j] == norm->Ok_0.3@[j],
        uh is Ok ==> res.2@ == uh->Ok_0.1@ && res.4@[i]@[p] == uh->Ok_0.2@[i]@[p] && res.5
            == uh->Ok_0.3,
        norm is Ok && uh is Ok ==> transcript::traces_view(res.0.traces@)
            == transcript::traces_view(norm->Ok_0.0.traces@) + transcript::traces_view(
            uh->Ok_0.0.traces@,
        ),
        norm is Ok && norm_text@ == res.1@ && uh_text@ == res.2@ && w1@ == res.4@ && weight == res.5
            ==> {
            &&& rep matches Ok(Some(r)) && r.transcript@ == res.0.transcript@ && r.lifting is None
            &&& res.0.log_size == 8
            &&& res.0.traces@.len() == 2
            &&& res.0.transcript@ == (TranscriptView {
                seeds: seq![],
                components: seq![
                    Component { circuit: Circuit::NormCheckBatch, log_n_rows: 8 },
                    Component { circuit: Circuit::UseHintWeight, log_n_rows: 8 },
                ],
                messages: seq![
                    commitment::fingerprint(transcript::flat(polyvec::polys(norm->Ok_0.2@))),
                    commitment::fingerprint(
                        transcript::flat(polyvec::polys(res.4@)).push(res.5 as int),
                    ),
                ],
            })
        },
        rep is Ok && rep->Ok_0 is Some ==> commits_to_fp(
            uh_text.spec_bytes(),
            commitment::fingerprint(transcript::flat(polyvec::polys(w1@)).push(weight as int)),
        ),
{
    let zs = polyvec::polys(z@);
    let hs = rows::hint_rows(h@);
    assert(polyvec::polys(res.4@)[i][p] == res.4@[i]@[p]);
    if uh is Ok {
        assert(polyvec::polys(uh->Ok_0.2@)[i][p] == uh->Ok_0.2@[i]@[p]);
    }
    let nfp = commitment::fingerprint(transcript::flat(statement_batch::all_norms(zs)));
    let ufp = commitment::fingerprint(
        transcript::flat(polyvec::polys(res.4@)).push(res.5 as int),
    );
    statement_content::lemma_norm_hint_content(nfp, ufp);
    statement_ring::lemma_commitment_read_back(
        transcript::flat(statement_batch::all_norms(zs)),
    );
    let views = transcript::traces_view(res.0.traces@);
    assert(views.len() == 2);
    if norm is Ok && uh is Ok {
        assert(views =~= transcript::traces_view(norm->Ok_0.0.traces@) + transcript::traces_view(
            uh->Ok_0.0.traces@,
        ));
    }
}

/// The products, the norms and the hinted high parts together: what their parts are by
/// themselves, and one transcript that a verifier with the inputs and outputs replays.
pub proof fn lemma_az_ct1_norm_hint_calls(
    a: &[[i64; 256]],
    zh: &[[i64; 256]; 5],
    c: &[i64; 256],
    t1: &[[i64; 256]; 6],
    z: &[[i64; 256]; 5],
    w: &[[i64; 256]; 6],
    h: &[[bool; 256]; 6],
    seed: &[u8],
    res: (
        Task,
        (String, String, String, String),
        [[i64; 256]; 6],
        [[i64; 256]; 6],
        [i64; 5],
        [[i64; 256]; 6],
        usize,
    ),
    texts: (&str, &str, &str, &str),
    outs: (&[[i64; 256]; 6], &[[i64; 256]; 6], &[[i64; 256]; 6]),
    weight: usize,
    rep: Result<Option<Replay>, StatementError>,
    first: Result<(Task, String, String, [[i64; 256]; 6], [[i64; 256]; 6]), StatementError>,
    second: (Task, String, String, [i64; 5], [[i64; 256]; 6], usize),
    i: int,
    p: int,
)
    requires
        call_ensures(
            statement_full::prove_az_ct1_norm_use_hint_combined,
            (a, zh, c, t1, z, w, h, seed),
            res,
        ),
        call_ensures(
            statement_full::verify_az_ct1_norm_use_hint_combined,
            (
                texts.0,
                texts.1,
                texts.2,
                texts.3,
                zh,
                c,
                t1,
                outs.0,
                outs.1,
                outs.2,
                weight,
                seed,
            ),
            rep,
        ),
        call_ensures(statement_full::prove_az_ct1_combined, (a, zh, c, t1, seed), first),
        call_ensures(statement_full::prove_norm_use_hint_combined, (z, w, h), second),
        first is Ok,
        0 <= i < 6,
        0 <= p < 256,
    ensures
        res.1.0@ == first->Ok_0.1@,
        res.1.1@ == first->Ok_0.2@,
        res.1.2@ == second.1@,
        res.1.3@ == second.2@,
        res.2@[i]@[p] == first->Ok_0.3@[i]@[p],
        res.3@[i]@[p] == first->Ok_0.4@[i]@[p],
        res.4@ == second.3@,
        res.5@[i]@[p] == second.4@[i]@[p],
        res.6 == second.5,
        res.0.log_size == 8,
        transcript::traces_view(res.0.traces@) == transcript::traces_view(first->Ok_0.0.traces@)
            + transcript::traces_view(second.0.traces@),
        res.0.transcript@ == (TranscriptView {
            seeds: first->Ok_0.0.transcript@.seeds,
            components: first->Ok_0.0.transcript@.components + second.0.transcript@.components,
            messages: first->Ok_0.0.transcript@.messages + second.0.transcript@.messages,
        }),
        texts.0@ == res.1.0@ && texts.1@ == res.1.1@ && texts.2@ == res.1.2@ && texts.3@
            == res.1.3@ && outs.0@ == res.2@ && outs.1@ == res.3@ && outs.2@ == res.5@ && weight
            == res.6 ==> (rep matches Ok(Some(r)) && r.transcript@ == res.0.transcript@
            && r.lifting is None),
        rep is Ok && rep->Ok_0 is Some ==> {
            &&& commits_to_fp(
                texts.0.spec_bytes(),
                commitment::fingerprint(transcript::flat(polyvec::polys(outs.0@))),
            )
            &&& commits_to_fp(
                texts.1.spec_bytes(),
                commitment::fingerprint(transcript::flat(polyvec::polys(outs.1@))),
            )
            &&& commits_to_fp(
                texts.3.spec_bytes(),
                commitment::fingerprint(
                    transcript::flat(polyvec::polys(outs.2@)).push(weight as int),
                ),
            )
        },
{
    let zs = polyvec::polys(z@);
    assert(polyvec::polys(res.2@)[i][p] == res.2@[i]@[p]);
    assert(polyvec::polys(res.3@)[i][p] == res.3@[i]@[p]);
    assert(polyvec::polys(res.5@)[i][p] == res.5@[i]@[p]);
    assert(polyvec::polys(first->Ok_0.3@)[i][p] == first->Ok_0.3@[i]@[p]);
    assert(polyvec::polys(first->Ok_0.4@)[i][p] == first->Ok_0.4@[i]@[p]);
    assert(polyvec::polys(second.4@)[i][p] == second.4@[i]@[p]);
    assert(res.4@ =~= second.3@);
    let azfp = commitment::fingerprint(transcript::flat(polyvec::polys(res.2@)));
    let ctfp = commitment::fingerprint(transcript::flat(polyvec::polys(res.3@)));
    let nfp = commitment::fingerprint(transcript::flat(statement_batch::all_norms(zs)));
    let ufp = commitment::fingerprint(
        transcript::flat(polyvec::polys(res.5@)).push(res.6 as int),
    );
    let cs = transform::ints(c@);
    lemma_products_and_hints(
        seed@,
        polyvec::polys(zh@),
        cs,
        polyvec::polys(t1@),
        azfp,
        ctfp,
        nfp,
        ufp,
    );
    statement_ring::lemma_commitment_read_back(
        transcript::flat(statement_batch::all_norms(zs)),
    );
    let views = transcript::traces_view(res.0.traces@);
    assert(views =~= transcript::traces_view(first->Ok_0.0.traces@) + transcript::traces_view(
        second.0.traces@,
    ));
}

/// The transcript of the products, norms and hints is made of those of its two parts.
proof fn lemma_products_and_hints(
    seed: Seq<u8>,
    z: Seq<Seq<int>>,
    c: Seq<int>,
    t1: Seq<Seq<int>>,
    az: Seq<u32>,
    ct1: Seq<u32>,
    norm: Seq<u32>,
    uh: Seq<u32>,
)
    ensures
        ({
            let t = statement_full::az_ct1_transcript(seed, z, c, t1, az, ct1);
            let u = statement_full::norm_hint_transcript(norm, uh);
            statement_full::az_ct1_norm_hint_transcript(seed, z, c, t1, az, ct1, norm, uh) == (
            TranscriptView {
                seeds: t.seeds,
                components: t.components + u.components,
                messages: t.messages + u.messages,
            })
        }),
{
    statement_content::lemma_az_ct1_norm_hint_content(seed, z, c, t1, az, ct1, norm, uh);
    statement_content::lemma_az_ct1_content(seed, z, c, t1, az, ct1);
    statement_content::lemma_norm_hint_content(norm, uh);
    let t = statement_full::az_ct1_transcript(seed, z, c, t1, az, ct1);
    let u = statement_full::norm_hint_transcript(norm, uh);
    let v = statement_full::az_ct1_norm_hint_transcript(seed, z, c, t1, az, ct1, norm, uh);
    assert(v.components =~= t.components + u.components);
    assert(v.messages =~= t.messages + u.messages);
}

/// Twelve transforms and the products of them: the transforms of the response, the challenge
/// and `t1`, what the statement on products gives for them, and one transcript that a
/// verifier with all of them replays if and only if the commitments are to them.
pub proof fn lemma_ntt_az_ct1_calls(
    z: &[[i64; 256]; 5],
    c: &[i64; 256],
    t1: &[[i64; 256]; 6],
    a: &[[i64; 256]],
    seed: &[u8],
    res: Result<(Task, (String, String, String), Products), StatementError>,
    texts: (&str, &str, &str),
    zh: &[[i64; 256]],
    ch: &[i64; 256],
    th: &[[i64; 256]],
    outs: (&[[i64; 256]; 6], &[[i64; 256]; 6]),
    rep: Option<Replay>,
    i: int,
    j: int,
    p: int,
)
    requires
        call_ensures(
            statement_witness::prove_ntt_az_ct1_combined,
            (z, c, t1, a, seed),
            res,
        ),
        call_ensures(
            statement_witness::verify_ntt_az_ct1_combined,
            (texts.0, texts.1, texts.2, zh, ch, th, outs.0, outs.1, seed),
            rep,
        ),
        0 <= i < 6,
        0 <= j < 5,
        0 <= p < 256,
    ensures
        res is Ok <==> a@.len() == 30,
        res is Err ==> res == Err::<(Task, (String, String, String), Products), StatementError>(
            StatementError::MatrixSize { got: a@.len() as usize },
        ),
        res is Ok ==> {
            let r = res->Ok_0.2;
            &&& transform::ints(r.z_hat@[j]@) == transform::ntt_of(transform::ints(z@[j]@))
            &&& transform::ints(r.c_hat@) == transform::ntt_of(transform::ints(c@))
            &&& transform::ints(r.t1_hat@[i]@) == transform::ntt_of(transform::ints(t1@[i]@))
            &&& r.az_hat@[i]@[p] as int == (a@[5 * i]@[p] * r.z_hat@[0]@[p] + a@[5 * i + 1]@[p]
                * r.z_hat@[1]@[p] + a@[5 * i + 2]@[p] * r.z_hat@[2]@[p] + a@[5 * i + 3]@[p]
                * r.z_hat@[3]@[p] + a@[5 * i + 4]@[p] * r.z_hat@[4]@[p]) % 8380417
            &&& r.ct1_hat@[i]@[p] as int == (r.c_hat@[p] * r.t1_hat@[i]@[p]) % 8380417
        },
        rep is Some <==> {
            &&& commits_to_fp(
                texts.0.spec_bytes(),
                commitment::fingerprint(
                    transcript::flat(
                        polyvec::polys(zh@) + seq![transform::ints(ch@)] + polyvec::polys(th@),
                    ),
                ),
            )
            &&& commits_to_fp(
                texts.1.spec_bytes(),
                commitment::fingerprint(transcript::flat(polyvec::polys(outs.0@))),
            )
            &&& commits_to_fp(
                texts.2.spec_bytes(),
                commitment::fingerprint(transcript::flat(polyvec::polys(outs.1@))),
            )
        },
        rep is Some ==> rep->Some_0.lifting is None && rep->Some_0.transcript@ == (TranscriptView {
            seeds: if seed@.len() == 0 {
                seq![]
            } else {
                seq![commitment::seed_words(seed@)]
            },
            components: seq![
                Component { circuit: Circuit::NttBatch { n_polys: 12 }, log_n_rows: 10 },
                Component { circuit: Circuit::AzFull, log_n_rows: 8 },
                Component { circuit: Circuit::Ct1Full, log_n_rows: 8 },
            ],
            messages: seq![
                commitment::fingerprint(
                    transcript::flat(
                        polyvec::polys(zh@) + seq![transform::ints(ch@)] + polyvec::polys(th@),
                    ),
                ),
                commitment::fingerprint(transcript::flat(polyvec::polys(outs.0@))),
                commitment::fingerprint(transcript::flat(polyvec::polys(outs.1@))),
            ],
        }),
        res is Ok && texts.0@ == res->Ok_0.1.0@ && texts.1@ == res->Ok_0.1.1@ && texts.2@
            == res->Ok_0.1.2@ && zh@ == res->Ok_0.2.z_hat@ && ch@ == res->Ok_0.2.c_hat@ && th@
            == res->Ok_0.2.t1_hat@ && outs.0@ == res->Ok_0.2.az_hat@ && outs.1@
            == res->Ok_0.2.ct1_hat@ ==> rep is Some && rep->Some_0.transcript@
            == res->Ok_0.0.transcript@ && res->Ok_0.0.log_size == 10
            && res->Ok_0.0.traces@.len() == 3,
        res is Ok ==> {
            let traces = transcript::traces_view(res->Ok_0.0.traces@);
            let r = res->Ok_0.2;
            &&& traces.len() == 3
            &&& traces[0] is None
            &&& traces[1] == Some(
                columns::columns(
                    mldsa_az_full_air::full_table(
                        mldsa_az_full_air::matrix_of(polyvec::polys(a@)),
                        polyvec::polys(r.z_hat@),
                    ),
                    1523,
                ),
            )
            &&& traces[2] == Some(
                columns::columns(
                    mldsa_ct1_full_air::ct1_table(
                        transform::ints(r.c_hat@),
                        polyvec::polys(r.t1_hat@),
                    ),
                    295,
                ),
            )
        },
{
    let nfp = commitment::fingerprint(
        transcript::flat(polyvec::polys(zh@) + seq![transform::ints(ch@)] + polyvec::polys(th@)),
    );
    let afp = commitment::fingerprint(transcript::flat(polyvec::polys(outs.0@)));
    let cfp = commitment::fingerprint(transcript::flat(polyvec::polys(outs.1@)));
    statement_content::lemma_ntt_az_ct1_content(seed@, nfp, afp, cfp);
    if res is Ok {
        let r = res->Ok_0.2;
        let views = transcript::traces_view(res->Ok_0.0.traces@);
        assert(views.len() == 3);
        let x = polyvec::polys(a@);
        let y = polyvec::polys(r.z_hat@);
        let t = polyvec::polys(r.t1_hat@);
        assert(y[j] == transform::ints(r.z_hat@[j]@));
        assert(polyvec::polys(z@)[j] == transform::ints(z@[j]@));
        assert(t[i] == transform::ints(r.t1_hat@[i]@));
        assert(polyvec::polys(t1@)[i] == transform::ints(t1@[i]@));
        let m = mldsa_az_full_air::matrix_of(x);
        assert(polyvec::polys(r.az_hat@)[i][p] == r.az_hat@[i]@[p]);
        assert(polyvec::polys(r.ct1_hat@)[i][p] == r.ct1_hat@[i]@[p]);
        values::lemma_product_entry(m, y, i, p);
        values::lemma_entrywise(transform::ints(r.c_hat@), t[i], 0, p);
        assert(m[i][0] == x[5 * i] && m[i][1] == x[5 * i + 1] && m[i][2] == x[5 * i + 2]);
        assert(m[i][3] == x[5 * i + 3] && m[i][4] == x[5 * i + 4]);
        assert(x[5 * i][p] == a@[5 * i]@[p] && x[5 * i + 1][p] == a@[5 * i + 1]@[p]);
        assert(x[5 * i + 2][p] == a@[5 * i + 2]@[p] && x[5 * i + 3][p] == a@[5 * i + 3]@[p]);
        assert(x[5 * i + 4][p] == a@[5 * i + 4]@[p]);
        assert(y[0][p] == r.z_hat@[0]@[p] && y[1][p] == r.z_hat@[1]@[p]);
        assert(y[2][p] == r.z_hat@[2]@[p] && y[3][p] == r.z_hat@[3]@[p]);
        assert(y[4][p] == r.z_hat@[4]@[p]);
        assert(t[i][p] == r.t1_hat@[i]@[p] && transform::ints(r.c_hat@)[p] == r.c_hat@[p]);
    }
}

/// Twelve inverse transforms and their differences: each output has its input for transform,
/// the differences are taken place by place, and a verifier with all of them replays the
/// transcript if and only if the commitments are to them.
pub proof fn lemma_intt_wprime_calls(
    a: &[[i64; 256]; 6],
    b: &[[i64; 256]; 6],
    res: (Task, (String, String), [[i64; 256]; 6], [[i64; 256]; 6], [[i64; 256]; 6]),
    texts: (&str, &str),
    outs: (&[[i64; 256]; 6], &[[i64; 256]; 6], &[[i64; 256]; 6]),
    rep: Option<Replay>,
    i: int,
    p: int,
)
    requires
        call_ensures(statement_witness::prove_intt_wprime_combined, (a, b), res),
        call_ensures(
            statement_witness::verify_intt_wprime_combined,
            (texts.0, texts.1, a, b, outs.0, outs.1, outs.2),
            rep,
        ),
        polyvec::all_elems(polyvec::polys(a@)),
        polyvec::all_elems(polyvec::polys(b@)),
        0 <= i < 6,
        0 <= p < 256,
    ensures
        transform::ntt_of(transform::ints(res.2@[i]@)) == transform::ints(a@[i]@),
        transform::ntt_of(transform::ints(res.3@[i]@)) == transform::ints(b@[i]@),
        res.4@[i]@[p] as int == (res.2@[i]@[p] - res.3@[i]@[p]) % 8380417,
        rep is Some <==> {
            &&& commits_to_fp(
                texts.0.spec_bytes(),
                commitment::fingerprint(
                    transcript::flat(polyvec::polys(outs.0@) + polyvec::polys(outs.1@)),
                ),
            )
            &&& commits_to_fp(
                texts.1.spec_bytes(),
                commitment::fingerprint(transcript::flat(polyvec::polys(outs.2@))),
            )
        },
        rep is Some ==> {
            let t = rep->Some_0.transcript@;
            &&& rep->Some_0.lifting is None
            &&& t.seeds == Seq::<Seq<u32>>::empty()
            &&& t.components == seq![
                Component { circuit: Circuit::InttBatch { n_polys: 12 }, log_n_rows: 10 },
                Component { circuit: Circuit::WPrimeFull, log_n_rows: 8 },
            ]
            &&& t.messages.len() == 14
            &&& t.messages[i] == commitment::fingerprint(transform::ints(a@[i]@))
            &&& t.messages[6 + i] == commitment::fingerprint(transform::ints(b@[i]@))
            &&& t.messages[12] == commitment::fingerprint(
                transcript::flat(polyvec::polys(outs.0@) + polyvec::polys(outs.1@)),
            )
            &&& t.messages[13] == commitment::fingerprint(
                transcript::flat(polyvec::polys(outs.2@)),
            )
        },
        texts.0@ == res.1.0@ && texts.1@ == res.1.1@ && outs.0@ == res.2@ && outs.1@ == res.3@
            && outs.2@ == res.4@ ==> rep is Some && rep->Some_0.transcript@ == res.0.transcript@
            && res.0.log_size == 10,
        ({
            let traces = transcript::traces_view(res.0.traces@);
            &&& traces.len() == 2
            &&& traces[0] == Some(
                columns::columns(
                    mldsa_intt_batch_air::batch_table(polyvec::polys(a@) + polyvec::polys(b@)),
                    649,
                ),
            )
            &&& traces[1] is None
        }),
{
    let x = polyvec::polys(a@);
    let y = polyvec::polys(b@);
    let ifp = commitment::fingerprint(
        transcript::flat(polyvec::polys(outs.0@) + polyvec::polys(outs.1@)),
    );
    let wfp = commitment::fingerprint(transcript::flat(polyvec::polys(outs.2@)));
    statement_content::lemma_intt_wprime_content(x + y, ifp, wfp);
    let views = transcript::traces_view(res.0.traces@);
    assert(views.len() == 2);
    lemma_inverse_rows(a, b, res.2, res.3, res.4, i, p);
    assert((x + y)[i] == transform::ints(a@[i]@));
    assert((x + y)[6 + i] == transform::ints(b@[i]@));
}

proof fn lemma_inverse_rows(
    a: &[[i64; 256]; 6],
    b: &[[i64; 256]; 6],
    x: [[i64; 256]; 6],
    y: [[i64; 256]; 6],
    w: [[i64; 256]; 6],
    i: int,
    p: int,
)
    requires
        polyvec::all_elems(polyvec::polys(a@)),
        polyvec::all_elems(polyvec::polys(b@)),
        polyvec::polys(x@) == polyvec::vec_intt(polyvec::polys(a@)),
        polyvec::polys(y@) == polyvec::vec_intt(polyvec::polys(b@)),
        polyvec::polys(w@) == polyvec::vec_sub(polyvec::polys(x@), polyvec::polys(y@)),
        0 <= i < 6,
        0 <= p < 256,
    ensures
        transform::ntt_of(transform::ints(x@[i]@)) == transform::ints(a@[i]@),
        transform::ntt_of(transform::ints(y@[i]@)) == transform::ints(b@[i]@),
        w@[i]@[p] as int == (x@[i]@[p] - y@[i]@[p]) % 8380417,
{
    let (xs, ys, ws) = (polyvec::polys(x@), polyvec::polys(y@), polyvec::polys(w@));
    let (u, v) = (polyvec::polys(a@), polyvec::polys(b@));
    assert(xs[i] == transform::ints(x@[i]@) && ys[i] == transform::ints(y@[i]@));
    assert(u[i] == transform::ints(a@[i]@) && v[i] == transform::ints(b@[i]@));
    assert(transform::is_elem(u[i]) && transform::is_elem(v[i]));
    transform::lemma_ntt_of_intt(u[i]);
    transform::lemma_ntt_of_intt(v[i]);
    statement_faults::lemma_vector_outputs(xs, ys, i, p);
    assert(ws[i][p] == w@[i]@[p] && xs[i][p] == x@[i]@[p] && ys[i][p] == y@[i]@[p]);
}

/// Twelve inverse transforms, their differences, norms and hinted high parts: what the
/// statements on the parts give, and a transcript that a verifier with the outputs replays,
/// lifted to `2^16`.
pub proof fn lemma_intt_hint_calls(
    a: &[[i64; 256]; 6],
    b: &[[i64; 256]; 6],
    z: &[[i64; 256]; 5],
    h: &[[bool; 256]; 6],
    res: (Task, DifferenceCommitments, Differences),
    outs: (&[[i64; 256]; 6], &[[i64; 256]; 6], &[[i64; 256]; 6], &[[i64; 256]; 6]),
    weight: usize,
    cm: &DifferenceCommitments,
    rep: Result<Option<Replay>, StatementError>,
    first: (Task, (String, String), [[i64; 256]; 6], [[i64; 256]; 6], [[i64; 256]; 6]),
    second: (Task, String, String, [i64; 5], [[i64; 256]; 6], usize),
    i: int,
    p: int,
)
    requires
        call_ensures(
            statement_witness::prove_intt_wprime_norm_use_hint_combined,
            (a, b, z, h),
            res,
        ),
        call_ensures(
            statement_witness::verify_intt_wprime_norm_use_hint_combined,
            (cm, a, b, outs.0, outs.1, outs.2, outs.3, weight),
            rep,
        ),
        call_ensures(statement_witness::prove_intt_wprime_combined, (a, b), first),
        call_ensures(
            statement_full::prove_norm_use_hint_combined,
            (z, &first.4, h),
            second,
        ),
        0 <= i < 6,
        0 <= p < 256,
    ensures
        res.1.intt@ == first.1.0@,
        res.1.wprime@ == first.1.1@,
        res.1.norm@ == second.1@,
        res.1.use_hint@ == second.2@,
        res.2.az_out@[i]@[p] == first.2@[i]@[p],
        res.2.ct1_out@[i]@[p] == first.3@[i]@[p],
        res.2.w_prime@[i]@[p] == first.4@[i]@[p],
        res.2.max_norms@ == second.3@,
        res.2.w1_out@[i]@[p] == second.4@[i]@[p],
        res.2.hint_weight_total == second.5,
        res.0.log_size == 10,
        transcript::traces_view(res.0.traces@) == transcript::traces_view(first.0.traces@)
            + transcript::traces_view(second.0.traces@),
        res.0.transcript@ == (TranscriptView {
            seeds: seq![],
            components: first.0.transcript@.components + second.0.transcript@.components,
            messages: first.0.transcript@.messages + second.0.transcript@.messages,
        }),
        cm.intt@ == res.1.intt@ && cm.wprime@ == res.1.wprime@ && cm.norm@ == res.1.norm@
            && cm.use_hint@ == res.1.use_hint@ && outs.0@ == res.2.az_out@ && outs.1@
            == res.2.ct1_out@ && outs.2@ == res.2.w_prime@ && outs.3@ == res.2.w1_out@ && weight
            == res.2.hint_weight_total ==> (rep matches Ok(Some(r)) && r.transcript@
            == res.0.transcript@ && r.lifting == Some(16u32)),
        rep is Ok && rep->Ok_0 is Some ==> {
            &&& commits_to_fp(
                encode_utf8(cm.intt@),
                commitment::fingerprint(
                    transcript::flat(polyvec::polys(outs.0@) + polyvec::polys(outs.1@)),
                ),
            )
            &&& commits_to_fp(
                encode_utf8(cm.wprime@),
                commitment::fingerprint(transcript::flat(polyvec::polys(outs.2@))),
            )
            &&& commits_to_fp(
                encode_utf8(cm.use_hint@),
                commitment::fingerprint(
                    transcript::flat(polyvec::polys(outs.3@)).push(weight as int),
                ),
            )
        },
{
    let (x, y) = (polyvec::polys(a@), polyvec::polys(b@));
    let zs = polyvec::polys(z@);
    let d = res.2;
    assert(polyvec::polys(d.az_out@)[i][p] == d.az_out@[i]@[p]);
    assert(polyvec::polys(d.ct1_out@)[i][p] == d.ct1_out@[i]@[p]);
    assert(polyvec::polys(d.w_prime@)[i][p] == d.w_prime@[i]@[p]);
    assert(polyvec::polys(d.w1_out@)[i][p] == d.w1_out@[i]@[p]);
    assert(polyvec::polys(first.2@)[i][p] == first.2@[i]@[p]);
    assert(polyvec::polys(first.3@)[i][p] == first.3@[i]@[p]);
    assert(polyvec::polys(first.4@)[i][p] == first.4@[i]@[p]);
    assert(polyvec::polys(second.4@)[i][p] == second.4@[i]@[p]);
    assert(d.max_norms@ =~= second.3@);
    let ifp = commitment::fingerprint(
        transcript::flat(polyvec::polys(d.az_out@) + polyvec::polys(d.ct1_out@)),
    );
    let wfp = commitment::fingerprint(transcript::flat(polyvec::polys(d.w_prime@)));
    let nfp = commitment::fingerprint(transcript::flat(statement_batch::all_norms(zs)));
    let ufp = commitment::fingerprint(
        transcript::flat(polyvec::polys(d.w1_out@)).push(d.hint_weight_total as int),
    );
    lemma_second_half(x + y, ifp, wfp, nfp, ufp);
    statement_ring::lemma_commitment_read_back(
        transcript::flat(statement_batch::all_norms(zs)),
    );
    let views = transcript::traces_view(res.0.traces@);
    assert(views =~= transcript::traces_view(first.0.traces@) + transcript::traces_view(
        second.0.traces@,
    ));
}

/// The transcript of the second half of a verification is made of those of its two parts.
proof fn lemma_second_half(
    g: Seq<Seq<int>>,
    intt: Seq<u32>,
    wp: Seq<u32>,
    norm: Seq<u32>,
    uh: Seq<u32>,
)
    ensures
        ({
            let t = statement_witness::intt_wprime_transcript(g, intt, wp);
            let u = statement_full::norm_hint_transcript(norm, uh);
            statement_witness::intt_hint_transcript(g, intt, wp, norm, uh) == (TranscriptView {
                seeds: seq![],
                components: t.components + u.components,
                messages: t.messages + u.messages,
            })
        }),
{
    statement_content::lemma_intt_hint_content(g, intt, wp, norm, uh);
    statement_content::lemma_intt_wprime_content(g, intt, wp);
    statement_content::lemma_norm_hint_content(norm, uh);
    let t = statement_witness::intt_wprime_transcript(g, intt, wp);
    let u = statement_full::norm_hint_transcript(norm, uh);
    let v = statement_witness::intt_hint_transcript(g, intt, wp, norm, uh);
    assert(v.components =~= t.components + u.components);
    assert(v.messages =~= t.messages + u.messages);
}

/// The transcript of a whole verification is made of those of its two halves.
proof fn lemma_whole(
    seed: Seq<u8>,
    extra: Seq<u8>,
    ranged: bool,
    ntt: Seq<u32>,
    az: Seq<u32>,
    ct1: Seq<u32>,
    g: Seq<Seq<int>>,
    intt: Seq<u32>,
    wp: Seq<u32>,
    norm: Seq<u32>,
    uh: Seq<u32>,
)
    ensures
        ({
            let t = statement_witness::ntt_az_ct1_transcript(seed, ntt, az, ct1);
            let u = statement_witness::intt_hint_transcript(g, intt, wp, norm, uh);
            let v = statement_witness::witness_transcript(
                seed,
                extra,
                ranged,
                ntt,
                az,
                ct1,
                g,
                intt,
                wp,
                norm,
                uh,
            );
            &&& v.seeds == t.seeds + (if extra.len() == 0 {
                seq![]
            } else {
                seq![commitment::seed_words(extra)]
            })
            &&& v.components == t.components + u.components + (if ranged {
                seq![Component { circuit: Circuit::RangeQBatch, log_n_rows: 8 }]
            } else {
                seq![]
            })
            &&& v.messages == t.messages + u.messages
        }),
{
    statement_content::lemma_witness_content(
        seed,
        extra,
        ranged,
        ntt,
        az,
        ct1,
        g,
        intt,
        wp,
        norm,
        uh,
    );
    statement_content::lemma_ntt_az_ct1_content(seed, ntt, az, ct1);
    statement_content::lemma_intt_hint_content(g, intt, wp, norm, uh);
    let t = statement_witness::ntt_az_ct1_transcript(seed, ntt, az, ct1);
    let u = statement_witness::intt_hint_transcript(g, intt, wp, norm, uh);
    let v = statement_witness::witness_transcript(
        seed,
        extra,
        ranged,
        ntt,
        az,
        ct1,
        g,
        intt,
        wp,
        norm,
        uh,
    );
    assert(v.components =~= t.components + u.components + (if ranged {
        seq![Component { circuit: Circuit::RangeQBatch, log_n_rows: 8 }]
    } else {
        seq![]
    }));
    assert(v.messages =~= t.messages + u.messages);
}

/// A whole verification: what the statements on its two halves give, the seeds of both kinds,
/// and a transcript with the components and messages of both, with one component more where
/// ranges are proved too. A verifier with the claim replays it, lifted to `2^16`.
pub proof fn lemma_witness_calls(
    z: &[[i64; 256]; 5],
    c: &[i64; 256],
    t1: &[[i64; 256]; 6],
    a: &[[i64; 256]],
    h: &[[bool; 256]; 6],
    seed: &[u8],
    extra: &[u8],
    ranged: bool,
    res: Result<(Task, WitnessCommitments, Witness), StatementError>,
    first: Result<(Task, (String, String, String), Products), StatementError>,
    second: (Task, DifferenceCommitments, Differences),
    cm: &WitnessCommitments,
    claim: &Claim,
    rep: Result<Option<Replay>, StatementError>,
    i: int,
    p: int,
)
    requires
        !ranged ==> call_ensures(
            statement_witness::prove_full_mldsa_witness_combined,
            (z, c, t1, a, h, seed, extra),
            res,
        ),
        ranged ==> call_ensures(
            statement_witness::prove_full_mldsa_witness_v23,
            (z, c, t1, a, h, seed, extra),
            res,
        ),
        call_ensures(
            statement_witness::prove_ntt_az_ct1_combined,
            (z, c, t1, a, seed),
            first,
        ),
        first is Ok ==> call_ensures(
            statement_witness::prove_intt_wprime_norm_use_hint_combined,
            (&first->Ok_0.2.az_hat, &first->Ok_0.2.ct1_hat, z, h),
            second,
        ),
        !ranged ==> call_ensures(
            statement_witness::verify_full_mldsa_witness_combined,
            (cm, claim, seed, extra),
            rep,
        ),
        ranged ==> call_ensures(
            statement_witness::verify_full_mldsa_witness_v23,
            (cm, claim, seed, extra),
            rep,
        ),
        0 <= i < 6,
        0 <= p < 256,
    ensures
        res is Ok <==> a@.len() == 30,
        res is Ok ==> {
            let (task, made, w) = res->Ok_0;
            let (f, s) = (first->Ok_0, second);
            &&& first is Ok
            &&& made.ntt@ == f.1.0@
            &&& made.az@ == f.1.1@
            &&& made.ct1@ == f.1.2@
            &&& made.differences.intt@ == s.1.intt@
            &&& made.differences.wprime@ == s.1.wprime@
            &&& made.differences.norm@ == s.1.norm@
            &&& made.differences.use_hint@ == s.1.use_hint@
            &&& w.products.az_hat@[i]@[p] == f.2.az_hat@[i]@[p]
            &&& w.products.ct1_hat@[i]@[p] == f.2.ct1_hat@[i]@[p]
            &&& w.differences.w_prime@[i]@[p] == s.2.w_prime@[i]@[p]
            &&& w.differences.w1_out@[i]@[p] == s.2.w1_out@[i]@[p]
            &&& w.differences.hint_weight_total == s.2.hint_weight_total
            &&& w.differences.max_norms@ == s.2.max_norms@
            &&& task.log_size == 10
            &&& task.preprocessed@.len() == 0
            &&& transcript::traces_view(task.traces@) == transcript::traces_view(f.0.traces@)
                + transcript::traces_view(s.0.traces@) + (if ranged {
                seq![None]
            } else {
                seq![]
            })
            &&& task.transcript@.seeds == f.0.transcript@.seeds + (if extra@.len() == 0 {
                seq![]
            } else {
                seq![commitment::seed_words(extra@)]
            })
            &&& task.transcript@.components == f.0.transcript@.components
                + s.0.transcript@.components + (if ranged {
                seq![Component { circuit: Circuit::RangeQBatch, log_n_rows: 8 }]
            } else {
                seq![]
            })
            &&& task.transcript@.messages == f.0.transcript@.messages + s.0.transcript@.messages
        },
        res is Ok && cm.ntt@ == res->Ok_0.1.ntt@ && cm.az@ == res->Ok_0.1.az@ && cm.ct1@
            == res->Ok_0.1.ct1@ && cm.differences.intt@ == res->Ok_0.1.differences.intt@
            && cm.differences.wprime@ == res->Ok_0.1.differences.wprime@ && cm.differences.norm@
            == res->Ok_0.1.differences.norm@ && cm.differences.use_hint@
            == res->Ok_0.1.differences.use_hint@ && claim.z_hat@ == res->Ok_0.2.products.z_hat@
            && claim.c_hat == res->Ok_0.2.products.c_hat && claim.t1_hat@
            == res->Ok_0.2.products.t1_hat@ && claim.az_hat == res->Ok_0.2.products.az_hat
            && claim.ct1_hat == res->Ok_0.2.products.ct1_hat && claim.az_out
            == res->Ok_0.2.differences.az_out && claim.ct1_out
            == res->Ok_0.2.differences.ct1_out && claim.w_prime
            == res->Ok_0.2.differences.w_prime && claim.w1_out == res->Ok_0.2.differences.w1_out
            && claim.hint_weight_total == res->Ok_0.2.differences.hint_weight_total ==> (
        rep matches Ok(Some(r)) && r.transcript@ == res->Ok_0.0.transcript@ && r.lifting == Some(
            16u32,
        )),
{
    if res is Ok {
        let zs = polyvec::polys(z@);
        let w = res->Ok_0.2;
        let f = first->Ok_0;
        let (x, y) = (polyvec::polys(w.products.az_hat@), polyvec::polys(w.products.ct1_hat@));
        assert(x == polyvec::polys(f.2.az_hat@) && y == polyvec::polys(f.2.ct1_hat@));
        assert(x[i][p] == w.products.az_hat@[i]@[p]);
        assert(y[i][p] == w.products.ct1_hat@[i]@[p]);
        assert(polyvec::polys(f.2.az_hat@)[i][p] == f.2.az_hat@[i]@[p]);
        assert(polyvec::polys(f.2.ct1_hat@)[i][p] == f.2.ct1_hat@[i]@[p]);
        let d = w.differences;
        assert(polyvec::polys(d.w_prime@)[i][p] == d.w_prime@[i]@[p]);
        assert(polyvec::polys(d.w1_out@)[i][p] == d.w1_out@[i]@[p]);
        assert(polyvec::polys(second.2.w_prime@)[i][p] == second.2.w_prime@[i]@[p]);
        assert(polyvec::polys(second.2.w1_out@)[i][p] == second.2.w1_out@[i]@[p]);
        assert(d.max_norms@ =~= second.2.max_norms@);
        let tfp = statement_full::fp_of(
            statement_witness::transforms(
                polyvec::polys(w.products.z_hat@),
                transform::ints(w.products.c_hat@),
                polyvec::polys(w.products.t1_hat@),
            ),
        );
        let afp = statement_full::fp_of(x);
        let cfp = statement_full::fp_of(y);
        let ifp = statement_full::fp_of(
            polyvec::polys(d.az_out@) + polyvec::polys(d.ct1_out@),
        );
        let wfp = statement_full::fp_of(polyvec::polys(d.w_prime@));
        let nfp = statement_full::fp_of(statement_batch::all_norms(zs));
        let ufp = statement_full::fp_weight(
            polyvec::polys(d.w1_out@),
            d.hint_weight_total as int,
        );
        assert(transcript::traces_view(res->Ok_0.0.traces@) =~= transcript::traces_view(
            f.0.traces@,
        ) + transcript::traces_view(second.0.traces@) + (if ranged {
            seq![None]
        } else {
            seq![]
        }));
        lemma_whole(seed@, extra@, ranged, tfp, afp, cfp, x + y, ifp, wfp, nfp, ufp);
        statement_ring::lemma_commitment_read_back(
            transcript::flat(statement_batch::all_norms(zs)),
        );
    }
}

} // verus!
