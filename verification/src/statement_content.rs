//! What the tasks and transcripts of the statements hold, part by part.
use crate::columns;
use crate::commitment;
use crate::mldsa::encoding;
use crate::mldsa::hints;
use crate::mldsa::poly;
use crate::mldsa::polyvec;
use crate::mldsa::ring;
use crate::mldsa::transform;
use crate::mldsa::xof;
use crate::mldsa_az_full_air;
use crate::mldsa_ct1_full_air;
use crate::mldsa_intt_batch_air;
use crate::mldsa_norm_check_air;
use crate::mldsa_norm_check_batch_air;
use crate::rows;
use crate::signature_witness;
use crate::signature_witness::SignatureWitness;
use crate::statement_batch;
use crate::statement_chain;
use crate::statement_full;
use crate::statement_ring;
use crate::statement_witness;
use crate::statement_witness::{Claim, Witness, WitnessCommitments};
use crate::transcript;
use crate::transcript::{Circuit, Component, Replay, StatementError, Task, TranscriptView};
use vstd::prelude::*;
use vstd::utf8::*;

verus! {

/// Polynomials one after the other: coefficient `k` of polynomial `j` stands at place
/// `256 j + k`, and nothing else is there.
pub proof fn lemma_flat_entries(v: Seq<Seq<int>>)
    requires
        forall|j: int| 0 <= j < v.len() ==> (#[trigger] v[j]).len() == 256,
    ensures
        transcript::flat(v).len() == 256 * v.len(),
        forall|j: int, k: int|
            0 <= j < v.len() && 0 <= k < 256 ==> transcript::flat(v)[256 * j + k]
                == #[trigger] v[j][k],
{
    lemma_flat_prefix_entries(v, v.len());
}

proof fn lemma_flat_prefix_entries(v: Seq<Seq<int>>, n: nat)
    requires
        n <= v.len(),
        forall|j: int| 0 <= j < v.len() ==> (#[trigger] v[j]).len() == 256,
    ensures
        transcript::flat_n(v, n).len() == 256 * n,
        forall|j: int, k: int|
            0 <= j < n && 0 <= k < 256 ==> transcript::flat_n(v, n)[256 * j + k]
                == #[trigger] v[j][k],
    decreases n,
{
    if n > 0 {
        let m = (n - 1) as nat;
        lemma_flat_prefix_entries(v, m);
        let x = transcript::flat_n(v, m);
        assert(v[n - 1].len() == 256);
        assert forall|j: int, k: int| 0 <= j < n && 0 <= k < 256 implies transcript::flat_n(v, n)[256
            * j + k] == #[trigger] v[j][k] by {
            if j < m {
                assert(x[256 * j + k] == v[j][k]);
            }
        }
    }
}

/// High parts and their weight: the polynomials' coefficients and then the weight.
pub proof fn lemma_weight_entries(w1: Seq<Seq<int>>, weight: int)
    requires
        w1.len() == 6,
        forall|j: int| 0 <= j < 6 ==> (#[trigger] w1[j]).len() == 256,
    ensures
        statement_batch::with_weight(w1, weight).len() == 1537,
        forall|j: int, k: int|
            0 <= j < 6 && 0 <= k < 256 ==> statement_batch::with_weight(w1, weight)[256 * j + k]
                == #[trigger] w1[j][k],
        statement_batch::with_weight(w1, weight)[1536] == weight,
{
    lemma_flat_entries(w1);
}

/// The fingerprints of some polynomials are messages of their own, in order, and nothing
/// else is added.
pub proof fn lemma_each_message(t: TranscriptView, v: Seq<Seq<int>>, n: nat)
    ensures
        t.each(v, n) == (TranscriptView {
            seeds: t.seeds,
            components: t.components,
            messages: t.messages + Seq::new(n, |i: int| commitment::fingerprint(v[i])),
        }),
    decreases n,
{
    let all = TranscriptView {
        seeds: t.seeds,
        components: t.components,
        messages: t.messages + Seq::new(n, |i: int| commitment::fingerprint(v[i])),
    };
    if n == 0 {
        assert(t =~= all);
    } else {
        lemma_each_message(t, v, (n - 1) as nat);
        assert(t.each(v, n) =~= all);
    }
}

/// An empty seed adds nothing to a transcript; another one adds one list of words.
pub proof fn lemma_seed_added(t: TranscriptView, seed: Seq<u8>)
    ensures
        seed.len() == 0 ==> t.seed(seed) == t,
        seed.len() > 0 ==> t.seed(seed) == (TranscriptView {
            seeds: t.seeds.push(commitment::seed_words(seed)),
            components: t.components,
            messages: t.messages,
        }),
{
    if seed.len() == 0 {
        assert(t.seed(seed) =~= t);
    } else {
        assert(t.seed(seed) =~= (TranscriptView {
            seeds: t.seeds.push(commitment::seed_words(seed)),
            components: t.components,
            messages: t.messages,
        }));
    }
}

/// What a task for one output holds: the one component, the output's fingerprint as the one
/// message, no seed, no preprocessed columns, and the one trace; its text is the hex of the
/// fingerprint.
pub proof fn lemma_output_task(
    task: Task,
    text: Seq<char>,
    c: Component,
    out: Seq<int>,
    trace: Option<Seq<Seq<u32>>>,
)
    ensures
        statement_ring::commits_to(task, text, c, out, trace) <==> {
            &&& text == commitment::poly_commitment(commitment::fingerprint(out))
            &&& task.transcript@.seeds == Seq::<Seq<u32>>::empty()
            &&& task.transcript@.components == seq![c]
            &&& task.transcript@.messages == seq![commitment::fingerprint(out)]
            &&& task.log_size == c.log_n_rows
            &&& task.preprocessed@.len() == 0
            &&& task.traces@.len() == 1
            &&& transcript::trace_view(task.traces@[0]) == trace
        },
{
    let t = statement_ring::output_transcript(c, commitment::fingerprint(out));
    assert(t.seeds =~= Seq::<Seq<u32>>::empty());
    assert(t.components =~= seq![c]);
    assert(t.messages =~= seq![commitment::fingerprint(out)]);
    let views = transcript::traces_view(task.traces@);
    if task.traces@.len() == 1 && transcript::trace_view(task.traces@[0]) == trace {
        assert(views =~= seq![trace]);
    }
    if views == seq![trace] {
        assert(views.len() == 1 && views[0] == trace);
    }
}

/// What a task for one input and one output holds: the seed, the one component, the
/// fingerprint of the input and then that of the output, no preprocessed columns, and the one
/// trace; its text is the hex of the output's fingerprint.
pub proof fn lemma_io_task(
    task: Task,
    text: Seq<char>,
    seed: Seq<u8>,
    c: Component,
    input: Seq<int>,
    output: Seq<int>,
    trace: Option<Seq<Seq<u32>>>,
)
    ensures
        statement_batch::commits_to_io(task, text, seed, c, input, output, trace) <==> {
            &&& text == commitment::poly_commitment(commitment::fingerprint(output))
            &&& task.transcript@.seeds == (if seed.len() == 0 {
                seq![]
            } else {
                seq![commitment::seed_words(seed)]
            })
            &&& task.transcript@.components == seq![c]
            &&& task.transcript@.messages == seq![
                commitment::fingerprint(input),
                commitment::fingerprint(output),
            ]
            &&& task.log_size == c.log_n_rows
            &&& task.preprocessed@.len() == 0
            &&& task.traces@.len() == 1
            &&& transcript::trace_view(task.traces@[0]) == trace
        },
{
    lemma_io_content(seed, c, commitment::fingerprint(input), commitment::fingerprint(output));
    let views = transcript::traces_view(task.traces@);
    if task.traces@.len() == 1 && transcript::trace_view(task.traces@[0]) == trace {
        assert(views =~= seq![trace]);
    }
    if views == seq![trace] {
        assert(views.len() == 1 && views[0] == trace);
    }
}

/// The transcript for one input and one output: the seed where there is one, the component,
/// the input's fingerprint, the output's fingerprint.
pub proof fn lemma_io_content(seed: Seq<u8>, c: Component, input: Seq<u32>, output: Seq<u32>)
    ensures
        statement_batch::io_transcript(seed, c, input, output) == (TranscriptView {
            seeds: if seed.len() == 0 {
                seq![]
            } else {
                seq![commitment::seed_words(seed)]
            },
            components: seq![c],
            messages: seq![input, output],
        }),
{
    assert(statement_batch::io_transcript(seed, c, input, output) =~= (TranscriptView {
        seeds: if seed.len() == 0 {
            seq![]
        } else {
            seq![commitment::seed_words(seed)]
        },
        components: seq![c],
        messages: seq![input, output],
    }));
}

/// What a verifier replays for one output: a transcript of the one component and the
/// fingerprint in the commitment, without a lifting; or it refuses the commitment.
pub proof fn lemma_output_replay(
    res: Result<Replay, StatementError>,
    text: Seq<u8>,
    c: Component,
    fp: Seq<u32>,
)
    requires
        statement_ring::replays_output(res, text, c),
    ensures
        res is Ok <==> commitment::fingerprint_in(text) is Some,
        commitment::fingerprint_in(text) == Some(fp) ==> {
            &&& res->Ok_0.transcript@.seeds == Seq::<Seq<u32>>::empty()
            &&& res->Ok_0.transcript@.components == seq![c]
            &&& res->Ok_0.transcript@.messages == seq![fp]
            &&& res->Ok_0.lifting is None
        },
{
    let t = statement_ring::output_transcript(c, fp);
    assert(t.seeds =~= Seq::<Seq<u32>>::empty());
    assert(t.components =~= seq![c]);
    assert(t.messages =~= seq![fp]);
}

/// What a verifier replays for one input and one output: a transcript of the seed, the one
/// component, the fingerprint of the input that it has itself and the one in the commitment;
/// or it refuses the commitment.
pub proof fn lemma_io_replay(
    res: Result<Replay, StatementError>,
    text: Seq<u8>,
    seed: Seq<u8>,
    c: Component,
    input: Seq<int>,
    fp: Seq<u32>,
)
    requires
        statement_batch::replays_io(res, text, seed, c, input),
    ensures
        res is Ok <==> commitment::fingerprint_in(text) is Some,
        commitment::fingerprint_in(text) == Some(fp) ==> {
            &&& res->Ok_0.transcript@.seeds == (if seed.len() == 0 {
                seq![]
            } else {
                seq![commitment::seed_words(seed)]
            })
            &&& res->Ok_0.transcript@.components == seq![c]
            &&& res->Ok_0.transcript@.messages == seq![commitment::fingerprint(input), fp]
            &&& res->Ok_0.lifting is None
        },
{
    lemma_io_content(seed, c, commitment::fingerprint(input), fp);
}

/// The transcript of inverse transforms: one component of as many polynomials, the
/// fingerprint of each input, and that of the output.
pub proof fn lemma_intt_content(g: Seq<Seq<int>>, output: Seq<u32>)
    ensures
        statement_batch::intt_transcript(g, output) == (TranscriptView {
            seeds: seq![],
            components: seq![
                Component {
                    circuit: Circuit::InttBatch { n_polys: g.len() as usize },
                    log_n_rows: 10,
                },
            ],
            messages: Seq::new(g.len(), |i: int| commitment::fingerprint(g[i])).push(output),
        }),
{
    let c = transcript::rows_1024(Circuit::InttBatch { n_polys: g.len() as usize });
    lemma_each_message(transcript::nothing().component(c), g, g.len());
    assert(statement_batch::intt_transcript(g, output) =~= (TranscriptView {
        seeds: seq![],
        components: seq![
            Component {
                circuit: Circuit::InttBatch { n_polys: g.len() as usize },
                log_n_rows: 10,
            },
        ],
        messages: Seq::new(g.len(), |i: int| commitment::fingerprint(g[i])).push(output),
    }));
}

/// The transcript of a matrix product and the products with a challenge.
pub proof fn lemma_az_ct1_content(
    seed: Seq<u8>,
    z: Seq<Seq<int>>,
    c: Seq<int>,
    t1: Seq<Seq<int>>,
    az: Seq<u32>,
    ct1: Seq<u32>,
)
    ensures
        statement_full::az_ct1_transcript(seed, z, c, t1, az, ct1) == (TranscriptView {
            seeds: if seed.len() == 0 {
                seq![]
            } else {
                seq![commitment::seed_words(seed)]
            },
            components: seq![
                Component { circuit: Circuit::AzFull, log_n_rows: 8 },
                Component { circuit: Circuit::Ct1Full, log_n_rows: 8 },
            ],
            messages: seq![
                commitment::fingerprint(transcript::flat(z)),
                az,
                commitment::fingerprint(transcript::flat(seq![c] + t1)),
                ct1,
            ],
        }),
{
    assert(statement_full::az_ct1_transcript(seed, z, c, t1, az, ct1) =~= (TranscriptView {
        seeds: if seed.len() == 0 {
            seq![]
        } else {
            seq![commitment::seed_words(seed)]
        },
        components: seq![
            Component { circuit: Circuit::AzFull, log_n_rows: 8 },
            Component { circuit: Circuit::Ct1Full, log_n_rows: 8 },
        ],
        messages: seq![
            commitment::fingerprint(transcript::flat(z)),
            az,
            commitment::fingerprint(transcript::flat(seq![c] + t1)),
            ct1,
        ],
    }));
}

/// The transcript of norms and hinted high parts.
pub proof fn lemma_norm_hint_content(norm: Seq<u32>, uh: Seq<u32>)
    ensures
        statement_full::norm_hint_transcript(norm, uh) == (TranscriptView {
            seeds: seq![],
            components: seq![
                Component { circuit: Circuit::NormCheckBatch, log_n_rows: 8 },
                Component { circuit: Circuit::UseHintWeight, log_n_rows: 8 },
            ],
            messages: seq![norm, uh],
        }),
{
    assert(statement_full::norm_hint_transcript(norm, uh) =~= (TranscriptView {
        seeds: seq![],
        components: seq![
            Component { circuit: Circuit::NormCheckBatch, log_n_rows: 8 },
            Component { circuit: Circuit::UseHintWeight, log_n_rows: 8 },
        ],
        messages: seq![norm, uh],
    }));
}

/// The transcript of the products, the norms and the hinted high parts together.
pub proof fn lemma_az_ct1_norm_hint_content(
    seed: Seq<u8>,
    z: Seq<Seq<int>>,
    c: Seq<int>,
    t1: Seq<Seq<int>>,
    az: Seq<u32>,
    ct1: Seq<u32>,
    norm: Seq<u32>,
    uh: Seq<u32>,
)
    ensures
        statement_full::az_ct1_norm_hint_transcript(seed, z, c, t1, az, ct1, norm, uh) == (
        TranscriptView {
            seeds: if seed.len() == 0 {
                seq![]
            } else {
                seq![commitment::seed_words(seed)]
            },
            components: seq![
                Component { circuit: Circuit::AzFull, log_n_rows: 8 },
                Component { circuit: Circuit::Ct1Full, log_n_rows: 8 },
                Component { circuit: Circuit::NormCheckBatch, log_n_rows: 8 },
                Component { circuit: Circuit::UseHintWeight, log_n_rows: 8 },
            ],
            messages: seq![
                commitment::fingerprint(transcript::flat(z)),
                az,
                commitment::fingerprint(transcript::flat(seq![c] + t1)),
                ct1,
                norm,
                uh,
            ],
        }),
{
    assert(statement_full::az_ct1_norm_hint_transcript(seed, z, c, t1, az, ct1, norm, uh) =~= (
    TranscriptView {
        seeds: if seed.len() == 0 {
            seq![]
        } else {
            seq![commitment::seed_words(seed)]
        },
        components: seq![
            Component { circuit: Circuit::AzFull, log_n_rows: 8 },
            Component { circuit: Circuit::Ct1Full, log_n_rows: 8 },
            Component { circuit: Circuit::NormCheckBatch, log_n_rows: 8 },
            Component { circuit: Circuit::UseHintWeight, log_n_rows: 8 },
        ],
        messages: seq![
            commitment::fingerprint(transcript::flat(z)),
            az,
            commitment::fingerprint(transcript::flat(seq![c] + t1)),
            ct1,
            norm,
            uh,
        ],
    }));
}

/// The transcript of twelve transforms and the products of them.
pub proof fn lemma_ntt_az_ct1_content(
    seed: Seq<u8>,
    ntt: Seq<u32>,
    az: Seq<u32>,
    ct1: Seq<u32>,
)
    ensures
        statement_witness::ntt_az_ct1_transcript(seed, ntt, az, ct1) == (TranscriptView {
            seeds: if seed.len() == 0 {
                seq![]
            } else {
                seq![commitment::seed_words(seed)]
            },
            components: seq![
                Component { circuit: Circuit::NttBatch { n_polys: 12 }, log_n_rows: 10 },
                Component { circuit: Circuit::AzFull, log_n_rows: 8 },
                Component { circuit: Circuit::Ct1Full, log_n_rows: 8 },
            ],
            messages: seq![ntt, az, ct1],
        }),
{
    assert(statement_witness::ntt_az_ct1_transcript(seed, ntt, az, ct1) =~= (TranscriptView {
        seeds: if seed.len() == 0 {
            seq![]
        } else {
            seq![commitment::seed_words(seed)]
        },
        components: seq![
            Component { circuit: Circuit::NttBatch { n_polys: 12 }, log_n_rows: 10 },
            Component { circuit: Circuit::AzFull, log_n_rows: 8 },
            Component { circuit: Circuit::Ct1Full, log_n_rows: 8 },
        ],
        messages: seq![ntt, az, ct1],
    }));
}

/// The transcript of twelve inverse transforms and the differences of them.
pub proof fn lemma_intt_wprime_content(g: Seq<Seq<int>>, intt: Seq<u32>, wp: Seq<u32>)
    ensures
        statement_witness::intt_wprime_transcript(g, intt, wp) == (TranscriptView {
            seeds: seq![],
            components: seq![
                Component { circuit: Circuit::InttBatch { n_polys: 12 }, log_n_rows: 10 },
                Component { circuit: Circuit::WPrimeFull, log_n_rows: 8 },
            ],
            messages: Seq::new(12, |i: int| commitment::fingerprint(g[i])) + seq![intt, wp],
        }),
{
    let start = transcript::nothing().component(
        transcript::rows_1024(Circuit::InttBatch { n_polys: 12 }),
    ).component(transcript::rows_256(Circuit::WPrimeFull));
    lemma_each_message(start, g, 12);
    assert(statement_witness::intt_wprime_transcript(g, intt, wp) =~= (TranscriptView {
        seeds: seq![],
        components: seq![
            Component { circuit: Circuit::InttBatch { n_polys: 12 }, log_n_rows: 10 },
            Component { circuit: Circuit::WPrimeFull, log_n_rows: 8 },
        ],
        messages: Seq::new(12, |i: int| commitment::fingerprint(g[i])) + seq![intt, wp],
    }));
}

/// The transcript of twelve inverse transforms, their differences, norms and hinted high
/// parts.
pub proof fn lemma_intt_hint_content(
    g: Seq<Seq<int>>,
    intt: Seq<u32>,
    wp: Seq<u32>,
    norm: Seq<u32>,
    uh: Seq<u32>,
)
    ensures
        statement_witness::intt_hint_transcript(g, intt, wp, norm, uh) == (TranscriptView {
            seeds: seq![],
            components: seq![
                Component { circuit: Circuit::InttBatch { n_polys: 12 }, log_n_rows: 10 },
                Component { circuit: Circuit::WPrimeFull, log_n_rows: 8 },
                Component { circuit: Circuit::NormCheckBatch, log_n_rows: 8 },
                Component { circuit: Circuit::UseHintWeight, log_n_rows: 8 },
            ],
            messages: Seq::new(12, |i: int| commitment::fingerprint(g[i])) + seq![
                intt,
                wp,
                norm,
                uh,
            ],
        }),
{
    let start = transcript::nothing().component(
        transcript::rows_1024(Circuit::InttBatch { n_polys: 12 }),
    ).component(transcript::rows_256(Circuit::WPrimeFull)).component(
        transcript::rows_256(Circuit::NormCheckBatch),
    ).component(transcript::rows_256(Circuit::UseHintWeight));
    lemma_each_message(start, g, 12);
    assert(statement_witness::intt_hint_transcript(g, intt, wp, norm, uh) =~= (TranscriptView {
        seeds: seq![],
        components: seq![
            Component { circuit: Circuit::InttBatch { n_polys: 12 }, log_n_rows: 10 },
            Component { circuit: Circuit::WPrimeFull, log_n_rows: 8 },
            Component { circuit: Circuit::NormCheckBatch, log_n_rows: 8 },
            Component { circuit: Circuit::UseHintWeight, log_n_rows: 8 },
        ],
        messages: Seq::new(12, |i: int| commitment::fingerprint(g[i])) + seq![intt, wp, norm, uh],
    }));
}

/// The transcript of a whole witness: both seeds where they are not empty, seven components
/// and, where ranges are proved too, an eighth, and nineteen messages.
pub proof fn lemma_witness_content(
    seed: Seq<u8>,
    extra: Seq<u8>,
    ranged: bool,
    ntt: Seq<u32>,
    az: Seq<u32>,
    ct1: Seq<u32>,
    g: Seq<Seq<int>>,
    intt: Seq<u32>,
    wp: Seq<u32>,
    norm: Seq<u32>,
    uh: Seq<u32>,
)
    ensures
        statement_witness::witness_transcript(
            seed,
            extra,
            ranged,
            ntt,
            az,
            ct1,
            g,
            intt,
            wp,
            norm,
            uh,
        ) == (TranscriptView {
            seeds: (if seed.len() == 0 {
                seq![]
            } else {
                seq![commitment::seed_words(seed)]
            }) + (if extra.len() == 0 {
                seq![]
            } else {
                seq![commitment::seed_words(extra)]
            }),
            components: seq![
                Component { circuit: Circuit::NttBatch { n_polys: 12 }, log_n_rows: 10 },
                Component { circuit: Circuit::AzFull, log_n_rows: 8 },
                Component { circuit: Circuit::Ct1Full, log_n_rows: 8 },
                Component { circuit: Circuit::InttBatch { n_polys: 12 }, log_n_rows: 10 },
                Component { circuit: Circuit::WPrimeFull, log_n_rows: 8 },
                Component { circuit: Circuit::NormCheckBatch, log_n_rows: 8 },
                Component { circuit: Circuit::UseHintWeight, log_n_rows: 8 },
            ] + (if ranged {
                seq![Component { circuit: Circuit::RangeQBatch, log_n_rows: 8 }]
            } else {
                seq![]
            }),
            messages: seq![ntt, az, ct1] + Seq::new(12, |i: int| commitment::fingerprint(g[i]))
                + seq![intt, wp, norm, uh],
        }),
{
    let parts = transcript::nothing().seed(seed).seed(extra).component(
        transcript::rows_1024(Circuit::NttBatch { n_polys: 12 }),
    ).component(transcript::rows_256(Circuit::AzFull)).component(
        transcript::rows_256(Circuit::Ct1Full),
    ).component(transcript::rows_1024(Circuit::InttBatch { n_polys: 12 })).component(
        transcript::rows_256(Circuit::WPrimeFull),
    ).component(transcript::rows_256(Circuit::NormCheckBatch)).component(
        transcript::rows_256(Circuit::UseHintWeight),
    );
    let all = if ranged {
        parts.component(transcript::rows_256(Circuit::RangeQBatch))
    } else {
        parts
    };
    lemma_each_message(all.message(ntt).message(az).message(ct1), g, 12);
    let t = statement_witness::witness_transcript(
        seed,
        extra,
        ranged,
        ntt,
        az,
        ct1,
        g,
        intt,
        wp,
        norm,
        uh,
    );
    assert(t.seeds =~= (if seed.len() == 0 {
        seq![]
    } else {
        seq![commitment::seed_words(seed)]
    }) + (if extra.len() == 0 {
        seq![]
    } else {
        seq![commitment::seed_words(extra)]
    }));
    assert(t.components =~= seq![
        Component { circuit: Circuit::NttBatch { n_polys: 12 }, log_n_rows: 10 },
        Component { circuit: Circuit::AzFull, log_n_rows: 8 },
        Component { circuit: Circuit::Ct1Full, log_n_rows: 8 },
        Component { circuit: Circuit::InttBatch { n_polys: 12 }, log_n_rows: 10 },
        Component { circuit: Circuit::WPrimeFull, log_n_rows: 8 },
        Component { circuit: Circuit::NormCheckBatch, log_n_rows: 8 },
        Component { circuit: Circuit::UseHintWeight, log_n_rows: 8 },
    ] + (if ranged {
        seq![Component { circuit: Circuit::RangeQBatch, log_n_rows: 8 }]
    } else {
        seq![]
    }));
    assert(t.messages =~= seq![ntt, az, ct1] + Seq::new(
        12,
        |i: int| commitment::fingerprint(g[i]),
    ) + seq![intt, wp, norm, uh]);
}

/// The transcript of a chain or a tree: the seed where there is one, the component, and the
/// one word that the trace ends in.
pub proof fn lemma_value_content(seed: Seq<u8>, c: Component, value: u32)
    ensures
        statement_chain::value_transcript(seed, c, value) == (TranscriptView {
            seeds: if seed.len() == 0 {
                seq![]
            } else {
                seq![commitment::seed_words(seed)]
            },
            components: seq![c],
            messages: seq![seq![value]],
        }),
{
    assert(statement_chain::value_transcript(seed, c, value) =~= (TranscriptView {
        seeds: if seed.len() == 0 {
            seq![]
        } else {
            seq![commitment::seed_words(seed)]
        },
        components: seq![c],
        messages: seq![seq![value]],
    }));
}

/// A verifier of a chain or a tree refuses sizes below its minimum or above `2^28` rows and
/// texts that commit to no value for the proof, and replays the value in every other text.
pub proof fn lemma_value_replay(
    res: Result<Replay, StatementError>,
    proof_bytes: Seq<u8>,
    text: Seq<u8>,
    seed: Seq<u8>,
    c: Component,
    min_log_size: u32,
    v: u32,
)
    requires
        statement_chain::replays_value(res, proof_bytes, text, seed, c, min_log_size),
    ensures
        res is Ok <==> min_log_size <= c.log_n_rows <= 28 && commitment::value_in(
            text,
            proof_bytes,
        ) is Some,
        !(min_log_size <= c.log_n_rows <= 28) ==> res == Err::<Replay, StatementError>(
            StatementError::LogSize { log_size: c.log_n_rows, min: min_log_size },
        ),
        res is Ok && commitment::value_in(text, proof_bytes) == Some(v) ==> {
            &&& res->Ok_0.transcript@.seeds == (if seed.len() == 0 {
                seq![]
            } else {
                seq![commitment::seed_words(seed)]
            })
            &&& res->Ok_0.transcript@.components == seq![c]
            &&& res->Ok_0.transcript@.messages == seq![seq![v]]
            &&& res->Ok_0.lifting is None
        },
{
    lemma_value_content(seed, c, v);
}

/// What a prover of a whole witness hands back: five commitments and the norms' and hints',
/// each the hex of a fingerprint of the witness's own parts one after the other; the
/// transcript with those fingerprints; and a trace for the products, the inverse transforms
/// and the norms.
pub proof fn lemma_witness_task(
    r: (Task, WitnessCommitments, Witness),
    m: Seq<Seq<Seq<int>>>,
    z: Seq<Seq<int>>,
    c: Seq<int>,
    t1: Seq<Seq<int>>,
    h: Seq<Seq<bool>>,
    seed: Seq<u8>,
    extra: Seq<u8>,
    ranged: bool,
)
    requires
        statement_witness::proves_witness(r, m, z, c, t1, h, seed, extra, ranged),
    ensures
        ({
            let p = r.2.products;
            let d = r.2.differences;
            let zh = polyvec::polys(p.z_hat@);
            let ch = transform::ints(p.c_hat@);
            let th = polyvec::polys(p.t1_hat@);
            let az = polyvec::polys(p.az_hat@);
            let ct1 = polyvec::polys(p.ct1_hat@);
            let x = polyvec::polys(d.az_out@);
            let y = polyvec::polys(d.ct1_out@);
            let wp = polyvec::polys(d.w_prime@);
            let w1 = polyvec::polys(d.w1_out@);
            let ntt_fp = commitment::fingerprint(transcript::flat(zh + seq![ch] + th));
            let az_fp = commitment::fingerprint(transcript::flat(az));
            let ct1_fp = commitment::fingerprint(transcript::flat(ct1));
            let intt_fp = commitment::fingerprint(transcript::flat(x + y));
            let wp_fp = commitment::fingerprint(transcript::flat(wp));
            let norm_fp = commitment::fingerprint(
                transcript::flat(
                    Seq::new(z.len(), |j: int| mldsa_norm_check_air::norms(z[j])),
                ),
            );
            let uh_fp = commitment::fingerprint(
                transcript::flat(w1).push(d.hint_weight_total as int),
            );
            let g = az + ct1;
            &&& zh == Seq::new(z.len(), |j: int| transform::ntt_of(z[j]))
            &&& ch == transform::ntt_of(c)
            &&& th == Seq::new(t1.len(), |j: int| transform::ntt_of(t1[j]))
            &&& az == polyvec::mat_vec(m, zh)
            &&& ct1 == Seq::new(th.len(), |j: int| transform::pointwise(ch, th[j]))
            &&& x == Seq::new(az.len(), |j: int| transform::intt_of(az[j]))
            &&& y == Seq::new(ct1.len(), |j: int| transform::intt_of(ct1[j]))
            &&& wp == Seq::new(x.len(), |j: int| ring::ring_sub(x[j], y[j]))
            &&& w1 == polyvec::vec_use_hint(wp, h)
            &&& d.hint_weight_total == hints::total_weight(h, 6)
            &&& d.max_norms@.len() == 5
            &&& forall|j: int| 0 <= j < 5 ==> #[trigger] d.max_norms@[j] == poly::inf_norm(z[j])
            &&& r.1.ntt@ == commitment::poly_commitment(ntt_fp)
            &&& r.1.az@ == commitment::poly_commitment(az_fp)
            &&& r.1.ct1@ == commitment::poly_commitment(ct1_fp)
            &&& r.1.differences.intt@ == commitment::poly_commitment(intt_fp)
            &&& r.1.differences.wprime@ == commitment::poly_commitment(wp_fp)
            &&& r.1.differences.norm@ == commitment::poly_commitment(norm_fp)
            &&& r.1.differences.use_hint@ == commitment::poly_commitment(uh_fp)
            &&& r.0.transcript@.messages == seq![ntt_fp, az_fp, ct1_fp] + Seq::new(
                12,
                |i: int| commitment::fingerprint(g[i]),
            ) + seq![intt_fp, wp_fp, norm_fp, uh_fp]
            &&& r.0.log_size == 10
            &&& r.0.preprocessed@.len() == 0
            &&& r.0.traces@.len() == (if ranged {
                8int
            } else {
                7
            })
            &&& r.0.traces@[0] is None
            &&& transcript::trace_view(r.0.traces@[1]) == Some(
                columns::columns(mldsa_az_full_air::full_table(m, zh), 1523),
            )
            &&& transcript::trace_view(r.0.traces@[2]) == Some(
                columns::columns(mldsa_ct1_full_air::ct1_table(ch, th), 295),
            )
            &&& transcript::trace_view(r.0.traces@[3]) == Some(
                columns::columns(mldsa_intt_batch_air::batch_table(g), 1 + 54 * g.len()),
            )
            &&& r.0.traces@[4] is None
            &&& transcript::trace_view(r.0.traces@[5]) == Some(
                columns::columns(mldsa_norm_check_batch_air::batch_table(z), 15),
            )
            &&& r.0.traces@[6] is None
            &&& ranged ==> r.0.traces@[7] is None
        }),
{
    let zh = polyvec::vec_ntt(z);
    let ch = transform::ntt_of(c);
    let th = polyvec::vec_ntt(t1);
    let az = polyvec::mat_vec(m, zh);
    let ct1 = mldsa_ct1_full_air::products(ch, th);
    let x = polyvec::vec_intt(az);
    let y = polyvec::vec_intt(ct1);
    let wp = statement_witness::wprime_of(az, ct1);
    let norms = Seq::new(z.len(), |j: int| mldsa_norm_check_air::norms(z[j]));
    assert(zh =~= Seq::new(z.len(), |j: int| transform::ntt_of(z[j])));
    assert(th =~= Seq::new(t1.len(), |j: int| transform::ntt_of(t1[j])));
    assert(ct1 =~= Seq::new(th.len(), |j: int| transform::pointwise(ch, th[j])));
    assert(x =~= Seq::new(az.len(), |j: int| transform::intt_of(az[j])));
    assert(y =~= Seq::new(ct1.len(), |j: int| transform::intt_of(ct1[j])));
    assert(wp =~= Seq::new(x.len(), |j: int| ring::ring_sub(x[j], y[j])));
    assert(statement_batch::all_norms(z) =~= norms);
    lemma_witness_content(
        seed,
        extra,
        ranged,
        statement_full::fp_of(statement_witness::transforms(zh, ch, th)),
        statement_full::fp_of(az),
        statement_full::fp_of(ct1),
        az + ct1,
        statement_full::fp_of(x + y),
        statement_full::fp_of(wp),
        statement_full::fp_of(norms),
        statement_witness::hint_fp(az, ct1, h),
    );
    let views = transcript::traces_view(r.0.traces@);
    let want = statement_witness::witness_traces(m, z, zh, ch, th, az + ct1, ranged);
    assert(views == want);
    assert(views.len() == r.0.traces@.len());
    assert forall|i: int| 0 <= i < want.len() implies transcript::trace_view(
        #[trigger] r.0.traces@[i],
    ) == want[i] by {
        assert(views[i] == want[i]);
    }
    assert(want[0] is None && want[4] is None && want[6] is None);
    assert(want[1] == statement_full::az_cols(m, zh));
    assert(want[2] == statement_full::ct1_cols(ch, th));
    assert(want[3] == statement_full::intt_cols(az + ct1));
    assert(want[5] == statement_full::norm_cols(z));
    assert(ranged ==> want[7] is None);
    assert(transcript::trace_view(r.0.traces@[0]) == want[0]);
    assert(transcript::trace_view(r.0.traces@[4]) == want[4]);
    assert(transcript::trace_view(r.0.traces@[6]) == want[6]);
    if ranged {
        assert(transcript::trace_view(r.0.traces@[7]) == want[7]);
    }
}

/// A verifier of a claim goes on if and only if five commitments and the hints' are the hex
/// of the fingerprints of the claim's own parts and the norms' commitment reads as four field
/// elements; it then replays a transcript with those fingerprints and lifts to `2^16`.
pub proof fn lemma_claim_replay(
    res: Result<Option<Replay>, StatementError>,
    cm: WitnessCommitments,
    w: Claim,
    seed: Seq<u8>,
    extra: Seq<u8>,
    ranged: bool,
    norm: Seq<u32>,
)
    requires
        statement_witness::replays_claim(res, cm, w, seed, extra, ranged),
        commitment::fingerprint_in(encode_utf8(cm.differences.norm@)) == Some(norm),
    ensures
        ({
            let az = polyvec::polys(w.az_hat@);
            let ct1 = polyvec::polys(w.ct1_hat@);
            let g = az + ct1;
            let ntt_fp = commitment::fingerprint(
                transcript::flat(
                    polyvec::polys(w.z_hat@) + seq![transform::ints(w.c_hat@)] + polyvec::polys(
                        w.t1_hat@,
                    ),
                ),
            );
            let az_fp = commitment::fingerprint(transcript::flat(az));
            let ct1_fp = commitment::fingerprint(transcript::flat(ct1));
            let intt_fp = commitment::fingerprint(
                transcript::flat(polyvec::polys(w.az_out@) + polyvec::polys(w.ct1_out@)),
            );
            let wp_fp = commitment::fingerprint(transcript::flat(polyvec::polys(w.w_prime@)));
            let uh_fp = commitment::fingerprint(
                transcript::flat(polyvec::polys(w.w1_out@)).push(w.hint_weight_total as int),
            );
            let agrees = {
                &&& encode_utf8(cm.ntt@) == encode_utf8(commitment::poly_commitment(ntt_fp))
                &&& encode_utf8(cm.az@) == encode_utf8(commitment::poly_commitment(az_fp))
                &&& encode_utf8(cm.ct1@) == encode_utf8(commitment::poly_commitment(ct1_fp))
                &&& encode_utf8(cm.differences.intt@) == encode_utf8(
                    commitment::poly_commitment(intt_fp),
                )
                &&& encode_utf8(cm.differences.wprime@) == encode_utf8(
                    commitment::poly_commitment(wp_fp),
                )
                &&& encode_utf8(cm.differences.use_hint@) == encode_utf8(
                    commitment::poly_commitment(uh_fp),
                )
            };
            &&& res is Ok
            &&& res->Ok_0 is Some <==> agrees
            &&& agrees ==> {
                let t = res->Ok_0->Some_0.transcript@;
                &&& t.seeds == (if seed.len() == 0 {
                    seq![]
                } else {
                    seq![commitment::seed_words(seed)]
                }) + (if extra.len() == 0 {
                    seq![]
                } else {
                    seq![commitment::seed_words(extra)]
                })
                &&& t.components.len() == (if ranged {
                    8int
                } else {
                    7
                })
                &&& t.messages == seq![ntt_fp, az_fp, ct1_fp] + Seq::new(
                    12,
                    |i: int| commitment::fingerprint(g[i]),
                ) + seq![intt_fp, wp_fp, norm, uh_fp]
                &&& res->Ok_0->Some_0.lifting == Some(16u32)
            }
        }),
{
    lemma_witness_content(
        seed,
        extra,
        ranged,
        statement_witness::claim_ntt(w),
        statement_full::fp_of(polyvec::polys(w.az_hat@)),
        statement_full::fp_of(polyvec::polys(w.ct1_hat@)),
        polyvec::polys(w.az_hat@) + polyvec::polys(w.ct1_hat@),
        statement_witness::claim_intt(w),
        statement_full::fp_of(polyvec::polys(w.w_prime@)),
        norm,
        statement_witness::claim_hint(w),
    );
}

/// What a task for inverse transforms holds: one component for as many polynomials, the
/// fingerprint of each input and of all outputs one after the other, and the one trace.
pub proof fn lemma_intt_task(task: Task, text: Seq<char>, g: Seq<Seq<int>>)
    requires
        statement_batch::commits_to_intt(task, text, g),
    ensures
        ({
            let out = commitment::fingerprint(
                transcript::flat(Seq::new(g.len(), |j: int| transform::intt_of(g[j]))),
            );
            &&& text == commitment::poly_commitment(out)
            &&& task.transcript@.seeds == Seq::<Seq<u32>>::empty()
            &&& task.transcript@.components == seq![
                Component {
                    circuit: Circuit::InttBatch { n_polys: g.len() as usize },
                    log_n_rows: 10,
                },
            ]
            &&& task.transcript@.messages == Seq::new(
                g.len(),
                |i: int| commitment::fingerprint(g[i]),
            ).push(out)
            &&& task.log_size == 10
            &&& task.preprocessed@.len() == 0
            &&& task.traces@.len() == 1
            &&& transcript::trace_view(task.traces@[0]) == Some(
                columns::columns(mldsa_intt_batch_air::batch_table(g), 1 + 54 * g.len()),
            )
        }),
{
    let outs = Seq::new(g.len(), |j: int| transform::intt_of(g[j]));
    assert(polyvec::vec_intt(g) =~= outs);
    lemma_intt_content(g, commitment::fingerprint(transcript::flat(outs)));
    let views = transcript::traces_view(task.traces@);
    assert(views.len() == 1);
    assert(views[0] == transcript::trace_view(task.traces@[0]));
}

/// What a verifier of inverse transforms replays: the component, the fingerprint of each
/// input that it has itself, and the one in the commitment; or it refuses the commitment.
pub proof fn lemma_intt_replay(
    res: Result<Replay, StatementError>,
    text: Seq<u8>,
    g: Seq<Seq<int>>,
    fp: Seq<u32>,
)
    requires
        statement_batch::replays_intt(res, text, g),
    ensures
        res is Ok <==> commitment::fingerprint_in(text) is Some,
        commitment::fingerprint_in(text) == Some(fp) ==> {
            &&& res->Ok_0.transcript@.seeds == Seq::<Seq<u32>>::empty()
            &&& res->Ok_0.transcript@.components == seq![
                Component {
                    circuit: Circuit::InttBatch { n_polys: g.len() as usize },
                    log_n_rows: 10,
                },
            ]
            &&& res->Ok_0.transcript@.messages == Seq::new(
                g.len(),
                |i: int| commitment::fingerprint(g[i]),
            ).push(fp)
            &&& res->Ok_0.lifting is None
        },
{
    lemma_intt_content(g, fp);
}

/// A task that is asked for holds the transcript, the size and the traces that it is asked
/// to hold, and no preprocessed columns.
pub proof fn lemma_task_parts(
    task: Task,
    t: TranscriptView,
    log_size: u32,
    traces: Seq<Option<Seq<Seq<u32>>>>,
)
    requires
        statement_ring::is_task(task, t, log_size, traces),
    ensures
        transcript::words(task.transcript.seeds@) == t.seeds,
        task.transcript.components@ == t.components,
        transcript::words(task.transcript.messages@) == t.messages,
        task.log_size == log_size,
        task.preprocessed@.len() == 0,
        task.traces@.len() == traces.len(),
        forall|i: int|
            0 <= i < traces.len() ==> transcript::trace_view(#[trigger] task.traces@[i])
                == traces[i],
{
    let views = transcript::traces_view(task.traces@);
    assert forall|i: int| 0 <= i < traces.len() implies transcript::trace_view(
        #[trigger] task.traces@[i],
    ) == traces[i] by {
        assert(views[i] == traces[i]);
    }
}

/// What the parts of machine words stand for: numbers, polynomials, hints and words, each in
/// its place.
pub proof fn lemma_views(
    s: Seq<i64>,
    v: Seq<[i64; 256]>,
    h: Seq<[bool; 256]>,
    w: Seq<Vec<u32>>,
    i: int,
    j: int,
)
    ensures
        transform::ints(s).len() == s.len(),
        0 <= i < s.len() ==> transform::ints(s)[i] == s[i] as int,
        polyvec::polys(v).len() == v.len(),
        0 <= i < v.len() && 0 <= j < 256 ==> polyvec::polys(v)[i].len() == 256 && polyvec::polys(
            v,
        )[i][j] == v[i][j] as int,
        rows::hint_rows(h).len() == h.len(),
        0 <= i < h.len() && 0 <= j < 256 ==> rows::hint_rows(h)[i].len() == 256
            && rows::hint_rows(h)[i][j] == h[i][j],
        transcript::words(w).len() == w.len(),
        0 <= i < w.len() ==> transcript::words(w)[i] == w[i]@,
        0 <= i < w.len() && 0 <= j < w[i]@.len() ==> transcript::words(w)[i][j] == w[i][j],
{
}

/// The parts that a statement about a signature starts from: the response and the challenge
/// as residues, the key's `t1` times `2^13`, the thirty polynomials of the matrix row by row,
/// and the hint.
pub proof fn lemma_signature_parts(
    w: SignatureWitness,
    pk: Seq<u8>,
    sig: Seq<u8>,
    j: int,
    r: int,
    k: int,
)
    requires
        signature_witness::is_witness_of(w, pk, sig),
        pk.len() == 1952,
        sig.len() == 3309,
        0 <= j < 5,
        0 <= r < 6,
        0 <= k < 256,
    ensures
        w.z@[j][k] as int == encoding::sig_z(sig)[j][k] % 8380417,
        w.c@[k] as int == xof::ball_poly(sig.subrange(0, 48))[k],
        w.t1@[r][k] as int == (8192 * encoding::chunk_polys(pk, 32, 10, 6)[r][k]) % 8380417,
        w.a_hat@.len() == 30,
        w.a_hat@[5 * r + j][k] as int == xof::matrix_of(pk.subrange(0, 32))[r][j][k],
        w.hints@[r][k] == hints::hint_matrix(sig.subrange(3248, 3309))[r][k],
{
    let zs = polyvec::polys(w.z@);
    assert(zs[j][k] == w.z@[j][k] as int);
    assert(transform::ints(w.c@)[k] == w.c@[k] as int);
    assert(polyvec::polys(w.t1@)[r][k] == w.t1@[r][k] as int);
    let m = mldsa_az_full_air::matrix_of(polyvec::polys(w.a_hat@));
    assert(m[r][j] == polyvec::polys(w.a_hat@)[5 * r + j]);
    assert(m[r][j][k] == w.a_hat@[5 * r + j][k] as int);
    assert(rows::hint_rows(w.hints@)[r][k] == w.hints@[r][k]);
}

} // verus!
