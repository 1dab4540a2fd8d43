//! The chain `h[i+1] = h[i]^3 + leaf[i+1]` over the field with 2^31 - 1 elements.
//!
//! The trace has two columns: the running value `h`, which starts with the first
//! leaf, and the leaves. The cube is no secure hash; it stands for one.
use crate::constraint;
use crate::constraint::Term;
use vstd::arithmetic::div_mod::*;
use vstd::prelude::*;

verus! {

/// The constraint on a trace of `2^log_n_rows` rows. It reads, in this order, `h`, the
/// `h` of the next row, and the leaf of the next row.
#[derive(Clone, Copy, Debug)]
pub struct HashChainEval {
    pub log_n_rows: u32,
}

/// `h_next - h * h * h - leaf_next = 0`.
pub open spec fn chain_constraints() -> Seq<Seq<Term>> {
    seq![
        seq![
            Term::Linear { coeff: 1, x: 1 },
            Term::Cubic { coeff: (-1) as i64, x: 0, y: 0, z: 0 },
            Term::Linear { coeff: (-1) as i64, x: 2 },
        ],
    ]
}

impl HashChainEval {
    pub fn log_size(&self) -> (n: u32)
        ensures
            n == self.log_n_rows,
    {
        self.log_n_rows
    }

    /// The constraint has degree three, so its quotient has twice as many coefficients
    /// as there are rows.
    pub fn max_constraint_log_degree_bound(&self) -> (n: u32)
        requires
            self.log_n_rows < u32::MAX,
        ensures
            n == self.log_n_rows + 1,
    {
        self.log_n_rows + 1
    }

    /// The constraints.
    pub fn constraints(&self) -> (cs: Vec<Vec<Term>>)
        ensures
            constraint::views(cs@) == chain_constraints(),
            constraint::all_fit(constraint::views(cs@), 3),
    {
        let mut step: Vec<Term> = Vec::new();
        step.push(Term::Linear { coeff: 1, x: 1 });
        step.push(Term::Cubic { coeff: -1, x: 0, y: 0, z: 0 });
        step.push(Term::Linear { coeff: -1, x: 2 });
        proof {
            assert(step@ =~= chain_constraints()[0]);
        }
        let mut cs: Vec<Vec<Term>> = Vec::new();
        cs.push(step);
        proof {
            assert(constraint::views(cs@) =~= chain_constraints());
        }
        cs
    }

    /// The values of the constraints on the cells that they read.
    pub fn evaluate(&self, mask: &[u32]) -> (out: Vec<u32>)
        requires
            mask@.len() == 3,
        ensures
            out@ == constraint::residues(chain_constraints(), constraint::cells(mask@)),
    {
        constraint::evaluate(&self.constraints(), mask)
    }
}

/// The running value behind leaf `i`.
pub open spec fn chain(leaves: Seq<int>, i: nat) -> int
    decreases i,
{
    if i == 0 {
        leaves[0] % 2147483647
    } else {
        let h = chain(leaves, (i - 1) as nat);
        ((h * h) * h + leaves[i as int]) % 2147483647
    }
}

/// Every step of the chain meets the constraint.
pub proof fn lemma_chain_steps(leaves: Seq<int>, i: nat)
    ensures
        constraint::satisfies(
            chain_constraints(),
            seq![chain(leaves, i), chain(leaves, i + 1), leaves[i as int + 1] % 2147483647],
        ),
{
    let h = chain(leaves, i);
    let leaf = leaves[i as int + 1];
    let m = seq![h, chain(leaves, i + 1), leaf % 2147483647];
    let cs = chain_constraints();
    reveal_with_fuel(constraint::partial_value, 4);
    constraint::lemma_linear(1, 1, m, 1);
    constraint::lemma_linear((-1) as i64, 2, m, -1);
    let cube = (h * h) * h;
    assert(constraint::term_value(cs[0][1], m) == -cube) by {
        let k = ((-1) as i64) as int;
        assert(k * cube == -cube) by (nonlinear_arith)
            requires
                k == -1,
        ;
    }
    let v = constraint::value(cs[0], m);
    assert(v == m[1] - cube - m[2]);
    let total = cube + leaf;
    lemma_fundamental_div_mod(total, 2147483647);
    lemma_fundamental_div_mod(leaf, 2147483647);
    let q = leaf / 2147483647 - total / 2147483647;
    assert(v == 2147483647 * q);
    assert(v % 2147483647 == 0);
    assert forall|j: int| 0 <= j < cs.len() implies constraint::holds(#[trigger] cs[j], m) by {}
}

} // verus!
