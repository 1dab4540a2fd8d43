//! Cells of a row: values, and the bits of values.
use crate::constraint;
use crate::mldsa::bits;
use crate::mldsa::transform;
use vstd::arithmetic::div_mod::*;
use vstd::arithmetic::power2::*;
use vstd::prelude::*;

verus! {

/// The lowest 23 bits of `v`.
pub open spec fn bits_of(v: int) -> Seq<int> {
    Seq::new(23, |k: int| bits::bit_of(v, k as nat))
}

/// The lowest 23 bits of each of some values.
pub open spec fn all_bits(v: Seq<int>) -> Seq<int> {
    Seq::new(23 * v.len(), |i: int| bits::bit_of(v[i / 23], (i % 23) as nat))
}

/// Whether all values fit in a cell.
pub open spec fn all_cells(v: Seq<i64>) -> bool {
    forall|i: int| 0 <= i < v.len() ==> 0 <= #[trigger] v[i] < 2147483647
}

/// Appends a value to a row.
pub fn push_value(row: &mut Vec<u32>, v: i64)
    requires
        0 <= v < 2147483647,
    ensures
        constraint::cells(final(row)@) == constraint::cells(old(row)@).push(v as int),
{
    row.push(v as u32);
    proof {
        assert(constraint::cells(row@) =~= constraint::cells(old(row)@).push(v as int));
    }
}

/// Appends values to a row.
pub fn push_values(row: &mut Vec<u32>, v: &[i64])
    requires
        all_cells(v@),
    ensures
        constraint::cells(final(row)@) == constraint::cells(old(row)@) + transform::ints(v@),
{
    let ghost before = constraint::cells(row@);
    let mut i: usize = 0;
    proof {
        assert(before =~= before + transform::ints(v@.subrange(0, 0)));
    }
    while i < v.len()
        invariant
            i <= v.len(),
            all_cells(v@),
            constraint::cells(row@) == before + transform::ints(v@.subrange(0, i as int)),
        decreases v.len() - i,
    {
        push_value(row, v[i]);
        i = i + 1;
        proof {
            assert(constraint::cells(row@) =~= before + transform::ints(v@.subrange(0, i as int)));
        }
    }
    proof {
        assert(v@.subrange(0, i as int) =~= v@);
    }
}

/// Appends the bits of a value to a row, lowest first.
pub fn push_bits(row: &mut Vec<u32>, v: i64)
    requires
        0 <= v < 2147483647,
    ensures
        constraint::cells(final(row)@) == constraint::cells(old(row)@) + bits_of(v as int),
{
    let ghost before = constraint::cells(row@);
    let mut w: u32 = v as u32;
    let mut k: usize = 0;
    proof {
        lemma2_to64();
        assert(before =~= before + bits_of(v as int).subrange(0, 0));
    }
    while k < 23
        invariant
            k <= 23,
            0 <= v < 2147483647,
            w == v as int / pow2(k as nat) as int,
            constraint::cells(row@) == before + bits_of(v as int).subrange(0, k as int),
        decreases 23 - k,
    {
        proof {
            lemma_pow2_unfold((k + 1) as nat);
            lemma_pow2_pos(k as nat);
            lemma_div_denominator(v as int, pow2(k as nat) as int, 2);
            assert(pow2(k as nat) * 2 == 2 * pow2(k as nat));
        }
        let ghost mid = constraint::cells(row@);
        let b: u32 = w % 2;
        row.push(b);
        proof {
            assert(b == bits_of(v as int)[k as int]);
            assert(constraint::cells(row@) =~= mid.push(b as int));
            assert(bits_of(v as int).subrange(0, k + 1) =~= bits_of(v as int).subrange(
                0,
                k as int,
            ).push(b as int));
        }
        w = w / 2;
        k = k + 1;
        proof {
            assert(constraint::cells(row@) =~= before + bits_of(v as int).subrange(0, k as int));
        }
    }
    proof {
        assert(bits_of(v as int).subrange(0, 23) =~= bits_of(v as int));
    }
}

/// Appends the bits of each of some values to a row.
pub fn push_all_bits(row: &mut Vec<u32>, v: &[i64])
    requires
        all_cells(v@),
    ensures
        constraint::cells(final(row)@) == constraint::cells(old(row)@) + all_bits(
            transform::ints(v@),
        ),
{
    let ghost before = constraint::cells(row@);
    let ghost goal = all_bits(transform::ints(v@));
    let mut i: usize = 0;
    proof {
        assert(before =~= before + goal.subrange(0, 0));
    }
    while i < v.len()
        invariant
            i <= v.len(),
            all_cells(v@),
            goal == all_bits(transform::ints(v@)),
            constraint::cells(row@) == before + goal.subrange(0, 23 * i),
        decreases v.len() - i,
    {
        push_bits(row, v[i]);
        proof {
            assert forall|k: int| 0 <= k < 23 implies goal[23 * i + k] == #[trigger] bits_of(
                v@[i as int] as int,
            )[k] by {
                lemma_fundamental_div_mod_converse(23 * i + k, 23, i as int, k);
            }
            assert(goal.subrange(0, 23 * (i + 1)) =~= goal.subrange(0, 23 * i) + bits_of(
                v@[i as int] as int,
            ));
            assert(constraint::cells(row@) =~= before + goal.subrange(0, 23 * (i + 1)));
        }
        i = i + 1;
    }
    proof {
        assert(goal.subrange(0, goal.len() as int) =~= goal);
    }
}

} // verus!
