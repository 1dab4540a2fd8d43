//! Lists of any length as polynomials and vectors of polynomials.
use vstd::prelude::*;

verus! {

/// Why a list has not the shape it should have.
#[derive(Clone, Copy, Debug, PartialEq, Eq)]
pub enum ShapeError {
    /// There are `got` rows in place of `expected`.
    Rows { expected: usize, got: usize },
    /// Row `index` has not 256 entries.
    Row { index: usize },
    /// A single row has not 256 entries.
    Entries,
}

/// The contents of some rows.
pub open spec fn views<T>(v: Seq<Vec<T>>) -> Seq<Seq<T>> {
    Seq::new(v.len(), |i: int| v[i]@)
}

/// The contents of some arrays.
pub open spec fn array_views<T>(v: Seq<[T; 256]>) -> Seq<Seq<T>> {
    Seq::new(v.len(), |i: int| v[i]@)
}

/// The first row, from `i` on, that has not 256 entries.
pub open spec fn row_fault<T>(v: Seq<Seq<T>>, i: nat) -> Option<ShapeError>
    decreases v.len() - i,
{
    if i >= v.len() {
        None
    } else if v[i as int].len() != 256 {
        Some(ShapeError::Row { index: i as usize })
    } else {
        row_fault(v, i + 1)
    }
}

/// What is wrong with the shape of a list of `expected` rows, if anything.
pub open spec fn rows_fault<T>(v: Seq<Seq<T>>, expected: nat) -> Option<ShapeError> {
    if v.len() != expected {
        Some(ShapeError::Rows { expected: expected as usize, got: v.len() as usize })
    } else {
        row_fault(v, 0)
    }
}

/// The first 256 entries of a row of numbers.
fn poly_from(row: &[i64]) -> (out: [i64; 256])
    requires
        row@.len() == 256,
    ensures
        out@ == row@,
{
    let mut out: [i64; 256] = [0i64; 256];
    let mut i: usize = 0;
    while i < 256
        invariant
            i <= 256,
            row@.len() == 256,
            forall|k: int| 0 <= k < i ==> out[k] == row@[k],
        decreases 256 - i,
    {
        out[i] = row[i];
        i = i + 1;
    }
    proof {
        assert(out@ =~= row@);
    }
    out
}

fn bits_from(row: &[bool]) -> (out: [bool; 256])
    requires
        row@.len() == 256,
    ensures
        out@ == row@,
{
    let mut out: [bool; 256] = [false; 256];
    let mut i: usize = 0;
    while i < 256
        invariant
            i <= 256,
            row@.len() == 256,
            forall|k: int| 0 <= k < i ==> out[k] == row@[k],
        decreases 256 - i,
    {
        out[i] = row[i];
        i = i + 1;
    }
    proof {
        assert(out@ =~= row@);
    }
    out
}

/// A list of 256 numbers as a polynomial.
pub fn conv_c(c: &Vec<i64>) -> (res: Result<[i64; 256], ShapeError>)
    ensures
        c@.len() == 256 ==> res is Ok && res->Ok_0@ == c@,
        c@.len() != 256 ==> res == Err::<[i64; 256], ShapeError>(ShapeError::Entries),
{
    if c.len() != 256 {
        return Err(ShapeError::Entries);
    }
    Ok(poly_from(c.as_slice()))
}

/// Rows of 256 numbers as polynomials.
pub fn conv_a_hat(a_hat: &Vec<Vec<i64>>) -> (res: Result<Vec<[i64; 256]>, ShapeError>)
    ensures
        match row_fault(views(a_hat@), 0) {
            Some(e) => res == Err::<Vec<[i64; 256]>, ShapeError>(e),
            None => res is Ok && array_views(res->Ok_0@) == views(a_hat@),
        },
{
    let ghost v = views(a_hat@);
    let mut out: Vec<[i64; 256]> = Vec::new();
    let mut i: usize = 0;
    while i < a_hat.len()
        invariant
            i <= a_hat.len(),
            v == views(a_hat@),
            row_fault(v, 0) == row_fault(v, i as nat),
            out@.len() == i,
            forall|k: int| 0 <= k < i ==> (#[trigger] out@[k])@ == v[k],
        decreases a_hat.len() - i,
    {
        if a_hat[i].len() != 256 {
            return Err(ShapeError::Row { index: i });
        }
        out.push(poly_from(a_hat[i].as_slice()));
        i = i + 1;
    }
    proof {
        assert(array_views(out@) =~= v);
    }
    Ok(out)
}

/// Five rows of 256 numbers as polynomials.
pub fn conv_z(z: &Vec<Vec<i64>>) -> (res: Result<[[i64; 256]; 5], ShapeError>)
    ensures
        match rows_fault(views(z@), 5) {
            Some(e) => res == Err::<[[i64; 256]; 5], ShapeError>(e),
            None => res is Ok && array_views(res->Ok_0@) == views(z@),
        },
{
    if z.len() != 5 {
        return Err(ShapeError::Rows { expected: 5, got: z.len() });
    }
    match conv_a_hat(z) {
        Ok(v) => {
            proof {
                assert(array_views(v@).len() == 5);
            }
            let out: [[i64; 256]; 5] = [v[0], v[1], v[2], v[3], v[4]];
            proof {
                assert(out@ =~= v@);
            }
            Ok(out)
        },
        Err(e) => Err(e),
    }
}

/// Six rows of 256 numbers as polynomials.
pub fn conv_t1(t1: &Vec<Vec<i64>>) -> (res: Result<[[i64; 256]; 6], ShapeError>)
    ensures
        match rows_fault(views(t1@), 6) {
            Some(e) => res == Err::<[[i64; 256]; 6], ShapeError>(e),
            None => res is Ok && array_views(res->Ok_0@) == views(t1@),
        },
{
    if t1.len() != 6 {
        return Err(ShapeError::Rows { expected: 6, got: t1.len() });
    }
    match conv_a_hat(t1) {
        Ok(v) => {
            proof {
                assert(array_views(v@).len() == 6);
            }
            let out: [[i64; 256]; 6] = [v[0], v[1], v[2], v[3], v[4], v[5]];
            proof {
                assert(out@ =~= v@);
            }
            Ok(out)
        },
        Err(e) => Err(e),
    }
}

/// Six rows of 256 hint bits.
pub fn conv_hints(hints: &Vec<Vec<bool>>) -> (res: Result<[[bool; 256]; 6], ShapeError>)
    ensures
        match rows_fault(views(hints@), 6) {
            Some(e) => res == Err::<[[bool; 256]; 6], ShapeError>(e),
            None => res is Ok && array_views(res->Ok_0@) == views(hints@),
        },
{
    let ghost v = views(hints@);
    if hints.len() != 6 {
        return Err(ShapeError::Rows { expected: 6, got: hints.len() });
    }
    let mut out: [[bool; 256]; 6] = [[false; 256]; 6];
    let mut i: usize = 0;
    while i < 6
        invariant
            i <= 6,
            v == views(hints@),
            v.len() == 6,
            row_fault(v, 0) == row_fault(v, i as nat),
            forall|k: int| 0 <= k < i ==> (#[trigger] out[k])@ == v[k],
        decreases 6 - i,
    {
        if hints[i].len() != 256 {
            return Err(ShapeError::Row { index: i });
        }
        out[i] = bits_from(hints[i].as_slice());
        i = i + 1;
    }
    proof {
        assert(array_views(out@) =~= v);
    }
    Ok(out)
}

} // verus!
