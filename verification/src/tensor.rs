//! The integer side of a tensor: element counts, row-major flat
//! positions, row spans, and the odometer that walks every index in
//! row-major order. The `f32` storage itself lives with the engine host;
//! these are the rules its every access obeys.

use vstd::prelude::*;

verus! {

/// The number of elements a shape describes.
pub open spec fn shape_product(s: Seq<usize>) -> int
    decreases s.len(),
{
    if s.len() == 0 {
        1
    } else {
        shape_product(s.drop_last()) * s.last()
    }
}

/// The element count, multiplied out dimension by dimension in `usize`:
/// `None` as soon as a partial product overflows.
pub open spec fn checked_count(s: Seq<usize>) -> Option<usize>
    decreases s.len(),
{
    if s.len() == 0 {
        Some(1)
    } else {
        match checked_count(s.drop_last()) {
            None => None,
            Some(p) => if p * s.last() > usize::MAX {
                None
            } else {
                Some((p * s.last()) as usize)
            },
        }
    }
}

/// A checked count is the product of the shape.
pub proof fn lemma_checked_count_is_product(s: Seq<usize>)
    ensures
        checked_count(s) matches Some(n) ==> n == shape_product(s),
        shape_product(s) >= 0,
    decreases s.len(),
{
    if s.len() > 0 {
        lemma_checked_count_is_product(s.drop_last());
        let p = shape_product(s.drop_last());
        let d = s.last() as int;
        assert(p * d >= 0) by (nonlinear_arith)
            requires
                p >= 0,
                d >= 0,
        ;
    }
}

/// Number of elements a shape describes, or `None` on `usize` overflow.
/// The loader validates untrusted checkpoint shapes with the same
/// arithmetic the constructors trust.
pub fn checked_element_count(shape: &[usize]) -> (r: Option<usize>)
    ensures
        r == checked_count(shape@),
        r matches Some(n) ==> n == shape_product(shape@),
{
    proof {
        lemma_checked_count_is_product(shape@);
        assert(shape@.take(0) =~= Seq::<usize>::empty());
    }
    let mut count: usize = 1;
    let mut i: usize = 0;
    while i < shape.len()
        invariant
            i <= shape@.len(),
            checked_count(shape@.take(i as int)) == Some(count),
        decreases shape.len() - i,
    {
        proof {
            assert(shape@.take(i + 1).drop_last() =~= shape@.take(i as int));
        }
        match count.checked_mul(shape[i]) {
            Some(c) => {
                count = c;
            },
            None => {
                proof {
                    lemma_checked_none_stays(shape@, i + 1);
                }
                return None;
            },
        }
        i = i + 1;
    }
    proof {
        assert(shape@.take(shape@.len() as int) =~= shape@);
    }
    Some(count)
}

proof fn lemma_checked_none_stays(s: Seq<usize>, k: int)
    requires
        0 <= k <= s.len(),
        checked_count(s.take(k)) is None,
    ensures
        checked_count(s) is None,
    decreases s.len() - k,
{
    if k < s.len() {
        assert(s.take(k + 1).drop_last() =~= s.take(k));
        lemma_checked_none_stays(s, k + 1);
    } else {
        assert(s.take(k) =~= s);
    }
}

/// The element count of a shape the caller knows to fit.
pub fn element_count(shape: &[usize]) -> (r: usize)
    requires
        checked_count(shape@) is Some,
    ensures
        r == shape_product(shape@),
{
    match checked_element_count(shape) {
        Some(n) => n,
        None => 0,
    }
}

// ------------------------------------------------------- flat position

/// The row-major position of an index: the last index moves fastest, so
/// for shape [rows, cols] the position of [i, j] is i * cols + j.
pub open spec fn flat_of(s: Seq<usize>, idx: Seq<usize>) -> int
    decreases s.len(),
{
    if s.len() == 0 || idx.len() == 0 {
        0
    } else {
        flat_of(s.drop_last(), idx.drop_last()) * s.last() + idx.last()
    }
}

/// Every coordinate is below its dimension.
pub open spec fn in_bounds(s: Seq<usize>, idx: Seq<usize>) -> bool {
    idx.len() == s.len() && forall|d: int| 0 <= d < s.len() ==> idx[d] < s[d]
}

/// An index in bounds has a position below the element count: row-major
/// positions never leave the data.
pub proof fn lemma_flat_in_range(s: Seq<usize>, idx: Seq<usize>)
    requires
        in_bounds(s, idx),
    ensures
        0 <= flat_of(s, idx) < shape_product(s),
    decreases s.len(),
{
    if s.len() > 0 {
        lemma_flat_in_range(s.drop_last(), idx.drop_last());
        let f = flat_of(s.drop_last(), idx.drop_last());
        let p = shape_product(s.drop_last());
        let d = s.last() as int;
        let i = idx.last() as int;
        assert(0 <= f * d + i < p * d) by (nonlinear_arith)
            requires
                0 <= f < p,
                0 <= i < d,
        ;
    }
}

/// The row-major position of `index` in a tensor of `shape`.
pub fn flat_index(shape: &[usize], index: &[usize]) -> (r: usize)
    requires
        in_bounds(shape@, index@),
        checked_count(shape@) is Some,
    ensures
        r == flat_of(shape@, index@),
        r < shape_product(shape@),
{
    proof {
        lemma_checked_count_is_product(shape@);
        lemma_flat_in_range(shape@, index@);
        assert(shape@.take(0) =~= Seq::<usize>::empty());
        assert(index@.take(0) =~= Seq::<usize>::empty());
    }
    let mut flat: usize = 0;
    let mut d: usize = 0;
    while d < shape.len()
        invariant
            in_bounds(shape@, index@),
            checked_count(shape@) is Some,
            d <= shape@.len(),
            flat == flat_of(shape@.take(d as int), index@.take(d as int)),
        decreases shape.len() - d,
    {
        proof {
            assert(shape@.take(d + 1).drop_last() =~= shape@.take(d as int));
            assert(index@.take(d + 1).drop_last() =~= index@.take(d as int));
            assert(in_bounds(shape@.take(d + 1), index@.take(d + 1)));
            lemma_flat_in_range(shape@.take(d + 1), index@.take(d + 1));
            lemma_prefix_product_fits(shape@, d + 1);
        }
        flat = flat * shape[d] + index[d];
        d = d + 1;
    }
    proof {
        assert(shape@.take(shape@.len() as int) =~= shape@);
        assert(index@.take(index@.len() as int) =~= index@);
    }
    flat
}

proof fn lemma_prefix_product_fits(s: Seq<usize>, k: int)
    requires
        0 <= k <= s.len(),
        checked_count(s) is Some,
    ensures
        checked_count(s.take(k)) is Some,
        shape_product(s.take(k)) <= usize::MAX,
    decreases s.len() - k,
{
    if k < s.len() {
        lemma_prefix_product_fits(s, k + 1);
        assert(s.take(k + 1).drop_last() =~= s.take(k));
    } else {
        assert(s.take(k) =~= s);
    }
    lemma_checked_count_is_product(s.take(k));
}

/// The positions of row `i` of a matrix: `[i * cols, (i + 1) * cols)`.
pub fn row_span(shape: &[usize], i: usize) -> (r: (usize, usize))
    requires
        shape@.len() == 2,
        i < shape@[0],
        checked_count(shape@) is Some,
    ensures
        r.0 == i * shape@[1],
        r.1 == (i + 1) * shape@[1],
        r.1 <= shape_product(shape@),
{
    proof {
        lemma_checked_count_is_product(shape@);
        assert(shape@.drop_last().drop_last() =~= Seq::<usize>::empty());
        assert(shape_product(shape@.drop_last().drop_last()) == 1);
        assert(shape@.drop_last().last() == shape@[0]);
        assert(shape_product(shape@.drop_last()) == 1 * shape@[0]);
        assert(shape_product(shape@) == shape_product(shape@.drop_last()) * shape@[1]);
        assert(shape_product(shape@) == shape@[0] * shape@[1]);
        let rows = shape@[0] as int;
        let cols = shape@[1] as int;
        assert((i + 1) * cols <= rows * cols) by (nonlinear_arith)
            requires
                i + 1 <= rows,
                cols >= 0,
        ;
        assert(i * cols <= (i + 1) * cols) by (nonlinear_arith)
            requires
                cols >= 0,
        ;
    }
    let cols = shape[1];
    (i * cols, (i + 1) * cols)
}

// ------------------------------------------------------------ odometer

/// The index after `idx` in row-major order: bump the last coordinate,
/// carrying leftward past each one that reaches its dimension.
pub open spec fn carry(s: Seq<usize>, idx: Seq<usize>) -> Seq<usize>
    decreases s.len(),
{
    if s.len() == 0 || idx.len() != s.len() {
        idx
    } else if idx.last() + 1 < s.last() {
        idx.update(idx.len() - 1, (idx.last() + 1) as usize)
    } else {
        carry(s.drop_last(), idx.drop_last()).push(0)
    }
}

pub open spec fn zeros(n: nat) -> Seq<usize> {
    Seq::new(n, |i: int| 0usize)
}

/// The odometer steps one position forward: from any index but the last
/// it reaches the next row-major position, still in bounds.
pub proof fn lemma_carry_steps(s: Seq<usize>, idx: Seq<usize>)
    requires
        in_bounds(s, idx),
        flat_of(s, idx) + 1 < shape_product(s),
    ensures
        in_bounds(s, carry(s, idx)),
        flat_of(s, carry(s, idx)) == flat_of(s, idx) + 1,
    decreases s.len(),
{
    let n = s.len();
    if n == 0 {
        assert(false);
    } else {
        let ps = s.drop_last();
        let pi = idx.drop_last();
        let f = flat_of(ps, pi);
        let p = shape_product(ps);
        let d = s.last() as int;
        let i = idx.last() as int;
        assert(in_bounds(ps, pi));
        if i + 1 < d {
            let c = idx.update(n - 1, (i + 1) as usize);
            assert(c.drop_last() =~= pi);
        } else {
            lemma_flat_in_range(ps, pi);
            assert(f + 1 < p) by (nonlinear_arith)
                requires
                    i + 1 >= d,
                    0 <= i < d,
                    f * d + i + 1 < p * d,
            ;
            lemma_carry_steps(ps, pi);
            let c = carry(ps, pi).push(0);
            assert(c.drop_last() =~= carry(ps, pi));
            assert((f + 1) * d == f * d + i + 1) by (nonlinear_arith)
                requires
                    i + 1 == d,
            ;
        }
    }
}

/// Step `index` to the next row-major position of `shape`; past the last
/// position it wraps to all zeros.
pub fn next_index(shape: &[usize], index: &mut Vec<usize>)
    requires
        in_bounds(shape@, old(index)@),
    ensures
        final(index)@ == carry(shape@, old(index)@),
{
    let ghost start = index@;
    let ghost s = shape@;
    let n = shape.len();
    let mut dim = n;
    let mut done = false;
    proof {
        assert(start.take(n as int) =~= start);
        assert(s.take(n as int) =~= s);
        assert(start =~= start.take(n as int) + zeros(0));
        assert(carry(s, start) =~= carry(s.take(n as int), start.take(n as int)) + zeros(0));
    }
    while dim > 0 && !done
        invariant
            n == s.len(),
            s == shape@,
            in_bounds(s, start),
            dim <= n,
            done ==> index@ == carry(s, start),
            !done ==> index@ == start.take(dim as int) + zeros((n - dim) as nat),
            !done ==> carry(s, start) == carry(s.take(dim as int), start.take(dim as int)) + zeros(
                (n - dim) as nat,
            ),
        decreases dim,
    {
        dim = dim - 1;
        proof {
            assert(index@[dim as int] == start[dim as int]);
            assert(s.take(dim + 1).drop_last() =~= s.take(dim as int));
            assert(start.take(dim + 1).drop_last() =~= start.take(dim as int));
            assert(start.take(dim + 1).last() == start[dim as int]);
        }
        let v = index[dim] + 1;
        if v < shape[dim] {
            let ghost before = index@;
            index.set(dim, v);
            proof {
                assert(index@ =~= start.take(dim + 1).update(dim as int, v) + zeros((n - dim - 1) as nat));
            }
            done = true;
        } else {
            index.set(dim, 0);
            proof {
                assert(index@ =~= start.take(dim as int) + zeros((n - dim) as nat));
                assert(carry(s.take(dim + 1), start.take(dim + 1)) == carry(
                    s.take(dim as int),
                    start.take(dim as int),
                ).push(0));
                assert(carry(s.take(dim as int), start.take(dim as int)).push(0) + zeros(
                    (n - dim - 1) as nat,
                ) =~= carry(s.take(dim as int), start.take(dim as int)) + zeros((n - dim) as nat));
            }
        }
    }
    proof {
        if !done {
            assert(s.take(0) =~= Seq::<usize>::empty());
            assert(start.take(0) =~= Seq::<usize>::empty());
            assert(carry(s, start) =~= zeros(n as nat));
            assert(index@ =~= zeros(n as nat));
        }
    }
}

} // verus!
