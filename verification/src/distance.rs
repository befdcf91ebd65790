//! Byte-sequence Levenshtein edit distance: a recursive specification, a
//! verified dynamic program over a rolling pair of rows, and the metric laws
//! (identity, symmetry, triangle inequality).

use vstd::prelude::*;

use crate::byteops::views_of;
use crate::parser::SuperBlock;

verus! {

/// Substitution cost between two bytes: 0 when equal, 1 otherwise.
pub open spec fn lev_cost(x: u8, y: u8) -> int {
    if x == y {
        0
    } else {
        1
    }
}

/// Minimum of three integers.
pub open spec fn min3(a: int, b: int, c: int) -> int {
    if a <= b && a <= c {
        a
    } else if b <= c {
        b
    } else {
        c
    }
}

/// Maximum of two integers.
pub open spec fn imax(a: int, b: int) -> int {
    if a >= b {
        a
    } else {
        b
    }
}

/// The Levenshtein distance between two byte sequences: the least number of
/// single-byte insertions, deletions and substitutions turning `a` into `b`.
pub open spec fn lev(a: Seq<u8>, b: Seq<u8>) -> int
    decreases a.len() + b.len(),
{
    if a.len() == 0 {
        b.len() as int
    } else if b.len() == 0 {
        a.len() as int
    } else {
        min3(
            lev(a.drop_last(), b) + 1,
            lev(a, b.drop_last()) + 1,
            lev(a.drop_last(), b.drop_last()) + lev_cost(a.last(), b.last()),
        )
    }
}

/// The distance is at least the length difference and at most the longer
/// length (hence never negative).
pub proof fn lemma_lev_bounds(a: Seq<u8>, b: Seq<u8>)
    ensures
        lev(a, b) >= imax(a.len() - b.len(), b.len() - a.len()),
        lev(a, b) <= imax(a.len() as int, b.len() as int),
        lev(a, b) >= 0,
    decreases a.len() + b.len(),
{
    if a.len() == 0 || b.len() == 0 {
    } else {
        lemma_lev_bounds(a.drop_last(), b);
        lemma_lev_bounds(a, b.drop_last());
        lemma_lev_bounds(a.drop_last(), b.drop_last());
    }
}

/// The distance from any sequence to itself is zero.
pub proof fn lemma_lev_self(a: Seq<u8>)
    ensures
        lev(a, a) == 0,
    decreases a.len(),
{
    if a.len() == 0 {
    } else {
        lemma_lev_self(a.drop_last());
        lemma_lev_bounds(a.drop_last(), a);
        lemma_lev_bounds(a, a.drop_last());
        assert(lev(a, a) <= lev(a.drop_last(), a.drop_last()) + lev_cost(a.last(), a.last()));
        lemma_lev_bounds(a, a);
    }
}

/// The distance is symmetric in its arguments.
pub proof fn lemma_lev_symmetric(a: Seq<u8>, b: Seq<u8>)
    ensures
        lev(a, b) == lev(b, a),
    decreases a.len() + b.len(),
{
    if a.len() == 0 || b.len() == 0 {
    } else {
        lemma_lev_symmetric(a.drop_last(), b);
        lemma_lev_symmetric(a, b.drop_last());
        lemma_lev_symmetric(a.drop_last(), b.drop_last());
    }
}

/// The distance from the empty sequence to `a` is the length of `a`.
pub proof fn lemma_lev_empty(a: Seq<u8>)
    ensures
        lev(Seq::<u8>::empty(), a) == a.len(),
        lev(a, Seq::<u8>::empty()) == a.len(),
{
}

/// Triangle inequality: editing `a` into `b` and then `b` into `c` costs at
/// least as much as editing `a` into `c` directly.
pub proof fn lemma_lev_triangle(a: Seq<u8>, b: Seq<u8>, c: Seq<u8>)
    ensures
        lev(a, c) <= lev(a, b) + lev(b, c),
    decreases a.len() + b.len() + c.len(),
{
    if a.len() == 0 {
        lemma_lev_bounds(b, c);
    } else if c.len() == 0 {
        lemma_lev_bounds(a, b);
    } else if b.len() == 0 {
        lemma_lev_bounds(a, c);
    } else {
        let del_ab = lev(a.drop_last(), b) + 1;
        let ins_ab = lev(a, b.drop_last()) + 1;
        let sub_ab = lev(a.drop_last(), b.drop_last()) + lev_cost(a.last(), b.last());
        let del_bc = lev(b.drop_last(), c) + 1;
        let ins_bc = lev(b, c.drop_last()) + 1;
        let sub_bc = lev(b.drop_last(), c.drop_last()) + lev_cost(b.last(), c.last());
        assert(lev(a, b) == min3(del_ab, ins_ab, sub_ab));
        assert(lev(b, c) == min3(del_bc, ins_bc, sub_bc));
        if lev(a, b) == del_ab {
            lemma_lev_triangle(a.drop_last(), b, c);
            assert(lev(a, c) <= lev(a.drop_last(), c) + 1);
        } else if lev(b, c) == ins_bc {
            lemma_lev_triangle(a, b, c.drop_last());
            assert(lev(a, c) <= lev(a, c.drop_last()) + 1);
        } else if lev(a, b) == ins_ab && lev(b, c) == del_bc {
            lemma_lev_triangle(a, b.drop_last(), c);
        } else if lev(a, b) == ins_ab && lev(b, c) == sub_bc {
            lemma_lev_triangle(a, b.drop_last(), c.drop_last());
            assert(lev(a, c) <= lev(a, c.drop_last()) + 1);
        } else if lev(a, b) == sub_ab && lev(b, c) == del_bc {
            lemma_lev_triangle(a.drop_last(), b.drop_last(), c);
            assert(lev(a, c) <= lev(a.drop_last(), c) + 1);
        } else {
            lemma_lev_triangle(a.drop_last(), b.drop_last(), c.drop_last());
            assert(lev(a, c) <= lev(a.drop_last(), c.drop_last()) + lev_cost(a.last(), c.last()));
        }
    }
}

/// Levenshtein distance between two byte slices, computed with the classic
/// dynamic program over a rolling pair of rows of length `b.len() + 1`.
pub fn optimized_levenshtein(a: &[u8], b: &[u8]) -> (r: usize)
    ensures
        r == lev(a@, b@),
{
    let len_a = a.len();
    let len_b = b.len();
    if len_a == 0 {
        return len_b;
    }
    if len_b == 0 {
        return len_a;
    }
    let mut prev_row: Vec<usize> = Vec::new();
    prev_row.push(0);
    proof {
        assert(a@.take(0) =~= Seq::<u8>::empty());
        assert(b@.take(0) =~= Seq::<u8>::empty());
    }
    let mut jj: usize = 0;
    while jj < len_b
        invariant
            len_b == b@.len(),
            jj <= len_b,
            prev_row@.len() == jj + 1,
            forall|k: int| 0 <= k <= jj ==> prev_row@[k] == lev(a@.take(0), b@.take(k)),
        decreases len_b - jj,
    {
        jj = jj + 1;
        prev_row.push(jj);
        proof {
            assert(a@.take(0) =~= Seq::<u8>::empty());
            assert(b@.take(jj as int).len() == jj);
        }
    }
    let mut i: usize = 0;
    while i < len_a
        invariant
            len_a == a@.len(),
            len_b == b@.len(),
            1 <= len_a,
            1 <= len_b,
            i <= len_a,
            prev_row@.len() == len_b + 1,
            forall|k: int| 0 <= k <= len_b ==> prev_row@[k] == lev(a@.take(i as int), b@.take(k)),
        decreases len_a - i,
    {
        let mut curr: Vec<usize> = Vec::new();
        curr.push(i + 1);
        proof {
            assert(b@.take(0) =~= Seq::<u8>::empty());
            assert(a@.take(i + 1).len() == i + 1);
        }
        let mut j: usize = 0;
        while j < len_b
            invariant
                len_a == a@.len(),
                len_b == b@.len(),
                i < len_a,
                j <= len_b,
                prev_row@.len() == len_b + 1,
                forall|k: int| 0 <= k <= len_b ==> prev_row@[k] == lev(a@.take(i as int), b@.take(k)),
                curr@.len() == j + 1,
                forall|k: int| 0 <= k <= j ==> curr@[k] == lev(a@.take(i + 1), b@.take(k)),
            decreases len_b - j,
        {
            let cost: usize = if a[i] == b[j] {
                0
            } else {
                1
            };
            proof {
                lemma_lev_bounds(a@.take(i as int), b@.take(j as int));
            }
            let sub = prev_row[j] + cost;
            let mut cell = sub;
            if prev_row[j + 1] < cell {
                cell = prev_row[j + 1] + 1;
            }
            if curr[j] < cell {
                cell = curr[j] + 1;
            }
            proof {
                let ai = a@.take(i as int);
                let ai1 = a@.take(i + 1);
                let bj = b@.take(j as int);
                let bj1 = b@.take(j + 1);
                assert(ai1.drop_last() =~= ai);
                assert(bj1.drop_last() =~= bj);
                assert(ai1.last() == a@[i as int]);
                assert(bj1.last() == b@[j as int]);
                assert(ai1.len() == i + 1 && bj1.len() == j + 1);
                assert(lev(ai1, bj1) == min3(
                    lev(ai, bj1) + 1,
                    lev(ai1, bj) + 1,
                    lev(ai, bj) + lev_cost(a@[i as int], b@[j as int]),
                ));
                assert(cell == lev(ai1, bj1));
            }
            curr.push(cell);
            j = j + 1;
        }
        prev_row = curr;
        i = i + 1;
    }
    proof {
        assert(a@.take(len_a as int) =~= a@);
        assert(b@.take(len_b as int) =~= b@);
    }
    prev_row[len_b]
}

/// The sum of the distances between the first `n` corresponding pairs.
pub open spec fn lev_sum_to(s1: Seq<Seq<u8>>, s2: Seq<Seq<u8>>, n: int) -> int
    decreases n,
{
    if n <= 0 {
        0
    } else {
        lev_sum_to(s1, s2, n - 1) + lev(s1[n - 1], s2[n - 1])
    }
}

/// The total distance over pairs zipped up to the shorter of the two lists.
pub open spec fn lev_sum(s1: Seq<Seq<u8>>, s2: Seq<Seq<u8>>) -> int {
    if s1.len() <= s2.len() {
        lev_sum_to(s1, s2, s1.len() as int)
    } else {
        lev_sum_to(s1, s2, s2.len() as int)
    }
}

/// Sums the Levenshtein distances of corresponding lines, zipping the two
/// lists up to the shorter one.
pub fn calculate_levinstine(str_v1: Vec<Vec<u8>>, str_v2: Vec<Vec<u8>>) -> (r: u128)
    ensures
        r == lev_sum(views_of(str_v1@), views_of(str_v2@)),
{
    let n = if str_v1.len() < str_v2.len() {
        str_v1.len()
    } else {
        str_v2.len()
    };
    let mut total: u128 = 0;
    let mut i: usize = 0;
    while i < n
        invariant
            n <= str_v1@.len(),
            n <= str_v2@.len(),
            i <= n,
            total == lev_sum_to(views_of(str_v1@), views_of(str_v2@), i as int),
            total <= (i as int) * (usize::MAX as int),
        decreases n - i,
    {
        let d = optimized_levenshtein(str_v1[i].as_slice(), str_v2[i].as_slice());
        proof {
            lemma_lev_bounds(str_v1@[i as int]@, str_v2@[i as int]@);
            assert((i as int) * (usize::MAX as int) + (usize::MAX as int) == (i + 1) * (
            usize::MAX as int)) by (nonlinear_arith);
            assert((i + 1) * (usize::MAX as int) <= u128::MAX) by (nonlinear_arith)
                requires
                    0 <= i + 1 <= usize::MAX,
                    usize::MAX <= u64::MAX,
            ;
        }
        total = total + (d as u128);
        i = i + 1;
    }
    total
}

/// Distance computation over the blocks of two parsed listings, declared for
/// implementors that tie a whole-listing comparison to one call.
pub trait Levenstein {
    fn calculate_levinstine(sb1: SuperBlock, sb2: SuperBlock);
}

} // verus!
