//! Zero-padding of byte vectors to a common length, and the exact integer
//! ingredients of the cosine similarity over byte vectors: the dot product
//! and the two squared Euclidean norms. The final ratio
//! `dot / (sqrt(norm1_sq) * sqrt(norm2_sq))` is left to the caller, so all
//! arithmetic here stays exact.

use vstd::prelude::*;

use crate::byteops::clone_bytes;
use crate::distance::imax;

verus! {

/// Minimum of two integers.
pub open spec fn imin(a: int, b: int) -> int {
    if a <= b {
        a
    } else {
        b
    }
}

/// `s` extended with trailing zero bytes up to length `n` (unchanged when
/// already at least that long).
pub open spec fn pad_to(s: Seq<u8>, n: int) -> Seq<u8> {
    if n <= s.len() {
        s
    } else {
        s + Seq::new((n - s.len()) as nat, |i: int| 0u8)
    }
}

/// Pads the shorter vector with trailing zero bytes until both have the
/// length of the longer one; two equal-length vectors come back unchanged.
pub fn pad_vector(vec1: Vec<u8>, vec2: Vec<u8>) -> (r: (Vec<u8>, Vec<u8>))
    ensures
        r.0@ == pad_to(vec1@, imax(vec1@.len() as int, vec2@.len() as int)),
        r.1@ == pad_to(vec2@, imax(vec1@.len() as int, vec2@.len() as int)),
        r.0@.len() == r.1@.len(),
        vec1@.len() == vec2@.len() ==> r.0@ == vec1@ && r.1@ == vec2@,
{
    let len1 = vec1.len();
    let len2 = vec2.len();
    if len1 > len2 {
        let mut v2 = vec2;
        while v2.len() < len1
            invariant
                len1 == vec1@.len(),
                v2@.len() >= vec2@.len(),
                v2@.len() <= len1,
                v2@ == pad_to(vec2@, v2@.len() as int),
            decreases len1 - v2@.len(),
        {
            v2.push(0);
            proof {
                assert(v2@ =~= pad_to(vec2@, v2@.len() as int));
            }
        }
        (vec1, v2)
    } else if len2 > len1 {
        let mut v1 = vec1;
        while v1.len() < len2
            invariant
                len2 == vec2@.len(),
                v1@.len() >= vec1@.len(),
                v1@.len() <= len2,
                v1@ == pad_to(vec1@, v1@.len() as int),
            decreases len2 - v1@.len(),
        {
            v1.push(0);
            proof {
                assert(v1@ =~= pad_to(vec1@, v1@.len() as int));
            }
        }
        (v1, vec2)
    } else {
        (vec1, vec2)
    }
}

/// Pads copies of the two byte strings with trailing zero bytes to the
/// length of the longer one; equal-length inputs come back unchanged.
pub fn pad_strings(str1: &Vec<u8>, str2: &Vec<u8>) -> (r: (Vec<u8>, Vec<u8>))
    ensures
        r.0@ == pad_to(str1@, imax(str1@.len() as int, str2@.len() as int)),
        r.1@ == pad_to(str2@, imax(str1@.len() as int, str2@.len() as int)),
        r.0@.len() == r.1@.len(),
        str1@.len() == str2@.len() ==> r.0@ == str1@ && r.1@ == str2@,
{
    let v1 = clone_bytes(str1);
    let v2 = clone_bytes(str2);
    pad_vector(v1, v2)
}

/// Dot product of the first `n` corresponding byte values.
pub open spec fn dot_to(a: Seq<u8>, b: Seq<u8>, n: int) -> int
    decreases n,
{
    if n <= 0 {
        0
    } else {
        dot_to(a, b, n - 1) + (a[n - 1] as int) * (b[n - 1] as int)
    }
}

/// Dot product of two byte vectors over their common prefix. Since the
/// shorter vector is conceptually zero-padded, this equals the dot product
/// of the padded pair.
pub open spec fn spec_dot(a: Seq<u8>, b: Seq<u8>) -> int {
    dot_to(a, b, imin(a.len() as int, b.len() as int))
}

/// Squared Euclidean norm of a byte vector.
pub open spec fn spec_norm_sq(a: Seq<u8>) -> int {
    spec_dot(a, a)
}

/// The exact integer ingredients of a cosine similarity: the dot product and
/// the two squared norms. The similarity itself is
/// `dot / (sqrt(norm1_sq) * sqrt(norm2_sq))`, undefined when a norm is zero.
pub struct CosineParts {
    pub dot: u128,
    pub norm1_sq: u128,
    pub norm2_sq: u128,
}

impl View for CosineParts {
    type V = CosineParts;

    open spec fn view(&self) -> CosineParts {
        *self
    }
}

/// Exact dot product of two byte vectors over their common prefix.
pub fn dot_bytes(a: &Vec<u8>, b: &Vec<u8>) -> (r: u128)
    ensures
        r == spec_dot(a@, b@),
{
    let n = if a.len() < b.len() {
        a.len()
    } else {
        b.len()
    };
    let mut acc: u128 = 0;
    let mut i: usize = 0;
    while i < n
        invariant
            n <= a@.len(),
            n <= b@.len(),
            n == imin(a@.len() as int, b@.len() as int),
            i <= n,
            acc == dot_to(a@, b@, i as int),
            acc <= (i as int) * 65025,
        decreases n - i,
    {
        proof {
            assert((a@[i as int] as int) * (b@[i as int] as int) <= 65025) by (nonlinear_arith)
                requires
                    0 <= a@[i as int] <= 255,
                    0 <= b@[i as int] <= 255,
            ;
        }
        let p: u128 = (a[i] as u128) * (b[i] as u128);
        proof {
            assert((i as int) * 65025 + 65025 == (i + 1) * 65025) by (nonlinear_arith);
            assert((i + 1) * 65025 <= u128::MAX) by (nonlinear_arith)
                requires
                    0 <= i + 1 <= usize::MAX,
                    usize::MAX <= u64::MAX,
            ;
        }
        acc = acc + p;
        i = i + 1;
    }
    acc
}

/// The exact integer cosine ingredients for two byte vectors.
pub fn cosine_parts(a: &Vec<u8>, b: &Vec<u8>) -> (r: CosineParts)
    ensures
        r.dot == spec_dot(a@, b@),
        r.norm1_sq == spec_norm_sq(a@),
        r.norm2_sq == spec_norm_sq(b@),
{
    CosineParts { dot: dot_bytes(a, b), norm1_sq: dot_bytes(a, a), norm2_sq: dot_bytes(b, b) }
}

/// Prefix dot products only look at the first `n` elements.
proof fn lemma_dot_to_congruent(a1: Seq<u8>, b1: Seq<u8>, a2: Seq<u8>, b2: Seq<u8>, n: int)
    requires
        forall|i: int| 0 <= i < n ==> a1[i] == a2[i] && b1[i] == b2[i],
    ensures
        dot_to(a1, b1, n) == dot_to(a2, b2, n),
    decreases n,
{
    if n <= 0 {
    } else {
        lemma_dot_to_congruent(a1, b1, a2, b2, n - 1);
    }
}

/// Terms where either factor is zero do not change a prefix dot product.
proof fn lemma_dot_to_zero_tail(a: Seq<u8>, b: Seq<u8>, lo: int, n: int)
    requires
        0 <= lo <= n,
        forall|i: int| lo <= i < n ==> a[i] == 0 || b[i] == 0,
    ensures
        dot_to(a, b, n) == dot_to(a, b, lo),
    decreases n - lo,
{
    if lo < n {
        lemma_dot_to_zero_tail(a, b, lo, n - 1);
    }
}

/// Zero-padding two byte vectors to a common length changes neither their
/// dot product nor either squared norm.
pub proof fn lemma_pad_preserves_cosine(a: Seq<u8>, b: Seq<u8>, n: int)
    requires
        n >= a.len(),
        n >= b.len(),
    ensures
        spec_dot(pad_to(a, n), pad_to(b, n)) == spec_dot(a, b),
        spec_norm_sq(pad_to(a, n)) == spec_norm_sq(a),
        spec_norm_sq(pad_to(b, n)) == spec_norm_sq(b),
{
    let pa = pad_to(a, n);
    let pb = pad_to(b, n);
    let m = imin(a.len() as int, b.len() as int);
    assert(pa.len() == n && pb.len() == n);
    lemma_dot_to_zero_tail(pa, pb, m, n);
    lemma_dot_to_congruent(pa, pb, a, b, m);
    lemma_dot_to_zero_tail(pa, pa, a.len() as int, n);
    lemma_dot_to_congruent(pa, pa, a, a, a.len() as int);
    lemma_dot_to_zero_tail(pb, pb, b.len() as int, n);
    lemma_dot_to_congruent(pb, pb, b, b, b.len() as int);
}

/// Prefix self-dot products never decrease as the prefix grows.
proof fn lemma_norm_monotone(a: Seq<u8>, lo: int, n: int)
    requires
        0 <= lo <= n,
    ensures
        dot_to(a, a, n) >= dot_to(a, a, lo),
    decreases n - lo,
{
    if lo < n {
        lemma_norm_monotone(a, lo, n - 1);
        assert((a[n - 1] as int) * (a[n - 1] as int) >= 0) by (nonlinear_arith);
    }
}

/// A sequence compared with itself has a dot product equal to its squared
/// norm, and that norm is positive as soon as any byte is nonzero: the
/// cosine similarity of a non-degenerate sequence with itself is exactly
/// one.
pub proof fn lemma_similarity_self(a: Seq<u8>)
    ensures
        spec_dot(a, a) == spec_norm_sq(a),
        (exists|i: int| 0 <= i < a.len() && a[i] != 0) ==> spec_norm_sq(a) > 0,
{
    if exists|i: int| 0 <= i < a.len() && a[i] != 0 {
        let w = choose|i: int| 0 <= i < a.len() && a[i] != 0;
        lemma_norm_monotone(a, w + 1, a.len() as int);
        lemma_norm_monotone(a, 0, w);
        assert(dot_to(a, a, w + 1) == dot_to(a, a, w) + (a[w] as int) * (a[w] as int));
        assert((a[w] as int) * (a[w] as int) >= 1) by (nonlinear_arith)
            requires
                a[w] != 0,
        ;
    }
}

} // verus!
