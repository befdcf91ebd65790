//! The comparison engine: joins two parsed listings by source key, computes
//! the per-key edit distance, block length and cosine ingredients, emits a
//! sentinel row for keys present on only one side, and aggregates totals
//! plus a whole-file similarity over the concatenated matched contents.

use vstd::prelude::*;

use crate::byteops::clone_bytes;
use crate::byteops::join_bytes;
use crate::byteops::join_with;
use crate::byteops::views_of;
use crate::distance::imax;
use crate::distance::lev;
use crate::distance::lemma_lev_bounds;
use crate::distance::optimized_levenshtein;
use crate::similarity::CosineParts;
use crate::similarity::cosine_parts;
use crate::similarity::lemma_pad_preserves_cosine;
use crate::similarity::pad_strings;
use crate::similarity::spec_dot;
use crate::similarity::spec_norm_sq;
use crate::byteops::clone_lines;
use crate::distance::calculate_levinstine;
use crate::distance::lev_sum;
use crate::parser::SrcRefModel;
use crate::parser::SuperBlock;
use crate::parser::SuperBlockModel;
use crate::vecmap::VecMap;
use crate::vecmap::entries_get;
use crate::vecmap::entries_insert;
use crate::vecmap::has_key;

verus! {

/// Mathematical model of one per-key comparison row. A key missing on one
/// side carries the sentinel `-1` in both integer fields and no similarity.
pub struct RowModel {
    pub key: Seq<u8>,
    pub edit_distance: int,
    pub block_length: int,
    /// Dot product and the two squared norms, when the key matched.
    pub similarity: Option<(int, int, int)>,
}

/// One per-key comparison row. For a key present on both sides,
/// `edit_distance` is the Levenshtein distance of the contents,
/// `block_length` the longer content length and `similarity` the exact
/// cosine ingredients; for a key missing on one side both integers are the
/// sentinel `-1` and `similarity` is absent.
pub struct ComparisonResult {
    pub key: Vec<u8>,
    pub edit_distance: i128,
    pub block_length: i128,
    pub similarity: Option<CosineParts>,
}

impl View for ComparisonResult {
    type V = RowModel;

    open spec fn view(&self) -> RowModel {
        RowModel {
            key: self.key@,
            edit_distance: self.edit_distance as int,
            block_length: self.block_length as int,
            similarity: match self.similarity {
                Some(p) => Some((p.dot as int, p.norm1_sq as int, p.norm2_sq as int)),
                None => None,
            },
        }
    }
}

/// Running totals over all matched keys, and the cosine ingredients of the
/// two concatenations of matched content.
pub struct AggregateResult {
    /// Sum of the per-key edit distances over matched keys.
    pub total_edit_distance: u128,
    /// Sum of the per-key block lengths over matched keys.
    pub total_reference_length: u128,
    /// Cosine ingredients of the whole matched content of side one against
    /// that of side two, each joined with a line feed between blocks.
    pub overall: CosineParts,
}

/// The views of a sequence of comparison rows.
pub open spec fn results_view(s: Seq<ComparisonResult>) -> Seq<RowModel>
    decreases s.len(),
{
    if s.len() == 0 {
        seq![]
    } else {
        results_view(s.drop_last()).push(s.last()@)
    }
}

/// Appending a row appends its model.
proof fn lemma_results_view_push(s: Seq<ComparisonResult>, c: ComparisonResult)
    ensures
        results_view(s.push(c)) == results_view(s).push(c@),
{
    assert(s.push(c).drop_last() =~= s);
    assert(s.push(c).last() == c);
}

/// The row produced for key `key` with side-one content `c1`, against the
/// side-two entries `e2`.
pub open spec fn spec_row(key: Seq<u8>, c1: Seq<u8>, e2: Seq<(Seq<u8>, Seq<u8>)>) -> RowModel {
    match entries_get(e2, key) {
        Some(c2) => RowModel {
            key,
            edit_distance: lev(c1, c2),
            block_length: imax(c1.len() as int, c2.len() as int),
            similarity: Some((spec_dot(c1, c2), spec_norm_sq(c1), spec_norm_sq(c2))),
        },
        None => RowModel { key, edit_distance: -1, block_length: -1, similarity: None },
    }
}

/// The sentinel row for a key present on only one side.
pub open spec fn sentinel_row(key: Seq<u8>) -> RowModel {
    RowModel { key, edit_distance: -1, block_length: -1, similarity: None }
}

/// The rows for the first `k` side-one entries, in order.
pub open spec fn rows_to(
    e1: Seq<(Seq<u8>, Seq<u8>)>,
    e2: Seq<(Seq<u8>, Seq<u8>)>,
    k: int,
) -> Seq<RowModel>
    decreases k,
{
    if k <= 0 {
        seq![]
    } else {
        rows_to(e1, e2, k - 1).push(spec_row(e1[k - 1].0, e1[k - 1].1, e2))
    }
}

/// The sentinel rows for the side-two keys among the first `k` that do not
/// occur on side one, in order.
pub open spec fn extra_rows_to(
    e2: Seq<(Seq<u8>, Seq<u8>)>,
    e1: Seq<(Seq<u8>, Seq<u8>)>,
    k: int,
) -> Seq<RowModel>
    decreases k,
{
    if k <= 0 {
        seq![]
    } else {
        let prev = extra_rows_to(e2, e1, k - 1);
        if has_key(e1, e2[k - 1].0) {
            prev
        } else {
            prev.push(sentinel_row(e2[k - 1].0))
        }
    }
}

/// Sum of the edit distances of the matched keys among the first `k`
/// side-one entries; unmatched keys contribute nothing.
pub open spec fn total_ed_to(e1: Seq<(Seq<u8>, Seq<u8>)>, e2: Seq<(Seq<u8>, Seq<u8>)>, k: int) -> int
    decreases k,
{
    if k <= 0 {
        0
    } else {
        total_ed_to(e1, e2, k - 1) + (match entries_get(e2, e1[k - 1].0) {
            Some(c2) => lev(e1[k - 1].1, c2),
            None => 0,
        })
    }
}

/// Sum of the block lengths of the matched keys among the first `k`
/// side-one entries; unmatched keys contribute nothing.
pub open spec fn total_len_to(e1: Seq<(Seq<u8>, Seq<u8>)>, e2: Seq<(Seq<u8>, Seq<u8>)>, k: int) -> int
    decreases k,
{
    if k <= 0 {
        0
    } else {
        total_len_to(e1, e2, k - 1) + (match entries_get(e2, e1[k - 1].0) {
            Some(c2) => imax(e1[k - 1].1.len() as int, c2.len() as int),
            None => 0,
        })
    }
}

/// The side-one contents of the matched keys, in side-one order.
pub open spec fn matched_side1(e1: Seq<(Seq<u8>, Seq<u8>)>, e2: Seq<(Seq<u8>, Seq<u8>)>) -> Seq<
    Seq<u8>,
>
    decreases e1.len(),
{
    if e1.len() == 0 {
        seq![]
    } else {
        let rest = matched_side1(e1.drop_last(), e2);
        if has_key(e2, e1.last().0) {
            rest.push(e1.last().1)
        } else {
            rest
        }
    }
}

/// The side-two contents of the matched keys, in side-one order.
pub open spec fn matched_side2(e1: Seq<(Seq<u8>, Seq<u8>)>, e2: Seq<(Seq<u8>, Seq<u8>)>) -> Seq<
    Seq<u8>,
>
    decreases e1.len(),
{
    if e1.len() == 0 {
        seq![]
    } else {
        let rest = matched_side2(e1.drop_last(), e2);
        match entries_get(e2, e1.last().0) {
            Some(c2) => rest.push(c2),
            None => rest,
        }
    }
}

/// Joins two parsed content mappings by key. Per side-one key, in order: a
/// row with the edit distance, block length and cosine ingredients when the
/// key occurs on side two, else a sentinel row. Then, per side-two key
/// missing on side one, in order: a sentinel row. The totals sum distances
/// and block lengths over matched keys only, and `overall` holds the cosine
/// ingredients of the concatenated matched contents of either side.
pub fn compare(m1: &VecMap<Vec<u8>>, m2: &VecMap<Vec<u8>>) -> (r: (
    Vec<ComparisonResult>,
    AggregateResult,
))
    ensures
        results_view(r.0@) == rows_to(m1@, m2@, m1@.len() as int) + extra_rows_to(
            m2@,
            m1@,
            m2@.len() as int,
        ),
        r.1.total_edit_distance == total_ed_to(m1@, m2@, m1@.len() as int),
        r.1.total_reference_length == total_len_to(m1@, m2@, m1@.len() as int),
        r.1.overall.dot == spec_dot(
            join_with(matched_side1(m1@, m2@), 0x0a),
            join_with(matched_side2(m1@, m2@), 0x0a),
        ),
        r.1.overall.norm1_sq == spec_norm_sq(join_with(matched_side1(m1@, m2@), 0x0a)),
        r.1.overall.norm2_sq == spec_norm_sq(join_with(matched_side2(m1@, m2@), 0x0a)),
{
    let ghost e1 = m1@;
    let ghost e2 = m2@;
    let mut results: Vec<ComparisonResult> = Vec::new();
    let mut ted: u128 = 0;
    let mut trl: u128 = 0;
    let mut matched1v: Vec<Vec<u8>> = Vec::new();
    let mut matched2v: Vec<Vec<u8>> = Vec::new();
    let n1 = m1.entries.len();
    let mut i: usize = 0;
    proof {
        assert(e1.take(0) =~= Seq::<(Seq<u8>, Seq<u8>)>::empty());
        assert(views_of(matched1v@) =~= Seq::<Seq<u8>>::empty());
        assert(views_of(matched2v@) =~= Seq::<Seq<u8>>::empty());
    }
    while i < n1
        invariant
            e1 == m1@,
            e2 == m2@,
            n1 == m1.entries@.len(),
            e1.len() == n1,
            i <= n1,
            results_view(results@) == rows_to(e1, e2, i as int),
            ted == total_ed_to(e1, e2, i as int),
            ted <= (i as int) * (usize::MAX as int),
            trl == total_len_to(e1, e2, i as int),
            trl <= (i as int) * (usize::MAX as int),
            views_of(matched1v@) == matched_side1(e1.take(i as int), e2),
            views_of(matched2v@) == matched_side2(e1.take(i as int), e2),
        decreases n1 - i,
    {
        let key = &m1.entries[i].0;
        let c1 = &m1.entries[i].1;
        proof {
            assert(e1[i as int] == (m1.entries@[i as int].0@, m1.entries@[i as int].1@));
            assert(e1.take(i + 1).drop_last() =~= e1.take(i as int));
            assert(e1.take(i + 1).last() == e1[i as int]);
        }
        let ghost prev_results = results@;
        match m2.get(key) {
            Some(c2) => {
                let d = optimized_levenshtein(c1.as_slice(), c2.as_slice());
                let bl = if c1.len() >= c2.len() {
                    c1.len()
                } else {
                    c2.len()
                };
                let (p1, p2) = pad_strings(c1, c2);
                let parts = cosine_parts(&p1, &p2);
                proof {
                    lemma_pad_preserves_cosine(c1@, c2@, imax(c1@.len() as int, c2@.len() as int));
                    lemma_lev_bounds(c1@, c2@);
                    assert((i as int) * (usize::MAX as int) + (usize::MAX as int) == (i + 1) * (
                    usize::MAX as int)) by (nonlinear_arith);
                    assert((i + 1) * (usize::MAX as int) <= u128::MAX) by (nonlinear_arith)
                        requires
                            0 <= i + 1 <= usize::MAX,
                            usize::MAX <= u64::MAX,
                    ;
                }
                let row = ComparisonResult {
                    key: clone_bytes(key),
                    edit_distance: d as i128,
                    block_length: bl as i128,
                    similarity: Some(parts),
                };
                proof {
                    assert(row@ == spec_row(e1[i as int].0, e1[i as int].1, e2));
                    lemma_results_view_push(prev_results, row);
                }
                results.push(row);
                ted = ted + (d as u128);
                trl = trl + (bl as u128);
                matched1v.push(clone_bytes(c1));
                matched2v.push(clone_bytes(c2));
                proof {
                    assert(views_of(matched1v@) =~= matched_side1(e1.take(i as int), e2).push(
                        c1@,
                    ));
                    assert(views_of(matched2v@) =~= matched_side2(e1.take(i as int), e2).push(
                        c2@,
                    ));
                }
            },
            None => {
                let row = ComparisonResult {
                    key: clone_bytes(key),
                    edit_distance: -1,
                    block_length: -1,
                    similarity: None,
                };
                proof {
                    assert(row@ == spec_row(e1[i as int].0, e1[i as int].1, e2));
                    lemma_results_view_push(prev_results, row);
                }
                results.push(row);
                proof {
                    assert(views_of(matched1v@) =~= matched_side1(e1.take(i + 1), e2));
                    assert(views_of(matched2v@) =~= matched_side2(e1.take(i + 1), e2));
                }
            },
        }
        i = i + 1;
    }
    proof {
        assert(e1.take(n1 as int) =~= e1);
    }
    let n2 = m2.entries.len();
    let mut k: usize = 0;
    while k < n2
        invariant
            e1 == m1@,
            e2 == m2@,
            n2 == m2.entries@.len(),
            e2.len() == n2,
            k <= n2,
            results_view(results@) == rows_to(e1, e2, e1.len() as int) + extra_rows_to(
                e2,
                e1,
                k as int,
            ),
        decreases n2 - k,
    {
        let key2 = &m2.entries[k].0;
        proof {
            assert(e2[k as int] == (m2.entries@[k as int].0@, m2.entries@[k as int].1@));
        }
        let ghost prev_results = results@;
        if !m1.contains_key(key2) {
            let row = ComparisonResult {
                key: clone_bytes(key2),
                edit_distance: -1,
                block_length: -1,
                similarity: None,
            };
            proof {
                assert(row@ == sentinel_row(e2[k as int].0));
                lemma_results_view_push(prev_results, row);
            }
            results.push(row);
        }
        k = k + 1;
    }
    let cat1 = join_bytes(&matched1v, 0x0a);
    let cat2 = join_bytes(&matched2v, 0x0a);
    let overall = cosine_parts(&cat1, &cat2);
    (
        results,
        AggregateResult { total_edit_distance: ted, total_reference_length: trl, overall },
    )
}

/// Compares two parsed listings: flattens each into its per-reference
/// content mapping and joins them with [`compare`].
pub fn compare_parsed(parsed1: &VecMap<SuperBlock>, parsed2: &VecMap<SuperBlock>) -> (r: (
    Vec<ComparisonResult>,
    AggregateResult,
))
    ensures
        ({
            let e1 = spec_content_map(parsed1@);
            let e2 = spec_content_map(parsed2@);
            &&& results_view(r.0@) == rows_to(e1, e2, e1.len() as int) + extra_rows_to(
                e2,
                e1,
                e2.len() as int,
            )
            &&& r.1.total_edit_distance == total_ed_to(e1, e2, e1.len() as int)
            &&& r.1.total_reference_length == total_len_to(e1, e2, e1.len() as int)
            &&& r.1.overall.dot == spec_dot(
                join_with(matched_side1(e1, e2), 0x0a),
                join_with(matched_side2(e1, e2), 0x0a),
            )
            &&& r.1.overall.norm1_sq == spec_norm_sq(join_with(matched_side1(e1, e2), 0x0a))
            &&& r.1.overall.norm2_sq == spec_norm_sq(join_with(matched_side2(e1, e2), 0x0a))
        }),
{
    let m1 = content_map(parsed1);
    let m2 = content_map(parsed2);
    compare(&m1, &m2)
}

/// The distance entries for the first `k` side-one references against the
/// side-two references, inserted in order into `out`: per matched key, the
/// summed line-wise Levenshtein distance of the two contents.
pub open spec fn ref_dists_to(
    rs1: Seq<(Seq<u8>, SrcRefModel)>,
    rs2: Seq<(Seq<u8>, SrcRefModel)>,
    k: int,
    out: Seq<(Seq<u8>, u128)>,
) -> Seq<(Seq<u8>, u128)>
    decreases k,
{
    if k <= 0 {
        out
    } else {
        let prev = ref_dists_to(rs1, rs2, k - 1, out);
        match entries_get(rs2, rs1[k - 1].0) {
            Some(r2) => entries_insert(
                prev,
                rs1[k - 1].0,
                (lev_sum(rs1[k - 1].1.content, r2.content) as u128),
            ),
            None => prev,
        }
    }
}

/// Per reference key of `sb1` that also occurs in `sb2`, in order: the
/// summed line-wise Levenshtein distance between the two contents.
pub fn calculate_levinstine_super_block(sb1: SuperBlock, sb2: SuperBlock) -> (r: VecMap<u128>)
    ensures
        r@ == ref_dists_to(
            sb1@.src_references,
            sb2@.src_references,
            sb1@.src_references.len() as int,
            Seq::<(Seq<u8>, u128)>::empty(),
        ),
        r.wf(),
{
    let ghost rs1 = sb1@.src_references;
    let ghost rs2 = sb2@.src_references;
    let mut out: VecMap<u128> = VecMap::new();
    let n = sb1.src_references.entries.len();
    let mut i: usize = 0;
    while i < n
        invariant
            rs1 == sb1@.src_references,
            rs2 == sb2@.src_references,
            n == sb1.src_references.entries@.len(),
            rs1.len() == n,
            i <= n,
            out.wf(),
            out@ == ref_dists_to(rs1, rs2, i as int, Seq::<(Seq<u8>, u128)>::empty()),
        decreases n - i,
    {
        let key = &sb1.src_references.entries[i].0;
        let r1 = &sb1.src_references.entries[i].1;
        proof {
            assert(rs1[i as int] == (
                sb1.src_references.entries@[i as int].0@,
                sb1.src_references.entries@[i as int].1@,
            ));
        }
        match sb2.src_references.get(key) {
            Some(r2) => {
                let c1 = clone_lines(&r1.content);
                let c2 = clone_lines(&r2.content);
                let d = calculate_levinstine(c1, c2);
                out.insert(clone_bytes(key), d);
            },
            None => {},
        }
        i = i + 1;
    }
    out
}

/// The union, over the first `k` side-one super-blocks matched by key on
/// side two, of their per-reference distance entries.
pub open spec fn glm_to(
    e1: Seq<(Seq<u8>, SuperBlockModel)>,
    e2: Seq<(Seq<u8>, SuperBlockModel)>,
    k: int,
) -> Seq<(Seq<u8>, u128)>
    decreases k,
{
    if k <= 0 {
        Seq::<(Seq<u8>, u128)>::empty()
    } else {
        let prev = glm_to(e1, e2, k - 1);
        match entries_get(e2, e1[k - 1].0) {
            Some(b2) => ref_dists_to(
                e1[k - 1].1.src_references,
                b2.src_references,
                e1[k - 1].1.src_references.len() as int,
                prev,
            ),
            None => prev,
        }
    }
}

/// For every super-block key present in both parsed listings, in order: the
/// per-reference distance entries of the two super-blocks, merged into one
/// mapping from reference key to summed line-wise Levenshtein distance.
pub fn generate_levinstine_map(sb1: VecMap<SuperBlock>, sb2: VecMap<SuperBlock>) -> (r: VecMap<
    u128,
>)
    ensures
        r@ == glm_to(sb1@, sb2@, sb1@.len() as int),
        r.wf(),
{
    let ghost e1 = sb1@;
    let ghost e2 = sb2@;
    let mut out: VecMap<u128> = VecMap::new();
    let n = sb1.entries.len();
    let mut i: usize = 0;
    while i < n
        invariant
            e1 == sb1@,
            e2 == sb2@,
            n == sb1.entries@.len(),
            e1.len() == n,
            i <= n,
            out.wf(),
            out@ == glm_to(e1, e2, i as int),
        decreases n - i,
    {
        let key = &sb1.entries[i].0;
        let b1 = &sb1.entries[i].1;
        proof {
            assert(e1[i as int] == (sb1.entries@[i as int].0@, sb1.entries@[i as int].1@));
        }
        match sb2.get(key) {
            Some(b2) => {
                let ghost rs1 = b1@.src_references;
                let ghost rs2 = b2@.src_references;
                let ghost start = out@;
                let t_count = b1.src_references.entries.len();
                let mut t: usize = 0;
                while t < t_count
                    invariant
                        rs1 == b1@.src_references,
                        rs2 == b2@.src_references,
                        t_count == b1.src_references.entries@.len(),
                        rs1.len() == t_count,
                        t <= t_count,
                        out.wf(),
                        out@ == ref_dists_to(rs1, rs2, t as int, start),
                    decreases t_count - t,
                {
                    let rk = &b1.src_references.entries[t].0;
                    let r1 = &b1.src_references.entries[t].1;
                    proof {
                        assert(rs1[t as int] == (
                            b1.src_references.entries@[t as int].0@,
                            b1.src_references.entries@[t as int].1@,
                        ));
                    }
                    match b2.src_references.get(rk) {
                        Some(r2) => {
                            let c1 = clone_lines(&r1.content);
                            let c2 = clone_lines(&r2.content);
                            let d = calculate_levinstine(c1, c2);
                            out.insert(clone_bytes(rk), d);
                        },
                        None => {},
                    }
                    t = t + 1;
                }
            },
            None => {},
        }
        i = i + 1;
    }
    out
}

/// The flat content entries of the first `k` super-blocks, inserted in
/// order into `out`: per reference, its key mapped to its tokens joined
/// with a line feed.
pub open spec fn ref_contents_to(
    rs: Seq<(Seq<u8>, SrcRefModel)>,
    k: int,
    out: Seq<(Seq<u8>, Seq<u8>)>,
) -> Seq<(Seq<u8>, Seq<u8>)>
    decreases k,
{
    if k <= 0 {
        out
    } else {
        entries_insert(
            ref_contents_to(rs, k - 1, out),
            rs[k - 1].0,
            join_with(rs[k - 1].1.content, 0x0a),
        )
    }
}

/// The flat content mapping of the first `k` super-blocks.
pub open spec fn content_entries_to(sbs: Seq<(Seq<u8>, SuperBlockModel)>, k: int) -> Seq<
    (Seq<u8>, Seq<u8>),
>
    decreases k,
{
    if k <= 0 {
        Seq::<(Seq<u8>, Seq<u8>)>::empty()
    } else {
        let prev = content_entries_to(sbs, k - 1);
        ref_contents_to(
            sbs[k - 1].1.src_references,
            sbs[k - 1].1.src_references.len() as int,
            prev,
        )
    }
}

/// The flat mapping from every reference key of a parsed listing to that
/// reference's tokens joined with a line feed; this is what [`compare`]
/// consumes.
pub open spec fn spec_content_map(sbs: Seq<(Seq<u8>, SuperBlockModel)>) -> Seq<(Seq<u8>, Seq<u8>)> {
    content_entries_to(sbs, sbs.len() as int)
}

/// Flattens a parsed listing into the per-reference content mapping that
/// [`compare`] consumes: each reference key mapped to its tokens joined
/// with a line feed, in listing order.
pub fn content_map(parsed: &VecMap<SuperBlock>) -> (r: VecMap<Vec<u8>>)
    ensures
        r@ == spec_content_map(parsed@),
        r.wf(),
{
    let ghost sbs = parsed@;
    let mut out: VecMap<Vec<u8>> = VecMap::new();
    let n = parsed.entries.len();
    let mut i: usize = 0;
    while i < n
        invariant
            sbs == parsed@,
            n == parsed.entries@.len(),
            sbs.len() == n,
            i <= n,
            out.wf(),
            out@ == content_entries_to(sbs, i as int),
        decreases n - i,
    {
        let b = &parsed.entries[i].1;
        proof {
            assert(sbs[i as int] == (parsed.entries@[i as int].0@, parsed.entries@[i as int].1@));
        }
        let ghost rs = b@.src_references;
        let ghost start = out@;
        let t_count = b.src_references.entries.len();
        let mut t: usize = 0;
        while t < t_count
            invariant
                rs == b@.src_references,
                t_count == b.src_references.entries@.len(),
                rs.len() == t_count,
                t <= t_count,
                out.wf(),
                out@ == ref_contents_to(rs, t as int, start),
            decreases t_count - t,
        {
            let rk = &b.src_references.entries[t].0;
            let r1 = &b.src_references.entries[t].1;
            proof {
                assert(rs[t as int] == (
                    b.src_references.entries@[t as int].0@,
                    b.src_references.entries@[t as int].1@,
                ));
            }
            let joined = join_bytes(&r1.content, 0x0a);
            out.insert(clone_bytes(rk), joined);
            t = t + 1;
        }
        i = i + 1;
    }
    out
}

} // verus!
