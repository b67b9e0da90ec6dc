//! The fusion controller.
//!
//! Starting from report 0 — the anchor of the global frame — it builds the
//! overlap graph over all reports with the estimator, then walks that graph,
//! aligning each reachable unfixed report against an already-fixed neighbour.
//! A report pair failing a single alignment is retried later over another
//! path; only a full pass that fixes nothing while reports remain unfixed is
//! an error.

use vstd::prelude::*;
use crate::geometry::{
    Point, spec_manhattan, manhattan_distance, within, report_within, spec_rotate, spec_translate,
    lemma_rotate_within, MAX_COORD, FIXED_LIMIT, MAX_REPORTS,
};
use crate::index::{
    DistIndex, index_wf, spec_total_pairs, spec_overlap_score, pair_dists, overlapped_pair_count,
    lemma_score_le_total, no_collisions, lemma_estimator_never_rejects,
};
use crate::matching::{
    CandidateEntry, match_candidates, cand_contains, cand_entries_wf, spec_candidate,
    lemma_candidates_valid, lemma_matcher_finds_twin,
};
use crate::align::{
    fix, transform_seq, attempt_offset, attempt_count, lemma_pipeline_recovers, MATCH_THRESHOLD,
};

verus! {

/// Overlap score a report pair must reach before alignment is attempted:
/// 12 shared points guarantee at least C(12, 2) = 66 shared pair distances.
pub const OVERLAP_THRESHOLD: usize = 66;

/// The one fatal failure: a full traversal pass fixed no further report while
/// unfixed reports remained, so the overlap graph does not connect the
/// remaining reports to the anchor.
#[derive(Clone, Copy, PartialEq, Eq, Structural, Debug)]
pub enum FusionError {
    Stalled,
}

/// The outcome of fusion: every report re-expressed in the global frame, and
/// each scanner's position there.
pub struct Fusion {
    pub fixed: Vec<Vec<Point>>,
    pub scanners: Vec<Point>,
}

pub open spec fn origin() -> Point {
    Point { x: 0, y: 0, z: 0 }
}

/// `fr` is `orig` carried into the global frame by some table rotation
/// followed by the translation `scanner`.
pub open spec fn is_fixed_of(fr: Seq<Point>, orig: Seq<Point>, scanner: Point) -> bool {
    exists|rot: int| 0 <= rot < 24 && fr == transform_seq(orig, rot, scanner)
}

/// Every report is nonempty, small enough for the pair index, and within the
/// raw coordinate bound.
pub open spec fn reports_ok(reports: Seq<Vec<Point>>) -> bool {
    forall|k: int|
        0 <= k < reports.len() ==> 1 <= (#[trigger] reports[k])@.len() <= 0xffff && report_within(
            reports[k]@,
            MAX_COORD as int,
        )
}

/// `cands` is a well-formed candidate map recording exactly the candidate
/// ties the two distance indices induce: what the matcher's contract pins.
pub open spec fn matcher_conformant(
    ixu: DistIndex,
    ixb: DistIndex,
    cands: Seq<CandidateEntry>,
) -> bool {
    &&& cand_entries_wf(cands)
    &&& forall|u: usize, bi: usize|
        cand_contains(cands, u, bi) <==> spec_candidate(ixu.entries@, ixb.entries@, u, bi)
}

/// The candidate map offers the aligner no attempt at all, or only attempts
/// below the match threshold.
pub open spec fn aligner_exhausted(
    unfixed: Seq<Point>,
    base: Seq<Point>,
    cands: Seq<CandidateEntry>,
) -> bool {
    cands.len() == 0 || forall|ji: int, rot: int|
        0 <= ji < cands[0].base@.len() && 0 <= rot < 24 ==> #[trigger] attempt_count(
            unfixed,
            base,
            cands,
            ji,
            rot,
        ) < MATCH_THRESHOLD
}

/// Report `rj` cannot be fused against the anchor report `r0`: for
/// well-formed distance indices of the two reports — their content is pinned
/// up to ordering, so this speaks of the reports themselves — either the
/// overlap estimator scores the pair below the threshold, or a candidate map
/// agreeing with the matcher's characterization leaves every aligner attempt
/// below the match threshold.
pub open spec fn anchor_rejects(r0: Seq<Point>, rj: Seq<Point>) -> bool {
    exists|ixb: DistIndex, ixu: DistIndex|
        {
            &&& #[trigger] index_wf(ixb, r0)
            &&& #[trigger] index_wf(ixu, rj)
            &&& (spec_overlap_score(ixb.entries@, ixu.entries@) < OVERLAP_THRESHOLD as int
                || exists|cands: Seq<CandidateEntry>|
                #[trigger] matcher_conformant(ixu, ixb, cands) && aligner_exhausted(rj, r0, cands))
        }
}

proof fn lemma_rejects_by_score(r0: Seq<Point>, rj: Seq<Point>, ixb: DistIndex, ixu: DistIndex)
    requires
        index_wf(ixb, r0),
        index_wf(ixu, rj),
        spec_overlap_score(ixb.entries@, ixu.entries@) < OVERLAP_THRESHOLD as int,
    ensures
        anchor_rejects(r0, rj),
{
}

proof fn lemma_rejects_by_exhaustion(
    r0: Seq<Point>,
    rj: Seq<Point>,
    ixb: DistIndex,
    ixu: DistIndex,
    cands: Seq<CandidateEntry>,
)
    requires
        index_wf(ixb, r0),
        index_wf(ixu, rj),
        matcher_conformant(ixu, ixb, cands),
        aligner_exhausted(rj, r0, cands),
    ensures
        anchor_rejects(r0, rj),
{
}

/// A witness that fusion stalled: the reached set `s` contains the anchor,
/// misses at least one report, and every missed report is rejected against
/// the anchor.
pub open spec fn stall_witness(reports: Seq<Vec<Point>>, s: Set<int>) -> bool {
    &&& s.contains(0)
    &&& exists|j: int| 0 <= j < reports.len() && !(#[trigger] s.contains(j))
    &&& forall|j: int|
        0 <= j < reports.len() && !(#[trigger] s.contains(j)) ==> anchor_rejects(
            reports[0]@,
            reports[j]@,
        )
}

/// Fusion stalled at the anchor: some reached set containing the anchor
/// leaves a report out, and every left-out report is rejected against the
/// anchor.
pub open spec fn stalled_at_anchor(reports: Seq<Vec<Point>>) -> bool {
    exists|s: Set<int>| #[trigger] stall_witness(reports, s)
}

/// `rj` is `r0` carried by table rotation `rr` and translation `t`: the two
/// reports list the same physical points in the same order.
pub open spec fn twin_of_anchor(r0: Seq<Point>, rj: Seq<Point>, rr: int, t: Point) -> bool {
    &&& rj.len() == r0.len()
    &&& 0 <= rr < 24
    &&& forall|k: int|
        0 <= k < r0.len() ==> #[trigger] rj[k] == spec_translate(spec_rotate(rr, r0[k]), t)
}

/// The positions of the first twelve anchor points, in order.
pub open spec fn first_twelve() -> Seq<int> {
    Seq::new(12, |i: int| i)
}

/// A full rigid-transform twin of the anchor is never rejected against it:
/// on such a pair the estimator must reach the threshold, the matcher must
/// list a point with its true counterpart, and the aligner must reach twelve
/// matches — so no stall evidence can name it.
pub proof fn lemma_twins_defeat_rejection(r0: Seq<Point>, rj: Seq<Point>, rr: int, t: Point)
    requires
        twin_of_anchor(r0, rj, rr, t),
        MATCH_THRESHOLD <= r0.len() <= usize::MAX,
        report_within(r0, MAX_COORD as int),
        within(t, MAX_COORD as int),
        no_collisions(r0, first_twelve(), 12),
    ensures
        !anchor_rejects(r0, rj),
{
    if anchor_rejects(r0, rj) {
        let (ixb, ixu) = choose|ixb: DistIndex, ixu: DistIndex|
            {
                &&& #[trigger] index_wf(ixb, r0)
                &&& #[trigger] index_wf(ixu, rj)
                &&& (spec_overlap_score(ixb.entries@, ixu.entries@) < OVERLAP_THRESHOLD as int
                    || exists|cands: Seq<CandidateEntry>|
                    #[trigger] matcher_conformant(ixu, ixb, cands) && aligner_exhausted(
                        rj,
                        r0,
                        cands,
                    ))
            };
        assert forall|x: int, y: int|
            0 <= x < r0.len() && 0 <= y < r0.len() implies crate::geometry::spec_dist(
            rj[x],
            rj[y],
        ) == #[trigger] crate::geometry::spec_dist(r0[x], r0[y]) by {
            lemma_rotate_within(rr, r0[x], MAX_COORD as int);
            lemma_rotate_within(rr, r0[y], MAX_COORD as int);
            crate::geometry::lemma_rotate_preserves_dist(rr, r0[x], r0[y]);
            crate::geometry::lemma_translate_preserves_dist(
                spec_rotate(rr, r0[x]),
                spec_rotate(rr, r0[y]),
                t,
                MAX_COORD as int,
                MAX_COORD as int,
            );
        }
        if spec_overlap_score(ixb.entries@, ixu.entries@) < OVERLAP_THRESHOLD as int {
            assert(first_twelve().no_duplicates()) by {
                assert forall|a: int, b: int|
                    0 <= a < first_twelve().len() && 0 <= b < first_twelve().len() && a
                        != b implies first_twelve()[a] != first_twelve()[b] by {}
            }
            lemma_estimator_never_rejects(r0, rj, ixb, ixu, first_twelve(), first_twelve());
            assert(false);
        } else {
            let cands = choose|cands: Seq<CandidateEntry>|
                #[trigger] matcher_conformant(ixu, ixb, cands) && aligner_exhausted(rj, r0, cands);
            if cands.len() == 0 {
                lemma_matcher_finds_twin(r0, rj, ixu, ixb, rr, t, cands);
                assert(false);
            } else {
                lemma_pipeline_recovers(r0, rj, ixu, ixb, cands, rr, t);
                let (ji, rot) = choose|ji: int, rot: int|
                    0 <= ji < cands[0].base@.len() && 0 <= rot < 24 && attempt_count(
                        rj,
                        r0,
                        cands,
                        ji,
                        rot,
                    ) >= MATCH_THRESHOLD;
                assert(attempt_count(rj, r0, cands, ji, rot) < MATCH_THRESHOLD);
                assert(false);
            }
        }
    }
}

/// A family of full rigid-transform twins of the anchor can never produce
/// stall evidence: with the strengthened failure contract of `fuse`, fusing
/// such reports always returns the fused map.
pub proof fn lemma_twin_family_never_stalls(
    reports: Seq<Vec<Point>>,
    rots: Seq<int>,
    offs: Seq<Point>,
)
    requires
        reports.len() >= 1,
        MATCH_THRESHOLD <= reports[0]@.len(),
        reports[0]@.len() <= usize::MAX,
        report_within(reports[0]@, MAX_COORD as int),
        no_collisions(reports[0]@, first_twelve(), 12),
        rots.len() == reports.len(),
        offs.len() == reports.len(),
        forall|j: int|
            0 <= j < reports.len() ==> twin_of_anchor(
                reports[0]@,
                (#[trigger] reports[j])@,
                rots[j],
                offs[j],
            ) && within(offs[j], MAX_COORD as int),
    ensures
        !stalled_at_anchor(reports),
{
    if stalled_at_anchor(reports) {
        let s = choose|s: Set<int>| #[trigger] stall_witness(reports, s);
        let j0 = choose|j: int| 0 <= j < reports.len() && !(#[trigger] s.contains(j));
        assert(anchor_rejects(reports[0]@, reports[j0]@));
        lemma_twins_defeat_rejection(reports[0]@, reports[j0]@, rots[j0], offs[j0]);
        assert(false);
    }
}

/// Every missed edge of the already-built overlap graph was scored below the
/// threshold, over the row-major pair prefix up to `(i_done, j_done)`.
spec fn missing_edges_scored(
    adj: Seq<Vec<usize>>,
    pms: Seq<DistIndex>,
    i_done: int,
    j_done: int,
) -> bool {
    forall|a: int, b: int|
        #![trigger adj[a], pms[b]]
        0 <= a < b < pms.len() && (a < i_done || (a == i_done && b < j_done)) && !adj[a]@.contains(
            b as usize,
        ) ==> spec_overlap_score(pms[a].entries@, pms[b].entries@) < OVERLAP_THRESHOLD as int
}

/// The first `upto` neighbours of the anchor are each fixed or rejected.
spec fn anchor_prefix_settled(
    adj0: Seq<usize>,
    rs: Seq<Vec<Point>>,
    fixed: Seq<Option<Vec<Point>>>,
    upto: int,
) -> bool {
    forall|t: int|
        0 <= t < upto && t < adj0.len() ==> (#[trigger] fixed[adj0[t] as int]) is Some
            || anchor_rejects(rs[0]@, rs[adj0[t] as int]@)
}

/// Membership in a pushed index list grows by exactly the pushed element.
proof fn lemma_usize_push_contains(s: Seq<usize>, x: usize, s2: Seq<usize>)
    requires
        s2 == s.push(x),
    ensures
        forall|y: usize| s2.contains(y) <==> s.contains(y) || y == x,
{
    assert forall|y: usize| s2.contains(y) <==> s.contains(y) || y == x by {
        if s2.contains(y) {
            let t = choose|t: int| 0 <= t < s2.len() && s2[t] == y;
            if t < s.len() {
                assert(s.contains(y));
            }
        }
        if s.contains(y) {
            let t = choose|t: int| 0 <= t < s.len() && s[t] == y;
            assert(s2[t] == y);
        }
        if y == x {
            assert(s2[s2.len() - 1] == x);
        }
    }
}

spec fn pms_wf(pms: Seq<DistIndex>, reports: Seq<Vec<Point>>) -> bool {
    &&& pms.len() == reports.len()
    &&& forall|k: int|
        0 <= k < reports.len() ==> index_wf(#[trigger] pms[k], reports[k]@) && spec_total_pairs(
            pms[k].entries@,
        ) <= reports[k]@.len() * (reports[k]@.len() - 1)
}

spec fn adj_wf(adj: Seq<Vec<usize>>, n: int) -> bool {
    &&& adj.len() == n
    &&& forall|i: int, t: int|
        0 <= i < n && 0 <= t < adj[i]@.len() ==> (#[trigger] adj[i]@[t] as int) < n
}

/// How many reports are fixed.
spec fn count_some(s: Seq<Option<Vec<Point>>>) -> int
    decreases s.len(),
{
    if s.len() == 0 {
        0
    } else {
        count_some(s.drop_last()) + (if s.last() is Some {
            1int
        } else {
            0int
        })
    }
}

/// The in-progress fusion state: report 0 anchors the frame, and every fixed
/// report is a rigid transform of its original, with coordinates bounded by
/// how many fixing steps have happened.
spec fn state_wf(
    reports: Seq<Vec<Point>>,
    fixed: Seq<Option<Vec<Point>>>,
    scanners: Seq<Point>,
    nf: int,
) -> bool {
    &&& fixed.len() == reports.len()
    &&& scanners.len() == reports.len()
    &&& nf == count_some(fixed)
    &&& 1 <= nf <= reports.len()
    &&& match fixed[0] {
        Some(fr) => fr@ == reports[0]@,
        None => false,
    }
    &&& scanners[0] == origin()
    &&& forall|k: int|
        0 <= k < fixed.len() ==> match #[trigger] fixed[k] {
            Some(fr) => {
                &&& is_fixed_of(fr@, reports[k]@, scanners[k])
                &&& fr@.len() == reports[k]@.len()
                &&& report_within(fr@, (MAX_COORD as int) * (2 * nf - 1))
                &&& within(scanners[k], FIXED_LIMIT as int)
            },
            None => true,
        }
}

proof fn lemma_report_within_mono(r: Seq<Point>, b: int, b2: int)
    requires
        report_within(r, b),
        b <= b2,
    ensures
        report_within(r, b2),
{
}

/// Updating a `None` slot to `Some` raises the fixed count by one.
proof fn lemma_count_update(s: Seq<Option<Vec<Point>>>, j: int, v: Option<Vec<Point>>)
    requires
        0 <= j < s.len(),
        s[j] is None,
        v is Some,
    ensures
        count_some(s.update(j, v)) == count_some(s) + 1,
    decreases s.len(),
{
    let s2 = s.update(j, v);
    if j == s.len() - 1 {
        assert(s2.drop_last() =~= s.drop_last());
    } else {
        assert(s2.drop_last() =~= s.drop_last().update(j, v));
        lemma_count_update(s.drop_last(), j, v);
    }
}

/// Appending a `None` slot keeps the fixed count.
proof fn lemma_count_push_none(s: Seq<Option<Vec<Point>>>)
    ensures
        count_some(s.push(None)) == count_some(s),
{
    assert(s.push(None).drop_last() =~= s);
}

proof fn lemma_count_bounds(s: Seq<Option<Vec<Point>>>)
    ensures
        0 <= count_some(s) <= s.len(),
    decreases s.len(),
{
    if s.len() > 0 {
        lemma_count_bounds(s.drop_last());
    }
}

/// A state whose fixed count equals its length has every slot fixed.
proof fn lemma_count_full(s: Seq<Option<Vec<Point>>>)
    requires
        count_some(s) == s.len(),
    ensures
        forall|k: int| 0 <= k < s.len() ==> (#[trigger] s[k]) is Some,
    decreases s.len(),
{
    if s.len() > 0 {
        lemma_count_bounds(s.drop_last());
        lemma_count_full(s.drop_last());
        assert forall|k: int| 0 <= k < s.len() implies (#[trigger] s[k]) is Some by {
            if k < s.len() - 1 {
                assert(s.drop_last()[k] is Some);
            }
        }
    }
}

/// A state with fewer fixed slots than slots has an unfixed slot.
proof fn lemma_count_missing(s: Seq<Option<Vec<Point>>>)
    requires
        count_some(s) < s.len(),
    ensures
        exists|k: int| 0 <= k < s.len() && (#[trigger] s[k]) is None,
    decreases s.len(),
{
    if s.len() > 0 {
        if s.last() is None {
            assert(s[s.len() - 1] is None);
        } else {
            lemma_count_missing(s.drop_last());
            let k = choose|k: int| 0 <= k < s.drop_last().len() && (#[trigger] s.drop_last()[k]) is None;
            assert(s[k] is None);
        }
    }
}

/// The untransformed anchor report is a rigid transform of itself: the
/// identity rotation and a zero offset.
proof fn lemma_identity_fixed(orig: Seq<Point>)
    ensures
        is_fixed_of(orig, orig, origin()),
{
    assert(orig =~= transform_seq(orig, 0, origin())) by {
        assert forall|k: int| 0 <= k < orig.len() implies transform_seq(orig, 0, origin())[k]
            == orig[k] by {
            assert(spec_rotate(0, orig[k]) == orig[k]);
        }
    }
}

/// The transformed report an aligner attempt produces stays within the base
/// report's coordinate bound plus two raw bounds: one for the rotated point,
/// one for the rotated chosen point inside the offset.
proof fn lemma_attempt_bound(
    unfixed: Seq<Point>,
    base: Seq<Point>,
    cands: Seq<CandidateEntry>,
    ji: int,
    rot: int,
    bb: int,
)
    requires
        report_within(unfixed, MAX_COORD as int),
        report_within(base, bb),
        MAX_COORD as int <= bb,
        bb + 2 * (MAX_COORD as int) <= i64::MAX,
        cands.len() >= 1,
        (cands[0].unfixed as int) < unfixed.len(),
        0 <= ji < cands[0].base@.len(),
        (cands[0].base@[ji] as int) < base.len(),
        0 <= rot < 24,
    ensures
        within(attempt_offset(unfixed, base, cands, ji, rot), bb + MAX_COORD as int),
        report_within(
            transform_seq(unfixed, rot, attempt_offset(unfixed, base, cands, ji, rot)),
            bb + 2 * (MAX_COORD as int),
        ),
{
    let off = attempt_offset(unfixed, base, cands, ji, rot);
    lemma_rotate_within(rot, unfixed[cands[0].unfixed as int], MAX_COORD as int);
    assert(within(off, bb + MAX_COORD as int));
    let prop = transform_seq(unfixed, rot, off);
    assert forall|k: int| 0 <= k < prop.len() implies within(
        #[trigger] prop[k],
        bb + 2 * (MAX_COORD as int),
    ) by {
        lemma_rotate_within(rot, unfixed[k], MAX_COORD as int);
    }
}

/// An exact copy of a report.
fn copy_report(rep: &Vec<Point>) -> (out: Vec<Point>)
    ensures
        out@ == rep@,
{
    let mut out: Vec<Point> = Vec::new();
    let n = rep.len();
    for k in 0..n
        invariant
            n == rep@.len(),
            out@ == rep@.subrange(0, k as int),
        decreases n - k,
    {
        out.push(rep[k]);
        proof {
            assert(out@ =~= rep@.subrange(0, k as int + 1));
        }
    }
    proof {
        assert(rep@.subrange(0, rep@.len() as int) =~= rep@);
    }
    out
}

/// Fuses all reports into the frame of report 0.
///
/// On success every report is fixed: re-expressed by a table rotation and a
/// translation, the translation being the scanner's position, with report 0
/// unchanged and its scanner at the origin.  `Stalled` is returned — only
/// possible with at least two reports — when a full pass over the overlap
/// graph could fix nothing further.
#[verifier::rlimit(100)]
#[verifier::spinoff_prover]
pub fn fuse(reports: &Vec<Vec<Point>>) -> (r: Result<Fusion, FusionError>)
    requires
        1 <= reports@.len() <= MAX_REPORTS,
        reports_ok(reports@),
    ensures
        match r {
            Ok(f) => {
                &&& f.fixed@.len() == reports@.len()
                &&& f.scanners@.len() == reports@.len()
                &&& f.fixed@[0]@ == reports@[0]@
                &&& f.scanners@[0] == origin()
                &&& forall|k: int|
                    0 <= k < reports@.len() ==> is_fixed_of(
                        (#[trigger] f.fixed@[k])@,
                        reports@[k]@,
                        f.scanners@[k],
                    ) && f.fixed@[k]@.len() == reports@[k]@.len()
                &&& report_within(f.scanners@, FIXED_LIMIT as int)
                &&& forall|k: int|
                    0 <= k < reports@.len() ==> report_within(
                        (#[trigger] f.fixed@[k])@,
                        FIXED_LIMIT as int,
                    )
            },
            Err(e) => reports@.len() > 1 && stalled_at_anchor(reports@),
        },
        reports@.len() == 1 ==> r is Ok,
{
    let n = reports.len();
    let ghost rs = reports@;

    let mut pms: Vec<DistIndex> = Vec::new();
    for k in 0..n
        invariant
            n == rs.len(),
            rs == reports@,
            reports_ok(rs),
            pms@.len() == k,
            forall|t: int|
                0 <= t < k ==> index_wf(#[trigger] pms@[t], rs[t]@) && spec_total_pairs(
                    pms@[t].entries@,
                ) <= rs[t]@.len() * (rs[t]@.len() - 1),
        decreases n - k,
    {
        pms.push(pair_dists(&reports[k]));
    }

    let mut adj: Vec<Vec<usize>> = Vec::new();
    for k in 0..n
        invariant
            adj@.len() == k,
            forall|i: int, t: int|
                0 <= i < k && 0 <= t < adj@[i]@.len() ==> (#[trigger] adj@[i]@[t] as int) < n,
        decreases n - k,
    {
        adj.push(Vec::new());
    }

    for i in 0..n
        invariant
            n == rs.len(),
            rs == reports@,
            reports_ok(rs),
            pms_wf(pms@, rs),
            adj_wf(adj@, n as int),
            missing_edges_scored(adj@, pms@, i as int, i as int + 1),
        decreases n - i,
    {
        let start = i + 1;
        for j in start..n
            invariant
                n == rs.len(),
                rs == reports@,
                reports_ok(rs),
                pms_wf(pms@, rs),
                adj_wf(adj@, n as int),
                i < j || j == i + 1,
                i < n,
                missing_edges_scored(adj@, pms@, i as int, j as int),
            decreases n - j,
        {
            proof {
                lemma_score_le_total(pms@[i as int].entries@, pms@[j as int].entries@);
                let a: int = rs[i as int]@.len() as int;
                assert(a * (a - 1) <= 0xffff * 0xfffe) by (nonlinear_arith)
                    requires 1 <= a <= 0xffff;
            }
            let ghost before = adj@;
            let linked = overlapped_pair_count(&pms[i], &pms[j]) >= OVERLAP_THRESHOLD;
            if linked {
                adj[i].push(j);
                adj[j].push(i);
                proof {
                    assert forall|i2: int, t: int|
                        0 <= i2 < n && 0 <= t < adj@[i2]@.len() implies (#[trigger] adj@[i2]@[t] as int)
                        < n by {
                        if t < before[i2]@.len() {
                            assert(before[i2]@[t] == adj@[i2]@[t]);
                        }
                    }
                    lemma_usize_push_contains(before[i as int]@, j, adj@[i as int]@);
                    lemma_usize_push_contains(before[j as int]@, i, adj@[j as int]@);
                }
            }
            proof {
                assert forall|a: int, b: int|
                    #![trigger adj@[a], pms@[b]]
                    0 <= a < b < pms@.len() && (a < i as int || (a == i as int && b < j as int + 1))
                        && !adj@[a]@.contains(b as usize) implies spec_overlap_score(
                    pms@[a].entries@,
                    pms@[b].entries@,
                ) < OVERLAP_THRESHOLD as int by {
                    if a == i as int && b == j as int {
                        assert(!linked);
                    } else {
                        assert(!before[a]@.contains(b as usize)) by {
                            if before[a]@.contains(b as usize) {
                                let t = choose|t: int|
                                    0 <= t < before[a]@.len() && before[a]@[t] == b as usize;
                                assert(adj@[a]@[t] == b as usize);
                                assert(adj@[a]@.contains(b as usize));
                            }
                        }
                    }
                }
                assert(missing_edges_scored(adj@, pms@, i as int, j as int + 1));
            }
        }
        proof {
            assert forall|a: int, b: int|
                #![trigger adj@[a], pms@[b]]
                0 <= a < b < pms@.len() && (a < i as int + 1 || (a == i as int + 1 && b < i as int
                    + 2)) && !adj@[a]@.contains(b as usize) implies spec_overlap_score(
                pms@[a].entries@,
                pms@[b].entries@,
            ) < OVERLAP_THRESHOLD as int by {
                assert(a < i as int || (a == i as int && b < n as int));
            }
            assert(missing_edges_scored(adj@, pms@, i as int + 1, i as int + 2));
        }
    }
    proof {
        assert forall|a: int, b: int|
            #![trigger adj@[a], pms@[b]]
            0 <= a < b < pms@.len() && !adj@[a]@.contains(b as usize) implies spec_overlap_score(
            pms@[a].entries@,
            pms@[b].entries@,
        ) < OVERLAP_THRESHOLD as int by {
            assert(a < n as int);
        }
        assert(missing_edges_scored(adj@, pms@, n as int, n as int + 1));
    }

    let mut fixed: Vec<Option<Vec<Point>>> = Vec::new();
    let mut scanners: Vec<Point> = Vec::new();
    for k in 0..n
        invariant
            fixed@.len() == k,
            scanners@.len() == k,
            count_some(fixed@) == 0,
            forall|t: int| 0 <= t < k ==> (#[trigger] fixed@[t]) is None,
            forall|t: int| 0 <= t < k ==> (#[trigger] scanners@[t]) == origin(),
        decreases n - k,
    {
        proof {
            lemma_count_push_none(fixed@);
        }
        fixed.push(None);
        scanners.push(Point { x: 0, y: 0, z: 0 });
    }

    let anchor = copy_report(&reports[0]);
    proof {
        lemma_count_update(fixed@, 0, Some(anchor));
        lemma_identity_fixed(rs[0]@);
    }
    fixed[0] = Some(anchor);
    let mut num_fixed: usize = 1;

    while num_fixed < n
        invariant
            n == rs.len(),
            rs == reports@,
            1 <= n <= MAX_REPORTS,
            reports_ok(rs),
            pms_wf(pms@, rs),
            adj_wf(adj@, n as int),
            missing_edges_scored(adj@, pms@, n as int, n as int + 1),
            state_wf(rs, fixed@, scanners@, num_fixed as int),
        decreases n - num_fixed,
    {
        let fixed_before = num_fixed;
        let mut stack: Vec<usize> = Vec::new();
        stack.push(0);
        proof {
            assert(stack@ =~= seq![0usize]);
        }
        while stack.len() > 0
            invariant
                n == rs.len(),
                rs == reports@,
                1 <= n <= MAX_REPORTS,
                reports_ok(rs),
                pms_wf(pms@, rs),
                adj_wf(adj@, n as int),
                missing_edges_scored(adj@, pms@, n as int, n as int + 1),
                state_wf(rs, fixed@, scanners@, num_fixed as int),
                num_fixed >= fixed_before,
                forall|t: int|
                    0 <= t < stack@.len() ==> (#[trigger] stack@[t] as int) < n && fixed@[stack@[t] as int]
                        is Some,
                num_fixed == fixed_before ==> (stack@ == seq![0usize] || (stack@.len() == 0
                    && anchor_prefix_settled(adj@[0]@, rs, fixed@, adj@[0]@.len() as int))),
            decreases (n - num_fixed) * (n + 1) + stack@.len(),
        {
            let ghost measure0 = (n - num_fixed) * (n as int + 1) + stack@.len();
            let i = match stack.pop() {
                Some(x) => x,
                None => {
                    proof {
                        assert(false);
                    }
                    0
                },
            };
            let ghost popped = stack@.len() as int;
            let ghost nf0 = num_fixed as int;
            proof {
                if num_fixed == fixed_before {
                    assert(stack@.len() == 0);
                    assert(i == 0);
                }
            }
            let deg = adj[i].len();
            for t in 0..deg
                invariant
                    n == rs.len(),
                    rs == reports@,
                    1 <= n <= MAX_REPORTS,
                    reports_ok(rs),
                    pms_wf(pms@, rs),
                    adj_wf(adj@, n as int),
                    state_wf(rs, fixed@, scanners@, num_fixed as int),
                    num_fixed >= fixed_before,
                    (i as int) < n,
                    fixed@[i as int] is Some,
                    deg == adj@[i as int]@.len(),
                    forall|t2: int|
                        0 <= t2 < stack@.len() ==> (#[trigger] stack@[t2] as int) < n
                            && fixed@[stack@[t2] as int] is Some,
                    num_fixed >= nf0,
                    stack@.len() == popped + (num_fixed - nf0),
                    measure0 == (n - nf0) * (n as int + 1) + popped + 1,
                    (num_fixed == fixed_before && i == 0) ==> (stack@.len() == 0
                        && anchor_prefix_settled(adj@[0]@, rs, fixed@, t as int)),
                decreases deg - t,
            {
                let j = adj[i][t];
                if fixed[j].is_none() {
                    let cands = match_candidates(&pms[j], &pms[i]);
                    proof {
                        if num_fixed == fixed_before && i == 0 {
                            assert(matcher_conformant(pms@[j as int], pms@[0], cands@));
                        }
                    }
                    if cands.len() > 0 {
                        proof {
                            let ues = pms@[j as int].entries@;
                            let bes = pms@[i as int].entries@;
                            assert(cands@[0].base@.len() >= 1);
                            assert(cands@[0].base@.contains(cands@[0].base@[0]));
                            assert(cand_contains(cands@, cands@[0].unfixed, cands@[0].base@[0]));
                            lemma_candidates_valid(
                                ues,
                                bes,
                                rs[j as int]@,
                                rs[i as int]@,
                                cands@[0].unfixed,
                                cands@[0].base@[0],
                            );
                            assert forall|ji: int|
                                0 <= ji < cands@[0].base@.len() implies (#[trigger] cands@[0].base@[ji] as int)
                                < rs[i as int]@.len() by {
                                assert(cands@[0].base@.contains(cands@[0].base@[ji]));
                                assert(cand_contains(cands@, cands@[0].unfixed, cands@[0].base@[ji]));
                                lemma_candidates_valid(
                                    ues,
                                    bes,
                                    rs[j as int]@,
                                    rs[i as int]@,
                                    cands@[0].unfixed,
                                    cands@[0].base@[ji],
                                );
                            }
                        }
                        let outcome = match &fixed[i] {
                            Some(base_rep) => {
                                proof {
                                    let k0 = i as int;
                                    assert(match fixed@[k0] {
                                        Some(fr) => report_within(
                                            fr@,
                                            (MAX_COORD as int) * (2 * num_fixed - 1),
                                        ) && fr@.len() == rs[k0]@.len(),
                                        None => false,
                                    });
                                    assert((MAX_COORD as int) * (2 * num_fixed - 1)
                                        <= FIXED_LIMIT as int) by (nonlinear_arith)
                                        requires 1 <= num_fixed <= 0x8000;
                                    lemma_report_within_mono(
                                        base_rep@,
                                        (MAX_COORD as int) * (2 * num_fixed - 1),
                                        FIXED_LIMIT as int,
                                    );
                                }
                                fix(&reports[j], base_rep, &cands)
                            },
                            None => {
                                proof {
                                    assert(false);
                                }
                                None
                            },
                        };
                        if let Some(pr) = outcome {
                            let (rep, off) = pr;
                            let ghost rep_view = rep@;
                            proof {
                                let base_view = match fixed@[i as int] {
                                    Some(fr) => fr@,
                                    None => Seq::empty(),
                                };
                                let bb = (MAX_COORD as int) * (2 * num_fixed - 1);
                                let (ji, rot) = choose|ji: int, rot: int|
                                    0 <= ji < cands@[0].base@.len() && 0 <= rot < 24 && off
                                        == attempt_offset(rs[j as int]@, base_view, cands@, ji, rot)
                                        && rep_view == transform_seq(rs[j as int]@, rot, off);
                                lemma_attempt_bound(rs[j as int]@, base_view, cands@, ji, rot, bb);
                                assert(is_fixed_of(rep_view, rs[j as int]@, off));
                                assert(report_within(rep_view, bb + 2 * (MAX_COORD as int)));
                                assert(within(off, FIXED_LIMIT as int));
                                lemma_count_update(fixed@, j as int, Some(rep));
                                lemma_count_bounds(fixed@.update(j as int, Some(rep)));
                            }
                            let ghost fixed_old = fixed@;
                            let ghost scanners_old = scanners@;
                            fixed[j] = Some(rep);
                            scanners[j] = off;
                            num_fixed = num_fixed + 1;
                            stack.push(j);
                            proof {
                                assert forall|k: int| 0 <= k < fixed@.len() implies match #[trigger] fixed@[k] {
                                    Some(fr) => {
                                        &&& is_fixed_of(fr@, rs[k]@, scanners@[k])
                                        &&& fr@.len() == rs[k]@.len()
                                        &&& report_within(
                                            fr@,
                                            (MAX_COORD as int) * (2 * num_fixed - 1),
                                        )
                                        &&& within(scanners@[k], FIXED_LIMIT as int)
                                    },
                                    None => true,
                                } by {
                                    if k != j as int {
                                        assert(fixed@[k] == fixed_old[k]);
                                        assert(scanners@[k] == scanners_old[k]);
                                        match fixed_old[k] {
                                            Some(fr) => {
                                                lemma_report_within_mono(
                                                    fr@,
                                                    (MAX_COORD as int) * (2 * (num_fixed - 1) - 1),
                                                    (MAX_COORD as int) * (2 * num_fixed - 1),
                                                );
                                            },
                                            None => {},
                                        }
                                    }
                                }
                            }
                        } else {
                            proof {
                                if num_fixed == fixed_before && i == 0 {
                                    assert(match fixed@[0] {
                                        Some(fr) => fr@ == rs[0]@,
                                        None => false,
                                    });
                                    assert forall|ji: int, rot: int|
                                        0 <= ji < cands@[0].base@.len() && 0 <= rot
                                            < 24 implies #[trigger] attempt_count(
                                        rs[j as int]@,
                                        rs[0]@,
                                        cands@,
                                        ji,
                                        rot,
                                    ) < MATCH_THRESHOLD by {
                                        if attempt_count(rs[j as int]@, rs[0]@, cands@, ji, rot)
                                            >= MATCH_THRESHOLD {
                                            assert(false);
                                        }
                                    }
                                    assert(aligner_exhausted(rs[j as int]@, rs[0]@, cands@));
                                    lemma_rejects_by_exhaustion(
                                        rs[0]@,
                                        rs[j as int]@,
                                        pms@[0],
                                        pms@[j as int],
                                        cands@,
                                    );
                                }
                            }
                        }
                    } else {
                        proof {
                            if num_fixed == fixed_before && i == 0 {
                                assert(aligner_exhausted(rs[j as int]@, rs[0]@, cands@));
                                lemma_rejects_by_exhaustion(
                                    rs[0]@,
                                    rs[j as int]@,
                                    pms@[0],
                                    pms@[j as int],
                                    cands@,
                                );
                            }
                        }
                    }
                }
            }
            proof {
                if num_fixed == fixed_before {
                    assert(nf0 == fixed_before);
                    assert(i == 0);
                    assert(stack@.len() == 0 && anchor_prefix_settled(
                        adj@[0]@,
                        rs,
                        fixed@,
                        adj@[0]@.len() as int,
                    ));
                }
                assert((n - num_fixed) * (n as int + 1) + stack@.len() < measure0)
                    by (nonlinear_arith)
                    requires
                        measure0 == (n - nf0) * (n as int + 1) + popped + 1,
                        stack@.len() == popped + (num_fixed - nf0),
                        num_fixed >= nf0,
                        num_fixed <= n,
                        n >= 1;
            }
        }
        if num_fixed == fixed_before {
            proof {
                assert(n > 1);
                let s = Set::new(|k: int| 0 <= k < n && fixed@[k] is Some);
                assert(s.contains(0));
                lemma_count_missing(fixed@);
                let j0 = choose|k: int| 0 <= k < fixed@.len() && (#[trigger] fixed@[k]) is None;
                assert(!s.contains(j0));
                assert forall|j: int| 0 <= j < n && !s.contains(j) implies anchor_rejects(
                    rs[0]@,
                    rs[j]@,
                ) by {
                    assert(fixed@[j] is None);
                    let adj0 = adj@[0]@;
                    if adj0.contains(j as usize) {
                        let t2 = choose|t2: int| 0 <= t2 < adj0.len() && adj0[t2] == j as usize;
                        assert(fixed@[adj0[t2] as int] is Some || anchor_rejects(
                            rs[0]@,
                            rs[adj0[t2] as int]@,
                        ));
                    } else {
                        assert(spec_overlap_score(pms@[0].entries@, pms@[j].entries@)
                            < OVERLAP_THRESHOLD as int) by {
                            assert(adj@[0] == adj@[0] && pms@[j] == pms@[j]);
                        }
                        lemma_rejects_by_score(rs[0]@, rs[j]@, pms@[0], pms@[j]);
                    }
                }
                assert(stall_witness(rs, s));
                assert(stalled_at_anchor(rs));
            }
            return Err(FusionError::Stalled);
        }
    }

    proof {
        lemma_count_full(fixed@);
    }
    let mut out_f: Vec<Vec<Point>> = Vec::new();
    for k in 0..n
        invariant
            n == rs.len(),
            rs == reports@,
            state_wf(rs, fixed@, scanners@, n as int),
            forall|t: int| 0 <= t < n ==> (#[trigger] fixed@[t]) is Some,
            out_f@.len() == k,
            forall|t: int|
                0 <= t < k ==> (#[trigger] out_f@[t])@ == match fixed@[t] {
                    Some(fr) => fr@,
                    None => Seq::empty(),
                },
        decreases n - k,
    {
        match &fixed[k] {
            Some(fr) => {
                out_f.push(copy_report(fr));
            },
            None => {
                proof {
                    assert(false);
                }
                out_f.push(Vec::new());
            },
        }
    }
    proof {
        assert forall|k: int| 0 <= k < n implies within(#[trigger] scanners@[k], FIXED_LIMIT as int) by {
            assert(fixed@[k] is Some);
        }
    }
    Ok(Fusion { fixed: out_f, scanners })
}

/// Concatenating two point sequences unions their sets of points.
proof fn lemma_concat_to_set(a: Seq<Point>, b: Seq<Point>)
    ensures
        (a + b).to_set() =~= a.to_set().union(b.to_set()),
{
    assert forall|x: Point| (a + b).contains(x) <==> a.contains(x) || b.contains(x) by {
        if (a + b).contains(x) {
            let t = choose|t: int| 0 <= t < (a + b).len() && (a + b)[t] == x;
            if t < a.len() {
                assert(a[t] == x);
            } else {
                assert(b[t - a.len()] == x);
            }
        }
        if a.contains(x) {
            let t = choose|t: int| 0 <= t < a.len() && a[t] == x;
            assert((a + b)[t] == x);
        }
        if b.contains(x) {
            let t = choose|t: int| 0 <= t < b.len() && b[t] == x;
            assert((a + b)[a.len() + t] == x);
        }
    }
}

/// All points of all reports, concatenated.
pub open spec fn all_points(rs: Seq<Vec<Point>>) -> Seq<Point>
    decreases rs.len(),
{
    if rs.len() == 0 {
        Seq::empty()
    } else {
        all_points(rs.drop_last()) + rs.last()@
    }
}

/// The number of distinct points over all fixed reports: the size of the
/// reconstructed beacon map.
pub fn unique_beacon_count(fixed: &Vec<Vec<Point>>) -> (c: usize)
    ensures
        c == all_points(fixed@).to_set().len(),
{
    let mut acc: Vec<Point> = Vec::new();
    let n = fixed.len();
    for k in 0..n
        invariant
            n == fixed@.len(),
            acc@.no_duplicates(),
            acc@.to_set() == all_points(fixed@.subrange(0, k as int)).to_set(),
        decreases n - k,
    {
        let m = fixed[k].len();
        for q in 0..m
            invariant
                n == fixed@.len(),
                k < n,
                m == fixed@[k as int]@.len(),
                acc@.no_duplicates(),
                acc@.to_set() == all_points(fixed@.subrange(0, k as int)).to_set().union(
                    fixed@[k as int]@.subrange(0, q as int).to_set(),
                ),
            decreases m - q,
        {
            let p = fixed[k][q];
            let ghost acc_old = acc@;
            if !crate::align::contains_point(&acc, &p) {
                acc.push(p);
            }
            proof {
                let sub1 = fixed@[k as int]@.subrange(0, q as int + 1);
                let sub0 = fixed@[k as int]@.subrange(0, q as int);
                assert(sub1.drop_last() =~= sub0);
                assert(sub1.last() == p);
                assert(sub1.to_set() =~= sub0.to_set().insert(p));
                if acc_old.contains(p) {
                    assert(acc@.to_set() =~= acc_old.to_set().insert(p));
                } else {
                    assert(acc@ == acc_old.push(p));
                    assert forall|x: Point| acc@.contains(x) <==> acc_old.contains(x) || x
                        == p by {
                        if acc@.contains(x) {
                            let t = choose|t: int| 0 <= t < acc@.len() && acc@[t] == x;
                            if t < acc_old.len() {
                                assert(acc_old.contains(x));
                            }
                        }
                        if acc_old.contains(x) {
                            let t = choose|t: int| 0 <= t < acc_old.len() && acc_old[t] == x;
                            assert(acc@[t] == x);
                        }
                        if x == p {
                            assert(acc@[acc@.len() - 1] == p);
                        }
                    }
                    assert(acc@.to_set() =~= acc_old.to_set().insert(p));
                }
                assert(acc@.to_set() =~= all_points(fixed@.subrange(0, k as int)).to_set().union(
                    sub1.to_set(),
                ));
            }
        }
        proof {
            let sub = fixed@.subrange(0, k as int + 1);
            assert(sub.drop_last() =~= fixed@.subrange(0, k as int));
            assert(sub.last() == fixed@[k as int]);
            assert(fixed@[k as int]@.subrange(0, m as int) =~= fixed@[k as int]@);
            lemma_concat_to_set(all_points(fixed@.subrange(0, k as int)), fixed@[k as int]@);
            assert(all_points(sub).to_set() =~= all_points(fixed@.subrange(0, k as int)).to_set()
                .union(fixed@[k as int]@.to_set()));
        }
    }
    proof {
        assert(fixed@.subrange(0, fixed@.len() as int) =~= fixed@);
        acc@.unique_seq_to_set();
    }
    acc.len()
}

/// The greatest Manhattan distance between any two distinct scanner
/// positions; 0 when fewer than two scanners exist.
pub fn max_scanner_distance(scanners: &Vec<Point>) -> (d: i64)
    requires
        report_within(scanners@, FIXED_LIMIT as int),
    ensures
        scanners@.len() <= 1 ==> d == 0,
        scanners@.len() > 1 ==> exists|a: int, b: int|
            0 <= a < scanners@.len() && 0 <= b < scanners@.len() && a != b && d == spec_manhattan(
                scanners@[a],
                scanners@[b],
            ),
        forall|a: int, b: int|
            0 <= a < scanners@.len() && 0 <= b < scanners@.len() && a != b ==> spec_manhattan(
                scanners@[a],
                scanners@[b],
            ) <= d,
        d >= 0,
{
    let n = scanners.len();
    if n <= 1 {
        return 0;
    }
    let mut best = manhattan_distance(&scanners[0], &scanners[1]);
    for a in 0..n
        invariant
            n == scanners@.len(),
            n > 1,
            report_within(scanners@, FIXED_LIMIT as int),
            best >= 0,
            exists|x: int, y: int|
                0 <= x < n && 0 <= y < n && x != y && best == spec_manhattan(
                    scanners@[x],
                    scanners@[y],
                ),
            forall|x: int, y: int|
                0 <= x < a && 0 <= y < n && x != y ==> spec_manhattan(scanners@[x], scanners@[y])
                    <= best,
        decreases n - a,
    {
        for b in 0..n
            invariant
                n == scanners@.len(),
                n > 1,
                a < n,
                report_within(scanners@, FIXED_LIMIT as int),
                best >= 0,
                exists|x: int, y: int|
                    0 <= x < n && 0 <= y < n && x != y && best == spec_manhattan(
                        scanners@[x],
                        scanners@[y],
                    ),
                forall|x: int, y: int|
                    0 <= x < a && 0 <= y < n && x != y ==> spec_manhattan(scanners@[x], scanners@[y])
                        <= best,
                forall|y: int|
                    0 <= y < b && y != a ==> spec_manhattan(scanners@[a as int], scanners@[y])
                        <= best,
            decreases n - b,
        {
            if b != a {
                let m = manhattan_distance(&scanners[a], &scanners[b]);
                if m > best {
                    best = m;
                }
            }
        }
    }
    best
}

} // verus!
