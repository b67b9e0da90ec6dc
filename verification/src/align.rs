//! The aligner.
//!
//! Given an unaligned report, an already-fixed base report, and the candidate
//! map between them, it searches the candidate pairings and the 24 rotations
//! for a rigid transform under which at least 12 points of the unaligned
//! report land exactly on points of the base report.

use vstd::prelude::*;
use crate::geometry::{
    Point, pt, spec_rotate, spec_translate, spec_sub, spec_inverse, within, report_within, rotate,
    translate, point_sub, lemma_rotate_within, lemma_rotate_linear, lemma_rotation_round_trip,
    MAX_COORD, FIXED_LIMIT,
};
use crate::matching::CandidateEntry;

verus! {

/// How many matching points the aligner demands before it accepts a
/// transform.
pub const MATCH_THRESHOLD: usize = 12;

/// The report transformed pointwise: rotation `rot`, then translation by
/// `off`.
pub open spec fn transform_seq(rep: Seq<Point>, rot: int, off: Point) -> Seq<Point> {
    Seq::new(rep.len(), |k: int| spec_translate(spec_rotate(rot, rep[k]), off))
}

/// Number of positions of `prop` whose point occurs somewhere in `base`.
pub open spec fn spec_match_count(prop: Seq<Point>, base: Seq<Point>) -> int
    decreases prop.len(),
{
    if prop.len() == 0 {
        0
    } else {
        spec_match_count(prop.drop_last(), base) + (if base.contains(prop.last()) {
            1int
        } else {
            0int
        })
    }
}

/// The offset the aligner derives from candidate number `ji` of the first
/// candidate entry under rotation `rot`: it moves the rotated chosen unfixed
/// point exactly onto its candidate base point.
pub open spec fn attempt_offset(
    unfixed: Seq<Point>,
    base: Seq<Point>,
    cands: Seq<CandidateEntry>,
    ji: int,
    rot: int,
) -> Point {
    spec_sub(
        base[cands[0].base@[ji] as int],
        spec_rotate(rot, unfixed[cands[0].unfixed as int]),
    )
}

/// The match count which attempt `(ji, rot)` achieves.
pub open spec fn attempt_count(
    unfixed: Seq<Point>,
    base: Seq<Point>,
    cands: Seq<CandidateEntry>,
    ji: int,
    rot: int,
) -> int {
    spec_match_count(
        transform_seq(unfixed, rot, attempt_offset(unfixed, base, cands, ji, rot)),
        base,
    )
}

/// The candidate map is usable by the aligner: it is nonempty and its first
/// entry names indices inside the two reports.
pub open spec fn cands_usable(cands: Seq<CandidateEntry>, un: int, bn: int) -> bool {
    &&& cands.len() >= 1
    &&& (cands[0].unfixed as int) < un
    &&& forall|ji: int| 0 <= ji < cands[0].base@.len() ==> (#[trigger] cands[0].base@[ji] as int) < bn
}

/// Whether `p` occurs in `rep`.
pub fn contains_point(rep: &Vec<Point>, p: &Point) -> (r: bool)
    ensures
        r == rep@.contains(*p),
{
    let n = rep.len();
    for k in 0..n
        invariant
            n == rep@.len(),
            forall|t: int| 0 <= t < k ==> rep@[t] != *p,
        decreases n - k,
    {
        if rep[k] == *p {
            return true;
        }
    }
    false
}

/// Counts the points of `prop` that occur in `base`.
pub fn count_matches(prop: &Vec<Point>, base: &Vec<Point>) -> (c: usize)
    ensures
        c == spec_match_count(prop@, base@),
{
    let mut c: usize = 0;
    let n = prop.len();
    for k in 0..n
        invariant
            n == prop@.len(),
            c == spec_match_count(prop@.subrange(0, k as int), base@),
            c <= k,
        decreases n - k,
    {
        let ghost pre = prop@.subrange(0, k as int);
        if contains_point(base, &prop[k]) {
            c = c + 1;
        }
        proof {
            let nxt = prop@.subrange(0, k as int + 1);
            assert(nxt.drop_last() =~= pre);
            assert(nxt.last() == prop@[k as int]);
        }
    }
    proof {
        assert(prop@.subrange(0, prop@.len() as int) =~= prop@);
    }
    c
}

/// Applies one rigid transform — rotation `rot`, then translation by `off` —
/// to every point of the report.
pub fn transform_report(rep: &Vec<Point>, rot: u8, off: Point) -> (out: Vec<Point>)
    requires
        rot < 24,
        report_within(rep@, MAX_COORD as int),
        within(off, (FIXED_LIMIT + 2 * MAX_COORD) as int),
    ensures
        out@ == transform_seq(rep@, rot as int, off),
        report_within(out@, (FIXED_LIMIT + 3 * MAX_COORD) as int),
{
    let mut out: Vec<Point> = Vec::new();
    let n = rep.len();
    for k in 0..n
        invariant
            n == rep@.len(),
            rot < 24,
            report_within(rep@, MAX_COORD as int),
            within(off, (FIXED_LIMIT + 2 * MAX_COORD) as int),
            out@.len() == k,
            forall|m: int|
                0 <= m < k ==> #[trigger] out@[m] == spec_translate(
                    spec_rotate(rot as int, rep@[m]),
                    off,
                ),
            forall|m: int| 0 <= m < k ==> within(#[trigger] out@[m], (FIXED_LIMIT + 3 * MAX_COORD) as int),
        decreases n - k,
    {
        let p = rep[k];
        proof {
            lemma_rotate_within(rot as int, p, MAX_COORD as int);
        }
        let q = rotate(rot, p);
        let t = translate(q, off);
        proof {
            assert(within(t, (FIXED_LIMIT + 3 * MAX_COORD) as int));
            assert(t == spec_translate(spec_rotate(rot as int, rep@[k as int]), off));
        }
        out.push(t);
    }
    proof {
        assert(out@ =~= transform_seq(rep@, rot as int, off));
    }
    out
}

/// Searches the candidate pairings of one unfixed point and the 24 rotations
/// for a rigid transform placing at least 12 points of the unaligned report
/// exactly onto base points.  Returns the fully transformed report and the
/// offset — the scanner position — on success.
pub fn fix(unfixed_report: &Vec<Point>, base_report: &Vec<Point>, cands: &Vec<CandidateEntry>) -> (r:
    Option<(Vec<Point>, Point)>)
    requires
        report_within(unfixed_report@, MAX_COORD as int),
        report_within(base_report@, FIXED_LIMIT as int),
        cands_usable(cands@, unfixed_report@.len() as int, base_report@.len() as int),
    ensures
        (r is Some) <==> exists|ji: int, rot: int|
            0 <= ji < cands@[0].base@.len() && 0 <= rot < 24 && attempt_count(
                unfixed_report@,
                base_report@,
                cands@,
                ji,
                rot,
            ) >= MATCH_THRESHOLD,
        match r {
            Some(pr) => exists|ji: int, rot: int|
                0 <= ji < cands@[0].base@.len() && 0 <= rot < 24 && pr.1 == attempt_offset(
                    unfixed_report@,
                    base_report@,
                    cands@,
                    ji,
                    rot,
                ) && pr.0@ == transform_seq(unfixed_report@, rot, pr.1) && spec_match_count(
                    pr.0@,
                    base_report@,
                ) >= MATCH_THRESHOLD,
            None => true,
        },
        match r {
            Some(pr) => report_within(pr.0@, (FIXED_LIMIT + 3 * MAX_COORD) as int) && within(
                pr.1,
                (FIXED_LIMIT + 2 * MAX_COORD) as int,
            ),
            None => true,
        },
{
    let ghost us = unfixed_report@;
    let ghost bs = base_report@;
    let i = cands[0].unfixed;
    let u_i = unfixed_report[i];
    let jn = cands[0].base.len();
    for ji in 0..jn
        invariant
            us == unfixed_report@,
            bs == base_report@,
            report_within(us, MAX_COORD as int),
            report_within(bs, FIXED_LIMIT as int),
            cands_usable(cands@, us.len() as int, bs.len() as int),
            jn == cands@[0].base@.len(),
            i == cands@[0].unfixed,
            u_i == us[i as int],
            forall|ji2: int, rot2: int|
                0 <= ji2 < ji && 0 <= rot2 < 24 ==> #[trigger] attempt_count(us, bs, cands@, ji2, rot2)
                    < MATCH_THRESHOLD,
        decreases jn - ji,
    {
        let j = cands[0].base[ji];
        let v = base_report[j];
        let mut rot: u8 = 0;
        while rot < 24
            invariant
                us == unfixed_report@,
                bs == base_report@,
                report_within(us, MAX_COORD as int),
                report_within(bs, FIXED_LIMIT as int),
                cands_usable(cands@, us.len() as int, bs.len() as int),
                jn == cands@[0].base@.len(),
                i == cands@[0].unfixed,
                u_i == us[i as int],
                ji < jn,
                j == cands@[0].base@[ji as int],
                v == bs[j as int],
                rot <= 24,
                forall|ji2: int, rot2: int|
                    0 <= ji2 < ji && 0 <= rot2 < 24 ==> #[trigger] attempt_count(
                        us,
                        bs,
                        cands@,
                        ji2,
                        rot2,
                    ) < MATCH_THRESHOLD,
                forall|rot2: int|
                    0 <= rot2 < rot ==> #[trigger] attempt_count(us, bs, cands@, ji as int, rot2)
                        < MATCH_THRESHOLD,
            decreases 24 - rot,
        {
            proof {
                lemma_rotate_within(rot as int, u_i, MAX_COORD as int);
            }
            let ru = rotate(rot, u_i);
            let offset = point_sub(v, ru);
            proof {
                assert(offset == attempt_offset(us, bs, cands@, ji as int, rot as int));
                assert(within(offset, (FIXED_LIMIT + 2 * MAX_COORD) as int));
            }
            let proposed = transform_report(unfixed_report, rot, offset);
            let match_count = count_matches(&proposed, base_report);
            if match_count >= MATCH_THRESHOLD {
                proof {
                    assert(attempt_count(us, bs, cands@, ji as int, rot as int)
                        >= MATCH_THRESHOLD);
                }
                return Some((proposed, offset));
            }
            proof {
                assert(attempt_count(us, bs, cands@, ji as int, rot as int) < MATCH_THRESHOLD);
            }
            rot = rot + 1;
        }
    }
    None
}

/// When `prop` and `base` agree pointwise, every position matches.
pub proof fn lemma_match_count_all(prop: Seq<Point>, base: Seq<Point>)
    requires
        forall|k: int| 0 <= k < prop.len() ==> base.contains(#[trigger] prop[k]),
    ensures
        spec_match_count(prop, base) == prop.len(),
    decreases prop.len(),
{
    if prop.len() > 0 {
        lemma_match_count_all(prop.drop_last(), base);
    }
}

/// If one report is a rigid transform of the other — the same 12 or more
/// physical points, rotated by `rr` and then translated by `t` — and the
/// candidate map pairs the chosen unfixed point with its true base twin, then
/// some attempt of the aligner reaches the match threshold: `fix` returns a
/// transformed report, recovering the inverse rotation and offset exactly.
pub proof fn lemma_aligner_recovers(
    base: Seq<Point>,
    unfixed: Seq<Point>,
    cands: Seq<CandidateEntry>,
    rr: int,
    t: Point,
)
    requires
        base.len() == unfixed.len(),
        base.len() >= MATCH_THRESHOLD,
        0 <= rr < 24,
        report_within(base, MAX_COORD as int),
        within(t, MAX_COORD as int),
        forall|k: int|
            0 <= k < base.len() ==> #[trigger] unfixed[k] == spec_translate(
                spec_rotate(rr, base[k]),
                t,
            ),
        cands.len() >= 1,
        (cands[0].unfixed as int) < base.len(),
        exists|ji: int| 0 <= ji < cands[0].base@.len() && (#[trigger] cands[0].base@[ji]) == cands[0].unfixed,
    ensures
        exists|ji: int, rot: int|
            0 <= ji < cands[0].base@.len() && 0 <= rot < 24 && attempt_count(
                unfixed,
                base,
                cands,
                ji,
                rot,
            ) >= MATCH_THRESHOLD,
{
    let i = cands[0].unfixed as int;
    let ji = choose|ji: int|
        0 <= ji < cands[0].base@.len() && (#[trigger] cands[0].base@[ji]) == cands[0].unfixed;
    let inv = spec_inverse(rr);
    let tr = spec_rotate(inv, t);
    lemma_rotate_within(inv, t, MAX_COORD as int);
    assert forall|k: int|
        0 <= k < base.len() implies spec_rotate(inv, #[trigger] unfixed[k]) == spec_translate(
        base[k],
        tr,
    ) by {
        lemma_rotate_within(rr, base[k], MAX_COORD as int);
        lemma_rotate_linear(inv, spec_rotate(rr, base[k]), t, MAX_COORD as int, MAX_COORD as int);
        lemma_rotation_round_trip(rr, base[k]);
    }
    let off = attempt_offset(unfixed, base, cands, ji, inv);
    assert(off == spec_sub(base[i], spec_translate(base[i], tr)));
    let prop = transform_seq(unfixed, inv, off);
    assert forall|k: int| 0 <= k < prop.len() implies prop[k] == base[k] by {
        assert(spec_rotate(inv, unfixed[k]) == spec_translate(base[k], tr));
    }
    assert(prop =~= base);
    lemma_match_count_all(prop, base);
    assert(attempt_count(unfixed, base, cands, ji, inv) == base.len());
}

/// The full recovery law: when one report is another's rigid transform —
/// twelve or more identical physical points, rotated by a table rotation and
/// translated — and the candidate map is exactly the matcher's output over
/// the two well-formed distance indices, then the aligner reaches the match
/// threshold: `fix` returns a transformed report with at least twelve points
/// on base points, recovering the planted rotation and translation.
pub proof fn lemma_pipeline_recovers(
    base: Seq<Point>,
    unfixed: Seq<Point>,
    ixu: crate::index::DistIndex,
    ixb: crate::index::DistIndex,
    cands: Seq<CandidateEntry>,
    rr: int,
    t: Point,
)
    requires
        crate::index::index_wf(ixu, unfixed),
        crate::index::index_wf(ixb, base),
        base.len() == unfixed.len(),
        MATCH_THRESHOLD <= base.len() <= usize::MAX,
        0 <= rr < 24,
        report_within(base, MAX_COORD as int),
        within(t, MAX_COORD as int),
        forall|k: int|
            0 <= k < base.len() ==> #[trigger] unfixed[k] == spec_translate(
                spec_rotate(rr, base[k]),
                t,
            ),
        crate::matching::cand_entries_wf(cands),
        forall|u: usize, bi: usize|
            crate::matching::cand_contains(cands, u, bi) <==> crate::matching::spec_candidate(
                ixu.entries@,
                ixb.entries@,
                u,
                bi,
            ),
    ensures
        cands.len() >= 1,
        exists|ji: int, rot: int|
            0 <= ji < cands[0].base@.len() && 0 <= rot < 24 && attempt_count(
                unfixed,
                base,
                cands,
                ji,
                rot,
            ) >= MATCH_THRESHOLD,
{
    crate::matching::lemma_matcher_finds_twin(base, unfixed, ixu, ixb, rr, t, cands);
    assert(cands[0].base@.contains(cands[0].unfixed));
    let ji = choose|ji: int|
        0 <= ji < cands[0].base@.len() && cands[0].base@[ji] == cands[0].unfixed;
    assert(cands[0].base@.len() >= 1);
    assert(crate::matching::cand_contains(cands, cands[0].unfixed, cands[0].base@[0]));
    crate::matching::lemma_candidates_valid(
        ixu.entries@,
        ixb.entries@,
        unfixed,
        base,
        cands[0].unfixed,
        cands[0].base@[0],
    );
    lemma_aligner_recovers(base, unfixed, cands, rr, t);
}

/// The negation of a point, exact away from the `i64` boundary.
pub open spec fn point_neg(p: Point) -> Point {
    pt(-(p.x as int), -(p.y as int), -(p.z as int))
}

/// The offset the aligner reports when it undoes a planted transform of
/// rotation `rr` and translation `t`: the inverse-rotated translation,
/// negated.
pub open spec fn planted_offset(rr: int, t: Point) -> Point {
    point_neg(spec_rotate(spec_inverse(rr), t))
}

/// The sharpened recovery law: when the unaligned report is the base report
/// carried by rotation `rr` and translation `t`, and no spurious coincidence
/// exists — no attempt but the planted transform's inverse reaches the match
/// threshold — then whichever succeeding attempt the aligner returned *is*
/// that inverse: the returned offset is the planted one and the transformed
/// report equals the base report, point for point.
#[verifier::rlimit(100)]
#[verifier::spinoff_prover]
pub proof fn lemma_aligner_recovers_exactly(
    base: Seq<Point>,
    unfixed: Seq<Point>,
    cands: Seq<CandidateEntry>,
    rr: int,
    t: Point,
    prop: Seq<Point>,
    off: Point,
)
    requires
        base.len() == unfixed.len(),
        base.len() >= MATCH_THRESHOLD,
        0 <= rr < 24,
        report_within(base, MAX_COORD as int),
        within(t, MAX_COORD as int),
        forall|k: int|
            0 <= k < base.len() ==> #[trigger] unfixed[k] == spec_translate(
                spec_rotate(rr, base[k]),
                t,
            ),
        cands.len() >= 1,
        (cands[0].unfixed as int) < unfixed.len(),
        forall|ji: int|
            0 <= ji < cands[0].base@.len() ==> (#[trigger] cands[0].base@[ji] as int) < base.len(),
        forall|ji: int, rot: int|
            0 <= ji < cands[0].base@.len() && 0 <= rot < 24 && #[trigger] attempt_count(
                unfixed,
                base,
                cands,
                ji,
                rot,
            ) >= MATCH_THRESHOLD ==> rot == spec_inverse(rr) && attempt_offset(
                unfixed,
                base,
                cands,
                ji,
                rot,
            ) == planted_offset(rr, t),
        exists|ji: int, rot: int|
            0 <= ji < cands[0].base@.len() && 0 <= rot < 24 && off == #[trigger] attempt_offset(
                unfixed,
                base,
                cands,
                ji,
                rot,
            ) && prop == transform_seq(unfixed, rot, off) && spec_match_count(prop, base)
                >= MATCH_THRESHOLD,
    ensures
        off == planted_offset(rr, t),
        prop == base,
        spec_match_count(prop, base) == base.len(),
{
    let (ji, rot) = choose|ji: int, rot: int|
        0 <= ji < cands[0].base@.len() && 0 <= rot < 24 && off == #[trigger] attempt_offset(
            unfixed,
            base,
            cands,
            ji,
            rot,
        ) && prop == transform_seq(unfixed, rot, off) && spec_match_count(prop, base)
            >= MATCH_THRESHOLD;
    assert(attempt_count(unfixed, base, cands, ji, rot) >= MATCH_THRESHOLD);
    assert(rot == spec_inverse(rr) && off == planted_offset(rr, t));
    let inv = spec_inverse(rr);
    let tr = spec_rotate(inv, t);
    lemma_rotate_within(inv, t, MAX_COORD as int);
    assert forall|k: int|
        0 <= k < base.len() implies spec_rotate(inv, #[trigger] unfixed[k]) == spec_translate(
        base[k],
        tr,
    ) by {
        lemma_rotate_within(rr, base[k], MAX_COORD as int);
        lemma_rotate_linear(inv, spec_rotate(rr, base[k]), t, MAX_COORD as int, MAX_COORD as int);
        lemma_rotation_round_trip(rr, base[k]);
    }
    assert forall|k: int| 0 <= k < prop.len() implies prop[k] == base[k] by {
        assert(spec_rotate(inv, unfixed[k]) == spec_translate(base[k], tr));
    }
    assert(prop =~= base);
    lemma_match_count_all(prop, base);
}

} // verus!
