//! The candidate matcher.
//!
//! For two reports — one not yet aligned ("unfixed") and one already in the
//! global frame ("base") — it lists, for each unfixed point index, the base
//! point indices it might correspond to: those that realize, in the base
//! index, a squared distance that the unfixed point also realizes in its own
//! report.  The aligner then only has to try these pairings.

use vstd::prelude::*;
use crate::index::{DistEntry, DistIndex, has_key, bucket_at, keys_distinct, buckets_tidy, find_key};

verus! {

/// The candidate base indices of one unfixed point index.
pub struct CandidateEntry {
    pub unfixed: usize,
    pub base: Vec<usize>,
}

/// Index `u` appears in one of `pairs`.
pub open spec fn point_in_bucket(pairs: Seq<(usize, usize)>, u: usize) -> bool {
    exists|q: int| 0 <= q < pairs.len() && ((#[trigger] pairs[q]).0 == u || pairs[q].1 == u)
}

/// Bucket number `e` of the unfixed index ties unfixed point `u` to base
/// point `bi`: `u` realizes the bucket's distance, the base index also has
/// that distance, and `bi` realizes it there.
pub open spec fn cand_via(
    ues: Seq<DistEntry>,
    bes: Seq<DistEntry>,
    u: usize,
    bi: usize,
    e: int,
) -> bool {
    &&& point_in_bucket(ues[e].pairs@, u)
    &&& has_key(bes, ues[e].key)
    &&& point_in_bucket(bucket_at(bes, ues[e].key), bi)
}

/// Some bucket among the first `e_end` of the unfixed index ties `u` to `bi`.
pub open spec fn spec_candidate_upto(
    ues: Seq<DistEntry>,
    bes: Seq<DistEntry>,
    u: usize,
    bi: usize,
    e_end: int,
) -> bool {
    exists|e: int| 0 <= e < e_end && #[trigger] cand_via(ues, bes, u, bi, e)
}

/// Base point `bi` is a match candidate for unfixed point `u`.
pub open spec fn spec_candidate(ues: Seq<DistEntry>, bes: Seq<DistEntry>, u: usize, bi: usize) -> bool {
    spec_candidate_upto(ues, bes, u, bi, ues.len() as int)
}

/// The candidate list records `bi` as a candidate of `u`.
pub open spec fn cand_contains(cs: Seq<CandidateEntry>, u: usize, bi: usize) -> bool {
    exists|e: int| 0 <= e < cs.len() && (#[trigger] cs[e]).unfixed == u && cs[e].base@.contains(bi)
}

/// Entries are for distinct unfixed indices, and each carries a duplicate-free,
/// nonempty candidate list.
pub open spec fn cand_entries_wf(cs: Seq<CandidateEntry>) -> bool {
    &&& forall|a: int, b: int| 0 <= a < b < cs.len() ==> cs[a].unfixed != cs[b].unfixed
    &&& forall|e: int|
        0 <= e < cs.len() ==> (#[trigger] cs[e].base@).no_duplicates() && cs[e].base@.len() >= 1
}

/// Appends `x` unless already present.
fn push_unique(v: &mut Vec<usize>, x: usize)
    ensures
        forall|y: usize| final(v)@.contains(y) <==> old(v)@.contains(y) || y == x,
        old(v)@.no_duplicates() ==> final(v)@.no_duplicates(),
        final(v)@.len() >= old(v)@.len(),
        final(v)@.len() >= 1,
{
    let n = v.len();
    for q in 0..n
        invariant
            n == v@.len(),
            v@ == old(v)@,
            forall|t: int| 0 <= t < q ==> v@[t] != x,
        decreases n - q,
    {
        if v[q] == x {
            return ;
        }
    }
    v.push(x);
    proof {
        assert forall|y: usize| v@.contains(y) <==> old(v)@.contains(y) || y == x by {
            if v@.contains(y) {
                let t = choose|t: int| 0 <= t < v@.len() && v@[t] == y;
                if t < old(v)@.len() {
                    assert(old(v)@.contains(y));
                }
            }
            if old(v)@.contains(y) {
                let t = choose|t: int| 0 <= t < old(v)@.len() && old(v)@[t] == y;
                assert(v@[t] == y);
            }
            if y == x {
                assert(v@[v@.len() - 1] == x);
            }
        }
    }
}

/// Whether point index `u` appears in one of the bucket's pairs.
fn bucket_contains_point(pairs: &Vec<(usize, usize)>, u: usize) -> (r: bool)
    ensures
        r == point_in_bucket(pairs@, u),
{
    let n = pairs.len();
    for q in 0..n
        invariant
            n == pairs@.len(),
            forall|t: int| 0 <= t < q ==> !((#[trigger] pairs@[t]).0 == u || pairs@[t].1 == u),
        decreases n - q,
    {
        let pr = pairs[q];
        if pr.0 == u || pr.1 == u {
            return true;
        }
    }
    false
}

/// `u` appears in one of the first `e_end` buckets of `ues`.
pub open spec fn occurs_upto(ues: Seq<DistEntry>, u: usize, e_end: int) -> bool {
    exists|e: int| 0 <= e < e_end && point_in_bucket((#[trigger] ues[e]).pairs@, u)
}

/// All point indices appearing in any bucket of `ues`, without duplicates.
fn collect_unfixed_points(ues: &Vec<DistEntry>) -> (us: Vec<usize>)
    ensures
        us@.no_duplicates(),
        forall|u: usize| us@.contains(u) <==> occurs_upto(ues@, u, ues@.len() as int),
{
    let mut us: Vec<usize> = Vec::new();
    let n = ues.len();
    for e in 0..n
        invariant
            n == ues@.len(),
            us@.no_duplicates(),
            forall|u: usize| us@.contains(u) <==> occurs_upto(ues@, u, e as int),
        decreases n - e,
    {
        let m = ues[e].pairs.len();
        for q in 0..m
            invariant
                n == ues@.len(),
                e < n,
                m == ues@[e as int].pairs@.len(),
                us@.no_duplicates(),
                forall|u: usize|
                    us@.contains(u) <==> occurs_upto(ues@, u, e as int) || point_in_bucket(
                        ues@[e as int].pairs@.subrange(0, q as int),
                        u,
                    ),
            decreases m - q,
        {
            let pr = ues[e].pairs[q];
            let ghost before = us@;
            push_unique(&mut us, pr.0);
            let ghost midv = us@;
            push_unique(&mut us, pr.1);
            proof {
                let after = us@;
                let sub1 = ues@[e as int].pairs@.subrange(0, q as int + 1);
                let sub0 = ues@[e as int].pairs@.subrange(0, q as int);
                assert forall|u: usize|
                    point_in_bucket(sub1, u) <==> point_in_bucket(sub0, u) || u == pr.0 || u
                        == pr.1 by {
                    if point_in_bucket(sub1, u) {
                        let t = choose|t: int|
                            0 <= t < sub1.len() && ((#[trigger] sub1[t]).0 == u || sub1[t].1 == u);
                        if t < q {
                            assert(sub0[t] == sub1[t]);
                            assert(point_in_bucket(sub0, u));
                        } else {
                            assert(sub1[t] == pr);
                        }
                    }
                    if point_in_bucket(sub0, u) {
                        let t = choose|t: int|
                            0 <= t < sub0.len() && ((#[trigger] sub0[t]).0 == u || sub0[t].1 == u);
                        assert(sub1[t] == sub0[t]);
                        assert(point_in_bucket(sub1, u));
                    }
                    if u == pr.0 || u == pr.1 {
                        assert(sub1[q as int] == pr);
                        assert(point_in_bucket(sub1, u));
                    }
                }
                assert forall|u: usize|
                    after.contains(u) <==> occurs_upto(ues@, u, e as int) || point_in_bucket(
                        sub1,
                        u,
                    ) by {
                    assert(midv.contains(u) <==> before.contains(u) || u == pr.0);
                    assert(after.contains(u) <==> midv.contains(u) || u == pr.1);
                    assert(before.contains(u) <==> occurs_upto(ues@, u, e as int)
                        || point_in_bucket(sub0, u));
                }
            }
        }
        proof {
            assert(ues@[e as int].pairs@.subrange(0, m as int) =~= ues@[e as int].pairs@);
            assert forall|u: usize|
                us@.contains(u) <==> occurs_upto(ues@, u, e as int + 1) by {
                assert(us@.contains(u) <==> occurs_upto(ues@, u, e as int) || point_in_bucket(
                    ues@[e as int].pairs@,
                    u,
                ));
                if occurs_upto(ues@, u, e as int + 1) {
                    let w = choose|w: int|
                        0 <= w < e as int + 1 && point_in_bucket((#[trigger] ues@[w]).pairs@, u);
                    if w < e as int {
                        assert(occurs_upto(ues@, u, e as int));
                    }
                }
                if occurs_upto(ues@, u, e as int) {
                    let w = choose|w: int|
                        0 <= w < e as int && point_in_bucket((#[trigger] ues@[w]).pairs@, u);
                    assert(occurs_upto(ues@, u, e as int + 1));
                }
                if point_in_bucket(ues@[e as int].pairs@, u) {
                    assert(occurs_upto(ues@, u, e as int + 1));
                }
            }
        }
    }
    us
}

/// The candidate base indices of one unfixed point `u`: every base point
/// realizing a squared distance that `u` also realizes, gathered over the
/// buckets of the unfixed index.
fn candidates_of(unfixed_pm: &DistIndex, base_pm: &DistIndex, u: usize) -> (list: Vec<usize>)
    requires
        keys_distinct(base_pm.entries@),
        buckets_tidy(base_pm.entries@),
    ensures
        list@.no_duplicates(),
        forall|bi: usize|
            list@.contains(bi) <==> spec_candidate(unfixed_pm.entries@, base_pm.entries@, u, bi),
{
    let ghost ues = unfixed_pm.entries@;
    let ghost bes = base_pm.entries@;
    let mut list: Vec<usize> = Vec::new();
    let n = unfixed_pm.entries.len();
    for e in 0..n
        invariant
            n == ues.len(),
            ues == unfixed_pm.entries@,
            bes == base_pm.entries@,
            keys_distinct(bes),
            buckets_tidy(bes),
            list@.no_duplicates(),
            forall|bi: usize| list@.contains(bi) <==> spec_candidate_upto(ues, bes, u, bi, e as int),
        decreases n - e,
    {
        let mut advanced = false;
        if bucket_contains_point(&unfixed_pm.entries[e].pairs, u) {
            if let Some(be) = find_key(&base_pm.entries, unfixed_pm.entries[e].key) {
                proof {
                    let k = ues[e as int].key;
                    let w = choose|w: int| 0 <= w < bes.len() && (#[trigger] bes[w]).key == k;
                    assert(w == be as int);
                    assert(bucket_at(bes, k) == bes[be as int].pairs@);
                }
                let m = base_pm.entries[be].pairs.len();
                for q in 0..m
                    invariant
                        n == ues.len(),
                        ues == unfixed_pm.entries@,
                        bes == base_pm.entries@,
                        e < n,
                        be < bes.len(),
                        m == bes[be as int].pairs@.len(),
                        bes[be as int].key == ues[e as int].key,
                        has_key(bes, ues[e as int].key),
                        bucket_at(bes, ues[e as int].key) == bes[be as int].pairs@,
                        point_in_bucket(ues[e as int].pairs@, u),
                        list@.no_duplicates(),
                        forall|bi: usize|
                            list@.contains(bi) <==> spec_candidate_upto(ues, bes, u, bi, e as int)
                                || point_in_bucket(bes[be as int].pairs@.subrange(0, q as int), bi),
                    decreases m - q,
                {
                    let pr = base_pm.entries[be].pairs[q];
                    let ghost before = list@;
                    push_unique(&mut list, pr.0);
                    let ghost midv = list@;
                    push_unique(&mut list, pr.1);
                    proof {
                        let after = list@;
                        let sub1 = bes[be as int].pairs@.subrange(0, q as int + 1);
                        let sub0 = bes[be as int].pairs@.subrange(0, q as int);
                        assert forall|bi: usize|
                            point_in_bucket(sub1, bi) <==> point_in_bucket(sub0, bi) || bi == pr.0
                                || bi == pr.1 by {
                            if point_in_bucket(sub1, bi) {
                                let t = choose|t: int|
                                    0 <= t < sub1.len() && ((#[trigger] sub1[t]).0 == bi || sub1[t].1
                                        == bi);
                                if t < q {
                                    assert(sub0[t] == sub1[t]);
                                    assert(point_in_bucket(sub0, bi));
                                } else {
                                    assert(sub1[t] == pr);
                                }
                            }
                            if point_in_bucket(sub0, bi) {
                                let t = choose|t: int|
                                    0 <= t < sub0.len() && ((#[trigger] sub0[t]).0 == bi || sub0[t].1
                                        == bi);
                                assert(sub1[t] == sub0[t]);
                                assert(point_in_bucket(sub1, bi));
                            }
                            if bi == pr.0 || bi == pr.1 {
                                assert(sub1[q as int] == pr);
                                assert(point_in_bucket(sub1, bi));
                            }
                        }
                        assert forall|bi: usize|
                            after.contains(bi) <==> spec_candidate_upto(ues, bes, u, bi, e as int)
                                || point_in_bucket(sub1, bi) by {
                            assert(midv.contains(bi) <==> before.contains(bi) || bi == pr.0);
                            assert(after.contains(bi) <==> midv.contains(bi) || bi == pr.1);
                            assert(before.contains(bi) <==> spec_candidate_upto(
                                ues,
                                bes,
                                u,
                                bi,
                                e as int,
                            ) || point_in_bucket(sub0, bi));
                        }
                    }
                }
                advanced = true;
                proof {
                    assert(bes[be as int].pairs@.subrange(0, m as int) =~= bes[be as int].pairs@);
                    assert forall|bi: usize|
                        list@.contains(bi) <==> spec_candidate_upto(ues, bes, u, bi, e as int
                            + 1) by {
                        assert(list@.contains(bi) <==> spec_candidate_upto(ues, bes, u, bi, e as int)
                            || point_in_bucket(bes[be as int].pairs@, bi));
                        if point_in_bucket(bes[be as int].pairs@, bi) {
                            assert(cand_via(ues, bes, u, bi, e as int));
                            assert(spec_candidate_upto(ues, bes, u, bi, e as int + 1));
                        }
                        if spec_candidate_upto(ues, bes, u, bi, e as int + 1) {
                            let w = choose|w: int|
                                0 <= w < e as int + 1 && #[trigger] cand_via(ues, bes, u, bi, w);
                            if w < e as int {
                                assert(spec_candidate_upto(ues, bes, u, bi, e as int));
                            } else {
                                assert(point_in_bucket(bucket_at(bes, ues[e as int].key), bi));
                            }
                        }
                        if spec_candidate_upto(ues, bes, u, bi, e as int) {
                            let w = choose|w: int|
                                0 <= w < e as int && #[trigger] cand_via(ues, bes, u, bi, w);
                            assert(spec_candidate_upto(ues, bes, u, bi, e as int + 1));
                        }
                    }
                }
            }
        }
        proof {
            if !advanced {
                assert forall|bi: usize|
                    list@.contains(bi) <==> spec_candidate_upto(ues, bes, u, bi, e as int + 1) by {
                    if spec_candidate_upto(ues, bes, u, bi, e as int + 1) {
                        let w = choose|w: int|
                            0 <= w < e as int + 1 && #[trigger] cand_via(ues, bes, u, bi, w);
                        assert(w < e as int);
                        assert(spec_candidate_upto(ues, bes, u, bi, e as int));
                    }
                    if spec_candidate_upto(ues, bes, u, bi, e as int) {
                        let w = choose|w: int|
                            0 <= w < e as int && #[trigger] cand_via(ues, bes, u, bi, w);
                        assert(spec_candidate_upto(ues, bes, u, bi, e as int + 1));
                    }
                }
            }
        }
    }
    list
}

/// Builds the candidate map: for every squared distance present in both
/// indices, every unfixed point realizing it may correspond to every base
/// point realizing it.
pub fn match_candidates(unfixed_pm: &DistIndex, base_pm: &DistIndex) -> (cands: Vec<CandidateEntry>)
    requires
        keys_distinct(base_pm.entries@),
        buckets_tidy(base_pm.entries@),
    ensures
        cand_entries_wf(cands@),
        forall|u: usize, bi: usize|
            cand_contains(cands@, u, bi) <==> spec_candidate(
                unfixed_pm.entries@,
                base_pm.entries@,
                u,
                bi,
            ),
{
    let ghost ues = unfixed_pm.entries@;
    let ghost bes = base_pm.entries@;
    let us = collect_unfixed_points(&unfixed_pm.entries);
    let mut cands: Vec<CandidateEntry> = Vec::new();
    let nu = us.len();
    for ui in 0..nu
        invariant
            nu == us@.len(),
            ues == unfixed_pm.entries@,
            bes == base_pm.entries@,
            keys_distinct(bes),
            buckets_tidy(bes),
            us@.no_duplicates(),
            forall|u: usize| us@.contains(u) <==> occurs_upto(ues, u, ues.len() as int),
            cand_entries_wf(cands@),
            forall|u: usize, bi: usize|
                cand_contains(cands@, u, bi) <==> (exists|t: int| 0 <= t < ui && us@[t] == u)
                    && spec_candidate(ues, bes, u, bi),
        decreases nu - ui,
    {
        let u = us[ui];
        let ghost cands_before = cands@;
        let list = candidates_of(unfixed_pm, base_pm, u);
        if list.len() > 0 {
            let ghost list_view = list@;
            cands.push(CandidateEntry { unfixed: u, base: list });
            proof {
                assert forall|a: int, b: int| 0 <= a < b < cands@.len() implies cands@[a].unfixed
                    != cands@[b].unfixed by {
                    if b == cands@.len() - 1 {
                        let u2 = cands@[a].unfixed;
                        assert(cand_contains(cands_before, u2, cands_before[a].base@[0]));
                        let t = choose|t: int| 0 <= t < ui && us@[t] == u2;
                        assert(us@[t] == u2 && us@[ui as int] == u);
                    }
                }
                assert forall|u2: usize, bi: usize|
                    cand_contains(cands@, u2, bi) <==> ((exists|t: int|
                        0 <= t < ui as int + 1 && us@[t] == u2) && spec_candidate(
                        ues,
                        bes,
                        u2,
                        bi,
                    )) by {
                    if cand_contains(cands@, u2, bi) {
                        let e = choose|e: int|
                            0 <= e < cands@.len() && (#[trigger] cands@[e]).unfixed == u2
                                && cands@[e].base@.contains(bi);
                        if e < cands_before.len() {
                            assert(cand_contains(cands_before, u2, bi));
                            let t = choose|t: int| 0 <= t < ui && us@[t] == u2;
                            assert(0 <= t < ui as int + 1 && us@[t] == u2);
                        } else {
                            assert(u2 == u && list_view.contains(bi));
                            assert(us@[ui as int] == u2);
                        }
                    }
                    if (exists|t: int| 0 <= t < ui as int + 1 && us@[t] == u2) && spec_candidate(
                        ues,
                        bes,
                        u2,
                        bi,
                    ) {
                        let t = choose|t: int| 0 <= t < ui as int + 1 && us@[t] == u2;
                        if t < ui as int {
                            assert(cand_contains(cands_before, u2, bi));
                            let e = choose|e: int|
                                0 <= e < cands_before.len() && (#[trigger] cands_before[e]).unfixed
                                    == u2 && cands_before[e].base@.contains(bi);
                            assert(cands@[e].unfixed == u2 && cands@[e].base@.contains(bi));
                            assert(cand_contains(cands@, u2, bi));
                        } else {
                            assert(u2 == u);
                            assert(list_view.contains(bi));
                            assert(cands@[cands@.len() - 1].unfixed == u2 && cands@[cands@.len()
                                - 1].base@.contains(bi));
                            assert(cand_contains(cands@, u2, bi));
                        }
                    }
                }
            }
        } else {
            proof {
                assert forall|u2: usize, bi: usize|
                    cand_contains(cands@, u2, bi) <==> ((exists|t: int|
                        0 <= t < ui as int + 1 && us@[t] == u2) && spec_candidate(
                        ues,
                        bes,
                        u2,
                        bi,
                    )) by {
                    if cand_contains(cands@, u2, bi) {
                        let t = choose|t: int| 0 <= t < ui && us@[t] == u2;
                        assert(0 <= t < ui as int + 1 && us@[t] == u2);
                    }
                    if (exists|t: int| 0 <= t < ui as int + 1 && us@[t] == u2) && spec_candidate(
                        ues,
                        bes,
                        u2,
                        bi,
                    ) {
                        let t = choose|t: int| 0 <= t < ui as int + 1 && us@[t] == u2;
                        if t == ui as int {
                            assert(u2 == u);
                            assert(list@.contains(bi));
                            assert(false);
                        }
                    }
                }
            }
        }
    }
    proof {
        assert forall|u: usize, bi: usize|
            cand_contains(cands@, u, bi) <==> spec_candidate(ues, bes, u, bi) by {
            if spec_candidate(ues, bes, u, bi) {
                let e = choose|e: int| 0 <= e < ues.len() && #[trigger] cand_via(ues, bes, u, bi, e);
                assert(occurs_upto(ues, u, ues.len() as int));
                assert(us@.contains(u));
                let t = choose|t: int| 0 <= t < us@.len() && us@[t] == u;
                assert(0 <= t < nu as int && us@[t] == u);
            }
        }
    }
    cands
}

/// Every candidate tie names indices inside the two reports, provided both
/// indices are sound for their reports.
pub proof fn lemma_candidates_valid(
    ues: Seq<DistEntry>,
    bes: Seq<DistEntry>,
    r_u: Seq<crate::geometry::Point>,
    r_b: Seq<crate::geometry::Point>,
    u: usize,
    bi: usize,
)
    requires
        crate::index::index_sound(ues, r_u),
        crate::index::index_sound(bes, r_b),
        keys_distinct(bes),
        spec_candidate(ues, bes, u, bi),
    ensures
        (u as int) < r_u.len(),
        (bi as int) < r_b.len(),
{
    let e = choose|e: int| 0 <= e < ues.len() && #[trigger] cand_via(ues, bes, u, bi, e);
    let q = choose|q: int|
        0 <= q < ues[e].pairs@.len() && ((#[trigger] ues[e].pairs@[q]).0 == u || ues[e].pairs@[q].1
            == u);
    assert(crate::index::pair_sound(ues[e].pairs@[q], ues[e].key, r_u));
    let w = choose|w: int| 0 <= w < bes.len() && (#[trigger] bes[w]).key == ues[e].key;
    let bq = choose|bq: int|
        0 <= bq < bes[w].pairs@.len() && ((#[trigger] bes[w].pairs@[bq]).0 == bi
            || bes[w].pairs@[bq].1 == bi);
    assert(crate::index::pair_sound(bes[w].pairs@[bq], bes[w].key, r_b));
}

/// A point of the unfixed report that realizes any indexed distance is its
/// own candidate when the unfixed report is a rigid transform — a table
/// rotation followed by a translation — of the base report.
proof fn lemma_twin_candidate(
    base: Seq<crate::geometry::Point>,
    unfixed: Seq<crate::geometry::Point>,
    ixu: DistIndex,
    ixb: DistIndex,
    rr: int,
    t: crate::geometry::Point,
    u: usize,
    e: int,
)
    requires
        crate::index::index_wf(ixu, unfixed),
        crate::index::index_wf(ixb, base),
        base.len() == unfixed.len(),
        base.len() <= usize::MAX,
        0 <= rr < 24,
        crate::geometry::report_within(base, crate::geometry::MAX_COORD as int),
        crate::geometry::within(t, crate::geometry::MAX_COORD as int),
        forall|k: int|
            0 <= k < base.len() ==> #[trigger] unfixed[k] == crate::geometry::spec_translate(
                crate::geometry::spec_rotate(rr, base[k]),
                t,
            ),
        0 <= e < ixu.entries@.len(),
        point_in_bucket(ixu.entries@[e].pairs@, u),
    ensures
        spec_candidate(ixu.entries@, ixb.entries@, u, u),
{
    let ues = ixu.entries@;
    let bes = ixb.entries@;
    let q = choose|q: int|
        0 <= q < ues[e].pairs@.len() && ((#[trigger] ues[e].pairs@[q]).0 == u || ues[e].pairs@[q].1
            == u);
    let pr = ues[e].pairs@[q];
    assert(crate::index::pair_sound(pr, ues[e].key, unfixed));
    let a = pr.0 as int;
    let b = pr.1 as int;
    assert forall|x: int, y: int| 0 <= x < base.len() && 0 <= y < base.len() implies
        crate::geometry::spec_dist(unfixed[x], unfixed[y]) == #[trigger] crate::geometry::spec_dist(
        base[x],
        base[y],
    ) by {
        crate::geometry::lemma_rotate_within(rr, base[x], crate::geometry::MAX_COORD as int);
        crate::geometry::lemma_rotate_within(rr, base[y], crate::geometry::MAX_COORD as int);
        crate::geometry::lemma_rotate_preserves_dist(rr, base[x], base[y]);
        crate::geometry::lemma_translate_preserves_dist(
            crate::geometry::spec_rotate(rr, base[x]),
            crate::geometry::spec_rotate(rr, base[y]),
            t,
            crate::geometry::MAX_COORD as int,
            crate::geometry::MAX_COORD as int,
        );
    }
    assert(crate::geometry::spec_dist(base[a], base[b]) == ues[e].key as int);
    assert(crate::index::index_has_pair(bes, (pr.0, pr.1)));
    let eb = choose|eb: int|
        0 <= eb < bes.len() && (#[trigger] bes[eb].pairs@).contains((pr.0, pr.1));
    let qb = choose|qb: int| 0 <= qb < bes[eb].pairs@.len() && bes[eb].pairs@[qb] == (pr.0, pr.1);
    assert(crate::index::pair_sound(bes[eb].pairs@[qb], bes[eb].key, base));
    assert(bes[eb].key == ues[e].key);
    assert(has_key(bes, ues[e].key));
    let ew = choose|ew: int| 0 <= ew < bes.len() && (#[trigger] bes[ew]).key == ues[e].key;
    assert(ew == eb);
    assert(bucket_at(bes, ues[e].key) == bes[eb].pairs@);
    assert(point_in_bucket(bes[eb].pairs@, u)) by {
        assert((#[trigger] bes[eb].pairs@[qb]).0 == u || bes[eb].pairs@[qb].1 == u);
    }
    assert(cand_via(ues, bes, u, u, e));
    assert(spec_candidate_upto(ues, bes, u, u, ues.len() as int));
}

/// When the unfixed report is a rigid transform of the base report, the
/// matcher pairs every listed unfixed point with its own base twin, and —
/// with at least two points — lists at least one unfixed point.  Together
/// with the aligner's completeness this recovers the planted transform: the
/// pipeline never misses twelve identical points.
pub proof fn lemma_matcher_finds_twin(
    base: Seq<crate::geometry::Point>,
    unfixed: Seq<crate::geometry::Point>,
    ixu: DistIndex,
    ixb: DistIndex,
    rr: int,
    t: crate::geometry::Point,
    cands: Seq<CandidateEntry>,
)
    requires
        crate::index::index_wf(ixu, unfixed),
        crate::index::index_wf(ixb, base),
        base.len() == unfixed.len(),
        2 <= base.len() <= usize::MAX,
        0 <= rr < 24,
        crate::geometry::report_within(base, crate::geometry::MAX_COORD as int),
        crate::geometry::within(t, crate::geometry::MAX_COORD as int),
        forall|k: int|
            0 <= k < base.len() ==> #[trigger] unfixed[k] == crate::geometry::spec_translate(
                crate::geometry::spec_rotate(rr, base[k]),
                t,
            ),
        cand_entries_wf(cands),
        forall|u: usize, bi: usize|
            cand_contains(cands, u, bi) <==> spec_candidate(ixu.entries@, ixb.entries@, u, bi),
    ensures
        cands.len() >= 1,
        forall|e: int| 0 <= e < cands.len() ==> (#[trigger] cands[e]).base@.contains(cands[e].unfixed),
{
    let ues = ixu.entries@;
    let bes = ixb.entries@;
    assert(crate::index::index_has_pair(ues, (0usize, 1usize)));
    let e0 = choose|e0: int|
        0 <= e0 < ues.len() && (#[trigger] ues[e0].pairs@).contains((0usize, 1usize));
    let q0 = choose|q0: int|
        0 <= q0 < ues[e0].pairs@.len() && ues[e0].pairs@[q0] == (0usize, 1usize);
    assert(point_in_bucket(ues[e0].pairs@, 0usize)) by {
        assert((#[trigger] ues[e0].pairs@[q0]).0 == 0usize || ues[e0].pairs@[q0].1 == 0usize);
    }
    lemma_twin_candidate(base, unfixed, ixu, ixb, rr, t, 0usize, e0);
    assert(cand_contains(cands, 0usize, 0usize));
    let ee = choose|ee: int|
        0 <= ee < cands.len() && (#[trigger] cands[ee]).unfixed == 0usize && cands[ee].base@.contains(
            0usize,
        );
    assert(cands.len() >= 1);
    assert forall|e: int| 0 <= e < cands.len() implies (#[trigger] cands[e]).base@.contains(
        cands[e].unfixed,
    ) by {
        let u = cands[e].unfixed;
        assert(cands[e].base@.len() >= 1);
        assert(cands[e].base@.contains(cands[e].base@[0]));
        assert(cand_contains(cands, u, cands[e].base@[0]));
        assert(spec_candidate(ues, bes, u, cands[e].base@[0]));
        let ev = choose|ev: int| 0 <= ev < ues.len() && #[trigger] cand_via(ues, bes, u, cands[e].base@[0], ev);
        lemma_twin_candidate(base, unfixed, ixu, ixb, rr, t, u, ev);
        assert(cand_contains(cands, u, u));
        let e2 = choose|e2: int|
            0 <= e2 < cands.len() && (#[trigger] cands[e2]).unfixed == u && cands[e2].base@.contains(
                u,
            );
        if e2 != e {
            assert(cands[e2].unfixed != cands[e].unfixed);
            assert(false);
        }
    }
}

} // verus!
