//! The pairwise-distance index of a report, and the overlap estimator.
//!
//! For one report the index maps each squared distance to the list of point
//! index pairs realizing it.  Two reports that share at least 12 physical
//! points share at least 66 point pairs, each at the same squared distance in
//! both indices; the overlap estimator uses that to prune which report pairs
//! are worth a full alignment search.

use vstd::prelude::*;
use crate::geometry::{Point, spec_dist, dist, report_within, lemma_dist_symmetric, MAX_COORD};

verus! {

/// One bucket of the index: all point pairs of the report at squared
/// distance `key`.
pub struct DistEntry {
    pub key: i64,
    pub pairs: Vec<(usize, usize)>,
}

/// The pairwise-distance index of one report.
pub struct DistIndex {
    pub entries: Vec<DistEntry>,
}

/// No two buckets share a key.
pub open spec fn keys_distinct(es: Seq<DistEntry>) -> bool {
    forall|a: int, b: int| 0 <= a < b < es.len() ==> es[a].key != es[b].key
}

/// `pr` is an ordered pair of indices of `r` whose squared distance is `key`.
pub open spec fn pair_sound(pr: (usize, usize), key: i64, r: Seq<Point>) -> bool {
    &&& (pr.0 as int) < (pr.1 as int) < r.len()
    &&& spec_dist(r[pr.0 as int], r[pr.1 as int]) == key
}

/// Every pair of every bucket is sound for the bucket's key.
pub open spec fn index_sound(es: Seq<DistEntry>, r: Seq<Point>) -> bool {
    forall|e: int, q: int|
        0 <= e < es.len() && 0 <= q < es[e].pairs@.len() ==> pair_sound(
            #[trigger] es[e].pairs@[q],
            es[e].key,
            r,
        )
}

/// Some bucket of `es` holds the pair `pr`.
pub open spec fn index_has_pair(es: Seq<DistEntry>, pr: (usize, usize)) -> bool {
    exists|e: int| 0 <= e < es.len() && (#[trigger] es[e].pairs@).contains(pr)
}

/// Every ordered index pair of the report is in some bucket.
pub open spec fn index_complete(es: Seq<DistEntry>, r: Seq<Point>) -> bool {
    forall|a: usize, b: usize|
        a < b && (b as int) < r.len() ==> #[trigger] index_has_pair(es, (a, b))
}

/// Buckets are nonempty and hold no pair twice.
pub open spec fn buckets_tidy(es: Seq<DistEntry>) -> bool {
    forall|e: int|
        0 <= e < es.len() ==> (#[trigger] es[e].pairs@).no_duplicates() && es[e].pairs@.len() >= 1
}

/// The index is exactly the grouping of all ordered index pairs of `r` by
/// their squared distance.
pub open spec fn index_wf(ix: DistIndex, r: Seq<Point>) -> bool {
    &&& keys_distinct(ix.entries@)
    &&& index_sound(ix.entries@, r)
    &&& index_complete(ix.entries@, r)
    &&& buckets_tidy(ix.entries@)
}

/// Total number of pairs stored over all buckets.
pub open spec fn spec_total_pairs(es: Seq<DistEntry>) -> int
    decreases es.len(),
{
    if es.len() == 0 {
        0
    } else {
        spec_total_pairs(es.drop_last()) + es.last().pairs@.len()
    }
}

/// Some bucket of `es` has key `k`.
pub open spec fn has_key(es: Seq<DistEntry>, k: i64) -> bool {
    exists|e: int| 0 <= e < es.len() && (#[trigger] es[e]).key == k
}

/// The pair list of the bucket with key `k` (meaningful when `has_key` holds
/// and keys are distinct).
pub open spec fn bucket_at(es: Seq<DistEntry>, k: i64) -> Seq<(usize, usize)> {
    es[choose|e: int| 0 <= e < es.len() && (#[trigger] es[e]).key == k].pairs@
}

pub open spec fn min_int(a: int, b: int) -> int {
    if a <= b {
        a
    } else {
        b
    }
}

/// The estimator's score: for each key shared by both indices, the smaller of
/// the two bucket sizes, summed.
pub open spec fn spec_overlap_score(aes: Seq<DistEntry>, bes: Seq<DistEntry>) -> int
    decreases aes.len(),
{
    if aes.len() == 0 {
        0
    } else {
        spec_overlap_score(aes.drop_last(), bes) + entry_score(aes.last(), bes)
    }
}

/// The score one bucket of the first index contributes.
pub open spec fn entry_score(e: DistEntry, bes: Seq<DistEntry>) -> int {
    if has_key(bes, e.key) {
        min_int(e.pairs@.len() as int, bucket_at(bes, e.key).len() as int)
    } else {
        0
    }
}

/// Finds the bucket with key `k`, if any.
pub fn find_key(es: &Vec<DistEntry>, k: i64) -> (r: Option<usize>)
    ensures
        match r {
            Some(e) => e < es@.len() && es@[e as int].key == k,
            None => !has_key(es@, k),
        },
{
    let mut e: usize = 0;
    while e < es.len()
        invariant
            e <= es@.len(),
            forall|x: int| 0 <= x < e ==> (#[trigger] es@[x]).key != k,
        decreases es@.len() - e,
    {
        if es[e].key == k {
            return Some(e);
        }
        e += 1;
    }
    None
}

/// A pair `(a, b)` comes strictly before the pair `(i, j)` in the row-major
/// enumeration of all ordered pairs below `n`.
pub open spec fn lex_before(pr: (usize, usize), i: int, j: int, n: int) -> bool {
    &&& (pr.0 as int) < (pr.1 as int) < n
    &&& ((pr.0 as int) < i || ((pr.0 as int) == i && (pr.1 as int) < j))
}

/// Builds the pairwise-distance index of a report: every ordered index pair,
/// grouped by squared distance.
pub fn pair_dists(report: &Vec<Point>) -> (ix: DistIndex)
    requires
        report@.len() >= 1,
        report_within(report@, MAX_COORD as int),
    ensures
        index_wf(ix, report@),
        spec_total_pairs(ix.entries@) <= report@.len() * (report@.len() - 1),
{
    let n = report.len();
    let mut ix = DistIndex { entries: Vec::new() };
    for i in 0..n - 1
        invariant
            n == report@.len(),
            1 <= n,
            report_within(report@, MAX_COORD as int),
            keys_distinct(ix.entries@),
            index_sound(ix.entries@, report@),
            buckets_tidy(ix.entries@),
            forall|pr: (usize, usize)|
                index_has_pair(ix.entries@, pr) <==> lex_before(pr, i as int, i as int + 1, n as int),
            spec_total_pairs(ix.entries@) <= n * i,
    {
        for j in (i + 1)..n
            invariant
                n == report@.len(),
                i < n - 1,
                i + 1 <= j <= n,
                report_within(report@, MAX_COORD as int),
                keys_distinct(ix.entries@),
                index_sound(ix.entries@, report@),
                buckets_tidy(ix.entries@),
                forall|pr: (usize, usize)|
                    index_has_pair(ix.entries@, pr) <==> lex_before(pr, i as int, j as int, n as int),
                spec_total_pairs(ix.entries@) <= n * i + j,
        {
            let k = dist(&report[i], &report[j]);
            let ghost before = ix.entries@;
            match find_key(&ix.entries, k) {
                Some(e) => {
                    ix.entries[e].pairs.push((i, j));
                    proof {
                        let after = ix.entries@;
                        assert(after =~= before.update(e as int, after[e as int]));
                        assert(after[e as int].pairs@ =~= before[e as int].pairs@.push((i, j)));
                        if before[e as int].pairs@.contains((i, j)) {
                            assert(index_has_pair(before, (i, j)));
                            assert(false);
                        }
                        lemma_membership_after_push(before, after, e as int, (i, j));
                        lemma_total_after_update(before, after, e as int);
                    }
                },
                None => {
                    let mut pairs: Vec<(usize, usize)> = Vec::new();
                    pairs.push((i, j));
                    ix.entries.push(DistEntry { key: k, pairs });
                    proof {
                        let after = ix.entries@;
                        lemma_membership_after_new(before, after, (i, j));
                        assert(after.drop_last() =~= before);
                    }
                },
            }
            proof {
                assert forall|pr: (usize, usize)|
                    index_has_pair(ix.entries@, pr) <==> lex_before(
                        pr,
                        i as int,
                        j as int + 1,
                        n as int,
                    ) by {
                    if lex_before(pr, i as int, j as int + 1, n as int) && !lex_before(
                        pr,
                        i as int,
                        j as int,
                        n as int,
                    ) {
                        assert(pr == (i, j));
                    }
                }
            }
        }
        proof {
            assert(n * (i as int + 1) == n * i + n) by (nonlinear_arith);
        }
    }
    proof {
        assert forall|a: usize, b: usize|
            a < b && (b as int) < report@.len() implies #[trigger] index_has_pair(
            ix.entries@,
            (a, b),
        ) by {
            assert(lex_before((a, b), n as int - 1, n as int, n as int));
        }
        lemma_total_nonneg(ix.entries@);
    }
    ix
}

/// After replacing bucket `e` by the same bucket with `pr` pushed, membership
/// grows by exactly `pr`.
proof fn lemma_membership_after_push(
    before: Seq<DistEntry>,
    after: Seq<DistEntry>,
    e: int,
    pr: (usize, usize),
)
    requires
        0 <= e < before.len(),
        after.len() == before.len(),
        forall|x: int| 0 <= x < before.len() && x != e ==> after[x] == before[x],
        after[e].key == before[e].key,
        after[e].pairs@ == before[e].pairs@.push(pr),
    ensures
        forall|q: (usize, usize)|
            index_has_pair(after, q) <==> (index_has_pair(before, q) || q == pr),
{
    assert forall|q: (usize, usize)|
        index_has_pair(after, q) <==> (index_has_pair(before, q) || q == pr) by {
        if index_has_pair(after, q) {
            let w = choose|w: int| 0 <= w < after.len() && (#[trigger] after[w].pairs@).contains(q);
            if w == e {
                let s = before[e].pairs@;
                let idx = choose|idx: int| 0 <= idx < s.push(pr).len() && s.push(pr)[idx] == q;
                if idx < s.len() {
                    assert(s.contains(q));
                    assert(index_has_pair(before, q));
                } else {
                    assert(q == pr);
                }
            } else {
                assert(index_has_pair(before, q));
            }
        }
        if index_has_pair(before, q) {
            let w = choose|w: int|
                0 <= w < before.len() && (#[trigger] before[w].pairs@).contains(q);
            if w == e {
                let s = before[e].pairs@;
                let idx = choose|idx: int| 0 <= idx < s.len() && s[idx] == q;
                assert(s.push(pr)[idx] == q);
                assert(after[e].pairs@.contains(q));
            } else {
                assert(after[w].pairs@.contains(q));
            }
            assert(index_has_pair(after, q));
        }
        if q == pr {
            let s = before[e].pairs@;
            assert(s.push(pr)[s.len() as int] == pr);
            assert(after[e].pairs@.contains(pr));
            assert(index_has_pair(after, q));
        }
    }
}

/// After appending a fresh single-pair bucket, membership grows by exactly
/// that pair.
proof fn lemma_membership_after_new(before: Seq<DistEntry>, after: Seq<DistEntry>, pr: (usize, usize))
    requires
        after.len() == before.len() + 1,
        forall|x: int| 0 <= x < before.len() ==> after[x] == before[x],
        after.last().pairs@.len() == 1,
        after.last().pairs@[0] == pr,
    ensures
        forall|q: (usize, usize)|
            index_has_pair(after, q) <==> (index_has_pair(before, q) || q == pr),
{
    assert forall|q: (usize, usize)|
        index_has_pair(after, q) <==> (index_has_pair(before, q) || q == pr) by {
        if index_has_pair(after, q) {
            let w = choose|w: int| 0 <= w < after.len() && (#[trigger] after[w].pairs@).contains(q);
            if w == before.len() {
                assert(after.last().pairs@[0] == q);
            } else {
                assert(index_has_pair(before, q));
            }
        }
        if index_has_pair(before, q) {
            let w = choose|w: int|
                0 <= w < before.len() && (#[trigger] before[w].pairs@).contains(q);
            assert(after[w].pairs@.contains(q));
            assert(index_has_pair(after, q));
        }
        if q == pr {
            assert(after.last().pairs@.contains(pr));
            assert(index_has_pair(after, q));
        }
    }
}

/// Replacing one bucket by a bucket with one more pair raises the stored
/// total by one.
proof fn lemma_total_after_update(before: Seq<DistEntry>, after: Seq<DistEntry>, e: int)
    requires
        0 <= e < before.len(),
        after.len() == before.len(),
        forall|x: int| 0 <= x < before.len() && x != e ==> after[x] == before[x],
        after[e].pairs@.len() == before[e].pairs@.len() + 1,
    ensures
        spec_total_pairs(after) == spec_total_pairs(before) + 1,
    decreases before.len(),
{
    if e == before.len() - 1 {
        assert(after.drop_last() =~= before.drop_last());
    } else {
        lemma_total_after_update(before.drop_last(), after.drop_last(), e);
    }
}

/// The stored pair total is never negative.
proof fn lemma_total_nonneg(es: Seq<DistEntry>)
    ensures
        spec_total_pairs(es) >= 0,
    decreases es.len(),
{
    if es.len() > 0 {
        lemma_total_nonneg(es.drop_last());
    }
}

/// The score of a prefix never exceeds the score of a longer prefix.
pub proof fn lemma_score_prefix_le(aes: Seq<DistEntry>, bes: Seq<DistEntry>, m: int, m2: int)
    requires
        0 <= m <= m2 <= aes.len(),
    ensures
        spec_overlap_score(aes.subrange(0, m), bes) <= spec_overlap_score(aes.subrange(0, m2), bes),
    decreases m2 - m,
{
    if m < m2 {
        lemma_score_prefix_le(aes, bes, m, m2 - 1);
        let s2 = aes.subrange(0, m2);
        assert(s2.drop_last() =~= aes.subrange(0, m2 - 1));
        lemma_entry_score_nonneg(s2.last(), bes);
    }
}

proof fn lemma_entry_score_nonneg(e: DistEntry, bes: Seq<DistEntry>)
    ensures
        entry_score(e, bes) >= 0,
{
}

/// The score is at most the total number of pairs stored in the first index.
pub proof fn lemma_score_le_total(aes: Seq<DistEntry>, bes: Seq<DistEntry>)
    ensures
        0 <= spec_overlap_score(aes, bes) <= spec_total_pairs(aes),
    decreases aes.len(),
{
    if aes.len() > 0 {
        lemma_score_le_total(aes.drop_last(), bes);
        lemma_entry_score_nonneg(aes.last(), bes);
    }
}

/// The number of pairs whose squared distance occurs in both indices, taking
/// for each shared key the smaller of the two bucket sizes: an upper-bound
/// estimate of how many point pairs the two reports could share.
pub fn overlapped_pair_count(a: &DistIndex, b: &DistIndex) -> (r: usize)
    requires
        keys_distinct(b.entries@),
        spec_overlap_score(a.entries@, b.entries@) <= usize::MAX,
    ensures
        r == spec_overlap_score(a.entries@, b.entries@),
{
    let mut sum: usize = 0;
    let n = a.entries.len();
    for e in 0..n
        invariant
            n == a.entries@.len(),
            keys_distinct(b.entries@),
            spec_overlap_score(a.entries@, b.entries@) <= usize::MAX,
            sum == spec_overlap_score(a.entries@.subrange(0, e as int), b.entries@),
    {
        let ghost prefix = a.entries@.subrange(0, e as int);
        let m = match find_key(&b.entries, a.entries[e].key) {
            Some(be) => {
                proof {
                    let k = a.entries@[e as int].key;
                    let w = choose|w: int|
                        0 <= w < b.entries@.len() && (#[trigger] b.entries@[w]).key == k;
                    assert(w == be as int);
                }
                let al = a.entries[e].pairs.len();
                let bl = b.entries[be].pairs.len();
                if al <= bl {
                    al
                } else {
                    bl
                }
            },
            None => 0,
        };
        proof {
            let next = a.entries@.subrange(0, e as int + 1);
            assert(next.drop_last() =~= prefix);
            assert(next.last() == a.entries@[e as int]);
            lemma_score_prefix_le(a.entries@, b.entries@, e as int + 1, a.entries@.len() as int);
            assert(a.entries@.subrange(0, a.entries@.len() as int) =~= a.entries@);
        }
        sum = sum + m;
    }
    proof {
        assert(a.entries@.subrange(0, a.entries@.len() as int) =~= a.entries@);
    }
    sum
}

/// The estimator never scores below the number of distinct squared distances
/// realized in both indices: a pair of reports exhibiting at least 66 shared
/// distinct distances — as two reports sharing 12 points without coincidental
/// distance collisions do — is never rejected at the threshold of 66.
pub proof fn lemma_score_at_least_shared_keys(
    aes: Seq<DistEntry>,
    bes: Seq<DistEntry>,
    ks: Set<i64>,
)
    requires
        ks.finite(),
        forall|k: i64| ks.contains(k) ==> has_key(aes, k) && has_key(bes, k),
        keys_distinct(aes),
        buckets_tidy(aes),
        buckets_tidy(bes),
    ensures
        spec_overlap_score(aes, bes) >= ks.len(),
    decreases aes.len(),
{
    if aes.len() == 0 {
        if ks.len() > 0 {
            let k = ks.choose();
            assert(ks.contains(k));
            assert(false);
        }
    } else {
        let last = aes.last();
        let rest = aes.drop_last();
        if ks.contains(last.key) {
            let ks2 = ks.remove(last.key);
            assert forall|k: i64| ks2.contains(k) implies has_key(rest, k) && has_key(bes, k) by {
                assert(ks.contains(k));
                let w = choose|w: int| 0 <= w < aes.len() && (#[trigger] aes[w]).key == k;
                assert(w < aes.len() - 1);
                assert(rest[w] == aes[w]);
            }
            lemma_score_at_least_shared_keys(rest, bes, ks2);
            assert(has_key(bes, last.key));
            let wb = choose|w: int| 0 <= w < bes.len() && (#[trigger] bes[w]).key == last.key;
            assert(bucket_at(bes, last.key).len() >= 1);
            assert(entry_score(last, bes) >= 1);
        } else {
            assert forall|k: i64| ks.contains(k) implies has_key(rest, k) && has_key(bes, k) by {
                let w = choose|w: int| 0 <= w < aes.len() && (#[trigger] aes[w]).key == k;
                assert(w < aes.len() - 1);
                assert(rest[w] == aes[w]);
            }
            lemma_score_at_least_shared_keys(rest, bes, ks);
            lemma_entry_score_nonneg(last, bes);
        }
    }
}

/// The squared distance between shared points number `i` and `j` of report
/// `ra`, as a bucket key.
pub open spec fn shared_key(ra: Seq<Point>, fa: Seq<int>, i: int, j: int) -> i64 {
    spec_dist(ra[fa[i]], ra[fa[j]]) as i64
}

/// The keys of all shared pairs `(a, b)` with `b < j`, together with those
/// of the pairs `(a, j)` with `a < i`.
pub open spec fn shared_keys_rec(ra: Seq<Point>, fa: Seq<int>, j: int, i: int) -> Set<i64>
    decreases j, i,
    when 0 <= i <= j
{
    if j <= 0 {
        Set::empty()
    } else if i <= 0 {
        shared_keys_rec(ra, fa, j - 1, j - 1)
    } else {
        shared_keys_rec(ra, fa, j, i - 1).insert(shared_key(ra, fa, i - 1, j))
    }
}

/// Which keys the recursion has gathered: exactly those of the enumerated
/// shared pairs.
proof fn lemma_shared_keys_membership(ra: Seq<Point>, fa: Seq<int>, j: int, i: int)
    requires
        0 <= i <= j,
    ensures
        shared_keys_rec(ra, fa, j, i).finite(),
        forall|k: i64|
            shared_keys_rec(ra, fa, j, i).contains(k) <==> ((exists|a: int, b: int|
                0 <= a < b < j && k == #[trigger] shared_key(ra, fa, a, b)) || (exists|a: int|
                0 <= a < i && k == #[trigger] shared_key(ra, fa, a, j))),
    decreases j, i,
{
    if j <= 0 {
    } else if i <= 0 {
        lemma_shared_keys_membership(ra, fa, j - 1, j - 1);
        assert forall|k: i64|
            shared_keys_rec(ra, fa, j, i).contains(k) <==> ((exists|a: int, b: int|
                0 <= a < b < j && k == #[trigger] shared_key(ra, fa, a, b)) || (exists|a: int|
                0 <= a < i && k == #[trigger] shared_key(ra, fa, a, j))) by {
            if shared_keys_rec(ra, fa, j, i).contains(k) {
                if exists|a: int, b: int| 0 <= a < b < j - 1 && k == #[trigger] shared_key(ra, fa, a, b) {
                    let (a, b) = choose|a: int, b: int|
                        0 <= a < b < j - 1 && k == #[trigger] shared_key(ra, fa, a, b);
                    assert(0 <= a < b < j && k == shared_key(ra, fa, a, b));
                } else {
                    let a = choose|a: int| 0 <= a < j - 1 && k == #[trigger] shared_key(ra, fa, a, j - 1);
                    assert(0 <= a < j - 1 < j && k == shared_key(ra, fa, a, j - 1));
                }
            }
            if exists|a: int, b: int| 0 <= a < b < j && k == #[trigger] shared_key(ra, fa, a, b) {
                let (a, b) = choose|a: int, b: int|
                    0 <= a < b < j && k == #[trigger] shared_key(ra, fa, a, b);
                if b < j - 1 {
                    assert(shared_keys_rec(ra, fa, j - 1, j - 1).contains(k));
                } else {
                    assert(0 <= a < j - 1 && k == shared_key(ra, fa, a, j - 1));
                    assert(shared_keys_rec(ra, fa, j - 1, j - 1).contains(k));
                }
            }
        }
    } else {
        lemma_shared_keys_membership(ra, fa, j, i - 1);
        assert forall|k: i64|
            shared_keys_rec(ra, fa, j, i).contains(k) <==> ((exists|a: int, b: int|
                0 <= a < b < j && k == #[trigger] shared_key(ra, fa, a, b)) || (exists|a: int|
                0 <= a < i && k == #[trigger] shared_key(ra, fa, a, j))) by {
            if shared_keys_rec(ra, fa, j, i).contains(k) {
                if k == shared_key(ra, fa, i - 1, j) {
                    assert(0 <= i - 1 < i && k == shared_key(ra, fa, i - 1, j));
                }
            }
            if exists|a: int| 0 <= a < i && k == #[trigger] shared_key(ra, fa, a, j) {
                let a = choose|a: int| 0 <= a < i && k == #[trigger] shared_key(ra, fa, a, j);
                if a < i - 1 {
                    assert(shared_keys_rec(ra, fa, j, i - 1).contains(k));
                } else {
                    assert(k == shared_key(ra, fa, i - 1, j));
                }
            }
        }
    }
}

/// The shared pair distances never collide: each enumerated pair has its own
/// key.
pub open spec fn no_collisions(ra: Seq<Point>, fa: Seq<int>, m: int) -> bool {
    forall|i: int, j: int, i2: int, j2: int|
        0 <= i < j < m && 0 <= i2 < j2 < m && (i != i2 || j != j2) ==> #[trigger] shared_key(
            ra,
            fa,
            i,
            j,
        ) != #[trigger] shared_key(ra, fa, i2, j2)
}

/// Under collision-free distances the recursion gathers one key per pair.
proof fn lemma_shared_keys_card(ra: Seq<Point>, fa: Seq<int>, m: int, j: int, i: int)
    requires
        0 <= i <= j <= m,
        i >= 1 ==> j <= m - 1,
        no_collisions(ra, fa, m),
    ensures
        shared_keys_rec(ra, fa, j, i).len() * 2 == j * (j - 1) + 2 * i,
    decreases j, i,
{
    lemma_shared_keys_membership(ra, fa, j, i);
    if j <= 0 {
    } else if i <= 0 {
        lemma_shared_keys_card(ra, fa, m, j - 1, j - 1);
        assert((j - 1) * (j - 2) + 2 * (j - 1) == j * (j - 1)) by (nonlinear_arith);
    } else {
        lemma_shared_keys_card(ra, fa, m, j, i - 1);
        lemma_shared_keys_membership(ra, fa, j, i - 1);
        let prev = shared_keys_rec(ra, fa, j, i - 1);
        let k = shared_key(ra, fa, i - 1, j);
        if prev.contains(k) {
            if exists|a: int, b: int| 0 <= a < b < j && k == #[trigger] shared_key(ra, fa, a, b) {
                let (a, b) = choose|a: int, b: int|
                    0 <= a < b < j && k == #[trigger] shared_key(ra, fa, a, b);
                assert(shared_key(ra, fa, a, b) != shared_key(ra, fa, i - 1, j));
                assert(false);
            } else {
                let a = choose|a: int| 0 <= a < i - 1 && k == #[trigger] shared_key(ra, fa, a, j);
                assert(shared_key(ra, fa, a, j) != shared_key(ra, fa, i - 1, j));
                assert(false);
            }
        }
        assert(shared_keys_rec(ra, fa, j, i).len() == prev.len() + 1);
    }
}

/// The estimator never rejects two reports sharing 12 or more true points
/// whose shared pair distances do not collide: its score reaches the
/// threshold C(12, 2) = 66.  The shared points are given by their positions
/// `fa` and `fb` in the two reports; sharing means equal pairwise squared
/// distances.
pub proof fn lemma_estimator_never_rejects(
    ra: Seq<Point>,
    rb: Seq<Point>,
    ixa: DistIndex,
    ixb: DistIndex,
    fa: Seq<int>,
    fb: Seq<int>,
)
    requires
        index_wf(ixa, ra),
        index_wf(ixb, rb),
        ra.len() <= usize::MAX,
        rb.len() <= usize::MAX,
        fa.len() == fb.len(),
        fa.len() >= 12,
        forall|i: int| 0 <= i < fa.len() ==> 0 <= #[trigger] fa[i] < ra.len(),
        forall|i: int| 0 <= i < fb.len() ==> 0 <= #[trigger] fb[i] < rb.len(),
        fa.no_duplicates(),
        fb.no_duplicates(),
        forall|i: int, j: int|
            0 <= i < j < fa.len() ==> spec_dist(ra[fa[i]], ra[fa[j]]) == #[trigger] spec_dist(
                rb[fb[i]],
                rb[fb[j]],
            ),
        no_collisions(ra, fa, 12),
        report_within(ra, MAX_COORD as int),
    ensures
        spec_overlap_score(ixa.entries@, ixb.entries@) >= 66,
{
    let ks = shared_keys_rec(ra, fa, 12, 0);
    lemma_shared_keys_membership(ra, fa, 12, 0);
    lemma_shared_keys_card(ra, fa, 12, 12, 0);
    assert(ks.len() == 66);
    assert forall|k: i64| ks.contains(k) implies has_key(ixa.entries@, k) && has_key(
        ixb.entries@,
        k,
    ) by {
        let (a, b) = choose|a: int, b: int| 0 <= a < b < 12 && k == #[trigger] shared_key(ra, fa, a, b);
        crate::geometry::lemma_dist_bounds(ra[fa[a]], ra[fa[b]]);
        assert(spec_dist(ra[fa[a]], ra[fa[b]]) == k as int);
        lemma_key_present(ra, ixa, fa[a], fa[b], k);
        assert(spec_dist(rb[fb[a]], rb[fb[b]]) == k as int);
        lemma_key_present(rb, ixb, fb[a], fb[b], k);
    }
    lemma_score_at_least_shared_keys(ixa.entries@, ixb.entries@, ks);
}

/// A distance realized by two distinct points of the report is a key of its
/// index.
proof fn lemma_key_present(r: Seq<Point>, ix: DistIndex, p: int, q: int, k: i64)
    requires
        index_wf(ix, r),
        r.len() <= usize::MAX,
        0 <= p < r.len(),
        0 <= q < r.len(),
        p != q,
        spec_dist(r[p], r[q]) == k as int || spec_dist(r[q], r[p]) == k as int,
    ensures
        has_key(ix.entries@, k),
{
    lemma_dist_symmetric(r[p], r[q]);
    let lo = if p < q { p } else { q };
    let hi = if p < q { q } else { p };
    assert(index_has_pair(ix.entries@, ((lo as usize), (hi as usize))));
    let e = choose|e: int|
        0 <= e < ix.entries@.len() && (#[trigger] ix.entries@[e].pairs@).contains((
            (lo as usize),
            (hi as usize),
        ));
    let pr = ((lo as usize), (hi as usize));
    let t = choose|t: int|
        0 <= t < ix.entries@[e].pairs@.len() && ix.entries@[e].pairs@[t] == pr;
    assert(pair_sound(ix.entries@[e].pairs@[t], ix.entries@[e].key, r));
    assert(ix.entries@[e].key == k);
}

} // verus!
