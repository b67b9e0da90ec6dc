//! Seed-to-location mapping through layered range transforms.
//!
//! Each layer is a list of disjoint source ranges, each shifted to a
//! destination; a value covered by no range passes through unchanged.  One
//! entry point maps single seeds, the other whole seed ranges, splitting
//! them at layer boundaries instead of walking their values one by one.

use vstd::prelude::*;

verus! {

/// One range shift: values in `src..src + len` move to `dst..dst + len`.
#[derive(Clone, Copy, PartialEq, Eq, Structural, Debug)]
pub struct Transform {
    pub dst: usize,
    pub src: usize,
    pub len: usize,
}

/// The transform covers value `x`.
pub open spec fn applies(t: Transform, x: int) -> bool {
    t.src <= x < t.src + t.len
}

/// The transform's ranges stay inside `usize`.
pub open spec fn transform_ok(t: Transform) -> bool {
    t.src + t.len <= usize::MAX && t.dst + t.len <= usize::MAX
}

pub open spec fn layer_ok(layer: Seq<Transform>) -> bool {
    forall|e: int| 0 <= e < layer.len() ==> transform_ok(#[trigger] layer[e])
}

/// No two transforms of the layer cover a common value.
pub open spec fn layer_disjoint(layer: Seq<Transform>) -> bool {
    forall|a: int, b: int|
        0 <= a < b < layer.len() ==> layer[a].src + layer[a].len <= layer[b].src || layer[b].src
            + layer[b].len <= layer[a].src
}

pub open spec fn layers_ok(layers: Seq<Vec<Transform>>) -> bool {
    forall|l: int|
        0 <= l < layers.len() ==> layer_ok((#[trigger] layers[l])@) && layer_disjoint(layers[l]@)
}

/// The first transform of the layer covering `x`, scanning from `e` on.
pub open spec fn first_applicable(layer: Seq<Transform>, x: int, e: int) -> Option<int>
    decreases layer.len() - e,
    when 0 <= e <= layer.len()
{
    if e >= layer.len() {
        None
    } else if applies(layer[e], x) {
        Some(e)
    } else {
        first_applicable(layer, x, e + 1)
    }
}

/// One layer's mapping of a single value.
pub open spec fn apply_layer(layer: Seq<Transform>, x: int) -> int {
    match first_applicable(layer, x, 0) {
        Some(e) => x - layer[e].src + layer[e].dst,
        None => x,
    }
}

/// The whole pipeline's mapping of a single value, first layer first.
pub open spec fn map_seed(layers: Seq<Vec<Transform>>, x: int) -> int
    decreases layers.len(),
{
    if layers.len() == 0 {
        x
    } else {
        apply_layer(layers.last()@, map_seed(layers.drop_last(), x))
    }
}

/// If some transform covers `x` in a disjoint layer, the scan finds exactly
/// that transform.
proof fn lemma_first_applicable_unique(layer: Seq<Transform>, x: int, e: int, i: int)
    requires
        layer_disjoint(layer),
        0 <= i <= e < layer.len(),
        applies(layer[e], x),
    ensures
        first_applicable(layer, x, i) == Some(e),
    decreases e - i,
{
    if i < e {
        assert(!applies(layer[i], x));
        lemma_first_applicable_unique(layer, x, e, i + 1);
    }
}

/// If no transform covers `x`, the scan finds none.
proof fn lemma_first_applicable_none(layer: Seq<Transform>, x: int, i: int)
    requires
        0 <= i <= layer.len(),
        forall|e: int| 0 <= e < layer.len() ==> !applies(#[trigger] layer[e], x),
    ensures
        first_applicable(layer, x, i) is None,
    decreases layer.len() - i,
{
    if i < layer.len() {
        lemma_first_applicable_none(layer, x, i + 1);
    }
}

/// Value `x` lies in one of the ranges.
pub open spec fn ranges_contain(rs: Seq<(usize, usize)>, x: int) -> bool {
    exists|k: int| 0 <= k < rs.len() && (#[trigger] rs[k]).0 <= x < rs[k].0 + rs[k].1
}

/// Ranges are nonempty and stay inside `usize`.
pub open spec fn ranges_wf(rs: Seq<(usize, usize)>) -> bool {
    forall|k: int| 0 <= k < rs.len() ==> (#[trigger] rs[k]).1 >= 1 && rs[k].0 + rs[k].1 <= usize::MAX
}

/// The value sets of the ranges the flattened seed list describes: each even
/// position starts a range, the following odd position is its length.
pub open spec fn in_ranges(seeds: Seq<usize>, x: int) -> bool {
    exists|k: int|
        0 <= k < seeds.len() / 2 && (#[trigger] seeds[2 * k]) <= x < seeds[2 * k] + seeds[2 * k + 1]
}

/// Membership after a push covers the old ranges and the new one.
proof fn lemma_ranges_push(rs: Seq<(usize, usize)>, rng: (usize, usize), rs2: Seq<(usize, usize)>)
    requires
        rs2 == rs.push(rng),
    ensures
        forall|x: int|
            ranges_contain(rs2, x) <==> ranges_contain(rs, x) || (rng.0 <= x < rng.0 + rng.1),
{
    assert forall|x: int|
        ranges_contain(rs.push(rng), x) <==> ranges_contain(rs, x) || (rng.0 <= x < rng.0
            + rng.1) by {
        if ranges_contain(rs.push(rng), x) {
            let k = choose|k: int|
                0 <= k < rs.push(rng).len() && (#[trigger] rs.push(rng)[k]).0 <= x < rs.push(
                    rng,
                )[k].0 + rs.push(rng)[k].1;
            if k < rs.len() {
                assert(rs[k] == rs.push(rng)[k]);
                assert(ranges_contain(rs, x));
            } else {
                assert(rs.push(rng)[k] == rng);
            }
        }
        if ranges_contain(rs, x) {
            let k = choose|k: int| 0 <= k < rs.len() && (#[trigger] rs[k]).0 <= x < rs[k].0 + rs[k].1;
            assert(rs.push(rng)[k] == rs[k]);
            assert(ranges_contain(rs.push(rng), x));
        }
        if rng.0 <= x < rng.0 + rng.1 {
            assert(rs.push(rng)[rs.len() as int] == rng);
            assert(ranges_contain(rs.push(rng), x));
        }
    }
}

/// Membership in a concatenation is membership in either part.
proof fn lemma_ranges_concat(a: Seq<(usize, usize)>, b: Seq<(usize, usize)>, c: Seq<(usize, usize)>)
    requires
        c == a + b,
        ranges_wf(a),
        ranges_wf(b),
    ensures
        forall|x: int| ranges_contain(c, x) <==> ranges_contain(a, x) || ranges_contain(b, x),
        ranges_wf(c),
{
    assert forall|x: int|
        ranges_contain(c, x) <==> ranges_contain(a, x) || ranges_contain(b, x) by {
        if ranges_contain(c, x) {
            let k = choose|k: int| 0 <= k < c.len() && (#[trigger] c[k]).0 <= x < c[k].0 + c[k].1;
            if k < a.len() {
                assert(a[k] == c[k]);
                assert(ranges_contain(a, x));
            } else {
                assert(b[k - a.len()] == c[k]);
                assert(ranges_contain(b, x));
            }
        }
        if ranges_contain(a, x) {
            let k = choose|k: int| 0 <= k < a.len() && (#[trigger] a[k]).0 <= x < a[k].0 + a[k].1;
            assert(c[k] == a[k]);
            assert(ranges_contain(c, x));
        }
        if ranges_contain(b, x) {
            let k = choose|k: int| 0 <= k < b.len() && (#[trigger] b[k]).0 <= x < b[k].0 + b[k].1;
            assert(c[a.len() + k] == b[k]);
            assert(ranges_contain(c, x));
        }
    }
    assert forall|k: int| 0 <= k < c.len() implies (#[trigger] c[k]).1 >= 1 && c[k].0 + c[k].1
        <= usize::MAX by {
        if k < a.len() {
            assert(c[k] == a[k]);
        } else {
            assert(c[k] == b[k - a.len()]);
        }
    }
}

/// Scans the layer as the splitter needs it: the first transform covering
/// `start`, or — when none covers it — how far the next transform start is,
/// capped at `len`.
fn scan_layer(layer: &Vec<Transform>, start: usize, len: usize) -> (r: (Option<usize>, usize))
    requires
        layer_ok(layer@),
        len >= 1,
    ensures
        match r.0 {
            Some(fe) => (fe as int) < layer@.len() && applies(layer@[fe as int], start as int)
                && forall|t: int| 0 <= t < fe ==> !applies(#[trigger] layer@[t], start as int),
            None => {
                &&& forall|e: int| 0 <= e < layer@.len() ==> !applies(#[trigger] layer@[e], start as int)
                &&& 1 <= r.1 <= len
                &&& forall|e: int|
                    0 <= e < layer@.len() && (#[trigger] layer@[e]).src > start ==> r.1 <= layer@[e].src
                        - start
            },
        },
{
    let mut dist: usize = len;
    let m = layer.len();
    for e in 0..m
        invariant
            m == layer@.len(),
            layer_ok(layer@),
            1 <= dist <= len,
            forall|t: int| 0 <= t < e ==> !applies(#[trigger] layer@[t], start as int),
            forall|t: int|
                0 <= t < e && (#[trigger] layer@[t]).src > start ==> dist <= layer@[t].src - start,
        decreases m - e,
    {
        let t = layer[e];
        if t.src <= start && start < t.src + t.len {
            return (Some(e), dist);
        } else if start < t.src {
            let d2 = t.src - start;
            if d2 < dist {
                dist = d2;
            }
        }
    }
    (None, dist)
}

/// Splits the value range `start0 .. start0 + len0` along the layer's
/// transforms and returns the image fragments: together they hold exactly the
/// layer's mapping of every value of the range.
fn map_range(start0: usize, len0: usize, layer: &Vec<Transform>) -> (out: Vec<(usize, usize)>)
    requires
        layer_ok(layer@),
        layer_disjoint(layer@),
        start0 + len0 <= usize::MAX,
    ensures
        forall|x: int|
            ranges_contain(out@, x) <==> (exists|s: int|
                start0 <= s < start0 + len0 && x == #[trigger] apply_layer(layer@, s)),
        ranges_wf(out@),
{
    let mut out: Vec<(usize, usize)> = Vec::new();
    let mut start = start0;
    let mut len = len0;
    while len > 0
        invariant
            layer_ok(layer@),
            layer_disjoint(layer@),
            start0 <= start,
            start + len == start0 + len0,
            start0 + len0 <= usize::MAX,
            ranges_wf(out@),
            forall|x: int|
                ranges_contain(out@, x) <==> (exists|s: int|
                    start0 <= s < start && x == #[trigger] apply_layer(layer@, s)),
        decreases len,
    {
        let ghost out_old = out@;
        let ghost start_old = start as int;
        let (found, dist) = scan_layer(layer, start, len);
        let frag: usize;
        let emitted: (usize, usize);
        match found {
            Some(fe) => {
                let t = layer[fe];
                let offset = start - t.src;
                let avail = t.len - offset;
                frag = if len <= avail {
                    len
                } else {
                    avail
                };
                emitted = (offset + t.dst, frag);
                proof {
                    assert forall|s: int| start_old <= s < start_old + frag implies apply_layer(
                        layer@,
                        s,
                    ) == s - layer@[fe as int].src + layer@[fe as int].dst by {
                        lemma_first_applicable_unique(layer@, s, fe as int, 0);
                    }
                }
            },
            None => {
                frag = dist;
                emitted = (start, frag);
                proof {
                    assert forall|s: int| start_old <= s < start_old + frag implies apply_layer(
                        layer@,
                        s,
                    ) == s by {
                        assert forall|e: int| 0 <= e < layer@.len() implies !applies(
                            #[trigger] layer@[e],
                            s,
                        ) by {
                            let t = layer@[e];
                            if t.src > start_old {
                                assert(frag <= t.src - start_old);
                            }
                        }
                        lemma_first_applicable_none(layer@, s, 0);
                    }
                }
            },
        }
        out.push(emitted);
        start = start + frag;
        len = len - frag;
        proof {
            lemma_ranges_push(out_old, emitted, out@);
            assert forall|x: int|
                ranges_contain(out@, x) <==> (exists|s: int|
                    start0 <= s < start && x == #[trigger] apply_layer(layer@, s)) by {
                if ranges_contain(out@, x) {
                    if ranges_contain(out_old, x) {
                        let s = choose|s: int|
                            start0 <= s < start_old && x == #[trigger] apply_layer(layer@, s);
                        assert(start0 <= s < start && x == apply_layer(layer@, s));
                    } else {
                        match found {
                            Some(fe) => {
                                let s = x - layer@[fe as int].dst + layer@[fe as int].src;
                                assert(start_old <= s < start_old + frag);
                                assert(x == apply_layer(layer@, s));
                                assert(start0 <= s < start && x == apply_layer(layer@, s));
                            },
                            None => {
                                assert(start_old <= x < start_old + frag);
                                assert(x == apply_layer(layer@, x));
                                assert(start0 <= x < start && x == apply_layer(layer@, x));
                            },
                        }
                    }
                }
                if exists|s: int| start0 <= s < start && x == #[trigger] apply_layer(layer@, s) {
                    let s = choose|s: int|
                        start0 <= s < start && x == #[trigger] apply_layer(layer@, s);
                    if s < start_old {
                        assert(exists|s2: int|
                            start0 <= s2 < start_old && x == #[trigger] apply_layer(layer@, s2));
                        assert(ranges_contain(out_old, x));
                        assert(ranges_contain(out@, x));
                    } else {
                        assert(x == apply_layer(layer@, s));
                        assert(emitted.0 <= x < emitted.0 + emitted.1);
                        assert(ranges_contain(out@, x));
                    }
                }
            }
        }
    }
    out
}

/// One value pushed through every layer in order.
fn map_one(x: usize, layers: &Vec<Vec<Transform>>) -> (r: usize)
    requires
        layers_ok(layers@),
    ensures
        r == map_seed(layers@, x as int),
{
    let mut res = x;
    let n = layers.len();
    for l in 0..n
        invariant
            n == layers@.len(),
            layers_ok(layers@),
            res == map_seed(layers@.subrange(0, l as int), x as int),
        decreases n - l,
    {
        let ghost pre = layers@.subrange(0, l as int);
        let layer = &layers[l];
        let m = layer.len();
        let mut e: usize = 0;
        let mut next = res;
        let mut done = false;
        while e < m
            invariant
                m == layer@.len(),
                layer_ok(layer@),
                e <= m,
                !done ==> next == res && forall|t: int|
                    0 <= t < e ==> !applies(#[trigger] layer@[t], res as int),
                done ==> exists|fe: int|
                    0 <= fe < m && #[trigger] applies(layer@[fe], res as int) && (forall|t: int|
                        0 <= t < fe ==> !applies(#[trigger] layer@[t], res as int)) && next == res
                        - layer@[fe].src + layer@[fe].dst,
            decreases m - e,
        {
            if !done {
                let t = layer[e];
                if t.src <= res && res < t.src + t.len {
                    next = res - t.src + t.dst;
                    done = true;
                    proof {
                        assert(applies(layer@[e as int], res as int));
                    }
                }
            }
            e += 1;
        }
        proof {
            if done {
                let fe = choose|fe: int|
                    0 <= fe < m && #[trigger] applies(layer@[fe], res as int) && (forall|t: int|
                        0 <= t < fe ==> !applies(#[trigger] layer@[t], res as int)) && next == res
                        - layer@[fe].src + layer@[fe].dst;
                lemma_scan_matches(layer@, res as int, fe);
            } else {
                lemma_first_applicable_none(layer@, res as int, 0);
            }
            assert(next == apply_layer(layer@, res as int));
            let nxt = layers@.subrange(0, l as int + 1);
            assert(nxt.drop_last() =~= pre);
            assert(nxt.last() == layers@[l as int]);
        }
        res = next;
    }
    proof {
        assert(layers@.subrange(0, layers@.len() as int) =~= layers@);
    }
    res
}

/// A scan that stopped at the first covering transform agrees with
/// `first_applicable` from the top.
proof fn lemma_scan_matches(layer: Seq<Transform>, x: int, fe: int)
    requires
        0 <= fe < layer.len(),
        applies(layer[fe], x),
        forall|t: int| 0 <= t < fe ==> !applies(#[trigger] layer[t], x),
    ensures
        first_applicable(layer, x, 0) == Some(fe),
    decreases fe,
{
    lemma_scan_from(layer, x, fe, 0);
}

proof fn lemma_scan_from(layer: Seq<Transform>, x: int, fe: int, i: int)
    requires
        0 <= i <= fe < layer.len(),
        applies(layer[fe], x),
        forall|t: int| 0 <= t < fe ==> !applies(#[trigger] layer[t], x),
    ensures
        first_applicable(layer, x, i) == Some(fe),
    decreases fe - i,
{
    if i < fe {
        lemma_scan_from(layer, x, fe, i + 1);
    }
}

/// The least final location any listed seed reaches.
pub fn part1(seeds: &Vec<usize>, layers: &Vec<Vec<Transform>>) -> (r: usize)
    requires
        seeds@.len() >= 1,
        layers_ok(layers@),
    ensures
        exists|k: int| 0 <= k < seeds@.len() && r == map_seed(layers@, (#[trigger] seeds@[k]) as int),
        forall|k: int| 0 <= k < seeds@.len() ==> r <= map_seed(layers@, (#[trigger] seeds@[k]) as int),
{
    let n = seeds.len();
    let mut best = map_one(seeds[0], layers);
    for k in 1..n
        invariant
            n == seeds@.len(),
            layers_ok(layers@),
            exists|t: int| 0 <= t < k && best == map_seed(layers@, (#[trigger] seeds@[t]) as int),
            forall|t: int| 0 <= t < k ==> best <= map_seed(layers@, (#[trigger] seeds@[t]) as int),
        decreases n - k,
    {
        let m = map_one(seeds[k], layers);
        if m < best {
            best = m;
        }
    }
    best
}

/// The first `upto` seed pairs describe exactly the values of `rs`.
spec fn seeds_image_upto(rs: Seq<(usize, usize)>, seeds: Seq<usize>, upto: int) -> bool {
    forall|x: int|
        ranges_contain(rs, x) <==> (exists|t: int|
            0 <= t < upto && (#[trigger] seeds[2 * t]) <= x < seeds[2 * t] + seeds[2 * t + 1])
}

/// `rs` holds exactly the images of the seed-range values under the first
/// `upto` layers.
spec fn image_of_prefix(
    rs: Seq<(usize, usize)>,
    seeds: Seq<usize>,
    layers: Seq<Vec<Transform>>,
    upto: int,
) -> bool {
    forall|x: int|
        ranges_contain(rs, x) <==> (exists|x0: int|
            in_ranges(seeds, x0) && x == #[trigger] map_seed(layers.subrange(0, upto), x0))
}

/// `nxt` holds exactly the layer's images of the values of the first `upto`
/// ranges of `rsin`.
spec fn mapped_upto(
    nxt: Seq<(usize, usize)>,
    rsin: Seq<(usize, usize)>,
    layer: Seq<Transform>,
    upto: int,
) -> bool {
    forall|x: int|
        ranges_contain(nxt, x) <==> (exists|s: int|
            #[trigger] ranges_contain_upto(rsin, s, upto) && x == apply_layer(layer, s))
}

/// The least final location reached from any value of the seed ranges: the
/// seed list is read as (start, length) pairs, and each range is pushed
/// through the layers by splitting rather than one value at a time.
pub fn part2(seeds: &Vec<usize>, layers: &Vec<Vec<Transform>>) -> (r: usize)
    requires
        layers_ok(layers@),
        forall|k: int|
            0 <= k < seeds@.len() / 2 ==> (#[trigger] seeds@[2 * k]) + seeds@[2 * k + 1]
                <= usize::MAX,
        exists|k: int| 0 <= k < seeds@.len() / 2 && (#[trigger] seeds@[2 * k + 1]) > 0,
    ensures
        exists|x: int| in_ranges(seeds@, x) && r == map_seed(layers@, x),
        forall|x: int| in_ranges(seeds@, x) ==> r <= map_seed(layers@, x),
{
    let half = seeds.len() / 2;
    let mut ranges: Vec<(usize, usize)> = Vec::new();
    for k in 0..half
        invariant
            half == seeds@.len() / 2,
            seeds@.len() <= usize::MAX,
            forall|t: int|
                0 <= t < half ==> (#[trigger] seeds@[2 * t]) + seeds@[2 * t + 1] <= usize::MAX,
            ranges_wf(ranges@),
            seeds_image_upto(ranges@, seeds@, k as int),
        decreases half - k,
    {
        let ghost ranges_old = ranges@;
        proof {
            assert(2 * (seeds@.len() / 2) <= seeds@.len());
            assert(2 * (k as int) + 1 < seeds@.len());
        }
        let st = seeds[2 * k];
        let ln = seeds[2 * k + 1];
        if ln > 0 {
            ranges.push((st, ln));
            proof {
                lemma_ranges_push(ranges_old, (st, ln), ranges@);
            }
        }
        proof {
            assert forall|x: int|
                ranges_contain(ranges@, x) <==> (exists|t: int|
                    0 <= t < k as int + 1 && (#[trigger] seeds@[2 * t]) <= x < seeds@[2 * t]
                        + seeds@[2 * t + 1]) by {
                if ranges_contain(ranges@, x) {
                    if ranges_contain(ranges_old, x) {
                        let t = choose|t: int|
                            0 <= t < k && (#[trigger] seeds@[2 * t]) <= x < seeds@[2 * t] + seeds@[2
                                * t + 1];
                        assert(0 <= t < k as int + 1 && seeds@[2 * t] <= x < seeds@[2 * t] + seeds@[2
                            * t + 1]);
                    } else {
                        assert(seeds@[2 * (k as int)] <= x < seeds@[2 * (k as int)] + seeds@[2 * (
                        k as int) + 1]);
                    }
                }
                if exists|t: int|
                    0 <= t < k as int + 1 && (#[trigger] seeds@[2 * t]) <= x < seeds@[2 * t]
                        + seeds@[2 * t + 1] {
                    let t = choose|t: int|
                        0 <= t < k as int + 1 && (#[trigger] seeds@[2 * t]) <= x < seeds@[2 * t]
                            + seeds@[2 * t + 1];
                    if t < k as int {
                        assert(ranges_contain(ranges_old, x));
                        assert(ranges_contain(ranges@, x));
                    } else {
                        assert(ln > 0);
                        assert(ranges_contain(ranges@, x));
                    }
                }
            }
            assert(seeds_image_upto(ranges@, seeds@, k as int + 1));
        }
    }
    let n = layers.len();
    proof {
        assert forall|x: int|
            ranges_contain(ranges@, x) <==> (exists|x0: int|
                in_ranges(seeds@, x0) && x == #[trigger] map_seed(layers@.subrange(0, 0), x0)) by {
            assert(map_seed(layers@.subrange(0, 0), x) == x);
            if ranges_contain(ranges@, x) {
                assert(in_ranges(seeds@, x));
                assert(in_ranges(seeds@, x) && x == map_seed(layers@.subrange(0, 0), x));
            }
            if exists|x0: int|
                in_ranges(seeds@, x0) && x == #[trigger] map_seed(layers@.subrange(0, 0), x0) {
                let x0 = choose|x0: int|
                    in_ranges(seeds@, x0) && x == #[trigger] map_seed(layers@.subrange(0, 0), x0);
                assert(map_seed(layers@.subrange(0, 0), x0) == x0);
                assert(ranges_contain(ranges@, x0));
            }
        }
        assert(image_of_prefix(ranges@, seeds@, layers@, 0));
    }
    for l in 0..n
        invariant
            n == layers@.len(),
            layers_ok(layers@),
            ranges_wf(ranges@),
            image_of_prefix(ranges@, seeds@, layers@, l as int),
        decreases n - l,
    {
        let ghost pre = layers@.subrange(0, l as int);
        let ghost ranges_in = ranges@;
        let mut next: Vec<(usize, usize)> = Vec::new();
        let rn = ranges.len();
        proof {
            assert forall|x: int|
                ranges_contain(next@, x) <==> (exists|s: int|
                    #[trigger] ranges_contain_upto(ranges_in, s, 0) && x == apply_layer(
                        layers@[l as int]@,
                        s,
                    )) by {
                if exists|s: int|
                    #[trigger] ranges_contain_upto(ranges_in, s, 0) && x == apply_layer(
                        layers@[l as int]@,
                        s,
                    ) {
                    let s = choose|s: int|
                        #[trigger] ranges_contain_upto(ranges_in, s, 0) && x == apply_layer(
                            layers@[l as int]@,
                            s,
                        );
                    assert(false);
                }
            }
            assert(mapped_upto(next@, ranges_in, layers@[l as int]@, 0));
        }
        for ri in 0..rn
            invariant
                rn == ranges_in.len(),
                ranges_in == ranges@,
                n == layers@.len(),
                l < n,
                layers_ok(layers@),
                ranges_wf(ranges@),
                ranges_wf(next@),
                mapped_upto(next@, ranges_in, layers@[l as int]@, ri as int),
            decreases rn - ri,
        {
            let ghost next_old = next@;
            let (st, ln) = ranges[ri];
            let mut frags = map_range(st, ln, &layers[l]);
            let ghost frags_view = frags@;
            next.append(&mut frags);
            proof {
                lemma_ranges_concat(next_old, frags_view, next@);
                assert forall|x: int|
                    ranges_contain(next@, x) <==> (exists|s: int|
                        #[trigger] ranges_contain_upto(ranges_in, s, ri as int + 1) && x
                            == apply_layer(layers@[l as int]@, s)) by {
                    if ranges_contain(next@, x) {
                        if ranges_contain(next_old, x) {
                            assert(exists|s: int|
                                #[trigger] ranges_contain_upto(ranges_in, s, ri as int) && x
                                    == apply_layer(layers@[l as int]@, s));
                            let s = choose|s: int|
                                #[trigger] ranges_contain_upto(ranges_in, s, ri as int) && x
                                    == apply_layer(layers@[l as int]@, s);
                            assert(ranges_contain_upto(ranges_in, s, ri as int + 1) && x
                                == apply_layer(layers@[l as int]@, s));
                        } else {
                            assert(ranges_contain(frags_view, x));
                            assert(exists|s: int|
                                (st as int) <= s < st + ln && x == #[trigger] apply_layer(
                                    layers@[l as int]@,
                                    s,
                                ));
                            let s = choose|s: int|
                                (st as int) <= s < st + ln && x == #[trigger] apply_layer(
                                    layers@[l as int]@,
                                    s,
                                );
                            assert(ranges_in[ri as int] == (st, ln));
                            assert(ranges_contain_upto(ranges_in, s, ri as int + 1));
                        }
                    }
                    if exists|s: int|
                        #[trigger] ranges_contain_upto(ranges_in, s, ri as int + 1) && x
                            == apply_layer(layers@[l as int]@, s) {
                        let s = choose|s: int|
                            #[trigger] ranges_contain_upto(ranges_in, s, ri as int + 1) && x
                                == apply_layer(layers@[l as int]@, s);
                        let t = choose|t: int|
                            0 <= t < ri as int + 1 && (#[trigger] ranges_in[t]).0 <= s
                                < ranges_in[t].0 + ranges_in[t].1;
                        if t < ri as int {
                            assert(ranges_contain_upto(ranges_in, s, ri as int));
                            assert(exists|s2: int|
                                #[trigger] ranges_contain_upto(ranges_in, s2, ri as int) && x
                                    == apply_layer(layers@[l as int]@, s2));
                            assert(ranges_contain(next_old, x));
                        } else {
                            assert((st as int) <= s < st + ln);
                            assert(exists|s2: int|
                                (st as int) <= s2 < st + ln && x == #[trigger] apply_layer(
                                    layers@[l as int]@,
                                    s2,
                                ));
                            assert(ranges_contain(frags_view, x));
                        }
                        assert(ranges_contain(next@, x));
                    }
                }
                assert(mapped_upto(next@, ranges_in, layers@[l as int]@, ri as int + 1));
            }
        }
        ranges = next;
        proof {
            let nxt = layers@.subrange(0, l as int + 1);
            assert(nxt.drop_last() =~= pre);
            assert(nxt.last() == layers@[l as int]);
            assert forall|x: int|
                ranges_contain(ranges@, x) <==> (exists|x0: int|
                    in_ranges(seeds@, x0) && x == #[trigger] map_seed(
                        layers@.subrange(0, l as int + 1),
                        x0,
                    )) by {
                if ranges_contain(ranges@, x) {
                    assert(exists|s: int|
                        #[trigger] ranges_contain_upto(ranges_in, s, rn as int) && x == apply_layer(
                            layers@[l as int]@,
                            s,
                        ));
                    let s = choose|s: int|
                        #[trigger] ranges_contain_upto(ranges_in, s, rn as int) && x == apply_layer(
                            layers@[l as int]@,
                            s,
                        );
                    assert(ranges_contain(ranges_in, s));
                    assert(exists|x0: int|
                        in_ranges(seeds@, x0) && s == #[trigger] map_seed(
                            layers@.subrange(0, l as int),
                            x0,
                        ));
                    let x0 = choose|x0: int|
                        in_ranges(seeds@, x0) && s == #[trigger] map_seed(
                            layers@.subrange(0, l as int),
                            x0,
                        );
                    assert(map_seed(nxt, x0) == apply_layer(layers@[l as int]@, s));
                    assert(x == map_seed(nxt, x0));
                }
                if exists|x0: int|
                    in_ranges(seeds@, x0) && x == #[trigger] map_seed(
                        layers@.subrange(0, l as int + 1),
                        x0,
                    ) {
                    let x0 = choose|x0: int|
                        in_ranges(seeds@, x0) && x == #[trigger] map_seed(
                            layers@.subrange(0, l as int + 1),
                            x0,
                        );
                    let s = map_seed(pre, x0);
                    assert(exists|x0b: int|
                        in_ranges(seeds@, x0b) && s == #[trigger] map_seed(
                            layers@.subrange(0, l as int),
                            x0b,
                        ));
                    assert(ranges_contain(ranges_in, s));
                    let t = choose|t: int|
                        0 <= t < ranges_in.len() && (#[trigger] ranges_in[t]).0 <= s
                            < ranges_in[t].0 + ranges_in[t].1;
                    assert(ranges_contain_upto(ranges_in, s, rn as int));
                    assert(x == apply_layer(layers@[l as int]@, s));
                    assert(exists|s2: int|
                        #[trigger] ranges_contain_upto(ranges_in, s2, rn as int) && x == apply_layer(
                            layers@[l as int]@,
                            s2,
                        ));
                    assert(ranges_contain(ranges@, x));
                }
            }
            assert(image_of_prefix(ranges@, seeds@, layers@, l as int + 1));
        }
    }
    proof {
        assert(layers@.subrange(0, n as int) =~= layers@);
        let k0 = choose|k: int| 0 <= k < seeds@.len() / 2 && (#[trigger] seeds@[2 * k + 1]) > 0;
        let x0v = seeds@[2 * k0] as int;
        assert(in_ranges(seeds@, x0v));
        assert(map_seed(layers@.subrange(0, n as int), x0v) == map_seed(layers@, x0v));
        assert(exists|x0: int|
            in_ranges(seeds@, x0) && map_seed(layers@, x0v) == #[trigger] map_seed(
                layers@.subrange(0, n as int),
                x0,
            ));
        assert(ranges_contain(ranges@, map_seed(layers@, x0v)));
        assert(ranges@.len() >= 1);
    }
    let rn = ranges.len();
    let first = ranges[0];
    let mut best = first.0;
    proof {
        assert(ranges_contain(ranges@, first.0 as int));
    }
    for ri in 1..rn
        invariant
            rn == ranges@.len(),
            ranges_wf(ranges@),
            ranges_contain(ranges@, best as int),
            forall|t: int| 0 <= t < ri ==> best <= (#[trigger] ranges@[t]).0,
        decreases rn - ri,
    {
        let (st, _ln) = ranges[ri];
        if st < best {
            best = st;
            proof {
                assert(ranges_contain(ranges@, best as int));
            }
        }
    }
    proof {
        assert forall|x: int| in_ranges(seeds@, x) implies best <= map_seed(layers@, x) by {
            assert(map_seed(layers@.subrange(0, n as int), x) == map_seed(layers@, x));
            assert(exists|x0: int|
                in_ranges(seeds@, x0) && map_seed(layers@, x) == #[trigger] map_seed(
                    layers@.subrange(0, n as int),
                    x0,
                ));
            assert(ranges_contain(ranges@, map_seed(layers@, x)));
            let t = choose|t: int|
                0 <= t < ranges@.len() && (#[trigger] ranges@[t]).0 <= map_seed(layers@, x)
                    < ranges@[t].0 + ranges@[t].1;
            assert(best <= ranges@[t].0);
        }
        assert(ranges_contain(ranges@, best as int));
        let x0 = choose|x0: int|
            in_ranges(seeds@, x0) && (best as int) == #[trigger] map_seed(
                layers@.subrange(0, n as int),
                x0,
            );
        assert(map_seed(layers@.subrange(0, n as int), x0) == map_seed(layers@, x0));
        assert(exists|x0b: int| in_ranges(seeds@, x0b) && (best as int) == map_seed(layers@, x0b));
    }
    best
}

/// Value `s` lies in one of the first `upto` ranges.
pub open spec fn ranges_contain_upto(rs: Seq<(usize, usize)>, s: int, upto: int) -> bool {
    exists|k: int| 0 <= k < upto && k < rs.len() && (#[trigger] rs[k]).0 <= s < rs[k].0 + rs[k].1
}

} // verus!
