//! Parsing one scanner report from pre-read text lines.
//!
//! A report block is a header line, then one line per point — three
//! comma-separated signed decimal integers — ended by a blank line or the end
//! of the input.

use vstd::prelude::*;
use vstd::string::StrSliceExecFns;
use crate::geometry::{Point, pt};

verus! {

pub open spec fn is_digit(c: char) -> bool {
    48 <= c as u32 <= 57
}

/// Value of a nonempty digit string, most significant digit first.
pub open spec fn digits_val(s: Seq<char>) -> int
    decreases s.len(),
{
    if s.len() == 0 {
        0
    } else {
        digits_val(s.drop_last()) * 10 + (s.last() as u32 - 48)
    }
}

/// `10^k`.
pub open spec fn pow10(k: int) -> int
    decreases k,
    when k >= 0
{
    if k <= 0 {
        1
    } else {
        10 * pow10(k - 1)
    }
}

/// A digit string short enough for its value to fit an `i64`.
pub open spec fn wf_digits(s: Seq<char>) -> bool {
    &&& 1 <= s.len() <= 18
    &&& forall|k: int| 0 <= k < s.len() ==> is_digit(#[trigger] s[k])
}

/// An optionally negated digit string.
pub open spec fn wf_int(s: Seq<char>) -> bool {
    if s.len() >= 1 && s[0] == '-' {
        wf_digits(s.subrange(1, s.len() as int))
    } else {
        wf_digits(s)
    }
}

/// The signed value of an integer literal.
pub open spec fn int_val(s: Seq<char>) -> int {
    if s.len() >= 1 && s[0] == '-' {
        -digits_val(s.subrange(1, s.len() as int))
    } else {
        digits_val(s)
    }
}

/// Positions `a < b` split the line into three integer literals separated by
/// commas.
pub open spec fn wf_point_split(s: Seq<char>, a: int, b: int) -> bool {
    &&& 0 <= a < b < s.len()
    &&& s[a] == ','
    &&& s[b] == ','
    &&& wf_int(s.subrange(0, a))
    &&& wf_int(s.subrange(a + 1, b))
    &&& wf_int(s.subrange(b + 1, s.len() as int))
}

/// The line is three comma-separated integer literals.
pub open spec fn wf_point_line(s: Seq<char>) -> bool {
    exists|a: int, b: int| wf_point_split(s, a, b)
}

/// The point a well-formed line denotes.  The split is unique, so the choice
/// is the one the parser finds.
pub open spec fn point_of_line(s: Seq<char>) -> Point {
    let (a, b) = choose|a: int, b: int| wf_point_split(s, a, b);
    pt(
        int_val(s.subrange(0, a)),
        int_val(s.subrange(a + 1, b)),
        int_val(s.subrange(b + 1, s.len() as int)),
    )
}

/// An integer literal holds no comma.
proof fn lemma_wf_int_no_comma(s: Seq<char>)
    requires
        wf_int(s),
    ensures
        forall|k: int| 0 <= k < s.len() ==> (#[trigger] s[k]) != ',',
{
    assert forall|k: int| 0 <= k < s.len() implies (#[trigger] s[k]) != ',' by {
        if s.len() >= 1 && s[0] == '-' {
            if k >= 1 {
                assert(is_digit(s.subrange(1, s.len() as int)[k - 1]));
            }
        } else {
            assert(is_digit(s[k]));
        }
    }
}

/// A well-formed line splits in exactly one way.
proof fn lemma_split_unique(s: Seq<char>, a: int, b: int, a2: int, b2: int)
    requires
        wf_point_split(s, a, b),
        wf_point_split(s, a2, b2),
    ensures
        a == a2,
        b == b2,
{
    lemma_wf_int_no_comma(s.subrange(0, a));
    lemma_wf_int_no_comma(s.subrange(a + 1, b));
    lemma_wf_int_no_comma(s.subrange(0, a2));
    lemma_wf_int_no_comma(s.subrange(a2 + 1, b2));
    if a2 < a {
        assert(s.subrange(0, a)[a2] == ',');
        assert(false);
    }
    if a < a2 {
        assert(s.subrange(0, a2)[a] == ',');
        assert(false);
    }
    if b2 < b {
        assert(s.subrange(a + 1, b)[b2 - a - 1] == ',');
        assert(false);
    }
    if b < b2 {
        assert(s.subrange(a + 1, b2)[b - a - 1] == ',');
        assert(false);
    }
}

proof fn lemma_pow10_bounds(k: int)
    requires
        0 <= k <= 18,
    ensures
        1 <= pow10(k) <= pow10(18),
        pow10(18) == 1000000000000000000,
    decreases 18 - k,
{
    reveal_with_fuel(pow10, 19);
    if k < 18 {
        lemma_pow10_bounds(k + 1);
    }
}

/// The value of a digit string stays below `10^len`.
proof fn lemma_digits_val_bound(s: Seq<char>)
    requires
        forall|k: int| 0 <= k < s.len() ==> is_digit(#[trigger] s[k]),
    ensures
        0 <= digits_val(s) < pow10(s.len() as int),
    decreases s.len(),
{
    if s.len() > 0 {
        lemma_digits_val_bound(s.drop_last());
        assert(is_digit(s[s.len() - 1]));
    }
}

/// Parses the digit run `s[from..to]`.
fn parse_digits(s: &str, from: usize, to: usize) -> (v: i64)
    requires
        from <= to,
        to as int <= s@.len(),
        wf_digits(s@.subrange(from as int, to as int)),
    ensures
        v == digits_val(s@.subrange(from as int, to as int)),
        0 <= v,
{
    let ghost whole = s@.subrange(from as int, to as int);
    proof {
        lemma_pow10_bounds(0);
    }
    let mut v: i64 = 0;
    for k in from..to
        invariant
            from <= k <= to,
            to as int <= s@.len(),
            whole == s@.subrange(from as int, to as int),
            wf_digits(whole),
            v == digits_val(s@.subrange(from as int, k as int)),
            0 <= v < pow10(k - from),
            pow10(18) == 1000000000000000000,
        decreases to - k,
    {
        let c = s.get_char(k);
        proof {
            assert(whole[k - from] == s@[k as int]);
            assert(is_digit(s@[k as int]));
            let nxt = s@.subrange(from as int, k as int + 1);
            assert(nxt.drop_last() =~= s@.subrange(from as int, k as int));
            assert(nxt.last() == s@[k as int]);
            lemma_pow10_bounds(k - from);
            lemma_pow10_bounds(k + 1 - from);
        }
        let d = (c as u32) - 48;
        v = v * 10 + (d as i64);
    }
    proof {
        lemma_digits_val_bound(whole);
    }
    v
}

/// Parses the integer literal `s[from..to]`, minus sign included.
fn parse_int(s: &str, from: usize, to: usize) -> (v: i64)
    requires
        from < to,
        to as int <= s@.len(),
        wf_int(s@.subrange(from as int, to as int)),
    ensures
        v == int_val(s@.subrange(from as int, to as int)),
{
    let ghost whole = s@.subrange(from as int, to as int);
    let c = s.get_char(from);
    if c == '-' {
        proof {
            assert(whole[0] == s@[from as int]);
            assert(whole.subrange(1, whole.len() as int) =~= s@.subrange(
                from as int + 1,
                to as int,
            ));
            lemma_digits_val_bound(whole.subrange(1, whole.len() as int));
        }
        let m = parse_digits(s, from + 1, to);
        -m
    } else {
        proof {
            assert(whole[0] == s@[from as int]);
        }
        parse_digits(s, from, to)
    }
}

/// The first `c` at or after `from`, if any.
fn find_char(s: &str, from: usize, c: char) -> (r: Option<usize>)
    requires
        from as int <= s@.len(),
    ensures
        match r {
            Some(i) => from <= i && (i as int) < s@.len() && s@[i as int] == c && forall|t: int|
                from <= t < i ==> (#[trigger] s@[t]) != c,
            None => forall|t: int| from <= t < s@.len() ==> (#[trigger] s@[t]) != c,
        },
{
    let n = s.unicode_len();
    for i in from..n
        invariant
            n == s@.len(),
            forall|t: int| from <= t < i ==> (#[trigger] s@[t]) != c,
        decreases n - i,
    {
        if s.get_char(i) == c {
            return Some(i);
        }
    }
    None
}

/// Parses one point line: three comma-separated signed integers.
pub fn parse_point_line(s: &str) -> (p: Point)
    requires
        wf_point_line(s@),
    ensures
        p == point_of_line(s@),
{
    let ghost (ga, gb) = choose|a: int, b: int| wf_point_split(s@, a, b);
    let n = s.unicode_len();
    let c1 = match find_char(s, 0, ',') {
        Some(i) => i,
        None => {
            proof {
                assert(s@[ga] == ',');
                assert(false);
            }
            0
        },
    };
    let c2 = match find_char(s, c1 + 1, ',') {
        Some(i) => i,
        None => {
            proof {
                lemma_wf_int_no_comma(s@.subrange(0, ga));
                assert(c1 as int == ga) by {
                    if (c1 as int) < ga {
                        assert(s@.subrange(0, ga)[c1 as int] == ',');
                    }
                }
                assert(s@[gb] == ',');
                assert(false);
            }
            0
        },
    };
    proof {
        lemma_wf_int_no_comma(s@.subrange(0, ga));
        lemma_wf_int_no_comma(s@.subrange(ga + 1, gb));
        assert(c1 as int == ga) by {
            if (c1 as int) < ga {
                assert(s@.subrange(0, ga)[c1 as int] == ',');
            }
        }
        assert(c2 as int == gb) by {
            if (c2 as int) < gb {
                assert(s@.subrange(ga + 1, gb)[c2 as int - ga - 1] == ',');
            }
        }
    }
    let x = parse_int(s, 0, c1);
    let y = parse_int(s, c1 + 1, c2);
    let z = parse_int(s, c2 + 1, n);
    proof {
        let (pa, pb) = choose|a: int, b: int| wf_point_split(s@, a, b);
        lemma_split_unique(s@, pa, pb, ga, gb);
    }
    Point { x, y, z }
}

/// First line index at or after `from` that is blank, or the input's end.
pub open spec fn body_end(lines: Seq<String>, from: int) -> int
    decreases lines.len() - from,
    when 0 <= from <= lines.len()
{
    if from >= lines.len() {
        from
    } else if lines[from]@.len() == 0 {
        from
    } else {
        body_end(lines, from + 1)
    }
}

/// The body never ends before it starts, nor after the input.
proof fn lemma_body_end_ge(lines: Seq<String>, from: int)
    requires
        0 <= from <= lines.len(),
    ensures
        from <= body_end(lines, from) <= lines.len(),
    decreases lines.len() - from,
{
    if from < lines.len() && lines[from]@.len() != 0 {
        lemma_body_end_ge(lines, from + 1);
    }
}

/// Reads one scanner report starting at line `start`: the header line is
/// skipped, each following line until a blank line or the input's end is a
/// point, and the position after the report is returned with the points.
/// `None` exactly when no line is left for the header.
pub fn parse_report(lines: &Vec<String>, start: usize) -> (r: Option<(Vec<Point>, usize)>)
    requires
        forall|k: int|
            start as int + 1 <= k < body_end(lines@, start as int + 1) ==> wf_point_line(
                (#[trigger] lines@[k])@,
            ),
    ensures
        match r {
            None => start as int >= lines@.len(),
            Some(pr) => {
                let stop = body_end(lines@, start as int + 1);
                &&& (start as int) < lines@.len()
                &&& pr.0@.len() == stop - (start as int + 1)
                &&& forall|m: int|
                    0 <= m < pr.0@.len() ==> pr.0@[m] == point_of_line(
                        (#[trigger] lines@[start as int + 1 + m])@,
                    )
                &&& pr.1 as int == (if stop < lines@.len() {
                    stop + 1
                } else {
                    stop
                })
            },
        },
{
    let n = lines.len();
    if start >= n {
        return None;
    }
    let mut pts: Vec<Point> = Vec::new();
    let mut k = start + 1;
    while k < n && !lines[k].as_str().is_empty()
        invariant
            n == lines@.len(),
            start as int + 1 <= k as int <= n,
            forall|t: int|
                start as int + 1 <= t < body_end(lines@, start as int + 1) ==> wf_point_line(
                    (#[trigger] lines@[t])@,
                ),
            body_end(lines@, start as int + 1) == body_end(lines@, k as int),
            pts@.len() == k as int - (start as int + 1),
            forall|m: int|
                0 <= m < pts@.len() ==> pts@[m] == point_of_line(
                    (#[trigger] lines@[start as int + 1 + m])@,
                ),
        decreases n - k,
    {
        proof {
            assert(body_end(lines@, k as int) == body_end(lines@, k as int + 1));
            lemma_body_end_ge(lines@, k as int + 1);
            assert((k as int) < body_end(lines@, start as int + 1));
        }
        let p = parse_point_line(lines[k].as_str());
        pts.push(p);
        k += 1;
    }
    proof {
        assert(body_end(lines@, k as int) == k as int);
    }
    let next = if k < n {
        k + 1
    } else {
        k
    };
    Some((pts, next))
}

} // verus!
