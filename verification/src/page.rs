//! The marker rewriter: after the wikitext is rendered, the HTML may still
//! hold sentinel markers, and some may have landed inside HTML tags. Three
//! scans remove marker pairs whose end, start, or both ends sit inside tags
//! (dropping such a pair cleanly beats emitting invalid HTML); the
//! survivors are then turned into highlighted span tags. Finally the
//! rendered article replaces the placeholder in the page skeleton.

use vstd::prelude::*;

verus! {

/// The opening sentinel (U+E000 in UTF-8) starts at `i`.
pub open spec fn is_start_marker_at(s: Seq<u8>, i: int) -> bool {
    0 <= i && i + 3 <= s.len() && s[i] == 0xee && s[i + 1] == 0x80 && s[i + 2] == 0x80
}

/// The closing sentinel (U+E001 in UTF-8) starts at `i`.
pub open spec fn is_end_marker_at(s: Seq<u8>, i: int) -> bool {
    0 <= i && i + 3 <= s.len() && s[i] == 0xee && s[i + 1] == 0x80 && s[i + 2] == 0x81
}

pub open spec fn is_digit(b: u8) -> bool {
    48 <= b <= 57
}

/// Where the run of decimal digits starting at `i` ends.
pub open spec fn digits_end(s: Seq<u8>, i: int) -> int
    decreases s.len() - i,
{
    if i < 0 || i >= s.len() || !is_digit(s[i]) {
        i
    } else {
        digits_end(s, i + 1)
    }
}

/// A full sentinel run `marker digits marker` starting at `i`: the sentinel
/// kind, at least one digit, the same sentinel again. Yields the offset
/// just past the run.
pub open spec fn marker_run(s: Seq<u8>, i: int, start_kind: bool) -> Option<int> {
    let here = if start_kind {
        is_start_marker_at(s, i)
    } else {
        is_end_marker_at(s, i)
    };
    if here {
        let d = digits_end(s, i + 3);
        let there = if start_kind {
            is_start_marker_at(s, d)
        } else {
            is_end_marker_at(s, d)
        };
        if d > i + 3 && there {
            Some(d + 3)
        } else {
            None
        }
    } else {
        None
    }
}

/// Whether the marker of the given kind starts at `i`.
fn marker_at(s: &[u8], i: usize, start_kind: bool) -> (r: bool)
    requires
        i <= s@.len(),
    ensures
        r == if start_kind {
            is_start_marker_at(s@, i as int)
        } else {
            is_end_marker_at(s@, i as int)
        },
{
    if s.len() - i < 3 {
        return false;
    }
    s[i] == 0xee && s[i + 1] == 0x80 && s[i + 2] == (if start_kind {
        0x80
    } else {
        0x81
    })
}

/// Scans past the digits starting at `i`.
fn digits_end_exec(s: &[u8], i: usize) -> (r: usize)
    requires
        i <= s@.len(),
    ensures
        r == digits_end(s@, i as int),
        i <= r <= s@.len(),
{
    let mut j = i;
    while j < s.len() && s[j] >= 48 && s[j] <= 57
        invariant
            i <= j <= s@.len(),
            digits_end(s@, i as int) == digits_end(s@, j as int),
        decreases s@.len() - j,
    {
        j += 1;
    }
    j
}

/// Finds a full sentinel run at `i`, handing back the offset past it.
fn marker_run_exec(s: &[u8], i: usize, start_kind: bool) -> (r: Option<usize>)
    requires
        i <= s@.len(),
    ensures
        match r {
            Some(e) => marker_run(s@, i as int, start_kind) == Some(e as int) && i < e <= s@.len(),
            None => marker_run(s@, i as int, start_kind) is None,
        },
{
    let n = s.len();
    if !marker_at(s, i, start_kind) {
        return None;
    }
    proof {
        assert(i + 3 <= n);
    }
    let d = digits_end_exec(s, i + 3);
    if d > i + 3 && marker_at(s, d, start_kind) {
        proof {
            assert(d + 3 <= n);
        }
        Some(d + 3)
    } else {
        None
    }
}

/// First `<` at or after `i` with no closing sentinel before it.
pub open spec fn find_lt_no_endmarker(s: Seq<u8>, i: int) -> Option<int>
    decreases s.len() - i,
{
    if i < 0 || i >= s.len() {
        None
    } else if s[i] == 60 {
        Some(i)
    } else if is_end_marker_at(s, i) {
        None
    } else {
        find_lt_no_endmarker(s, i + 1)
    }
}

fn find_lt_no_endmarker_exec(s: &[u8], i: usize) -> (r: Option<usize>)
    requires
        i <= s@.len(),
    ensures
        match r {
            Some(k) => find_lt_no_endmarker(s@, i as int) == Some(k as int) && i <= k < s@.len(),
            None => find_lt_no_endmarker(s@, i as int) is None,
        },
{
    let mut j = i;
    while j < s.len()
        invariant
            i <= j <= s@.len(),
            find_lt_no_endmarker(s@, i as int) == find_lt_no_endmarker(s@, j as int),
        decreases s@.len() - j,
    {
        if s[j] == 60 {
            return Some(j);
        }
        if marker_at(s, j, false) {
            return None;
        }
        j += 1;
    }
    None
}

/// First closing sentinel at or after `i` with no `>` before it.
pub open spec fn find_endmarker_before_gt(s: Seq<u8>, i: int) -> Option<int>
    decreases s.len() - i,
{
    if i < 0 || i >= s.len() {
        None
    } else if is_end_marker_at(s, i) {
        Some(i)
    } else if s[i] == 62 {
        None
    } else {
        find_endmarker_before_gt(s, i + 1)
    }
}

fn find_endmarker_before_gt_exec(s: &[u8], i: usize) -> (r: Option<usize>)
    requires
        i <= s@.len(),
    ensures
        match r {
            Some(k) => find_endmarker_before_gt(s@, i as int) == Some(k as int) && i <= k
                < s@.len(),
            None => find_endmarker_before_gt(s@, i as int) is None,
        },
{
    let mut j = i;
    while j < s.len()
        invariant
            i <= j <= s@.len(),
            find_endmarker_before_gt(s@, i as int) == find_endmarker_before_gt(s@, j as int),
        decreases s@.len() - j,
    {
        if marker_at(s, j, false) {
            return Some(j);
        }
        if s[j] == 62 {
            return None;
        }
        j += 1;
    }
    None
}

/// First opening sentinel at or after `i` with no `>` before it.
pub open spec fn find_startmarker_before_gt(s: Seq<u8>, i: int) -> Option<int>
    decreases s.len() - i,
{
    if i < 0 || i >= s.len() {
        None
    } else if is_start_marker_at(s, i) {
        Some(i)
    } else if s[i] == 62 {
        None
    } else {
        find_startmarker_before_gt(s, i + 1)
    }
}

fn find_startmarker_before_gt_exec(s: &[u8], i: usize) -> (r: Option<usize>)
    requires
        i <= s@.len(),
    ensures
        match r {
            Some(k) => find_startmarker_before_gt(s@, i as int) == Some(k as int) && i <= k
                < s@.len(),
            None => find_startmarker_before_gt(s@, i as int) is None,
        },
{
    let mut j = i;
    while j < s.len()
        invariant
            i <= j <= s@.len(),
            find_startmarker_before_gt(s@, i as int) == find_startmarker_before_gt(s@, j as int),
        decreases s@.len() - j,
    {
        if marker_at(s, j, true) {
            return Some(j);
        }
        if s[j] == 62 {
            return None;
        }
        j += 1;
    }
    None
}

/// First `>` at or after `i`.
pub open spec fn find_gt(s: Seq<u8>, i: int) -> Option<int>
    decreases s.len() - i,
{
    if i < 0 || i >= s.len() {
        None
    } else if s[i] == 62 {
        Some(i)
    } else {
        find_gt(s, i + 1)
    }
}

fn find_gt_exec(s: &[u8], i: usize) -> (r: Option<usize>)
    requires
        i <= s@.len(),
    ensures
        match r {
            Some(k) => find_gt(s@, i as int) == Some(k as int) && i <= k < s@.len(),
            None => find_gt(s@, i as int) is None,
        },
{
    let mut j = i;
    while j < s.len()
        invariant
            i <= j <= s@.len(),
            find_gt(s@, i as int) == find_gt(s@, j as int),
        decreases s@.len() - j,
    {
        if s[j] == 62 {
            return Some(j);
        }
        j += 1;
    }
    None
}

/// First closing sentinel at or after `i`.
pub open spec fn find_endmarker(s: Seq<u8>, i: int) -> Option<int>
    decreases s.len() - i,
{
    if i < 0 || i >= s.len() {
        None
    } else if is_end_marker_at(s, i) {
        Some(i)
    } else {
        find_endmarker(s, i + 1)
    }
}

fn find_endmarker_exec(s: &[u8], i: usize) -> (r: Option<usize>)
    requires
        i <= s@.len(),
    ensures
        match r {
            Some(k) => find_endmarker(s@, i as int) == Some(k as int) && i <= k < s@.len(),
            None => find_endmarker(s@, i as int) is None,
        },
{
    let mut j = i;
    while j < s.len()
        invariant
            i <= j <= s@.len(),
            find_endmarker(s@, i as int) == find_endmarker(s@, j as int),
        decreases s@.len() - j,
    {
        if marker_at(s, j, false) {
            return Some(j);
        }
        j += 1;
    }
    None
}

/// First `<` at or after `i` with no sentinel of either kind before it.
pub open spec fn find_lt_no_markers(s: Seq<u8>, i: int) -> Option<int>
    decreases s.len() - i,
{
    if i < 0 || i >= s.len() {
        None
    } else if s[i] == 60 {
        Some(i)
    } else if is_start_marker_at(s, i) || is_end_marker_at(s, i) {
        None
    } else {
        find_lt_no_markers(s, i + 1)
    }
}

fn find_lt_no_markers_exec(s: &[u8], i: usize) -> (r: Option<usize>)
    requires
        i <= s@.len(),
    ensures
        match r {
            Some(k) => find_lt_no_markers(s@, i as int) == Some(k as int) && i <= k < s@.len(),
            None => find_lt_no_markers(s@, i as int) is None,
        },
{
    let mut j = i;
    while j < s.len()
        invariant
            i <= j <= s@.len(),
            find_lt_no_markers(s@, i as int) == find_lt_no_markers(s@, j as int),
        decreases s@.len() - j,
    {
        if s[j] == 60 {
            return Some(j);
        }
        if marker_at(s, j, true) || marker_at(s, j, false) {
            return None;
        }
        j += 1;
    }
    None
}

/// Appends bytes `a .. b` of `s` to `out`.
fn append_range(out: &mut Vec<u8>, s: &[u8], a: usize, b: usize)
    requires
        a <= b <= s@.len(),
    ensures
        final(out)@ == old(out)@ + s@.subrange(a as int, b as int),
{
    let piece = vstd::slice::slice_subrange(s, a, b);
    crate::append_slice(out, piece);
}

/// A match of the end-inside-tag pattern at `i`: an opening sentinel run, a
/// tag opened after it with no closing sentinel in between, the closing
/// sentinel run inside that tag, and the tag's `>`. The replacement keeps
/// everything but the two sentinel runs.
pub open spec fn match_end_in_tag(s: Seq<u8>, i: int) -> Option<(Seq<u8>, int)> {
    match marker_run(s, i, true) {
        Some(p1) => match find_lt_no_endmarker(s, p1) {
            Some(lt) => match find_endmarker_before_gt(s, lt + 1) {
                Some(em) => match marker_run(s, em, false) {
                    Some(pe) => match find_gt(s, pe) {
                        Some(gt) => Some(
                            (s.subrange(p1, em) + s.subrange(pe, gt + 1), gt + 1),
                        ),
                        None => None,
                    },
                    None => None,
                },
                None => None,
            },
            None => None,
        },
        None => None,
    }
}

/// A match of the start-inside-tag pattern at `i`: a tag holding an opening
/// sentinel run, then the closing sentinel run after the tag.
pub open spec fn match_start_in_tag(s: Seq<u8>, i: int) -> Option<(Seq<u8>, int)> {
    if i < 0 || i >= s.len() || s[i] != 60 {
        None
    } else {
        match find_startmarker_before_gt(s, i + 1) {
            Some(sm) => match marker_run(s, sm, true) {
                Some(p) => match find_gt(s, p) {
                    Some(gt) => match find_endmarker(s, gt + 1) {
                        Some(em) => match marker_run(s, em, false) {
                            Some(pe) => Some((s.subrange(i, sm) + s.subrange(p, em), pe)),
                            None => None,
                        },
                        None => None,
                    },
                    None => None,
                },
                None => None,
            },
            None => None,
        }
    }
}

/// A match of the both-inside-tags pattern at `i`: one tag holding the
/// opening sentinel run, then a second tag holding the closing one, with no
/// stray sentinel in between.
pub open spec fn match_both_in_tag(s: Seq<u8>, i: int) -> Option<(Seq<u8>, int)> {
    if i < 0 || i >= s.len() || s[i] != 60 {
        None
    } else {
        match find_startmarker_before_gt(s, i + 1) {
            Some(sm) => match marker_run(s, sm, true) {
                Some(p) => match find_gt(s, p) {
                    Some(gt1) => match find_lt_no_markers(s, gt1 + 1) {
                        Some(lt2) => match find_endmarker_before_gt(s, lt2 + 1) {
                            Some(em) => match marker_run(s, em, false) {
                                Some(pe) => match find_gt(s, pe) {
                                    Some(gt2) => Some(
                                        (
                                            s.subrange(i, sm) + s.subrange(p, em) + s.subrange(
                                                pe,
                                                gt2 + 1,
                                            ),
                                            gt2 + 1,
                                        ),
                                    ),
                                    None => None,
                                },
                                None => None,
                            },
                            None => None,
                        },
                        None => None,
                    },
                    None => None,
                },
                None => None,
            },
            None => None,
        }
    }
}

/// The opening of the highlight span an opening sentinel run becomes.
pub open spec fn span_open_prefix() -> Seq<u8> {
    seq![
        60u8, 115u8, 112u8, 97u8, 110u8, 32u8, 115u8, 116u8, 121u8, 108u8, 101u8, 61u8, 34u8,
        99u8, 111u8, 108u8, 111u8, 114u8, 58u8, 32u8, 114u8, 101u8, 100u8, 34u8, 32u8, 99u8,
        108u8, 97u8, 115u8, 115u8, 61u8, 34u8, 118u8, 97u8, 110u8, 100u8, 97u8, 108u8, 105u8,
        115u8, 109u8, 45u8,
    ]
}

/// The bytes of the closing span tag.
pub open spec fn span_close_bytes() -> Seq<u8> {
    seq![60u8, 47u8, 115u8, 112u8, 97u8, 110u8, 62u8]
}

/// An opening sentinel run at `i` becomes a span opening that carries the
/// run's revision digits in its class.
pub open spec fn match_span_open(s: Seq<u8>, i: int) -> Option<(Seq<u8>, int)> {
    match marker_run(s, i, true) {
        Some(e) => Some(
            (span_open_prefix() + s.subrange(i + 3, e - 3) + seq![34u8, 62u8], e),
        ),
        None => None,
    }
}

/// A closing sentinel run at `i` becomes the span closing.
pub open spec fn match_span_close(s: Seq<u8>, i: int) -> Option<(Seq<u8>, int)> {
    match marker_run(s, i, false) {
        Some(e) => Some((span_close_bytes(), e)),
        None => None,
    }
}

/// One left-to-right rewriting scan: at each position, either the pattern
/// `which` matches and its replacement is emitted (the scan continues after
/// the match), or the byte is kept.
pub open spec fn spec_scan(s: Seq<u8>, i: int, which: int) -> Seq<u8>
    decreases s.len() - i,
    when 0 <= i
{
    if i >= s.len() {
        Seq::empty()
    } else {
        let m = if which == 1 {
            match_end_in_tag(s, i)
        } else if which == 2 {
            match_start_in_tag(s, i)
        } else if which == 3 {
            match_both_in_tag(s, i)
        } else if which == 4 {
            match_span_open(s, i)
        } else {
            match_span_close(s, i)
        };
        match m {
            Some(r) => if i < r.1 <= s.len() {
                r.0 + spec_scan(s, r.1, which)
            } else {
                seq![s[i]] + spec_scan(s, i + 1, which)
            },
            None => seq![s[i]] + spec_scan(s, i + 1, which),
        }
    }
}

/// Tries each pattern at `i`, handing back the piece boundaries to emit and
/// the match end. A span-open match also carries its digit range.
fn try_match(s: &[u8], i: usize, which: u8) -> (r: Option<(usize, usize, usize, usize, usize, usize)>)
    requires
        i <= s@.len(),
        1 <= which <= 5,
    ensures
        ({
            let m = if which == 1 {
                match_end_in_tag(s@, i as int)
            } else if which == 2 {
                match_start_in_tag(s@, i as int)
            } else if which == 3 {
                match_both_in_tag(s@, i as int)
            } else if which == 4 {
                match_span_open(s@, i as int)
            } else {
                match_span_close(s@, i as int)
            };
            match r {
                Some(p) => {
                    &&& m matches Some(mm)
                    &&& p.0 <= p.1 <= s@.len() && p.2 <= p.3 <= s@.len() && p.4 <= p.5 <= s@.len()
                    &&& mm.1 == p.5 && i < p.5 <= s@.len()
                    &&& mm.0 == (if which == 4 {
                        span_open_prefix() + s@.subrange(p.0 as int, p.1 as int) + seq![
                            34u8,
                            62u8,
                        ]
                    } else if which == 5 {
                        span_close_bytes()
                    } else {
                        s@.subrange(p.0 as int, p.1 as int) + s@.subrange(
                            p.2 as int,
                            p.3 as int,
                        ) + s@.subrange(p.4 as int, p.5 as int)
                    })
                },
                None => m is None,
            }
        }),
{
    let n = s.len();
    proof {
        assert(n == s@.len());
    }
    if which == 1 {
        let p1 = match marker_run_exec(s, i, true) {
            Some(v) => v,
            None => {
                return None;
            },
        };
        let lt = match find_lt_no_endmarker_exec(s, p1) {
            Some(v) => v,
            None => {
                return None;
            },
        };
        let em = match find_endmarker_before_gt_exec(s, lt + 1) {
            Some(v) => v,
            None => {
                return None;
            },
        };
        let pe = match marker_run_exec(s, em, false) {
            Some(v) => v,
            None => {
                return None;
            },
        };
        let gt = match find_gt_exec(s, pe) {
            Some(v) => v,
            None => {
                return None;
            },
        };
        proof {
            assert(s@.subrange(p1 as int, em as int) + s@.subrange(pe as int, gt + 1)
                + s@.subrange(gt + 1, gt + 1) =~= s@.subrange(p1 as int, em as int)
                + s@.subrange(pe as int, gt + 1));
        }
        Some((p1, em, pe, gt + 1, gt + 1, gt + 1))
    } else if which == 2 {
        if i >= s.len() || s[i] != 60 {
            return None;
        }
        let sm = match find_startmarker_before_gt_exec(s, i + 1) {
            Some(v) => v,
            None => {
                return None;
            },
        };
        let pp = match marker_run_exec(s, sm, true) {
            Some(v) => v,
            None => {
                return None;
            },
        };
        let gt = match find_gt_exec(s, pp) {
            Some(v) => v,
            None => {
                return None;
            },
        };
        let em = match find_endmarker_exec(s, gt + 1) {
            Some(v) => v,
            None => {
                return None;
            },
        };
        let pe = match marker_run_exec(s, em, false) {
            Some(v) => v,
            None => {
                return None;
            },
        };
        proof {
            assert(s@.subrange(i as int, sm as int) + s@.subrange(pp as int, em as int)
                + s@.subrange(pe as int, pe as int) =~= s@.subrange(i as int, sm as int)
                + s@.subrange(pp as int, em as int));
        }
        Some((i, sm, pp, em, pe, pe))
    } else if which == 3 {
        if i >= s.len() || s[i] != 60 {
            return None;
        }
        let sm = match find_startmarker_before_gt_exec(s, i + 1) {
            Some(v) => v,
            None => {
                return None;
            },
        };
        let pp = match marker_run_exec(s, sm, true) {
            Some(v) => v,
            None => {
                return None;
            },
        };
        let gt1 = match find_gt_exec(s, pp) {
            Some(v) => v,
            None => {
                return None;
            },
        };
        let lt2 = match find_lt_no_markers_exec(s, gt1 + 1) {
            Some(v) => v,
            None => {
                return None;
            },
        };
        let em = match find_endmarker_before_gt_exec(s, lt2 + 1) {
            Some(v) => v,
            None => {
                return None;
            },
        };
        let pe = match marker_run_exec(s, em, false) {
            Some(v) => v,
            None => {
                return None;
            },
        };
        let gt2 = match find_gt_exec(s, pe) {
            Some(v) => v,
            None => {
                return None;
            },
        };
        Some((i, sm, pp, em, pe, gt2 + 1))
    } else if which == 4 {
        let e = match marker_run_exec(s, i, true) {
            Some(v) => v,
            None => {
                return None;
            },
        };
        Some((i + 3, e - 3, e, e, e, e))
    } else {
        let e = match marker_run_exec(s, i, false) {
            Some(v) => v,
            None => {
                return None;
            },
        };
        proof {
            assert(s@.subrange(e as int, e as int) =~= Seq::<u8>::empty());
        }
        Some((e, e, e, e, e, e))
    }
}

/// Runs one rewriting scan over the whole text.
fn scan(s: &[u8], which: u8) -> (r: Vec<u8>)
    requires
        1 <= which <= 5,
    ensures
        r@ == spec_scan(s@, 0, which as int),
{
    let mut out: Vec<u8> = Vec::new();
    let mut i: usize = 0;
    proof {
        assert(out@ + spec_scan(s@, 0, which as int) =~= spec_scan(s@, 0, which as int));
    }
    while i < s.len()
        invariant
            1 <= which <= 5,
            0 <= i <= s@.len(),
            spec_scan(s@, 0, which as int) == out@ + spec_scan(s@, i as int, which as int),
        decreases s@.len() - i,
    {
        let ghost prev = out@;
        match try_match(s, i, which) {
            Some(p) => {
                if which == 4 {
                    let pre: [u8; 42] = [
                        60, 115, 112, 97, 110, 32, 115, 116, 121, 108, 101, 61, 34, 99, 111, 108,
                        111, 114, 58, 32, 114, 101, 100, 34, 32, 99, 108, 97, 115, 115, 61, 34,
                        118, 97, 110, 100, 97, 108, 105, 115, 109, 45,
                    ];
                    proof {
                        assert(pre@ =~= span_open_prefix());
                    }
                    crate::append_slice(&mut out, pre.as_slice());
                    append_range(&mut out, s, p.0, p.1);
                    out.push(34);
                    out.push(62);
                    proof {
                        assert(out@ =~= prev + (span_open_prefix() + s@.subrange(
                            p.0 as int,
                            p.1 as int,
                        ) + seq![34u8, 62u8]));
                    }
                } else if which == 5 {
                    let close: [u8; 7] = [60, 47, 115, 112, 97, 110, 62];
                    proof {
                        assert(close@ =~= span_close_bytes());
                    }
                    crate::append_slice(&mut out, close.as_slice());
                    proof {
                        assert(out@ =~= prev + span_close_bytes());
                    }
                } else {
                    append_range(&mut out, s, p.0, p.1);
                    append_range(&mut out, s, p.2, p.3);
                    append_range(&mut out, s, p.4, p.5);
                    proof {
                        assert(out@ =~= prev + (s@.subrange(p.0 as int, p.1 as int) + s@.subrange(
                            p.2 as int,
                            p.3 as int,
                        ) + s@.subrange(p.4 as int, p.5 as int)));
                    }
                }
                i = p.5;
            },
            None => {
                out.push(s[i]);
                proof {
                    assert(out@ =~= prev + seq![s@[i as int]]);
                }
                i += 1;
            },
        }
        proof {
            assert(spec_scan(s@, 0, which as int) =~= out@ + spec_scan(
                s@,
                i as int,
                which as int,
            ));
        }
    }
    out
}

/// What `remove_merge_markers` leaves of the text: pairs whose end, start,
/// or both sentinels sit inside tags are stripped, in that order.
pub open spec fn spec_remove_merge_markers(s: Seq<u8>) -> Seq<u8> {
    spec_scan(spec_scan(spec_scan(s, 0, 1), 0, 2), 0, 3)
}

/// Removes marker pairs that would break the HTML: first pairs whose end
/// sentinel lies inside a tag, then pairs whose start does, then pairs
/// where both do. The order matters: the last scan would otherwise clash
/// with the first two.
pub fn remove_merge_markers(html: &[u8]) -> (r: Vec<u8>)
    ensures
        r@ == spec_remove_merge_markers(html@),
{
    let a = scan(html, 1);
    let b = scan(a.as_slice(), 2);
    scan(b.as_slice(), 3)
}

/// What `process_merge_markers` produces: stray pairs stripped, opening
/// sentinel runs turned into highlight span openings carrying the revision
/// digits, closing runs into span closings.
pub open spec fn spec_process_merge_markers(s: Seq<u8>) -> Seq<u8> {
    spec_scan(spec_scan(spec_remove_merge_markers(s), 0, 4), 0, 5)
}

/// Removes merge markers that are inside HTML tags, and replaces the others
/// with span tags.
pub fn process_merge_markers(html: &[u8]) -> (r: Vec<u8>)
    ensures
        r@ == spec_process_merge_markers(html@),
{
    let a = remove_merge_markers(html);
    let b = scan(a.as_slice(), 4);
    scan(b.as_slice(), 5)
}

/// Every occurrence of the (non-empty) pattern replaced by `rep`, scanning
/// left to right.
pub open spec fn spec_replace_all(s: Seq<u8>, pat: Seq<u8>, rep: Seq<u8>, i: int) -> Seq<u8>
    decreases s.len() - i,
    when 0 <= i
{
    if i >= s.len() {
        Seq::empty()
    } else if pat.len() > 0 && i + pat.len() <= s.len() && s.subrange(i, i + pat.len()) == pat {
        rep + spec_replace_all(s, pat, rep, i + pat.len())
    } else {
        seq![s[i]] + spec_replace_all(s, pat, rep, i + 1)
    }
}

/// Replaces every occurrence of `pat` in `s` by `rep`.
fn replace_all(s: &[u8], pat: &[u8], rep: &[u8]) -> (r: Vec<u8>)
    ensures
        r@ == spec_replace_all(s@, pat@, rep@, 0),
{
    let mut out: Vec<u8> = Vec::new();
    let mut i: usize = 0;
    proof {
        assert(out@ + spec_replace_all(s@, pat@, rep@, 0) =~= spec_replace_all(s@, pat@, rep@, 0));
    }
    while i < s.len()
        invariant
            0 <= i <= s@.len(),
            spec_replace_all(s@, pat@, rep@, 0) == out@ + spec_replace_all(
                s@,
                pat@,
                rep@,
                i as int,
            ),
        decreases s@.len() - i,
    {
        let ghost prev = out@;
        let here = if pat.len() > 0 && pat.len() <= s.len() - i {
            let window = vstd::slice::slice_subrange(s, i, i + pat.len());
            crate::slices_eq(window, pat)
        } else {
            false
        };
        if here {
            crate::append_slice(&mut out, rep);
            i = i + pat.len();
            proof {
                assert(out@ =~= prev + rep@);
            }
        } else {
            out.push(s[i]);
            proof {
                assert(out@ =~= prev + seq![s@[i as int]]);
            }
            i += 1;
        }
        proof {
            assert(spec_replace_all(s@, pat@, rep@, 0) =~= out@ + spec_replace_all(
                s@,
                pat@,
                rep@,
                i as int,
            ));
        }
    }
    out
}

/// Relies on `rand::random` (with the standard distribution) for the
/// unpredictable tag in the skeleton placeholder. Nothing is promised of
/// the drawn value.
pub assume_specification<T>[ rand::random::<T> ]() -> (r: T)
    where
        rand::distributions::Standard: rand::distributions::Distribution<T>,
;

/// The placeholder a fresh page uses: a fixed tag and random digits, so the
/// skeleton cannot contain it by accident.
pub open spec fn spec_placeholder(n: u64) -> Seq<u8> {
    seq![
        87u8, 77u8, 87u8, 95u8, 80u8, 76u8, 65u8, 67u8, 69u8, 72u8, 79u8, 76u8, 68u8, 69u8,
        82u8, 95u8,
    ] + crate::spec_dec_bytes(n as nat)
}

/// The contents of the HTML page shown to the user: the skeleton fetched
/// from the wiki has the article body cut out and this page's placeholder
/// spliced in; the rendered article later replaces the placeholder, with
/// its merge markers rewritten to spans.
pub struct Page {
    /// The text standing in for the article body in the page skeleton.
    pub placeholder: Vec<u8>,
}

impl Page {
    /// Creates a new page with a freshly drawn placeholder.
    pub fn new() -> (r: Page)
        ensures
            exists|n: u64| r.placeholder@ == spec_placeholder(n),
    {
        let n: u64 = rand::random();
        let prefix: [u8; 16] = [87, 77, 87, 95, 80, 76, 65, 67, 69, 72, 79, 76, 68, 69, 82, 95];
        let mut placeholder: Vec<u8> = Vec::new();
        crate::append_slice(&mut placeholder, prefix.as_slice());
        let digits = crate::dec_bytes(n);
        crate::append_bytes(&mut placeholder, &digits);
        proof {
            assert(placeholder@ =~= spec_placeholder(n));
        }
        Page { placeholder }
    }

    /// Finishes the HTML processing: rewrites the merge markers in
    /// `article_body` into span tags (dropping pairs stranded inside tags)
    /// and splices the result into the page skeleton in place of the
    /// placeholder.
    pub fn replace_body_and_remove_merge_markers(
        &self,
        article_body: &[u8],
        page_skeleton: &[u8],
    ) -> (r: Vec<u8>)
        ensures
            r@ == spec_replace_all(
                page_skeleton@,
                self.placeholder@,
                spec_process_merge_markers(article_body@),
                0,
            ),
    {
        let finished_article_body = process_merge_markers(article_body);
        replace_all(page_skeleton, self.placeholder.as_slice(), finished_article_body.as_slice())
    }
}

} // verus!
