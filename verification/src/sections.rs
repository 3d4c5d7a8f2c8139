//! Per-section plumbing of the merge pipeline: deduplicating section titles
//! so each section can be dispatched by a unique key, pairing the sections
//! of a clean and a vandalized revision, folding one revision into a
//! section's accumulator with the adaptive timeout cutoff, and concatenating
//! the merged sections back together.

use vstd::prelude::*;

use crate::dec_bytes;
use crate::longest_common_subsequence::MAX_LCS_INPUT_LEN;
use crate::merge::Merger;

verus! {

use vstd::string::StringExecFns;

/// The private-use code point placed between a section title and its
/// occurrence count; it never appears in legitimate wiki text.
pub open spec fn separator_char() -> char {
    '\u{E002}'
}

/// The decimal digit characters of `n`, most significant first.
pub open spec fn spec_dec_chars(n: nat) -> Seq<char>
    decreases n,
{
    if n < 10 {
        seq![digit_char(n)]
    } else {
        spec_dec_chars(n / 10).push(digit_char(n % 10))
    }
}

/// One decimal digit as a character.
pub open spec fn digit_char(d: nat) -> char {
    if d == 0 {
        '0'
    } else if d == 1 {
        '1'
    } else if d == 2 {
        '2'
    } else if d == 3 {
        '3'
    } else if d == 4 {
        '4'
    } else if d == 5 {
        '5'
    } else if d == 6 {
        '6'
    } else if d == 7 {
        '7'
    } else if d == 8 {
        '8'
    } else {
        '9'
    }
}

/// One decimal digit as a string.
fn digit_str(d: u64) -> (r: &'static str)
    requires
        d < 10,
    ensures
        r@ == seq![digit_char(d as nat)],
{
    proof {
        reveal_strlit("0");
        reveal_strlit("1");
        reveal_strlit("2");
        reveal_strlit("3");
        reveal_strlit("4");
        reveal_strlit("5");
        reveal_strlit("6");
        reveal_strlit("7");
        reveal_strlit("8");
        reveal_strlit("9");
    }
    let r = if d == 0 {
        "0"
    } else if d == 1 {
        "1"
    } else if d == 2 {
        "2"
    } else if d == 3 {
        "3"
    } else if d == 4 {
        "4"
    } else if d == 5 {
        "5"
    } else if d == 6 {
        "6"
    } else if d == 7 {
        "7"
    } else if d == 8 {
        "8"
    } else {
        "9"
    };
    proof {
        assert(r@ =~= seq![digit_char(d as nat)]);
    }
    r
}

/// Renders `n` in decimal.
pub fn dec_string(n: u64) -> (r: String)
    ensures
        r@ == spec_dec_chars(n as nat),
    decreases n,
{
    if n < 10 {
        let r = String::from_str(digit_str(n));
        proof {
            assert(r@ =~= spec_dec_chars(n as nat));
        }
        r
    } else {
        let mut r = dec_string(n / 10);
        r.append(digit_str(n % 10));
        proof {
            assert(r@ =~= spec_dec_chars(n as nat));
        }
        r
    }
}

/// How many of the first `upto` sections carry exactly the title `t`.
pub open spec fn count_title(sections: Seq<(String, String)>, t: Seq<char>, upto: int) -> int
    decreases upto,
{
    if upto <= 0 {
        0
    } else {
        count_title(sections, t, upto - 1) + (if sections[upto - 1].0@ == t {
            1int
        } else {
            0int
        })
    }
}

/// Compares two strings by contents.
pub fn strings_equal(a: &String, b: &String) -> (r: bool)
    ensures
        r == (a@ == b@),
{
    a.eq(b)
}

/// A wiki article can have duplicate section titles. To key each section
/// uniquely, the private separator code point and the title's 1-based
/// occurrence count so far are appended to every title. The separator makes
/// it impossible for an input to collide with a counted title.
pub fn deduplicate_section_titles(sections: Vec<(String, String)>) -> (r: Vec<(String, String)>)
    requires
        sections@.len() < usize::MAX,
    ensures
        r@.len() == sections@.len(),
        forall|i: int|
            0 <= i < sections@.len() ==> (#[trigger] r@[i]).1 == sections@[i].1 && r@[i].0@
                == sections@[i].0@ + seq![separator_char()] + spec_dec_chars(
                count_title(sections@, sections@[i].0@, i + 1) as nat,
            ),
{
    let mut out: Vec<(String, String)> = Vec::new();
    let mut i: usize = 0;
    while i < sections.len()
        invariant
            0 <= i <= sections@.len(),
            sections@.len() < usize::MAX,
            out@.len() == i,
            forall|k: int|
                0 <= k < i ==> (#[trigger] out@[k]).1 == sections@[k].1 && out@[k].0@
                    == sections@[k].0@ + seq![separator_char()] + spec_dec_chars(
                    count_title(sections@, sections@[k].0@, k + 1) as nat,
                ),
        decreases sections@.len() - i,
    {
        let title = &sections[i].0;
        let mut count: usize = 0;
        let mut j: usize = 0;
        while j <= i
            invariant
                0 <= j <= i + 1,
                i < sections@.len(),
                sections@.len() < usize::MAX,
                count == count_title(sections@, sections@[i as int].0@, j as int),
                count <= j,
                title == &sections@[i as int].0,
            decreases i + 1 - j,
        {
            if strings_equal(&sections[j].0, title) {
                count = count + 1;
            }
            j += 1;
        }
        let mut new_title = (*title).clone();
        let sep = "\u{E002}";
        proof {
            reveal_strlit("\u{E002}");
            assert(sep@ =~= seq![separator_char()]);
        }
        new_title.append(sep);
        let digits = dec_string(count as u64);
        new_title.append(digits.as_str());
        let content = sections[i].1.clone();
        out.push((new_title, content));
        proof {
            assert(out@[i as int].0@ =~= sections@[i as int].0@ + seq![separator_char()]
                + spec_dec_chars(count_title(sections@, sections@[i as int].0@, i + 1) as nat));
        }
        i += 1;
    }
    out
}

/// The first content stored under `title`, if any.
pub open spec fn spec_section_lookup(sections: Seq<(String, String)>, title: Seq<char>) -> Option<
    String,
>
    decreases sections.len(),
{
    if sections.len() == 0 {
        None
    } else if sections[0].0@ == title {
        Some(sections[0].1)
    } else {
        spec_section_lookup(sections.drop_first(), title)
    }
}

/// Finds the first section with the given title and hands back its content.
fn section_lookup(sections: &Vec<(String, String)>, title: &String) -> (r: Option<String>)
    ensures
        match r {
            Some(c) => spec_section_lookup(sections@, title@) matches Some(s) && s@ == c@,
            None => spec_section_lookup(sections@, title@) is None,
        },
{
    let mut j: usize = 0;
    proof {
        assert(sections@.skip(0) =~= sections@);
    }
    while j < sections.len()
        invariant
            0 <= j <= sections@.len(),
            spec_section_lookup(sections@.skip(j as int), title@) == spec_section_lookup(
                sections@,
                title@,
            ),
        decreases sections@.len() - j,
    {
        proof {
            assert(sections@.skip(j as int)[0] == sections@[j as int]);
            assert(sections@.skip(j as int).drop_first() =~= sections@.skip(j + 1));
        }
        if strings_equal(&sections[j].0, title) {
            return Some(sections[j].1.clone());
        }
        j += 1;
    }
    proof {
        assert(sections@.skip(j as int) =~= Seq::<(String, String)>::empty());
    }
    None
}

/// The triples for every title that both revisions have a section for.
pub open spec fn spec_match_sections(
    titles: Seq<String>,
    clean: Seq<(String, String)>,
    vandalized: Seq<(String, String)>,
) -> Seq<(String, String, String)>
    decreases titles.len(),
{
    if titles.len() == 0 {
        Seq::empty()
    } else {
        let rest = spec_match_sections(titles.drop_first(), clean, vandalized);
        match (spec_section_lookup(clean, titles[0]@), spec_section_lookup(
            vandalized,
            titles[0]@,
        )) {
            (Some(c), Some(v)) => seq![(titles[0], c, v)] + rest,
            _ => rest,
        }
    }
}

/// For every worker title that both the clean and the vandalized revision
/// have a section for, pairs the two contents, in worker-title order. The
/// contents equal what a lookup by title finds.
pub fn match_sections(
    titles: &Vec<String>,
    clean: &Vec<(String, String)>,
    vandalized: &Vec<(String, String)>,
) -> (r: Vec<(String, String, String)>)
    ensures
        r@.len() == spec_match_sections(titles@, clean@, vandalized@).len(),
        forall|i: int|
            0 <= i < r@.len() ==> {
                let s = spec_match_sections(titles@, clean@, vandalized@)[i];
                (#[trigger] r@[i]).0@ == s.0@ && r@[i].1@ == s.1@ && r@[i].2@ == s.2@
            },
{
    let mut out: Vec<(String, String, String)> = Vec::new();
    let mut i: usize = 0;
    proof {
        assert(titles@.skip(0) =~= titles@);
    }
    while i < titles.len()
        invariant
            0 <= i <= titles@.len(),
            spec_match_sections(titles@, clean@, vandalized@).len() == out@.len()
                + spec_match_sections(titles@.skip(i as int), clean@, vandalized@).len(),
            forall|k: int|
                0 <= k < out@.len() ==> {
                    let s = spec_match_sections(titles@, clean@, vandalized@)[k];
                    (#[trigger] out@[k]).0@ == s.0@ && out@[k].1@ == s.1@ && out@[k].2@ == s.2@
                },
            forall|k: int|
                0 <= k < spec_match_sections(titles@.skip(i as int), clean@, vandalized@).len()
                    ==> #[trigger] spec_match_sections(titles@.skip(i as int), clean@, vandalized@)[k]
                    == spec_match_sections(titles@, clean@, vandalized@)[out@.len() + k],
        decreases titles@.len() - i,
    {
        let ghost rem = titles@.skip(i as int);
        proof {
            assert(rem[0] == titles@[i as int]);
            assert(rem.drop_first() =~= titles@.skip(i + 1));
        }
        let title = &titles[i];
        let c = section_lookup(clean, title);
        let v = section_lookup(vandalized, title);
        let ghost prev = out@;
        match (c, v) {
            (Some(c), Some(v)) => {
                proof {
                    assert(spec_match_sections(rem, clean@, vandalized@) == seq![
                        (rem[0], spec_section_lookup(clean@, rem[0]@)->Some_0, spec_section_lookup(
                            vandalized@,
                            rem[0]@,
                        )->Some_0),
                    ] + spec_match_sections(titles@.skip(i + 1), clean@, vandalized@));
                }
                out.push((title.clone(), c, v));
                proof {
                    let whole = spec_match_sections(titles@, clean@, vandalized@);
                    let snext = spec_match_sections(titles@.skip(i + 1), clean@, vandalized@);
                    assert(spec_match_sections(rem, clean@, vandalized@)[0] == (
                        rem[0],
                        spec_section_lookup(clean@, rem[0]@)->Some_0,
                        spec_section_lookup(vandalized@, rem[0]@)->Some_0,
                    ));
                    assert forall|k: int| 0 <= k < snext.len() implies #[trigger] snext[k]
                        == whole[out@.len() + k] by {
                        assert(spec_match_sections(rem, clean@, vandalized@)[k + 1] == snext[k]);
                        assert(spec_match_sections(rem, clean@, vandalized@)[k + 1] == whole[
                            prev.len() + k + 1]);
                    }
                    assert(out@[prev.len() as int].0@ == whole[prev.len() as int].0@);
                }
            },
            _ => {
                proof {
                    assert(spec_match_sections(rem, clean@, vandalized@) == spec_match_sections(
                        titles@.skip(i + 1),
                        clean@,
                        vandalized@,
                    ));
                }
            },
        }
        i += 1;
    }
    proof {
        assert(titles@.skip(titles@.len() as int) =~= Seq::<String>::empty());
    }
    out
}

/// One worker step: if the worker has not yet hit the consecutive-timeout
/// cutoff, merges one (clean, vandalized, revision) triple into the
/// accumulator; past the cutoff the triple is dropped. A merge the size
/// guard skipped counts toward the cutoff exactly like a timed-out one, and
/// either leaves the accumulator untouched; a successful merge resets the
/// streak and leaves the merged output of the triple in the accumulator.
pub fn merge_step(
    merger: &Merger,
    accumulator: Vec<u8>,
    clean: &[u8],
    vandalized: &[u8],
    revision_id: u64,
    consecutive_timeouts: u64,
    max_consecutive_diff_timeouts: u64,
) -> (r: (Vec<u8>, u64))
    requires
        accumulator@.len() <= MAX_LCS_INPUT_LEN,
        clean@.len() <= MAX_LCS_INPUT_LEN,
        vandalized@.len() <= MAX_LCS_INPUT_LEN,
    ensures
        consecutive_timeouts >= max_consecutive_diff_timeouts ==> r.0@ == accumulator@ && r.1
            == consecutive_timeouts,
        consecutive_timeouts < max_consecutive_diff_timeouts ==> (r.1 == 0 || r.1
            == consecutive_timeouts + 1),
        consecutive_timeouts < max_consecutive_diff_timeouts && r.1 == consecutive_timeouts + 1
            ==> r.0@ == accumulator@,
        consecutive_timeouts < max_consecutive_diff_timeouts && (if clean@.len()
            >= vandalized@.len() {
            clean@.len() - vandalized@.len()
        } else {
            vandalized@.len() - clean@.len()
        }) > merger.spec_diff_size_limit() ==> r.0@ == accumulator@ && r.1 == consecutive_timeouts
            + 1,
        consecutive_timeouts < max_consecutive_diff_timeouts && r.1 == 0
            ==> crate::merge::merged_output(
            clean@,
            accumulator@,
            vandalized@,
            crate::spec_dec_bytes(revision_id as nat),
            r.0@,
        ),
        consecutive_timeouts < max_consecutive_diff_timeouts && merger.spec_diff_time_limit_ms()
            == u64::MAX && clean@ == accumulator@ && clean@ == vandalized@ ==> r.0@
            == accumulator@ && r.1 == 0,
        (consecutive_timeouts < max_consecutive_diff_timeouts && merger.spec_diff_time_limit_ms()
            == u64::MAX && (if clean@.len() >= vandalized@.len() {
            clean@.len() - vandalized@.len()
        } else {
            vandalized@.len() - clean@.len()
        }) <= merger.spec_diff_size_limit()) ==> r.1 == 0,
{
    if consecutive_timeouts < max_consecutive_diff_timeouts {
        // The size guard leaves the text alone; the worker still counts the
        // skip toward its back-off, like a timeout.
        let size_skipped = (if clean.len() >= vandalized.len() {
            clean.len() - vandalized.len()
        } else {
            vandalized.len() - clean.len()
        }) > merger.diff_size_limit();
        let marker = dec_bytes(revision_id);
        let (merge_result, timed_out) = merger.try_merge(
            clean,
            accumulator.as_slice(),
            vandalized,
            marker.as_slice(),
        );
        if timed_out || size_skipped {
            (merge_result, consecutive_timeouts + 1)
        } else {
            (merge_result, 0)
        }
    } else {
        (accumulator, consecutive_timeouts)
    }
}

/// Concatenates the merged sections, in the order given.
pub fn concat_sections(sections: &Vec<Vec<u8>>) -> (r: Vec<u8>)
    ensures
        r@ == sections.deep_view().flatten(),
{
    let ghost dv = sections.deep_view();
    let mut r: Vec<u8> = Vec::new();
    let mut i: usize = 0;
    proof {
        assert(dv.take(0) =~= Seq::<Seq<u8>>::empty());
        assert(dv.take(0).flatten() =~= Seq::<u8>::empty());
    }
    while i < sections.len()
        invariant
            0 <= i <= sections@.len(),
            dv == sections.deep_view(),
            r@ == dv.take(i as int).flatten(),
        decreases sections@.len() - i,
    {
        proof {
            crate::longest_common_subsequence::lemma_deep_view_index(sections, i as int);
        }
        crate::append_bytes(&mut r, &sections[i]);
        proof {
            assert(dv.take(i + 1) =~= dv.take(i as int).push(dv[i as int]));
            crate::merge::lemma_flatten_push(dv.take(i as int), dv[i as int]);
        }
        i += 1;
    }
    proof {
        assert(dv.take(dv.len() as int) =~= dv);
    }
    r
}

} // verus!
