//! Three-way merge in the diff3 style: two longest-common-subsequence
//! results (base against mine, base against theirs) are turned into a sorted
//! stream of match events over the base; a four-state machine walks the
//! events and partitions the base into stable chunks (matched by both sides)
//! and unstable chunks; each unstable chunk is then resolved by a fixed
//! policy, wrapping kept insertions from theirs in sentinel markers.

use vstd::prelude::*;

use crate::append_bytes;
use crate::append_slice;
use crate::push_end_marker;
use crate::push_start_marker;
use crate::longest_common_subsequence::lemma_regions_in_bounds;
use crate::longest_common_subsequence::MAX_LCS_INPUT_LEN;
use crate::longest_common_subsequence::regions_normalized;
use crate::longest_common_subsequence::valid_lcs;
use crate::longest_common_subsequence::regions_ordered;
use crate::longest_common_subsequence::CommonRegion;
use crate::longest_common_subsequence::CommonSubsequence;

verus! {

/// The four states of the machine that walks the base: the part of the base
/// under consideration is matched by neither side, by one, or by both.
#[derive(Debug, Clone, Copy)]
pub enum MatchState {
    NeitherMatch,
    /// Offsets into base and mine where the match started.
    OnlyNewMatches(usize, usize),
    /// Offsets into base and theirs where the match started.
    OnlyOtherMatches(usize, usize),
    /// Offsets into base, mine and theirs where the match started.
    BothMatch(usize, usize, usize),
}

/// A transition of the match-state machine: one side starts or stops
/// matching the base at some offset.
#[derive(Debug, PartialEq, Eq, Clone, Copy)]
pub enum MatchStateTransition {
    /// Offset into base, offset into mine.
    NewStartsMatching(usize, usize),
    /// Offset into base, offset into mine.
    NewStopsMatching(usize, usize),
    /// Offset into base, offset into theirs.
    OtherStartsMatching(usize, usize),
    /// Offset into base, offset into theirs.
    OtherStopsMatching(usize, usize),
}

/// The end of a chunk: the exclusive end offsets in base, mine and theirs.
#[derive(Debug, Clone, Copy)]
pub enum ChunkEnd {
    Stable(usize, usize, usize),
    Unstable(usize, usize, usize),
}

/// A chunk of the diff3 parse.
#[derive(Debug, PartialEq, Eq, Clone, Copy)]
pub enum Chunk {
    /// Start offset and length of the chunk in the base.
    Stable(usize, usize),
    /// (start offset, length) of the chunk in base, mine and theirs.
    Unstable((usize, usize), (usize, usize), (usize, usize)),
}

/// The base offset at which a transition happens.
pub open spec fn transition_old_offset(t: MatchStateTransition) -> int {
    match t {
        MatchStateTransition::NewStartsMatching(o, _) => o as int,
        MatchStateTransition::NewStopsMatching(o, _) => o as int,
        MatchStateTransition::OtherStartsMatching(o, _) => o as int,
        MatchStateTransition::OtherStopsMatching(o, _) => o as int,
    }
}

/// Tie order for transitions at one base offset: stops before starts, to
/// minimize empty chunks, and mine before theirs.
pub open spec fn transition_rank(t: MatchStateTransition) -> int {
    match t {
        MatchStateTransition::NewStopsMatching(_, _) => 1,
        MatchStateTransition::OtherStopsMatching(_, _) => 2,
        MatchStateTransition::NewStartsMatching(_, _) => 3,
        MatchStateTransition::OtherStartsMatching(_, _) => 4,
    }
}

/// The total transition order: by base offset, then by the tie rank.
pub open spec fn transition_le(t1: MatchStateTransition, t2: MatchStateTransition) -> bool {
    transition_old_offset(t1) < transition_old_offset(t2) || (transition_old_offset(t1)
        == transition_old_offset(t2) && transition_rank(t1) <= transition_rank(t2))
}

/// Executable mirror of `transition_le`.
fn transition_le_exec(t1: &MatchStateTransition, t2: &MatchStateTransition) -> (r: bool)
    ensures
        r == transition_le(*t1, *t2),
{
    let o1: usize = match t1 {
        MatchStateTransition::NewStartsMatching(o, _) => *o,
        MatchStateTransition::NewStopsMatching(o, _) => *o,
        MatchStateTransition::OtherStartsMatching(o, _) => *o,
        MatchStateTransition::OtherStopsMatching(o, _) => *o,
    };
    let o2: usize = match t2 {
        MatchStateTransition::NewStartsMatching(o, _) => *o,
        MatchStateTransition::NewStopsMatching(o, _) => *o,
        MatchStateTransition::OtherStartsMatching(o, _) => *o,
        MatchStateTransition::OtherStopsMatching(o, _) => *o,
    };
    let r1: u8 = match t1 {
        MatchStateTransition::NewStopsMatching(_, _) => 1,
        MatchStateTransition::OtherStopsMatching(_, _) => 2,
        MatchStateTransition::NewStartsMatching(_, _) => 3,
        MatchStateTransition::OtherStartsMatching(_, _) => 4,
    };
    let r2: u8 = match t2 {
        MatchStateTransition::NewStopsMatching(_, _) => 1,
        MatchStateTransition::OtherStopsMatching(_, _) => 2,
        MatchStateTransition::NewStartsMatching(_, _) => 3,
        MatchStateTransition::OtherStartsMatching(_, _) => 4,
    };
    o1 < o2 || (o1 == o2 && r1 <= r2)
}

/// Every region's end offsets stay inside machine integers.
pub open spec fn regions_arith(rs: Seq<CommonRegion>) -> bool {
    forall|i: int|
        #![trigger rs[i]]
        0 <= i < rs.len() ==> rs[i].iter1_offset + rs[i].size <= usize::MAX
            && rs[i].iter2_offset + rs[i].size <= usize::MAX
}

/// The event stream one region list contributes over the base axis: a start
/// and a stop event per region, in region order.
pub open spec fn region_events(rs: Seq<CommonRegion>, new_side: bool) -> Seq<
    MatchStateTransition,
> {
    Seq::new(
        2 * rs.len(),
        |i: int|
            {
                let r = rs[i / 2];
                if i % 2 == 0 {
                    if new_side {
                        MatchStateTransition::NewStartsMatching(r.iter1_offset, r.iter2_offset)
                    } else {
                        MatchStateTransition::OtherStartsMatching(r.iter1_offset, r.iter2_offset)
                    }
                } else {
                    if new_side {
                        MatchStateTransition::NewStopsMatching(
                            ((r.iter1_offset + r.size) as usize),
                            ((r.iter2_offset + r.size) as usize),
                        )
                    } else {
                        MatchStateTransition::OtherStopsMatching(
                            ((r.iter1_offset + r.size) as usize),
                            ((r.iter2_offset + r.size) as usize),
                        )
                    }
                }
            },
    )
}

/// Merging two event streams under the transition order, stream one first on
/// ties.
pub open spec fn merge_events(
    xs: Seq<MatchStateTransition>,
    ys: Seq<MatchStateTransition>,
) -> Seq<MatchStateTransition>
    decreases xs.len() + ys.len(),
{
    if xs.len() == 0 {
        ys
    } else if ys.len() == 0 {
        xs
    } else if transition_le(xs[0], ys[0]) {
        seq![xs[0]] + merge_events(xs.drop_first(), ys)
    } else {
        seq![ys[0]] + merge_events(xs, ys.drop_first())
    }
}

/// Builds the event stream of one region list.
fn build_events(rs: &Vec<CommonRegion>, new_side: bool) -> (r: Vec<MatchStateTransition>)
    requires
        regions_arith(rs@),
    ensures
        r@ == region_events(rs@, new_side),
{
    let mut out: Vec<MatchStateTransition> = Vec::new();
    let mut i: usize = 0;
    while i < rs.len()
        invariant
            0 <= i <= rs@.len(),
            regions_arith(rs@),
            out@.len() == 2 * i,
            forall|k: int| 0 <= k < 2 * i ==> out@[k] == region_events(rs@, new_side)[k],
        decreases rs@.len() - i,
    {
        let r = rs[i];
        if new_side {
            out.push(MatchStateTransition::NewStartsMatching(r.iter1_offset, r.iter2_offset));
            out.push(
                MatchStateTransition::NewStopsMatching(
                    r.iter1_offset + r.size,
                    r.iter2_offset + r.size,
                ),
            );
        } else {
            out.push(MatchStateTransition::OtherStartsMatching(r.iter1_offset, r.iter2_offset));
            out.push(
                MatchStateTransition::OtherStopsMatching(
                    r.iter1_offset + r.size,
                    r.iter2_offset + r.size,
                ),
            );
        }
        i += 1;
    }
    proof {
        assert(out@ =~= region_events(rs@, new_side));
    }
    out
}

/// Merges two event streams under the transition order.
fn merge_transitions(
    xs: Vec<MatchStateTransition>,
    ys: Vec<MatchStateTransition>,
) -> (r: Vec<MatchStateTransition>)
    ensures
        r@ == merge_events(xs@, ys@),
{
    let mut out: Vec<MatchStateTransition> = Vec::new();
    let mut i: usize = 0;
    let mut j: usize = 0;
    proof {
        assert(xs@.skip(0) =~= xs@);
        assert(ys@.skip(0) =~= ys@);
        assert(out@ + merge_events(xs@, ys@) =~= merge_events(xs@, ys@));
    }
    while i < xs.len() || j < ys.len()
        invariant
            0 <= i <= xs@.len(),
            0 <= j <= ys@.len(),
            merge_events(xs@, ys@) == out@ + merge_events(xs@.skip(i as int), ys@.skip(j as int)),
        decreases (xs@.len() - i) + (ys@.len() - j),
    {
        let ghost xrem = xs@.skip(i as int);
        let ghost yrem = ys@.skip(j as int);
        if i < xs.len() && (j >= ys.len() || transition_le_exec(&xs[i], &ys[j])) {
            out.push(xs[i]);
            i += 1;
            proof {
                assert(xrem[0] == xs@[i - 1]);
                assert(xrem.drop_first() =~= xs@.skip(i as int));
                if yrem.len() == 0 {
                    assert(merge_events(xrem, yrem) == xrem);
                    assert(xrem =~= seq![xrem[0]] + xrem.drop_first());
                    assert(merge_events(xs@.skip(i as int), yrem) == xs@.skip(i as int));
                } else {
                    assert(yrem[0] == ys@[j as int]);
                    assert(merge_events(xrem, yrem) == seq![xrem[0]] + merge_events(
                        xrem.drop_first(),
                        yrem,
                    ));
                }
                assert(out@ + merge_events(xs@.skip(i as int), ys@.skip(j as int)) =~= (
                out@.drop_last() + (seq![xs@[i - 1]] + merge_events(
                    xs@.skip(i as int),
                    ys@.skip(j as int),
                ))));
            }
        } else {
            out.push(ys[j]);
            j += 1;
            proof {
                assert(yrem[0] == ys@[j - 1]);
                assert(yrem.drop_first() =~= ys@.skip(j as int));
                if xrem.len() == 0 {
                    assert(merge_events(xrem, yrem) == yrem);
                    assert(yrem =~= seq![yrem[0]] + yrem.drop_first());
                    assert(merge_events(xrem, ys@.skip(j as int)) == ys@.skip(j as int));
                } else {
                    assert(xrem[0] == xs@[i as int]);
                    assert(!transition_le(xrem[0], yrem[0]));
                    assert(merge_events(xrem, yrem) == seq![yrem[0]] + merge_events(
                        xrem,
                        yrem.drop_first(),
                    ));
                }
                assert(out@ + merge_events(xs@.skip(i as int), ys@.skip(j as int)) =~= (
                out@.drop_last() + (seq![ys@[j - 1]] + merge_events(
                    xs@.skip(i as int),
                    ys@.skip(j as int),
                ))));
            }
        }
    }
    proof {
        assert(xs@.skip(i as int) =~= Seq::<MatchStateTransition>::empty());
        assert(ys@.skip(j as int) =~= Seq::<MatchStateTransition>::empty());
        assert(merge_events(xs@.skip(i as int), ys@.skip(j as int)) =~= Seq::<
            MatchStateTransition,
        >::empty());
        assert(out@ + Seq::<MatchStateTransition>::empty() =~= out@);
    }
    out
}

/// From the subsequences for base/mine and base/theirs, the sorted stream of
/// match-state transitions over the base: each region contributes a start
/// and a stop event, sorted by base offset with stops before starts and mine
/// before theirs.
pub fn calculate_match_state_transitions(
    new_lcs: CommonSubsequence,
    other_lcs: CommonSubsequence,
) -> (r: Vec<MatchStateTransition>)
    requires
        regions_arith(new_lcs.common_regions@),
        regions_arith(other_lcs.common_regions@),
    ensures
        r@ == merge_events(
            region_events(new_lcs.common_regions@, true),
            region_events(other_lcs.common_regions@, false),
        ),
{
    let xs = build_events(&new_lcs.common_regions, true);
    let ys = build_events(&other_lcs.common_regions, false);
    merge_transitions(xs, ys)
}

/// The (state, transition) pairs the machine can legally see, with the
/// offset bounds that keep its synthetic-offset arithmetic inside machine
/// integers. Pairs outside this predicate cannot arise from ordered region
/// lists.
pub open spec fn transition_ok(s: MatchState, t: MatchStateTransition) -> bool {
    match (s, t) {
        (MatchState::NeitherMatch, MatchStateTransition::NewStartsMatching(_, _)) => true,
        (MatchState::NeitherMatch, MatchStateTransition::OtherStartsMatching(_, _)) => true,
        (
            MatchState::OnlyNewMatches(po, pn),
            MatchStateTransition::OtherStartsMatching(o, _),
        ) => po <= o && pn + (o - po) <= usize::MAX,
        (MatchState::OnlyNewMatches(_, _), MatchStateTransition::NewStopsMatching(_, _)) => true,
        (
            MatchState::OnlyOtherMatches(po, pt),
            MatchStateTransition::NewStartsMatching(o, _),
        ) => po <= o && pt + (o - po) <= usize::MAX,
        (
            MatchState::OnlyOtherMatches(_, _),
            MatchStateTransition::OtherStopsMatching(_, _),
        ) => true,
        (MatchState::BothMatch(po, pn, pt), MatchStateTransition::NewStopsMatching(o, _)) => po
            <= o && pn + (o - po) <= usize::MAX && pt + (o - po) <= usize::MAX,
        (MatchState::BothMatch(po, pn, pt), MatchStateTransition::OtherStopsMatching(o, _)) => po
            <= o && pn + (o - po) <= usize::MAX && pt + (o - po) <= usize::MAX,
        _ => false,
    }
}

/// The chunk end, if any, that a legal transition closes.
pub open spec fn spec_chunk_end(s: MatchState, t: MatchStateTransition) -> Option<ChunkEnd> {
    match (s, t) {
        (
            MatchState::OnlyNewMatches(po, pn),
            MatchStateTransition::OtherStartsMatching(o, ot),
        ) => Some(ChunkEnd::Unstable(o, ((pn + (o - po)) as usize), ot)),
        (
            MatchState::OnlyOtherMatches(po, pt),
            MatchStateTransition::NewStartsMatching(o, on),
        ) => Some(ChunkEnd::Unstable(o, on, ((pt + (o - po)) as usize))),
        (MatchState::BothMatch(po, _, pt), MatchStateTransition::NewStopsMatching(o, on)) => Some(
            ChunkEnd::Stable(o, on, ((pt + (o - po)) as usize)),
        ),
        (MatchState::BothMatch(po, pn, _), MatchStateTransition::OtherStopsMatching(o, ot)) => Some(
            ChunkEnd::Stable(o, ((pn + (o - po)) as usize), ot),
        ),
        _ => None,
    }
}

/// The state a legal transition leads to.
pub open spec fn spec_next_state(s: MatchState, t: MatchStateTransition) -> MatchState {
    match (s, t) {
        (MatchState::NeitherMatch, MatchStateTransition::NewStartsMatching(o, n)) =>
            MatchState::OnlyNewMatches(o, n),
        (MatchState::NeitherMatch, MatchStateTransition::OtherStartsMatching(o, t2)) =>
            MatchState::OnlyOtherMatches(o, t2),
        (
            MatchState::OnlyNewMatches(po, pn),
            MatchStateTransition::OtherStartsMatching(o, ot),
        ) => MatchState::BothMatch(o, ((pn + (o - po)) as usize), ot),
        (MatchState::OnlyNewMatches(_, _), MatchStateTransition::NewStopsMatching(_, _)) =>
            MatchState::NeitherMatch,
        (
            MatchState::OnlyOtherMatches(po, pt),
            MatchStateTransition::NewStartsMatching(o, on),
        ) => MatchState::BothMatch(o, on, ((pt + (o - po)) as usize)),
        (
            MatchState::OnlyOtherMatches(_, _),
            MatchStateTransition::OtherStopsMatching(_, _),
        ) => MatchState::NeitherMatch,
        (MatchState::BothMatch(po, _, pt), MatchStateTransition::NewStopsMatching(_, _)) =>
            MatchState::OnlyOtherMatches(po, pt),
        (MatchState::BothMatch(po, pn, _), MatchStateTransition::OtherStopsMatching(_, _)) =>
            MatchState::OnlyNewMatches(po, pn),
        _ => MatchState::NeitherMatch,
    }
}

/// Given a match state and the transition out of it, the chunk end that this
/// transition closes, if any: entering a both-match closes an unstable
/// chunk, leaving one closes a stable chunk.
pub fn calculate_chunk_end(
    match_state: &MatchState,
    transition: &MatchStateTransition,
) -> (r: Option<ChunkEnd>)
    requires
        transition_ok(*match_state, *transition),
    ensures
        r == spec_chunk_end(*match_state, *transition),
{
    match (match_state, transition) {
        (
            MatchState::OnlyNewMatches(previous_old_offset, previous_new_offset),
            MatchStateTransition::OtherStartsMatching(current_old_offset, current_other_offset),
        ) => Some(
            ChunkEnd::Unstable(
                *current_old_offset,
                *previous_new_offset + (*current_old_offset - *previous_old_offset),
                *current_other_offset,
            ),
        ),
        (
            MatchState::OnlyOtherMatches(previous_old_offset, previous_other_offset),
            MatchStateTransition::NewStartsMatching(current_old_offset, current_new_offset),
        ) => Some(
            ChunkEnd::Unstable(
                *current_old_offset,
                *current_new_offset,
                *previous_other_offset + (*current_old_offset - *previous_old_offset),
            ),
        ),
        (
            MatchState::BothMatch(previous_old_offset, _, previous_other_offset),
            MatchStateTransition::NewStopsMatching(current_old_offset, current_new_offset),
        ) => {
            let length = *current_old_offset - *previous_old_offset;
            Some(
                ChunkEnd::Stable(
                    *current_old_offset,
                    *current_new_offset,
                    *previous_other_offset + length,
                ),
            )
        },
        (
            MatchState::BothMatch(previous_old_offset, previous_new_offset, _),
            MatchStateTransition::OtherStopsMatching(current_old_offset, current_other_offset),
        ) => {
            let length = *current_old_offset - *previous_old_offset;
            Some(
                ChunkEnd::Stable(
                    *current_old_offset,
                    *previous_new_offset + length,
                    *current_other_offset,
                ),
            )
        },
        _ => None,
    }
}

/// Given a match state and a legal transition out of it, the next state.
pub fn calculate_next_state(
    match_state: &MatchState,
    transition: &MatchStateTransition,
) -> (r: MatchState)
    requires
        transition_ok(*match_state, *transition),
    ensures
        r == spec_next_state(*match_state, *transition),
{
    match (match_state, transition) {
        (MatchState::NeitherMatch, MatchStateTransition::NewStartsMatching(old, new)) =>
            MatchState::OnlyNewMatches(*old, *new),
        (MatchState::NeitherMatch, MatchStateTransition::OtherStartsMatching(old, new)) =>
            MatchState::OnlyOtherMatches(*old, *new),
        (
            MatchState::OnlyNewMatches(previous_old_offset, previous_new_offset),
            MatchStateTransition::OtherStartsMatching(current_old_offset, current_other_offset),
        ) => {
            let length = *current_old_offset - *previous_old_offset;
            MatchState::BothMatch(
                *current_old_offset,
                *previous_new_offset + length,
                *current_other_offset,
            )
        },
        (MatchState::OnlyNewMatches(_, _), MatchStateTransition::NewStopsMatching(_, _)) =>
            MatchState::NeitherMatch,
        (
            MatchState::OnlyOtherMatches(previous_old_offset, previous_other_offset),
            MatchStateTransition::NewStartsMatching(current_old_offset, current_new_offset),
        ) => {
            let length = *current_old_offset - *previous_old_offset;
            MatchState::BothMatch(
                *current_old_offset,
                *current_new_offset,
                *previous_other_offset + length,
            )
        },
        (
            MatchState::OnlyOtherMatches(_, _),
            MatchStateTransition::OtherStopsMatching(_, _),
        ) => MatchState::NeitherMatch,
        (
            MatchState::BothMatch(old, new, other),
            MatchStateTransition::NewStopsMatching(_, _),
        ) => MatchState::OnlyOtherMatches(*old, *other),
        (
            MatchState::BothMatch(old, new, other),
            MatchStateTransition::OtherStopsMatching(_, _),
        ) => MatchState::OnlyNewMatches(*old, *new),
        _ => {
            proof {
                assert(false);
            }
            MatchState::NeitherMatch
        },
    }
}

/// The coordinate triple of a chunk end.
pub open spec fn end_triple(e: ChunkEnd) -> (int, int, int) {
    match e {
        ChunkEnd::Stable(o, n, t) => (o as int, n as int, t as int),
        ChunkEnd::Unstable(o, n, t) => (o as int, n as int, t as int),
    }
}

pub open spec fn is_stable_end(e: ChunkEnd) -> bool {
    e is Stable
}

pub open spec fn triple_le(x: (int, int, int), y: (int, int, int)) -> bool {
    x.0 <= y.0 && x.1 <= y.1 && x.2 <= y.2
}

/// The chunk-end list the machine produces is componentwise non-decreasing,
/// every stable end advances all three coordinates by the same amount as its
/// predecessor, and the list never opens with a stable end.
pub open spec fn ends_ok(ends: Seq<ChunkEnd>) -> bool {
    &&& forall|i: int|
        #![trigger ends[i]]
        0 < i < ends.len() ==> triple_le(end_triple(ends[i - 1]), end_triple(ends[i]))
    &&& forall|i: int|
        #![trigger ends[i]]
        0 < i < ends.len() && is_stable_end(ends[i]) ==> {
            let p = end_triple(ends[i - 1]);
            let c = end_triple(ends[i]);
            c.1 - p.1 == c.0 - p.0 && c.2 - p.2 == c.0 - p.0
        }
    &&& ends.len() > 0 ==> !is_stable_end(ends[0])
}

/// A one-sided anchor lies on the diagonal of the region the side is
/// currently matching, no farther than the next event.
pub open spec fn side_anchor_ok(
    ao: usize,
    ax: usize,
    k: int,
    rs: Seq<CommonRegion>,
    hh: int,
) -> bool {
    let j = (k - 1) / 2;
    &&& 0 <= j < rs.len()
    &&& k == 2 * j + 1
    &&& rs[j].iter1_offset <= ao
    &&& ao <= rs[j].iter1_offset + rs[j].size
    &&& ax == rs[j].iter2_offset + (ao - rs[j].iter1_offset)
    &&& ao <= hh
}

/// Everything the event walk maintains: how many events of each side have
/// been consumed (`kn`, `ko`), the match state's relation to them, and the
/// chunk-end list's structure. `hh` bounds the next event's base offset
/// (or is the base length when no event remains).
pub open spec fn walk_inv(
    state: MatchState,
    ends: Seq<ChunkEnd>,
    kn: int,
    ko: int,
    new_rs: Seq<CommonRegion>,
    other_rs: Seq<CommonRegion>,
    old_len: int,
    new_len: int,
    other_len: int,
    hh: int,
) -> bool {
    let f = if ends.len() == 0 {
        (0int, 0int, 0int)
    } else {
        end_triple(ends.last())
    };
    &&& 0 <= kn <= 2 * new_rs.len()
    &&& 0 <= ko <= 2 * other_rs.len()
    &&& ends_ok(ends)
    &&& f.0 <= hh
    &&& f.0 <= old_len
    &&& f.1 <= new_len
    &&& f.2 <= other_len
    &&& (kn % 2 == 0 ==> f.1 <= (if kn < 2 * new_rs.len() {
        new_rs[kn / 2].iter2_offset as int
    } else {
        new_len
    }))
    &&& (ko % 2 == 0 ==> f.2 <= (if ko < 2 * other_rs.len() {
        other_rs[ko / 2].iter2_offset as int
    } else {
        other_len
    }))
    &&& match state {
        MatchState::NeitherMatch => kn % 2 == 0 && ko % 2 == 0,
        MatchState::OnlyNewMatches(ao, an) => kn % 2 == 1 && ko % 2 == 0 && side_anchor_ok(
            ao,
            an,
            kn,
            new_rs,
            hh,
        ) && f.1 <= an + (hh - ao),
        MatchState::OnlyOtherMatches(ao, at) => ko % 2 == 1 && kn % 2 == 0 && side_anchor_ok(
            ao,
            at,
            ko,
            other_rs,
            hh,
        ) && f.2 <= at + (hh - ao),
        MatchState::BothMatch(ao, an, at) => kn % 2 == 1 && ko % 2 == 1 && side_anchor_ok(
            ao,
            an,
            kn,
            new_rs,
            hh,
        ) && side_anchor_ok(ao, at, ko, other_rs, hh) && ends.len() > 0 && !is_stable_end(
            ends.last(),
        ) && end_triple(ends.last()) == (ao as int, an as int, at as int),
    }
}


/// No two stable chunks stand next to each other: they would describe one
/// stable stretch and are always merged.
pub open spec fn no_consecutive_stables(chunks: Seq<Chunk>) -> bool {
    forall|i: int|
        0 < i < chunks.len() ==> !((#[trigger] chunks[i]) is Stable && chunks[i - 1] is Stable)
}

/// Every unstable end standing before a stable end moved at least one
/// coordinate past its own predecessor, so it always materializes as a
/// chunk between the two stable ones.
pub open spec fn ends_separate_stables(ends: Seq<ChunkEnd>) -> bool {
    forall|j: int|
        1 <= j && j + 1 < ends.len() && is_stable_end(#[trigger] ends[j + 1]) ==> !is_stable_end(
            ends[j],
        ) && end_triple(ends[j]) != end_triple(ends[j - 1])
}

/// Where the machine can stand relative to the last emitted stable end `t`:
/// the next event lies strictly past it; or a side's anchor sits exactly at
/// its base coordinate with the matched coordinate strictly above it; or a
/// side has just closed the region that produced it.
pub open spec fn stable_last_ok(
    t: (int, int, int),
    state: MatchState,
    kn: int,
    ko: int,
    new_rs: Seq<CommonRegion>,
    other_rs: Seq<CommonRegion>,
    hh: int,
) -> bool {
    ||| t.0 < hh
    ||| (match state {
        MatchState::OnlyNewMatches(ao, an) => t.0 == ao && t.1 < an,
        _ => false,
    })
    ||| (match state {
        MatchState::OnlyOtherMatches(ao, at) => t.0 == ao && t.2 < at,
        _ => false,
    })
    ||| (kn % 2 == 0 && kn >= 2 && 0 <= kn / 2 - 1 < new_rs.len() && t.0 == new_rs[kn / 2
        - 1].iter1_offset + new_rs[kn / 2 - 1].size && t.1 == new_rs[kn / 2 - 1].iter2_offset
        + new_rs[kn / 2 - 1].size)
    ||| (ko % 2 == 0 && ko >= 2 && 0 <= ko / 2 - 1 < other_rs.len() && t.0 == other_rs[ko / 2
        - 1].iter1_offset + other_rs[ko / 2 - 1].size && t.2 == other_rs[ko / 2
        - 1].iter2_offset + other_rs[ko / 2 - 1].size)
}

/// What the walk maintains, on normalized region lists, to keep stable ends
/// separated: unstable-before-stable ends differ from their predecessors,
/// outside a both-match the list ends stably, stable ends never stack, side
/// anchors sit strictly inside their regions, and the last stable end
/// relates to the machine as `stable_last_ok` says.
pub open spec fn walk_p7_inv(
    state: MatchState,
    ends: Seq<ChunkEnd>,
    kn: int,
    ko: int,
    new_rs: Seq<CommonRegion>,
    other_rs: Seq<CommonRegion>,
    hh: int,
) -> bool {
    &&& forall|i: int|
        0 < i < ends.len() && !is_stable_end(#[trigger] ends[i]) && is_stable_end(ends[i - 1])
            ==> end_triple(ends[i]) != end_triple(ends[i - 1])
    &&& (!(state is BothMatch) && ends.len() > 0 ==> is_stable_end(ends.last()))
    &&& forall|i: int|
        0 < i < ends.len() && is_stable_end(#[trigger] ends[i]) ==> !is_stable_end(ends[i - 1])
    &&& forall|i: int|
        0 < i < ends.len() && !is_stable_end(#[trigger] ends[i]) ==> is_stable_end(ends[i - 1])
    &&& (match state {
        MatchState::OnlyNewMatches(ao, an) => ao < new_rs[(kn - 1) / 2].iter1_offset + new_rs[(kn
            - 1) / 2].size,
        MatchState::OnlyOtherMatches(ao, at) => ao < other_rs[(ko - 1) / 2].iter1_offset
            + other_rs[(ko - 1) / 2].size,
        MatchState::BothMatch(ao, an, at) => ao < new_rs[(kn - 1) / 2].iter1_offset + new_rs[(kn
            - 1) / 2].size && ao < other_rs[(ko - 1) / 2].iter1_offset + other_rs[(ko - 1)
            / 2].size,
        MatchState::NeitherMatch => true,
    })
    &&& (ends.len() > 0 && is_stable_end(ends.last()) ==> stable_last_ok(
        end_triple(ends.last()),
        state,
        kn,
        ko,
        new_rs,
        other_rs,
        hh,
    ))
}

/// Merging preserves length.
proof fn lemma_merge_len(xs: Seq<MatchStateTransition>, ys: Seq<MatchStateTransition>)
    ensures
        merge_events(xs, ys).len() == xs.len() + ys.len(),
    decreases xs.len() + ys.len(),
{
    if xs.len() == 0 {
    } else if ys.len() == 0 {
    } else if transition_le(xs[0], ys[0]) {
        lemma_merge_len(xs.drop_first(), ys);
    } else {
        lemma_merge_len(xs, ys.drop_first());
    }
}

/// In an ordered region list every earlier region ends at or before a later
/// one starts, on both axes.
proof fn lemma_regions_transitive(rs: Seq<CommonRegion>, len1: int, len2: int, i: int, j: int)
    requires
        regions_ordered(rs, len1, len2),
        0 <= i < j < rs.len(),
    ensures
        rs[i].iter1_offset + rs[i].size <= rs[j].iter1_offset,
        rs[i].iter2_offset + rs[i].size <= rs[j].iter2_offset,
    decreases j - i,
{
    if i + 1 < j {
        lemma_regions_transitive(rs, len1, len2, i + 1, j);
        assert(rs[i].size >= 1);
    }
}

/// Event offsets of one side's stream never decrease.
proof fn lemma_events_sorted(
    rs: Seq<CommonRegion>,
    new_side: bool,
    len1: int,
    len2: int,
    k: int,
    k2: int,
)
    requires
        regions_ordered(rs, len1, len2),
        0 <= len1 <= usize::MAX,
        0 <= len2 <= usize::MAX,
        0 <= k <= k2 < 2 * rs.len(),
    ensures
        transition_old_offset(region_events(rs, new_side)[k]) <= transition_old_offset(
            region_events(rs, new_side)[k2],
        ),
{
    let ev = region_events(rs, new_side);
    let j = k / 2;
    let j2 = k2 / 2;
    lemma_regions_in_bounds(rs, len1, len2, j);
    lemma_regions_in_bounds(rs, len1, len2, j2);
    if j < j2 {
        lemma_regions_transitive(rs, len1, len2, j, j2);
    }
}

/// Processes one event: pushes the chunk end it closes, if any, and steps
/// the machine, maintaining the walk invariant. The ghost arguments say
/// which stream the event heads and how far the next event can be.
#[verifier::rlimit(100)]
fn walk_step(
    match_state: MatchState,
    transition: MatchStateTransition,
    chunk_ends: &mut Vec<ChunkEnd>,
    Ghost(new_rs): Ghost<Seq<CommonRegion>>,
    Ghost(other_rs): Ghost<Seq<CommonRegion>>,
    Ghost(kn): Ghost<int>,
    Ghost(ko): Ghost<int>,
    Ghost(old_len): Ghost<int>,
    Ghost(new_len): Ghost<int>,
    Ghost(other_len): Ghost<int>,
    Ghost(hh2): Ghost<int>,
    Ghost(from_new): Ghost<bool>,
) -> (r: MatchState)
    requires
        regions_ordered(new_rs, old_len, new_len),
        regions_ordered(other_rs, old_len, other_len),
        0 <= old_len <= usize::MAX,
        0 <= new_len <= usize::MAX,
        0 <= other_len <= usize::MAX,
        walk_inv(
            match_state,
            old(chunk_ends)@,
            kn,
            ko,
            new_rs,
            other_rs,
            old_len,
            new_len,
            other_len,
            transition_old_offset(transition),
        ),
        transition_old_offset(transition) <= hh2,
        hh2 <= old_len,
        from_new ==> kn < 2 * new_rs.len() && transition == region_events(new_rs, true)[kn] && (ko
            < 2 * other_rs.len() ==> transition_le(
            transition,
            region_events(other_rs, false)[ko],
        )),
        !from_new ==> ko < 2 * other_rs.len() && transition == region_events(other_rs, false)[ko]
            && (kn < 2 * new_rs.len() ==> transition_le(
            transition,
            region_events(new_rs, true)[kn],
        )),
    ensures
        final(chunk_ends)@ == (match spec_chunk_end(match_state, transition) {
            Some(e) => old(chunk_ends)@.push(e),
            None => old(chunk_ends)@,
        }),
        r == spec_next_state(match_state, transition),
        walk_inv(
            r,
            final(chunk_ends)@,
            if from_new {
                kn + 1
            } else {
                kn
            },
            if from_new {
                ko
            } else {
                ko + 1
            },
            new_rs,
            other_rs,
            old_len,
            new_len,
            other_len,
            hh2,
        ),
{
    proof {
        let o = transition_old_offset(transition);
        let xs = region_events(new_rs, true);
        let ys = region_events(other_rs, false);
        if from_new {
            assert(transition == xs[kn]);
            assert(kn % 2 == 0 ==> transition == (MatchStateTransition::NewStartsMatching(
                new_rs[kn / 2].iter1_offset,
                new_rs[kn / 2].iter2_offset,
            )));
            lemma_regions_in_bounds(new_rs, old_len, new_len, kn / 2);
        } else {
            assert(transition == ys[ko]);
            lemma_regions_in_bounds(other_rs, old_len, other_len, ko / 2);
        }
        // The side anchors' regions stay inside the sequence bounds.
        match match_state {
            MatchState::OnlyNewMatches(ao, an) => {
                lemma_regions_in_bounds(new_rs, old_len, new_len, (kn - 1) / 2);
            },
            MatchState::OnlyOtherMatches(ao, at) => {
                lemma_regions_in_bounds(other_rs, old_len, other_len, (ko - 1) / 2);
            },
            MatchState::BothMatch(ao, an, at) => {
                lemma_regions_in_bounds(new_rs, old_len, new_len, (kn - 1) / 2);
                lemma_regions_in_bounds(other_rs, old_len, other_len, (ko - 1) / 2);
            },
            _ => {},
        }
        assert(transition_ok(match_state, transition));
    }
    let end = calculate_chunk_end(&match_state, &transition);
    match end {
        Some(e) => chunk_ends.push(e),
        None => {},
    }
    let next = calculate_next_state(&match_state, &transition);
    proof {
        let o = transition_old_offset(transition);
        let xs = region_events(new_rs, true);
        let ys = region_events(other_rs, false);
        let kn2: int = if from_new {
            kn + 1
        } else {
            kn
        };
        let ko2: int = if from_new {
            ko
        } else {
            ko + 1
        };
        let ends0 = old(chunk_ends)@;
        let ends1 = chunk_ends@;
        if from_new {
            let j = kn / 2;
            lemma_regions_in_bounds(new_rs, old_len, new_len, j);
            if kn % 2 == 0 {
                // A mine-side start: the machine enters a mine-matching state.
                if j + 1 < new_rs.len() {
                    assert(new_rs[j].iter2_offset + new_rs[j].size <= new_rs[j + 1].iter2_offset);
                }
            } else {
                // A mine-side stop at the region's end.
                assert(transition == (MatchStateTransition::NewStopsMatching(
                    ((new_rs[j].iter1_offset + new_rs[j].size) as usize),
                    ((new_rs[j].iter2_offset + new_rs[j].size) as usize),
                )));
                if kn + 1 < 2 * new_rs.len() {
                    assert((kn + 1) / 2 == j + 1);
                    assert(new_rs[j].iter2_offset + new_rs[j].size <= new_rs[j + 1].iter2_offset);
                }
            }
        } else {
            let j = ko / 2;
            lemma_regions_in_bounds(other_rs, old_len, other_len, j);
            if ko % 2 == 1 {
                assert(transition == (MatchStateTransition::OtherStopsMatching(
                    ((other_rs[j].iter1_offset + other_rs[j].size) as usize),
                    ((other_rs[j].iter2_offset + other_rs[j].size) as usize),
                )));
                if ko + 1 < 2 * other_rs.len() {
                    assert((ko + 1) / 2 == j + 1);
                    assert(other_rs[j].iter2_offset + other_rs[j].size <= other_rs[j
                        + 1].iter2_offset);
                }
            }
        }
        match match_state {
            MatchState::OnlyNewMatches(ao, an) => {
                lemma_regions_in_bounds(new_rs, old_len, new_len, (kn - 1) / 2);
            },
            MatchState::OnlyOtherMatches(ao, at) => {
                lemma_regions_in_bounds(other_rs, old_len, other_len, (ko - 1) / 2);
            },
            MatchState::BothMatch(ao, an, at) => {
                lemma_regions_in_bounds(new_rs, old_len, new_len, (kn - 1) / 2);
                lemma_regions_in_bounds(other_rs, old_len, other_len, (ko - 1) / 2);
            },
            _ => {},
        }
        if ends1.len() > ends0.len() {
            assert(ends1.last() == ends1[ends1.len() - 1]);
            assert forall|i: int| #![trigger ends1[i]] 0 < i < ends1.len() - 1 implies triple_le(
                end_triple(ends1[i - 1]),
                end_triple(ends1[i]),
            ) && (is_stable_end(ends1[i]) ==> {
                let p = end_triple(ends1[i - 1]);
                let c = end_triple(ends1[i]);
                c.1 - p.1 == c.0 - p.0 && c.2 - p.2 == c.0 - p.0
            }) by {
                assert(ends1[i - 1] == ends0[i - 1]);
                assert(ends1[i] == ends0[i]);
            }
        }
        assert(walk_inv(
            next,
            chunk_ends@,
            kn2,
            ko2,
            new_rs,
            other_rs,
            old_len,
            new_len,
            other_len,
            hh2,
        ));
    }
    next
}


/// One event keeps the stable-end separation invariant, on normalized
/// region lists.
#[verifier::rlimit(100)]
proof fn lemma_p7_step(
    match_state: MatchState,
    transition: MatchStateTransition,
    ends0: Seq<ChunkEnd>,
    ends1: Seq<ChunkEnd>,
    kn: int,
    ko: int,
    new_rs: Seq<CommonRegion>,
    other_rs: Seq<CommonRegion>,
    old_len: int,
    new_len: int,
    other_len: int,
    hh2: int,
    from_new: bool,
)
    requires
        regions_ordered(new_rs, old_len, new_len),
        regions_ordered(other_rs, old_len, other_len),
        regions_normalized(new_rs),
        regions_normalized(other_rs),
        0 <= old_len <= usize::MAX,
        0 <= new_len <= usize::MAX,
        0 <= other_len <= usize::MAX,
        walk_inv(
            match_state,
            ends0,
            kn,
            ko,
            new_rs,
            other_rs,
            old_len,
            new_len,
            other_len,
            transition_old_offset(transition),
        ),
        walk_p7_inv(
            match_state,
            ends0,
            kn,
            ko,
            new_rs,
            other_rs,
            transition_old_offset(transition),
        ),
        transition_old_offset(transition) <= hh2,
        from_new ==> kn < 2 * new_rs.len() && transition == region_events(new_rs, true)[kn] && (ko
            < 2 * other_rs.len() ==> transition_le(
            transition,
            region_events(other_rs, false)[ko],
        )),
        !from_new ==> ko < 2 * other_rs.len() && transition == region_events(other_rs, false)[ko]
            && (kn < 2 * new_rs.len() ==> transition_le(
            transition,
            region_events(new_rs, true)[kn],
        )),
        ends1 == (match spec_chunk_end(match_state, transition) {
            Some(e) => ends0.push(e),
            None => ends0,
        }),
    ensures
        walk_p7_inv(
            spec_next_state(match_state, transition),
            ends1,
            if from_new {
                kn + 1
            } else {
                kn
            },
            if from_new {
                ko
            } else {
                ko + 1
            },
            new_rs,
            other_rs,
            hh2,
        ),
{
    let o = transition_old_offset(transition);
    let next = spec_next_state(match_state, transition);
    if from_new {
        lemma_regions_in_bounds(new_rs, old_len, new_len, kn / 2);
        if kn % 2 == 0 && kn / 2 >= 1 {
            lemma_regions_in_bounds(new_rs, old_len, new_len, kn / 2 - 1);
        }
    } else {
        lemma_regions_in_bounds(other_rs, old_len, other_len, ko / 2);
        if ko % 2 == 0 && ko / 2 >= 1 {
            lemma_regions_in_bounds(other_rs, old_len, other_len, ko / 2 - 1);
        }
    }
    match match_state {
        MatchState::OnlyNewMatches(_, _) => {
            lemma_regions_in_bounds(new_rs, old_len, new_len, (kn - 1) / 2);
        },
        MatchState::OnlyOtherMatches(_, _) => {
            lemma_regions_in_bounds(other_rs, old_len, other_len, (ko - 1) / 2);
        },
        MatchState::BothMatch(_, _, _) => {
            lemma_regions_in_bounds(new_rs, old_len, new_len, (kn - 1) / 2);
            lemma_regions_in_bounds(other_rs, old_len, other_len, (ko - 1) / 2);
        },
        _ => {},
    }
    if ends1.len() == ends0.len() + 1 {
        assert(ends1.last() == ends1[ends1.len() - 1]);
        assert forall|i: int| 0 < i < ends1.len() - 1 implies #[trigger] ends1[i] == ends0[i]
            && ends1[i - 1] == ends0[i - 1] by {}
    }
    // The two possible emissions.
    if from_new {
        let j = kn / 2;
        if kn % 2 == 0 {
            // A mine-side start at the start of region `j`.
            assert(transition == (MatchStateTransition::NewStartsMatching(
                new_rs[j].iter1_offset,
                new_rs[j].iter2_offset,
            )));
            match match_state {
                MatchState::NeitherMatch => {
                    assert(ends1 == ends0);
                    if ends0.len() > 0 && is_stable_end(ends0.last()) {
                        let t = end_triple(ends0.last());
                        // Convert the closed-mine-region witness, if that is
                        // what holds, to the new anchor.
                        if !(t.0 < o) && kn >= 2 && t.0 == new_rs[kn / 2 - 1].iter1_offset
                            + new_rs[kn / 2 - 1].size && t.1 == new_rs[kn / 2 - 1].iter2_offset
                            + new_rs[kn / 2 - 1].size {
                            assert(t.0 <= new_rs[j].iter1_offset);
                            if t.0 == new_rs[j].iter1_offset {
                                assert(new_rs[j - 1].iter1_offset + new_rs[j - 1].size
                                    < new_rs[j].iter1_offset || new_rs[j - 1].iter2_offset
                                    + new_rs[j - 1].size < new_rs[j].iter2_offset);
                                assert(t.1 < new_rs[j].iter2_offset);
                            }
                        }
                    }
                    assert(walk_p7_inv(next, ends1, kn + 1, ko, new_rs, other_rs, hh2));
                },
                MatchState::OnlyOtherMatches(po, pt) => {
                    let u = ChunkEnd::Unstable(
                        ((o) as usize),
                        new_rs[j].iter2_offset,
                        ((pt + (o - po)) as usize),
                    );
                    assert(spec_chunk_end(match_state, transition) == Some(u));
                    assert(ends1 == ends0.push(u));
                    if ends0.len() > 0 && is_stable_end(ends0.last()) {
                        let t = end_triple(ends0.last());
                        // The new unstable end moved past the stable one.
                        if !(t.0 < o) {
                            if t.0 == po && t.2 < pt {
                                assert(end_triple(u).2 > t.2);
                            } else {
                                // The mine side closed a region at t.
                                assert(kn >= 2 && t.0 == new_rs[j - 1].iter1_offset + new_rs[j
                                    - 1].size && t.1 == new_rs[j - 1].iter2_offset + new_rs[j
                                    - 1].size);
                                assert(t.0 <= new_rs[j].iter1_offset);
                                if t.0 == new_rs[j].iter1_offset {
                                    assert(t.1 < new_rs[j].iter2_offset);
                                }
                                assert(end_triple(u) != t);
                            }
                        }
                        assert(end_triple(u) != t);
                    }
                    // The entering anchor sits strictly inside both regions.
                    assert(o < new_rs[j].iter1_offset + new_rs[j].size);
                    let k = (ko - 1) / 2;
                    assert(region_events(other_rs, false)[ko]
                        == (MatchStateTransition::OtherStopsMatching(
                        ((other_rs[k].iter1_offset + other_rs[k].size) as usize),
                        ((other_rs[k].iter2_offset + other_rs[k].size) as usize),
                    )));
                    assert(o < other_rs[k].iter1_offset + other_rs[k].size);
                    assert(walk_p7_inv(next, ends1, kn + 1, ko, new_rs, other_rs, hh2));
                },
                _ => {
                    assert(false);
                },
            }
        } else {
            // A mine-side stop at the end of region `j`.
            assert(transition == (MatchStateTransition::NewStopsMatching(
                ((new_rs[j].iter1_offset + new_rs[j].size) as usize),
                ((new_rs[j].iter2_offset + new_rs[j].size) as usize),
            )));
            match match_state {
                MatchState::OnlyNewMatches(ao, an) => {
                    assert(ends1 == ends0);
                    if ends0.len() > 0 && is_stable_end(ends0.last()) {
                        let t = end_triple(ends0.last());
                        if t.0 == ao {
                            // The anchor sits strictly inside the region, so
                            // the next event lies strictly past t.
                            assert(t.0 < o);
                        }
                    }
                    assert(walk_p7_inv(next, ends1, kn + 1, ko, new_rs, other_rs, hh2));
                },
                MatchState::BothMatch(ao, an, at) => {
                    let st = ChunkEnd::Stable(
                        ((new_rs[j].iter1_offset + new_rs[j].size) as usize),
                        ((new_rs[j].iter2_offset + new_rs[j].size) as usize),
                        ((at + (o - ao)) as usize),
                    );
                    assert(spec_chunk_end(match_state, transition) == Some(st));
                    assert(ends1 == ends0.push(st));
                    assert(!is_stable_end(ends0.last()));
                    assert(end_triple(ends1.last()).0 == new_rs[j].iter1_offset + new_rs[j].size);
                    assert((kn + 1) / 2 - 1 == j);
                    assert(walk_p7_inv(next, ends1, kn + 1, ko, new_rs, other_rs, hh2));
                },
                _ => {
                    assert(false);
                },
            }
        }
    } else {
        let j = ko / 2;
        if ko % 2 == 0 {
            // A theirs-side start at the start of region `j`.
            assert(transition == (MatchStateTransition::OtherStartsMatching(
                other_rs[j].iter1_offset,
                other_rs[j].iter2_offset,
            )));
            match match_state {
                MatchState::NeitherMatch => {
                    assert(ends1 == ends0);
                    if ends0.len() > 0 && is_stable_end(ends0.last()) {
                        let t = end_triple(ends0.last());
                        if !(t.0 < o) && ko >= 2 && t.0 == other_rs[ko / 2 - 1].iter1_offset
                            + other_rs[ko / 2 - 1].size && t.2 == other_rs[ko / 2
                            - 1].iter2_offset + other_rs[ko / 2 - 1].size {
                            assert(t.0 <= other_rs[j].iter1_offset);
                            if t.0 == other_rs[j].iter1_offset {
                                assert(other_rs[j - 1].iter1_offset + other_rs[j - 1].size
                                    < other_rs[j].iter1_offset || other_rs[j - 1].iter2_offset
                                    + other_rs[j - 1].size < other_rs[j].iter2_offset);
                                assert(t.2 < other_rs[j].iter2_offset);
                            }
                        }
                    }
                    assert(walk_p7_inv(next, ends1, kn, ko + 1, new_rs, other_rs, hh2));
                },
                MatchState::OnlyNewMatches(po, pn) => {
                    let u = ChunkEnd::Unstable(
                        ((o) as usize),
                        ((pn + (o - po)) as usize),
                        other_rs[j].iter2_offset,
                    );
                    assert(spec_chunk_end(match_state, transition) == Some(u));
                    assert(ends1 == ends0.push(u));
                    if ends0.len() > 0 && is_stable_end(ends0.last()) {
                        let t = end_triple(ends0.last());
                        if !(t.0 < o) {
                            if t.0 == po && t.1 < pn {
                                assert(end_triple(u).1 > t.1);
                            } else {
                                assert(ko >= 2 && t.0 == other_rs[j - 1].iter1_offset + other_rs[j
                                    - 1].size && t.2 == other_rs[j - 1].iter2_offset + other_rs[j
                                    - 1].size);
                                assert(t.0 <= other_rs[j].iter1_offset);
                                if t.0 == other_rs[j].iter1_offset {
                                    assert(t.2 < other_rs[j].iter2_offset);
                                }
                                assert(end_triple(u) != t);
                            }
                        }
                        assert(end_triple(u) != t);
                    }
                    assert(o < other_rs[j].iter1_offset + other_rs[j].size);
                    let k2 = (kn - 1) / 2;
                    assert(region_events(new_rs, true)[kn]
                        == (MatchStateTransition::NewStopsMatching(
                        ((new_rs[k2].iter1_offset + new_rs[k2].size) as usize),
                        ((new_rs[k2].iter2_offset + new_rs[k2].size) as usize),
                    )));
                    assert(o < new_rs[k2].iter1_offset + new_rs[k2].size);
                    assert(walk_p7_inv(next, ends1, kn, ko + 1, new_rs, other_rs, hh2));
                },
                _ => {
                    assert(false);
                },
            }
        } else {
            // A theirs-side stop at the end of region `j`.
            assert(transition == (MatchStateTransition::OtherStopsMatching(
                ((other_rs[j].iter1_offset + other_rs[j].size) as usize),
                ((other_rs[j].iter2_offset + other_rs[j].size) as usize),
            )));
            match match_state {
                MatchState::OnlyOtherMatches(ao, at) => {
                    assert(ends1 == ends0);
                    if ends0.len() > 0 && is_stable_end(ends0.last()) {
                        let t = end_triple(ends0.last());
                        if t.0 == ao {
                            assert(t.0 < o);
                        }
                    }
                    assert(walk_p7_inv(next, ends1, kn, ko + 1, new_rs, other_rs, hh2));
                },
                MatchState::BothMatch(ao, an, at) => {
                    let st = ChunkEnd::Stable(
                        ((other_rs[j].iter1_offset + other_rs[j].size) as usize),
                        ((an + (o - ao)) as usize),
                        ((other_rs[j].iter2_offset + other_rs[j].size) as usize),
                    );
                    assert(spec_chunk_end(match_state, transition) == Some(st));
                    assert(ends1 == ends0.push(st));
                    assert(!is_stable_end(ends0.last()));
                    assert((ko + 1) / 2 - 1 == j);
                    assert(walk_p7_inv(next, ends1, kn, ko + 1, new_rs, other_rs, hh2));
                },
                _ => {
                    assert(false);
                },
            }
        }
    }
}

/// The chunks cover the three texts exactly: each chunk starts where the
/// previous one ended, a stable chunk advances all three sides by one
/// non-zero length, an unstable chunk advances each side by its own length
/// (not all zero), and the last chunk ends exactly at the three lengths.
pub open spec fn chunks_cover(
    chunks: Seq<Chunk>,
    o: int,
    n: int,
    t: int,
    old_len: int,
    new_len: int,
    other_len: int,
) -> bool
    decreases chunks.len(),
{
    if chunks.len() == 0 {
        o == old_len && n == new_len && t == other_len
    } else {
        match chunks[0] {
            Chunk::Stable(s, l) => s == o && l >= 1 && chunks_cover(
                chunks.drop_first(),
                o + l,
                n + l,
                t + l,
                old_len,
                new_len,
                other_len,
            ),
            Chunk::Unstable(ob, nb, tb) => ob.0 == o && nb.0 == n && tb.0 == t && ob.1 + nb.1
                + tb.1 >= 1 && chunks_cover(
                chunks.drop_first(),
                o + ob.1,
                n + nb.1,
                t + tb.1,
                old_len,
                new_len,
                other_len,
            ),
        }
    }
}

/// Ordered regions stay inside machine integers on both axes.
proof fn lemma_regions_arith(rs: Seq<CommonRegion>, len1: int, len2: int)
    requires
        regions_ordered(rs, len1, len2),
        0 <= len1 <= usize::MAX,
        0 <= len2 <= usize::MAX,
    ensures
        regions_arith(rs),
{
    assert forall|i: int| #![trigger rs[i]] 0 <= i < rs.len() implies rs[i].iter1_offset
        + rs[i].size <= usize::MAX && rs[i].iter2_offset + rs[i].size <= usize::MAX by {
        lemma_regions_in_bounds(rs, len1, len2, i);
    }
}

/// Whether the head of the merged remainder comes from the first stream.
pub open spec fn head_from_new(
    xs: Seq<MatchStateTransition>,
    ys: Seq<MatchStateTransition>,
    kn: int,
    ko: int,
) -> bool {
    xs.skip(kn).len() > 0 && (ys.skip(ko).len() == 0 || transition_le(
        xs.skip(kn)[0],
        ys.skip(ko)[0],
    ))
}

/// Identifies the head of the merged event stream: which stream it comes
/// from, how consuming it advances the remainder, and that event offsets
/// never decrease and stay inside the base.
#[verifier::rlimit(100)]
proof fn lemma_walk_head(
    xs: Seq<MatchStateTransition>,
    ys: Seq<MatchStateTransition>,
    kn: int,
    ko: int,
    transitions: Seq<MatchStateTransition>,
    idx: int,
    new_rs: Seq<CommonRegion>,
    other_rs: Seq<CommonRegion>,
    old_len: int,
    new_len: int,
    other_len: int,
)
    requires
        regions_ordered(new_rs, old_len, new_len),
        regions_ordered(other_rs, old_len, other_len),
        xs == region_events(new_rs, true),
        ys == region_events(other_rs, false),
        0 <= kn <= 2 * new_rs.len(),
        0 <= ko <= 2 * other_rs.len(),
        idx == kn + ko,
        0 <= idx < transitions.len(),
        transitions.skip(idx) == merge_events(xs.skip(kn), ys.skip(ko)),
        0 <= old_len <= usize::MAX,
        0 <= new_len <= usize::MAX,
        0 <= other_len <= usize::MAX,
    ensures
        head_from_new(xs, ys, kn, ko) ==> kn < 2 * new_rs.len() && transitions[idx] == xs[kn] && (
        ko < 2 * other_rs.len() ==> transition_le(transitions[idx], ys[ko])) && transitions.skip(
            idx + 1,
        ) == merge_events(xs.skip(kn + 1), ys.skip(ko)),
        !head_from_new(xs, ys, kn, ko) ==> ko < 2 * other_rs.len() && transitions[idx] == ys[ko]
            && (kn < 2 * new_rs.len() ==> transition_le(transitions[idx], xs[kn]))
            && transitions.skip(idx + 1) == merge_events(xs.skip(kn), ys.skip(ko + 1)),
        transition_old_offset(transitions[idx]) <= old_len,
        idx + 1 < transitions.len() ==> transition_old_offset(transitions[idx])
            <= transition_old_offset(transitions[idx + 1]) && transition_old_offset(
            transitions[idx + 1],
        ) <= old_len,
{
    let xrem = xs.skip(kn);
    let yrem = ys.skip(ko);
    let from_new = head_from_new(xs, ys, kn, ko);
    lemma_merge_len(xrem, yrem);
    assert(transitions.skip(idx)[0] == transitions[idx]);
    if xrem.len() > 0 {
        assert(xrem[0] == xs[kn]);
    }
    if yrem.len() > 0 {
        assert(yrem[0] == ys[ko]);
    }
    if from_new {
        if yrem.len() == 0 {
            assert(merge_events(xrem, yrem) == xrem);
            assert(xrem =~= seq![xrem[0]] + xrem.drop_first());
        }
        assert(merge_events(xrem, yrem) == seq![xrem[0]] + merge_events(xrem.drop_first(), yrem));
        assert(transitions[idx] == xs[kn]);
        assert(xrem.drop_first() =~= xs.skip(kn + 1));
        assert(transitions.skip(idx).drop_first() =~= transitions.skip(idx + 1));
        lemma_regions_in_bounds(new_rs, old_len, new_len, kn / 2);
    } else {
        assert(yrem.len() > 0);
        if xrem.len() > 0 {
            assert(!transition_le(xrem[0], yrem[0]));
            assert(transition_le(yrem[0], xrem[0]));
        }
        if xrem.len() == 0 {
            assert(merge_events(xrem, yrem) == yrem);
            assert(yrem =~= seq![yrem[0]] + yrem.drop_first());
        }
        assert(merge_events(xrem, yrem) == seq![yrem[0]] + merge_events(xrem, yrem.drop_first()));
        assert(transitions[idx] == ys[ko]);
        assert(yrem.drop_first() =~= ys.skip(ko + 1));
        assert(transitions.skip(idx).drop_first() =~= transitions.skip(idx + 1));
        lemma_regions_in_bounds(other_rs, old_len, other_len, ko / 2);
    }
    if idx + 1 < transitions.len() {
        let kn2: int = if from_new {
            kn + 1
        } else {
            kn
        };
        let ko2: int = if from_new {
            ko
        } else {
            ko + 1
        };
        let xrem2 = xs.skip(kn2);
        let yrem2 = ys.skip(ko2);
        lemma_merge_len(xrem2, yrem2);
        let nxt = transitions[idx + 1];
        assert(transitions.skip(idx + 1)[0] == nxt);
        assert(nxt == merge_events(xrem2, yrem2)[0]);
        if xrem2.len() > 0 && (yrem2.len() == 0 || transition_le(xrem2[0], yrem2[0])) {
            if yrem2.len() == 0 {
                assert(merge_events(xrem2, yrem2) == xrem2);
            } else {
                assert(merge_events(xrem2, yrem2) == seq![xrem2[0]] + merge_events(
                    xrem2.drop_first(),
                    yrem2,
                ));
            }
            assert(nxt == xs[kn2]);
            if from_new {
                lemma_events_sorted(new_rs, true, old_len, new_len, kn, kn2);
            }
            lemma_regions_in_bounds(new_rs, old_len, new_len, kn2 / 2);
        } else {
            if xrem2.len() == 0 {
                assert(merge_events(xrem2, yrem2) == yrem2);
            } else {
                assert(merge_events(xrem2, yrem2) == seq![yrem2[0]] + merge_events(
                    xrem2,
                    yrem2.drop_first(),
                ));
            }
            assert(nxt == ys[ko2]);
            if !from_new {
                lemma_events_sorted(other_rs, false, old_len, other_len, ko, ko2);
            }
            lemma_regions_in_bounds(other_rs, old_len, other_len, ko2 / 2);
        }
    }
}

/// The chunk ends the machine emits over the events from position `i`,
/// folded purely: each event may close one end and steps the state.
pub open spec fn spec_walk_ends(
    transitions: Seq<MatchStateTransition>,
    state: MatchState,
    i: int,
) -> Seq<ChunkEnd>
    decreases transitions.len() - i,
{
    if i < 0 || i >= transitions.len() {
        Seq::empty()
    } else {
        let rest = spec_walk_ends(transitions, spec_next_state(state, transitions[i]), i + 1);
        match spec_chunk_end(state, transitions[i]) {
            Some(ce) => seq![ce] + rest,
            None => rest,
        }
    }
}

/// The chunks materialized from the ends, from running offsets `(o, n, t)`:
/// a stable end that moved in the base closes a stable chunk, an unstable
/// end that moved anywhere closes an unstable chunk, and an end that moved
/// nowhere is dropped.
pub open spec fn spec_materialize(ends: Seq<ChunkEnd>, o: int, n: int, t: int) -> Seq<Chunk>
    decreases ends.len(),
{
    if ends.len() == 0 {
        Seq::empty()
    } else {
        match ends[0] {
            ChunkEnd::Stable(old, new, other) => if old != o {
                seq![(Chunk::Stable((o as usize), ((old - o) as usize)))] + spec_materialize(
                    ends.drop_first(),
                    old as int,
                    new as int,
                    other as int,
                )
            } else {
                spec_materialize(ends.drop_first(), o, n, t)
            },
            ChunkEnd::Unstable(old, new, other) => if old != o || new != n || other != t {
                seq![
                    (Chunk::Unstable(
                        ((o as usize), ((old - o) as usize)),
                        ((n as usize), ((new - n) as usize)),
                        ((t as usize), ((other - t) as usize)),
                    )),
                ] + spec_materialize(ends.drop_first(), old as int, new as int, other as int)
            } else {
                spec_materialize(ends.drop_first(), o, n, t)
            },
        }
    }
}

/// What `parse` computes, as a function of the two region lists and the
/// three lengths: the machine's chunk ends over the merged event stream,
/// flushed by the terminal end, materialized into chunks.
pub open spec fn spec_parse(
    new_rs: Seq<CommonRegion>,
    other_rs: Seq<CommonRegion>,
    old_len: usize,
    new_len: usize,
    other_len: usize,
) -> Seq<Chunk> {
    let transitions = merge_events(region_events(new_rs, true), region_events(other_rs, false));
    let ends = spec_walk_ends(transitions, MatchState::NeitherMatch, 0).push(
        ChunkEnd::Unstable(old_len, new_len, other_len),
    );
    spec_materialize(ends, 0, 0, 0)
}

/// Both subsequences are the single region covering all of three
/// equally long texts: the case of three identical inputs.
pub open spec fn single_full_pair(
    new_rs: Seq<CommonRegion>,
    other_rs: Seq<CommonRegion>,
    old_len: usize,
    new_len: usize,
    other_len: usize,
) -> bool {
    &&& old_len >= 1
    &&& new_len == old_len
    &&& other_len == old_len
    &&& new_rs == seq![(CommonRegion { iter1_offset: 0, iter2_offset: 0, size: old_len })]
    &&& other_rs == seq![(CommonRegion { iter1_offset: 0, iter2_offset: 0, size: old_len })]
}

/// With one full region on each side, the merged event stream is exactly:
/// both sides start at the origin, both stop at the end.
proof fn lemma_single_full_region_events(l: usize)
    requires
        l >= 1,
    ensures
        ({
            let r = CommonRegion { iter1_offset: 0, iter2_offset: 0, size: l };
            merge_events(region_events(seq![r], true), region_events(seq![r], false)) == seq![
                MatchStateTransition::NewStartsMatching(0, 0),
                MatchStateTransition::OtherStartsMatching(0, 0),
                MatchStateTransition::NewStopsMatching(l, l),
                MatchStateTransition::OtherStopsMatching(l, l),
            ]
        }),
{
    let r = CommonRegion { iter1_offset: 0, iter2_offset: 0, size: l };
    let xs = region_events(seq![r], true);
    let ys = region_events(seq![r], false);
    let ns = MatchStateTransition::NewStartsMatching(0, 0);
    let nstop = MatchStateTransition::NewStopsMatching(l, l);
    let os = MatchStateTransition::OtherStartsMatching(0, 0);
    let ostop = MatchStateTransition::OtherStopsMatching(l, l);
    assert(xs =~= seq![ns, nstop]);
    assert(ys =~= seq![os, ostop]);
    assert(transition_le(xs[0], ys[0]));
    assert(xs.drop_first() =~= seq![nstop]);
    assert(merge_events(xs, ys) == seq![ns] + merge_events(seq![nstop], ys));
    assert(!transition_le(nstop, ys[0]));
    assert(ys.drop_first() =~= seq![ostop]);
    assert(merge_events(seq![nstop], ys) == seq![os] + merge_events(seq![nstop], seq![ostop]));
    assert(transition_le(nstop, ostop));
    let e1: Seq<MatchStateTransition> = seq![nstop];
    assert(e1.drop_first() =~= Seq::<MatchStateTransition>::empty());
    assert(merge_events(seq![nstop], seq![ostop]) == seq![nstop] + merge_events(
        Seq::<MatchStateTransition>::empty(),
        seq![ostop],
    ));
    assert(merge_events(Seq::<MatchStateTransition>::empty(), seq![ostop]) == seq![ostop]);
    assert(merge_events(xs, ys) =~= seq![ns, os, nstop, ostop]);
}

/// Walking the identity event stream emits one unstable end at the origin
/// and one stable end at the common length.
proof fn lemma_single_walk_ends(l: usize)
    requires
        l >= 1,
    ensures
        spec_walk_ends(
            seq![
                MatchStateTransition::NewStartsMatching(0, 0),
                MatchStateTransition::OtherStartsMatching(0, 0),
                MatchStateTransition::NewStopsMatching(l, l),
                MatchStateTransition::OtherStopsMatching(l, l),
            ],
            MatchState::NeitherMatch,
            0,
        ) == seq![(ChunkEnd::Unstable(0, 0, 0)), (ChunkEnd::Stable(l, l, l))],
{
    let ts = seq![
        MatchStateTransition::NewStartsMatching(0, 0),
        MatchStateTransition::OtherStartsMatching(0, 0),
        MatchStateTransition::NewStopsMatching(l, l),
        MatchStateTransition::OtherStopsMatching(l, l),
    ];
    let s0 = MatchState::NeitherMatch;
    let s1 = spec_next_state(s0, ts[0]);
    let s2 = spec_next_state(s1, ts[1]);
    let s3 = spec_next_state(s2, ts[2]);
    let s4 = spec_next_state(s3, ts[3]);
    assert(s1 == (MatchState::OnlyNewMatches(0, 0)));
    assert(s2 == (MatchState::BothMatch(0, 0, 0)));
    assert(s3 == (MatchState::OnlyOtherMatches(0, 0)));
    assert(spec_chunk_end(s0, ts[0]) is None);
    assert(spec_chunk_end(s1, ts[1]) == Some(ChunkEnd::Unstable(0, 0, 0)));
    assert(spec_chunk_end(s2, ts[2]) == Some(ChunkEnd::Stable(l, l, l)));
    assert(spec_chunk_end(s3, ts[3]) is None);
    assert(spec_walk_ends(ts, s4, 4) =~= Seq::<ChunkEnd>::empty());
    assert(spec_walk_ends(ts, s3, 3) =~= Seq::<ChunkEnd>::empty());
    assert(spec_walk_ends(ts, s2, 2) =~= seq![(ChunkEnd::Stable(l, l, l))]);
    assert(spec_walk_ends(ts, s1, 1) =~= seq![
        (ChunkEnd::Unstable(0, 0, 0)),
        (ChunkEnd::Stable(l, l, l)),
    ]);
    assert(spec_walk_ends(ts, s0, 0) =~= seq![
        (ChunkEnd::Unstable(0, 0, 0)),
        (ChunkEnd::Stable(l, l, l)),
    ]);
}

/// Calculates the diff3 parse: from the subsequences for base/mine and
/// base/theirs, the ordered chunks that partition the base into stable
/// stretches (matched by both sides) and unstable ones. The chunks cover the
/// three texts exactly, and a stable chunk spans the same length in all
/// three.
#[verifier::rlimit(100)]
pub fn parse(
    new_lcs: CommonSubsequence,
    other_lcs: CommonSubsequence,
    old_len: usize,
    new_len: usize,
    other_len: usize,
) -> (chunks: Vec<Chunk>)
    requires
        regions_ordered(new_lcs.common_regions@, old_len as int, new_len as int),
        regions_ordered(other_lcs.common_regions@, old_len as int, other_len as int),
    ensures
        chunks_cover(chunks@, 0, 0, 0, old_len as int, new_len as int, other_len as int),
        single_full_pair(
            new_lcs.common_regions@,
            other_lcs.common_regions@,
            old_len,
            new_len,
            other_len,
        ) ==> chunks@ == seq![(Chunk::Stable(0, old_len))],
        regions_normalized(new_lcs.common_regions@) && regions_normalized(
            other_lcs.common_regions@,
        ) ==> no_consecutive_stables(chunks@),
        chunks@ == spec_parse(
            new_lcs.common_regions@,
            other_lcs.common_regions@,
            old_len,
            new_len,
            other_len,
        ),
{
    let ghost new_rs = new_lcs.common_regions@;
    let ghost other_rs = other_lcs.common_regions@;
    proof {
        lemma_regions_arith(new_rs, old_len as int, new_len as int);
        lemma_regions_arith(other_rs, old_len as int, other_len as int);
    }
    let match_state_transitions = calculate_match_state_transitions(new_lcs, other_lcs);
    let ghost single = single_full_pair(new_rs, other_rs, old_len, new_len, other_len);
    let chunk_ends = walk_all(
        &match_state_transitions,
        old_len,
        new_len,
        other_len,
        Ghost(new_rs),
        Ghost(other_rs),
        Ghost(single),
    );
    finish_parse(chunk_ends, old_len, new_len, other_len, Ghost(single))
}

/// Walks the sorted event stream through the match-state machine and
/// collects the chunk ends it closes.
#[verifier::rlimit(100)]
fn walk_all(
    match_state_transitions: &Vec<MatchStateTransition>,
    old_len: usize,
    new_len: usize,
    other_len: usize,
    Ghost(new_rs): Ghost<Seq<CommonRegion>>,
    Ghost(other_rs): Ghost<Seq<CommonRegion>>,
    Ghost(single): Ghost<bool>,
) -> (r: Vec<ChunkEnd>)
    requires
        regions_ordered(new_rs, old_len as int, new_len as int),
        regions_ordered(other_rs, old_len as int, other_len as int),
        match_state_transitions@ == merge_events(
            region_events(new_rs, true),
            region_events(other_rs, false),
        ),
        single == single_full_pair(new_rs, other_rs, old_len, new_len, other_len),
    ensures
        ends_ok(r@),
        r@.len() > 0 ==> triple_le(
            end_triple(r@.last()),
            (old_len as int, new_len as int, other_len as int),
        ),
        single ==> r@ == seq![
            (ChunkEnd::Unstable(0, 0, 0)),
            (ChunkEnd::Stable(old_len, old_len, old_len)),
        ],
        regions_normalized(new_rs) && regions_normalized(other_rs) ==> ends_separate_stables(r@),
        r@ == spec_walk_ends(match_state_transitions@, MatchState::NeitherMatch, 0),
{
    let ghost xs = region_events(new_rs, true);
    let ghost ys = region_events(other_rs, false);
    let ghost norm = regions_normalized(new_rs) && regions_normalized(other_rs);

    let mut chunk_ends: Vec<ChunkEnd> = Vec::new();
    let mut match_state = MatchState::NeitherMatch;
    let mut idx: usize = 0;
    let ghost mut kn: int = 0;
    let ghost mut ko: int = 0;
    proof {
        assert(xs.skip(0) =~= xs);
        assert(ys.skip(0) =~= ys);
    }
    while idx < match_state_transitions.len()
        invariant
            regions_ordered(new_rs, old_len as int, new_len as int),
            regions_ordered(other_rs, old_len as int, other_len as int),
            xs == region_events(new_rs, true),
            ys == region_events(other_rs, false),
            match_state_transitions@ == merge_events(xs, ys),
            0 <= kn <= 2 * new_rs.len(),
            0 <= ko <= 2 * other_rs.len(),
            idx == kn + ko,
            idx <= match_state_transitions@.len(),
            match_state_transitions@.skip(idx as int) == merge_events(xs.skip(kn), ys.skip(ko)),
            walk_inv(
                match_state,
                chunk_ends@,
                kn,
                ko,
                new_rs,
                other_rs,
                old_len as int,
                new_len as int,
                other_len as int,
                (if idx < match_state_transitions@.len() {
                    transition_old_offset(match_state_transitions@[idx as int])
                } else {
                    old_len as int
                }),
            ),
            norm == (regions_normalized(new_rs) && regions_normalized(other_rs)),
            spec_walk_ends(match_state_transitions@, MatchState::NeitherMatch, 0) == chunk_ends@
                + spec_walk_ends(match_state_transitions@, match_state, idx as int),
            norm ==> walk_p7_inv(
                match_state,
                chunk_ends@,
                kn,
                ko,
                new_rs,
                other_rs,
                (if idx < match_state_transitions@.len() {
                    transition_old_offset(match_state_transitions@[idx as int])
                } else {
                    old_len as int
                }),
            ),
        decreases match_state_transitions@.len() - idx,
    {
        let transition = match_state_transitions[idx];
        let ghost from_new = head_from_new(xs, ys, kn, ko);
        let ghost hh2 = if idx + 1 < match_state_transitions@.len() {
            transition_old_offset(match_state_transitions@[idx + 1])
        } else {
            old_len as int
        };
        proof {
            lemma_walk_head(
                xs,
                ys,
                kn,
                ko,
                match_state_transitions@,
                idx as int,
                new_rs,
                other_rs,
                old_len as int,
                new_len as int,
                other_len as int,
            );
        }
        let ghost state0 = match_state;
        let ghost ends0 = chunk_ends@;
        match_state = walk_step(
            match_state,
            transition,
            &mut chunk_ends,
            Ghost(new_rs),
            Ghost(other_rs),
            Ghost(kn),
            Ghost(ko),
            Ghost(old_len as int),
            Ghost(new_len as int),
            Ghost(other_len as int),
            Ghost(hh2),
            Ghost(from_new),
        );
        let ghost ends_before = ends0;
        proof {
            assert(seq![transition] =~= seq![match_state_transitions@[idx as int]]);
            match spec_chunk_end(state0, transition) {
                Some(ce) => {
                    assert(chunk_ends@ =~= ends_before.push(ce));
                    assert(ends_before + (seq![ce] + spec_walk_ends(
                        match_state_transitions@,
                        spec_next_state(state0, transition),
                        idx + 1,
                    )) =~= chunk_ends@ + spec_walk_ends(
                        match_state_transitions@,
                        spec_next_state(state0, transition),
                        idx + 1,
                    ));
                },
                None => {},
            }
            if norm {
                lemma_p7_step(
                    state0,
                    transition,
                    ends0,
                    chunk_ends@,
                    kn,
                    ko,
                    new_rs,
                    other_rs,
                    old_len as int,
                    new_len as int,
                    other_len as int,
                    hh2,
                    from_new,
                );
            }
            if from_new {
                kn = kn + 1;
            } else {
                ko = ko + 1;
            }
        }
        idx += 1;
    }
    proof {
        lemma_merge_len(xs.skip(kn), ys.skip(ko));
        assert(match_state_transitions@.skip(idx as int) =~= Seq::<MatchStateTransition>::empty());
        assert(xs.skip(kn).len() == 2 * new_rs.len() - kn);
        assert(ys.skip(ko).len() == 2 * other_rs.len() - ko);
        assert(kn == 2 * new_rs.len());
        assert(ko == 2 * other_rs.len());
    }

    proof {
        if single {
            lemma_single_full_region_events(old_len);
            lemma_single_walk_ends(old_len);
            assert(chunk_ends@ =~= seq![
                (ChunkEnd::Unstable(0, 0, 0)),
                (ChunkEnd::Stable(old_len, old_len, old_len)),
            ]);
        }
        assert(spec_walk_ends(match_state_transitions@, match_state, idx as int) =~= Seq::<
            ChunkEnd,
        >::empty());
        assert(chunk_ends@ + Seq::<ChunkEnd>::empty() =~= chunk_ends@);
        if norm {
            let ends = chunk_ends@;
            assert forall|j: int|
                1 <= j && j + 1 < ends.len() && is_stable_end(#[trigger] ends[j + 1]) implies
                !is_stable_end(ends[j]) && end_triple(ends[j]) != end_triple(ends[j - 1]) by {
                assert(!is_stable_end(ends[j]));
                assert(is_stable_end(ends[j - 1]));
            }
        }
    }
    chunk_ends
}

/// Materializing the identity ends gives one stable chunk covering the base.
proof fn lemma_materialize_identity(l: usize)
    requires
        l >= 1,
    ensures
        spec_materialize(
            seq![
                (ChunkEnd::Unstable(0, 0, 0)),
                (ChunkEnd::Stable(l, l, l)),
                (ChunkEnd::Unstable(l, l, l)),
            ],
            0,
            0,
            0,
        ) == seq![(Chunk::Stable(0, l))],
{
    let ends = seq![
        (ChunkEnd::Unstable(0, 0, 0)),
        (ChunkEnd::Stable(l, l, l)),
        (ChunkEnd::Unstable(l, l, l)),
    ];
    let e1 = ends.drop_first();
    let e2 = e1.drop_first();
    let e3 = e2.drop_first();
    assert(e1 =~= seq![(ChunkEnd::Stable(l, l, l)), (ChunkEnd::Unstable(l, l, l))]);
    assert(e2 =~= seq![(ChunkEnd::Unstable(l, l, l))]);
    assert(e3 =~= Seq::<ChunkEnd>::empty());
    assert(spec_materialize(e3, l as int, l as int, l as int) =~= Seq::<Chunk>::empty());
    assert(spec_materialize(e2, l as int, l as int, l as int) =~= Seq::<Chunk>::empty());
    assert(spec_materialize(e1, 0, 0, 0) =~= seq![(Chunk::Stable(0, l))] + spec_materialize(
        e2,
        l as int,
        l as int,
        l as int,
    ));
    assert(spec_materialize(ends, 0, 0, 0) =~= spec_materialize(e1, 0, 0, 0));
    assert(spec_materialize(ends, 0, 0, 0) =~= seq![(Chunk::Stable(0, l))]);
}

/// Appends the terminal unstable end and materializes the chunks.
fn finish_parse(
    ends: Vec<ChunkEnd>,
    old_len: usize,
    new_len: usize,
    other_len: usize,
    Ghost(single): Ghost<bool>,
) -> (chunks: Vec<Chunk>)
    requires
        ends_ok(ends@),
        ends@.len() > 0 ==> triple_le(
            end_triple(ends@.last()),
            (old_len as int, new_len as int, other_len as int),
        ),
        single ==> old_len >= 1 && new_len == old_len && other_len == old_len && ends@ == seq![
            (ChunkEnd::Unstable(0, 0, 0)),
            (ChunkEnd::Stable(old_len, old_len, old_len)),
        ],
    ensures
        chunks_cover(chunks@, 0, 0, 0, old_len as int, new_len as int, other_len as int),
        single ==> chunks@ == seq![(Chunk::Stable(0, old_len))],
        ends_separate_stables(ends@) ==> no_consecutive_stables(chunks@),
        chunks@ == spec_materialize(
            ends@.push(ChunkEnd::Unstable(old_len, new_len, other_len)),
            0,
            0,
            0,
        ),
{
    let ghost sep = ends_separate_stables(ends@);
    let ghost ends_in = ends@;
    let mut chunk_ends = ends;
    append_final_end(&mut chunk_ends, old_len, new_len, other_len);
    proof {
        assert(chunk_ends@ =~= ends_in.push(ChunkEnd::Unstable(old_len, new_len, other_len)));
        if sep {
            let e1 = chunk_ends@;
            let e0len = e1.len() - 1;
            assert forall|j: int|
                1 <= j && j + 1 < e1.len() && is_stable_end(#[trigger] e1[j + 1]) implies
                !is_stable_end(e1[j]) && end_triple(e1[j]) != end_triple(e1[j - 1]) by {
                assert(j + 1 < e0len || e1[j + 1] == (ChunkEnd::Unstable(
                    old_len,
                    new_len,
                    other_len,
                )));
            }
            assert(ends_separate_stables(chunk_ends@));
        }
        if single {
            assert(chunk_ends@ =~= seq![
                (ChunkEnd::Unstable(0, 0, 0)),
                (ChunkEnd::Stable(old_len, new_len, other_len)),
                (ChunkEnd::Unstable(old_len, new_len, other_len)),
            ]);
            lemma_materialize_identity(old_len);
        }
    }
    materialize_chunks(chunk_ends, old_len, new_len, other_len)
}

/// Appends the terminal synthetic unstable end at the three lengths,
/// which flushes any trailing region.
fn append_final_end(
    chunk_ends: &mut Vec<ChunkEnd>,
    old_len: usize,
    new_len: usize,
    other_len: usize,
)
    requires
        ends_ok(old(chunk_ends)@),
        old(chunk_ends)@.len() > 0 ==> triple_le(
            end_triple(old(chunk_ends)@.last()),
            (old_len as int, new_len as int, other_len as int),
        ),
    ensures
        ends_ok(final(chunk_ends)@),
        final(chunk_ends)@.len() == old(chunk_ends)@.len() + 1,
        final(chunk_ends)@.last() == (ChunkEnd::Unstable(old_len, new_len, other_len)),
        end_triple(final(chunk_ends)@.last()) == (
            old_len as int,
            new_len as int,
            other_len as int,
        ),
        forall|i: int|
            0 <= i < old(chunk_ends)@.len() ==> final(chunk_ends)@[i] == old(chunk_ends)@[i],
{
    let ghost ends0 = chunk_ends@;
    chunk_ends.push(ChunkEnd::Unstable(old_len, new_len, other_len));
    proof {
        let ends1 = chunk_ends@;
        assert(ends1.last() == (ChunkEnd::Unstable(old_len, new_len, other_len)));
        assert forall|i: int| #![trigger ends1[i]] 0 < i < ends1.len() implies triple_le(
            end_triple(ends1[i - 1]),
            end_triple(ends1[i]),
        ) && (is_stable_end(ends1[i]) ==> {
            let p = end_triple(ends1[i - 1]);
            let c = end_triple(ends1[i]);
            c.1 - p.1 == c.0 - p.0 && c.2 - p.2 == c.0 - p.0
        }) by {
            if i < ends1.len() - 1 {
                assert(ends1[i - 1] == ends0[i - 1]);
                assert(ends1[i] == ends0[i]);
            } else {
                if ends0.len() > 0 {
                    assert(ends1[i - 1] == ends0[ends0.len() - 1]);
                    assert(ends0.last() == ends0[ends0.len() - 1]);
                }
            }
        }
        assert(ends_ok(chunk_ends@));
    }
}

/// Two stable chunks can never be materialized back to back: the unstable
/// end before the second stable end moved past its predecessor, so it was
/// itself materialized in between.
proof fn lemma_no_stacked_stable(
    ends: Seq<ChunkEnd>,
    i: int,
    last_idx: int,
    o: int,
    n: int,
    t: int,
)
    requires
        ends_ok(ends),
        ends_separate_stables(ends),
        0 <= last_idx < i < ends.len(),
        is_stable_end(ends[last_idx]),
        (o, n, t) == end_triple(ends[last_idx]),
        forall|k: int| last_idx < k < i ==> end_triple(#[trigger] ends[k]) == (o, n, t),
    ensures
        !is_stable_end(ends[i]),
{
    if is_stable_end(ends[i]) {
        if i == 1 {
            assert(last_idx == 0);
            assert(!is_stable_end(ends[0]));
        } else {
            assert(is_stable_end(ends[(i - 1) + 1]));
            assert(!is_stable_end(ends[i - 1]));
            assert(end_triple(ends[i - 1]) != end_triple(ends[i - 2]));
            assert(last_idx != i - 1);
            assert(end_triple(ends[i - 1]) == (o, n, t));
            assert(end_triple(ends[i - 2]) == (o, n, t));
        }
    }
}

/// Each end's triple dominates its predecessor's (a virtual predecessor
/// for the first), and stable ends advance all three coordinates equally.
pub open spec fn ends_chain_from(ends: Seq<ChunkEnd>, o: int, n: int, t: int) -> bool {
    forall|i: int|
        #![trigger ends[i]]
        0 <= i < ends.len() ==> {
            let p = if i == 0 {
                (o, n, t)
            } else {
                end_triple(ends[i - 1])
            };
            let c = end_triple(ends[i]);
            &&& triple_le(p, c)
            &&& (is_stable_end(ends[i]) ==> c.1 - p.1 == c.0 - p.0 && c.2 - p.2 == c.0 - p.0)
        }
}

/// Materializing a chained end list covers the three texts from the
/// starting offsets to the last end's triple.
#[verifier::rlimit(100)]
proof fn lemma_materialize_cover(
    ends: Seq<ChunkEnd>,
    o: int,
    n: int,
    t: int,
    l0: int,
    l1: int,
    l2: int,
)
    requires
        0 <= o <= usize::MAX,
        0 <= n <= usize::MAX,
        0 <= t <= usize::MAX,
        ends_chain_from(ends, o, n, t),
        ends.len() == 0 ==> o == l0 && n == l1 && t == l2,
        ends.len() > 0 ==> end_triple(ends.last()) == (l0, l1, l2),
    ensures
        chunks_cover(spec_materialize(ends, o, n, t), o, n, t, l0, l1, l2),
    decreases ends.len(),
{
    if ends.len() > 0 {
        let c = end_triple(ends[0]);
        let rest = ends.drop_first();
        assert forall|i: int| #![trigger rest[i]] 0 <= i < rest.len() implies {
            let p = if i == 0 {
                c
            } else {
                end_triple(rest[i - 1])
            };
            let cc = end_triple(rest[i]);
            &&& triple_le(p, cc)
            &&& (is_stable_end(rest[i]) ==> cc.1 - p.1 == cc.0 - p.0 && cc.2 - p.2 == cc.0 - p.0)
        } by {
            assert(rest[i] == ends[i + 1]);
            if i > 0 {
                assert(rest[i - 1] == ends[i]);
            }
        }
        if rest.len() > 0 {
            assert(rest.last() == ends.last());
        }
        match ends[0] {
            ChunkEnd::Stable(old, new, other) => {
                lemma_materialize_cover(rest, old as int, new as int, other as int, l0, l1, l2);
                if old as int != o {
                    assert(spec_materialize(ends, o, n, t) == seq![
                        (Chunk::Stable((o as usize), (((old as int) - o) as usize))),
                    ] + spec_materialize(rest, old as int, new as int, other as int));
                    assert(spec_materialize(ends, o, n, t).drop_first() =~= spec_materialize(
                        rest,
                        old as int,
                        new as int,
                        other as int,
                    ));
                } else {
                    assert(c == (o, n, t));
                    assert(spec_materialize(ends, o, n, t) == spec_materialize(rest, o, n, t));
                }
            },
            ChunkEnd::Unstable(old, new, other) => {
                lemma_materialize_cover(rest, old as int, new as int, other as int, l0, l1, l2);
                if old as int != o || new as int != n || other as int != t {
                    assert(spec_materialize(ends, o, n, t).drop_first() =~= spec_materialize(
                        rest,
                        old as int,
                        new as int,
                        other as int,
                    ));
                } else {
                    assert(spec_materialize(ends, o, n, t) == spec_materialize(rest, o, n, t));
                }
            },
        }
    }
}

/// A well-formed end list chains from the origin.
proof fn lemma_chain_from_origin(ends: Seq<ChunkEnd>)
    requires
        ends_ok(ends),
    ensures
        ends_chain_from(ends, 0, 0, 0),
{
    assert forall|k: int| #![trigger ends[k]] 0 <= k < ends.len() implies {
        let p = if k == 0 {
            (0int, 0int, 0int)
        } else {
            end_triple(ends[k - 1])
        };
        let c = end_triple(ends[k]);
        &&& triple_le(p, c)
        &&& (is_stable_end(ends[k]) ==> c.1 - p.1 == c.0 - p.0 && c.2 - p.2 == c.0 - p.0)
    } by {
        if k == 0 {
            assert(!is_stable_end(ends[0]));
        }
    }
}

/// Materializes chunks from the chunk-end list by pairing each end with
/// the previous end's coordinates, dropping zero-length stable chunks and
/// fully empty unstable chunks.
#[verifier::rlimit(100)]
#[verifier::spinoff_prover]
fn materialize_chunks(
    chunk_ends: Vec<ChunkEnd>,
    old_len: usize,
    new_len: usize,
    other_len: usize,
) -> (chunks: Vec<Chunk>)
    requires
        ends_ok(chunk_ends@),
        chunk_ends@.len() >= 1,
        end_triple(chunk_ends@.last()) == (old_len as int, new_len as int, other_len as int),
    ensures
        chunks_cover(chunks@, 0, 0, 0, old_len as int, new_len as int, other_len as int),
        ends_separate_stables(chunk_ends@) ==> no_consecutive_stables(chunks@),
        chunks@ == spec_materialize(chunk_ends@, 0, 0, 0),
{
    let ghost sep = ends_separate_stables(chunk_ends@);
    let ghost mut last_idx: int = 0;
    let mut chunks: Vec<Chunk> = Vec::new();
    proof {
        assert(chunk_ends@.skip(0) =~= chunk_ends@);
        assert(Seq::<Chunk>::empty() + spec_materialize(chunk_ends@, 0, 0, 0) =~= spec_materialize(
            chunk_ends@,
            0,
            0,
            0,
        ));
    }
    let mut old_offset: usize = 0;
    let mut new_offset: usize = 0;
    let mut other_offset: usize = 0;
    let mut i: usize = 0;
    while i < chunk_ends.len()
        invariant
            ends_ok(chunk_ends@),
            chunk_ends@.len() >= 1,
            end_triple(chunk_ends@.last()) == (old_len as int, new_len as int, other_len as int),
            0 <= i <= chunk_ends@.len(),
            i == 0 ==> old_offset == 0 && new_offset == 0 && other_offset == 0,
            i > 0 ==> (old_offset as int, new_offset as int, other_offset as int) == end_triple(
                chunk_ends@[i - 1],
            ),
            sep == ends_separate_stables(chunk_ends@),
            sep ==> no_consecutive_stables(chunks@),
            spec_materialize(chunk_ends@, 0, 0, 0) == chunks@ + spec_materialize(
                chunk_ends@.skip(i as int),
                old_offset as int,
                new_offset as int,
                other_offset as int,
            ),
            sep && chunks@.len() > 0 ==> 0 <= last_idx < i && (chunks@.last() is Stable
                <==> is_stable_end(chunk_ends@[last_idx])) && (
            old_offset as int,
            new_offset as int,
            other_offset as int,
            ) == end_triple(chunk_ends@[last_idx]) && forall|k: int|
                last_idx < k < i ==> end_triple(#[trigger] chunk_ends@[k]) == (
                old_offset as int,
                new_offset as int,
                other_offset as int,
                ),
        decreases chunk_ends@.len() - i,
    {
        let ce = chunk_ends[i];
        proof {
            if i > 0 {
                assert(triple_le(end_triple(chunk_ends@[i - 1]), end_triple(chunk_ends@[i as int])));
            }
            assert(chunk_ends@.skip(i as int)[0] == chunk_ends@[i as int]);
            assert(chunk_ends@.skip(i as int).drop_first() =~= chunk_ends@.skip(i + 1));
        }
        match ce {
            ChunkEnd::Stable(old, new, other) => {
                proof {
                    assert(i > 0);
                    if sep && old != old_offset && chunks@.len() > 0 && chunks@.last() is Stable {
                        lemma_no_stacked_stable(
                            chunk_ends@,
                            i as int,
                            last_idx,
                            old_offset as int,
                            new_offset as int,
                            other_offset as int,
                        );
                    }
                }
                if old != old_offset {
                    let l = old - old_offset;
                    let ghost prev = chunks@;
                    chunks.push(Chunk::Stable(old_offset, l));
                    proof {
                        last_idx = i as int;
                        assert(chunks@.last() == (Chunk::Stable(old_offset, l)));
                        assert(prev + (seq![(Chunk::Stable(old_offset, l))] + spec_materialize(
                            chunk_ends@.skip(i + 1),
                            old as int,
                            new as int,
                            other as int,
                        )) =~= chunks@ + spec_materialize(
                            chunk_ends@.skip(i + 1),
                            old as int,
                            new as int,
                            other as int,
                        ));
                    }
                    old_offset = old;
                    new_offset = new;
                    other_offset = other;
                }
            },
            ChunkEnd::Unstable(old, new, other) => {
                if old != old_offset || new != new_offset || other != other_offset {
                    let ghost prev = chunks@;
                    let c = Chunk::Unstable(
                        (old_offset, old - old_offset),
                        (new_offset, new - new_offset),
                        (other_offset, other - other_offset),
                    );
                    chunks.push(c);
                    proof {
                        last_idx = i as int;
                        assert(prev + (seq![c] + spec_materialize(
                            chunk_ends@.skip(i + 1),
                            old as int,
                            new as int,
                            other as int,
                        )) =~= chunks@ + spec_materialize(
                            chunk_ends@.skip(i + 1),
                            old as int,
                            new as int,
                            other as int,
                        ));
                    }
                    old_offset = old;
                    new_offset = new;
                    other_offset = other;
                }
            },
        }
        i += 1;
    }
    proof {
        assert(chunk_ends@.skip(chunk_ends@.len() as int) =~= Seq::<ChunkEnd>::empty());
        assert(chunks@ + Seq::<Chunk>::empty() =~= chunks@);
        assert(spec_materialize(
            chunk_ends@.skip(chunk_ends@.len() as int),
            old_offset as int,
            new_offset as int,
            other_offset as int,
        ) =~= Seq::<Chunk>::empty());
        assert(chunks@ == spec_materialize(chunk_ends@, 0, 0, 0));
        lemma_chain_from_origin(chunk_ends@);
        lemma_materialize_cover(
            chunk_ends@,
            0,
            0,
            0,
            old_len as int,
            new_len as int,
            other_len as int,
        );
        assert(chunks_cover(
            chunks@,
            0,
            0,
            0,
            old_len as int,
            new_len as int,
            other_len as int,
        ));
    }
    chunks
}

/// Sentinel-wrapped content: `START marker START content END marker END`.
pub open spec fn marked_bytes(content: Seq<u8>, marker: Seq<u8>) -> Seq<u8> {
    crate::start_marker_bytes() + marker + crate::start_marker_bytes() + content
        + crate::end_marker_bytes() + marker + crate::end_marker_bytes()
}

/// The bytes one chunk contributes to the merged output. A stable chunk
/// copies the base. An unstable chunk is resolved by the fixed policy:
/// changed only in theirs, or changed differently in all three, keeps
/// theirs wrapped in markers; changed only in mine, or changed identically
/// in both, keeps mine; a chunk whose three readings are equal adds nothing.
pub open spec fn chunk_bytes(
    c: Chunk,
    ot: Seq<Seq<u8>>,
    nt: Seq<Seq<u8>>,
    tt: Seq<Seq<u8>>,
    marker: Seq<u8>,
) -> Seq<u8> {
    match c {
        Chunk::Stable(s, l) => ot.subrange(s as int, s + l).flatten(),
        Chunk::Unstable(ob, nb, tb) => {
            let oldc = ot.subrange(ob.0 as int, ob.0 + ob.1).flatten();
            let newc = nt.subrange(nb.0 as int, nb.0 + nb.1).flatten();
            let otherc = tt.subrange(tb.0 as int, tb.0 + tb.1).flatten();
            if oldc == newc && oldc != otherc {
                marked_bytes(otherc, marker)
            } else if oldc != newc && oldc == otherc {
                newc
            } else if oldc != newc && newc == otherc {
                newc
            } else if oldc != newc && oldc != otherc && newc != otherc {
                marked_bytes(otherc, marker)
            } else {
                Seq::empty()
            }
        },
    }
}

/// The merged output: each chunk's contribution, in order.
pub open spec fn resolve_chunks(
    chunks: Seq<Chunk>,
    ot: Seq<Seq<u8>>,
    nt: Seq<Seq<u8>>,
    tt: Seq<Seq<u8>>,
    marker: Seq<u8>,
) -> Seq<u8>
    decreases chunks.len(),
{
    if chunks.len() == 0 {
        Seq::empty()
    } else {
        chunk_bytes(chunks[0], ot, nt, tt, marker) + resolve_chunks(
            chunks.drop_first(),
            ot,
            nt,
            tt,
            marker,
        )
    }
}

/// Resolving one more chunk appends its contribution.
proof fn lemma_resolve_push(
    chunks: Seq<Chunk>,
    c: Chunk,
    ot: Seq<Seq<u8>>,
    nt: Seq<Seq<u8>>,
    tt: Seq<Seq<u8>>,
    marker: Seq<u8>,
)
    ensures
        resolve_chunks(chunks.push(c), ot, nt, tt, marker) == resolve_chunks(
            chunks,
            ot,
            nt,
            tt,
            marker,
        ) + chunk_bytes(c, ot, nt, tt, marker),
    decreases chunks.len(),
{
    if chunks.len() == 0 {
        let s = chunks.push(c);
        assert(s[0] == c);
        assert(s.drop_first() =~= Seq::<Chunk>::empty());
        assert(resolve_chunks(s.drop_first(), ot, nt, tt, marker) =~= Seq::<u8>::empty());
        assert(resolve_chunks(s, ot, nt, tt, marker) =~= resolve_chunks(chunks, ot, nt, tt, marker)
            + chunk_bytes(c, ot, nt, tt, marker));
    } else {
        assert(chunks.push(c)[0] == chunks[0]);
        assert(chunks.push(c).drop_first() =~= chunks.drop_first().push(c));
        lemma_resolve_push(chunks.drop_first(), c, ot, nt, tt, marker);
        assert(resolve_chunks(chunks.push(c), ot, nt, tt, marker) =~= resolve_chunks(
            chunks,
            ot,
            nt,
            tt,
            marker,
        ) + chunk_bytes(c, ot, nt, tt, marker));
    }
}

/// A cover chain never runs past the three lengths.
proof fn lemma_cover_bounds(
    chunks: Seq<Chunk>,
    o: int,
    n: int,
    t: int,
    old_len: int,
    new_len: int,
    other_len: int,
)
    requires
        chunks_cover(chunks, o, n, t, old_len, new_len, other_len),
    ensures
        o <= old_len && n <= new_len && t <= other_len,
    decreases chunks.len(),
{
    if chunks.len() > 0 {
        match chunks[0] {
            Chunk::Stable(s, l) => {
                lemma_cover_bounds(
                    chunks.drop_first(),
                    o + l,
                    n + l,
                    t + l,
                    old_len,
                    new_len,
                    other_len,
                );
            },
            Chunk::Unstable(ob, nb, tb) => {
                lemma_cover_bounds(
                    chunks.drop_first(),
                    o + ob.1,
                    n + nb.1,
                    t + tb.1,
                    old_len,
                    new_len,
                    other_len,
                );
            },
        }
    }
}

/// A cover chain from a point to itself holds no chunk: every chunk
/// advances at least one side.
proof fn lemma_cover_fixpoint(chunks: Seq<Chunk>, o: int, n: int, t: int)
    requires
        chunks_cover(chunks, o, n, t, o, n, t),
    ensures
        chunks =~= Seq::<Chunk>::empty(),
{
    if chunks.len() > 0 {
        match chunks[0] {
            Chunk::Stable(st, l) => {
                lemma_cover_bounds(chunks.drop_first(), o + l, n + l, t + l, o, n, t);
            },
            Chunk::Unstable(ob, nb, tb) => {
                lemma_cover_bounds(chunks.drop_first(), o + ob.1, n + nb.1, t + tb.1, o, n, t);
            },
        }
    }
}

/// Flattening after appending one more piece appends its contents.
pub proof fn lemma_flatten_push(s: Seq<Seq<u8>>, x: Seq<u8>)
    ensures
        s.push(x).flatten() == s.flatten() + x,
{
    s.lemma_flatten_and_flatten_alt_are_equivalent();
    s.push(x).lemma_flatten_and_flatten_alt_are_equivalent();
    assert(s.push(x).drop_last() =~= s);
    assert(s.push(x).flatten_alt() == s.flatten_alt() + x);
}

/// Appends tokens `start .. start + len` of `toks` to `out`.
fn append_tokens(out: &mut Vec<u8>, toks: &Vec<Vec<u8>>, start: usize, len: usize)
    requires
        start + len <= toks@.len(),
    ensures
        final(out)@ == old(out)@ + toks.deep_view().subrange(
            start as int,
            start + len,
        ).flatten(),
{
    let ghost dv = toks.deep_view();
    let tlen = toks.len();
    let mut k: usize = 0;
    proof {
        assert(dv.subrange(start as int, start as int).flatten() =~= Seq::<u8>::empty());
        assert(old(out)@ + dv.subrange(start as int, start as int).flatten() =~= old(out)@);
    }
    while k < len
        invariant
            start + len <= tlen,
            tlen == toks@.len(),
            dv == toks.deep_view(),
            0 <= k <= len,
            out@ == old(out)@ + dv.subrange(start as int, start + k).flatten(),
        decreases len - k,
    {
        proof {
            crate::longest_common_subsequence::lemma_deep_view_index(toks, start + k);
        }
        append_bytes(out, &toks[start + k]);
        proof {
            assert(dv.subrange(start as int, start + k + 1) =~= dv.subrange(
                start as int,
                start + k,
            ).push(dv[start + k]));
            lemma_flatten_push(dv.subrange(start as int, start + k), dv[start + k]);
            assert(out@ =~= old(out)@ + dv.subrange(start as int, start + k + 1).flatten());
        }
        k += 1;
    }
}

/// The bytes of tokens `start .. start + len` of `toks`, concatenated.
fn concat_tokens(toks: &Vec<Vec<u8>>, start: usize, len: usize) -> (r: Vec<u8>)
    requires
        start + len <= toks@.len(),
    ensures
        r@ == toks.deep_view().subrange(start as int, start + len).flatten(),
{
    let mut r: Vec<u8> = Vec::new();
    append_tokens(&mut r, toks, start, len);
    proof {
        assert(Seq::<u8>::empty() + toks.deep_view().subrange(start as int, start + len).flatten()
            =~= toks.deep_view().subrange(start as int, start + len).flatten());
    }
    r
}

/// Appends sentinel-wrapped content to `out`.
fn append_marked(out: &mut Vec<u8>, content: &Vec<u8>, marker: &[u8])
    ensures
        final(out)@ == old(out)@ + marked_bytes(content@, marker@),
{
    push_start_marker(out);
    append_slice(out, marker);
    push_start_marker(out);
    append_bytes(out, content);
    push_end_marker(out);
    append_slice(out, marker);
    push_end_marker(out);
    proof {
        assert(out@ =~= old(out)@ + marked_bytes(content@, marker@));
    }
}

/// Emits the merged bytes chunk by chunk: stable chunks copy the base, and
/// each unstable chunk is resolved by the fixed policy.
#[verifier::rlimit(100)]
fn resolve_all(
    chunks: &Vec<Chunk>,
    old_words: &Vec<Vec<u8>>,
    new_words: &Vec<Vec<u8>>,
    other_words: &Vec<Vec<u8>>,
    marker: &[u8],
) -> (bytes: Vec<u8>)
    requires
        chunks_cover(
            chunks@,
            0,
            0,
            0,
            old_words@.len() as int,
            new_words@.len() as int,
            other_words@.len() as int,
        ),
    ensures
        bytes@ == resolve_chunks(
            chunks@,
            old_words.deep_view(),
            new_words.deep_view(),
            other_words.deep_view(),
            marker@,
        ),
{
    let ghost ot = old_words.deep_view();
    let ghost nt = new_words.deep_view();
    let ghost tt = other_words.deep_view();
    let old_count = old_words.len();
    let new_count = new_words.len();
    let other_count = other_words.len();
    let mut bytes: Vec<u8> = Vec::new();
    let mut o_idx: usize = 0;
    let mut n_idx: usize = 0;
    let mut t_idx: usize = 0;
    let mut ci: usize = 0;
    proof {
        assert(chunks@.skip(0) =~= chunks@);
        assert(chunks@.take(0) =~= Seq::<Chunk>::empty());
    }
    while ci < chunks.len()
        invariant
            0 <= ci <= chunks@.len(),
            ot == old_words.deep_view(),
            nt == new_words.deep_view(),
            tt == other_words.deep_view(),
            old_count == old_words@.len(),
            new_count == new_words@.len(),
            other_count == other_words@.len(),
            chunks_cover(
                chunks@.skip(ci as int),
                o_idx as int,
                n_idx as int,
                t_idx as int,
                old_count as int,
                new_count as int,
                other_count as int,
            ),
            bytes@ == resolve_chunks(chunks@.take(ci as int), ot, nt, tt, marker@),
        decreases chunks@.len() - ci,
    {
        let ghost rem = chunks@.skip(ci as int);
        proof {
            assert(rem[0] == chunks@[ci as int]);
            assert(rem.drop_first() =~= chunks@.skip(ci + 1));
            match chunks@[ci as int] {
                Chunk::Stable(s, l) => {
                    lemma_cover_bounds(
                        rem.drop_first(),
                        o_idx + l,
                        n_idx + l,
                        t_idx + l,
                        old_count as int,
                        new_count as int,
                        other_count as int,
                    );
                },
                Chunk::Unstable(ob, nb, tb) => {
                    lemma_cover_bounds(
                        rem.drop_first(),
                        o_idx + ob.1,
                        n_idx + nb.1,
                        t_idx + tb.1,
                        old_count as int,
                        new_count as int,
                        other_count as int,
                    );
                },
            }
            assert(chunks@.take(ci + 1) =~= chunks@.take(ci as int).push(chunks@[ci as int]));
            lemma_resolve_push(chunks@.take(ci as int), chunks@[ci as int], ot, nt, tt, marker@);
        }
        let chunk = chunks[ci];
        match chunk {
            Chunk::Stable(start, length) => {
                append_tokens(&mut bytes, &old_words, start, length);
                o_idx = o_idx + length;
                n_idx = n_idx + length;
                t_idx = t_idx + length;
            },
            Chunk::Unstable(ob, nb, tb) => {
                let old_chunk = concat_tokens(&old_words, ob.0, ob.1);
                let new_chunk = concat_tokens(&new_words, nb.0, nb.1);
                let other_chunk = concat_tokens(&other_words, tb.0, tb.1);
                let old_eq_new = crate::longest_common_subsequence::tokens_equal(
                    &old_chunk,
                    &new_chunk,
                );
                let old_eq_other = crate::longest_common_subsequence::tokens_equal(
                    &old_chunk,
                    &other_chunk,
                );
                let new_eq_other = crate::longest_common_subsequence::tokens_equal(
                    &new_chunk,
                    &other_chunk,
                );
                if old_eq_new && !old_eq_other {
                    // Changed only in other.
                    append_marked(&mut bytes, &other_chunk, marker);
                } else if !old_eq_new && old_eq_other {
                    // Changed only in new.
                    append_bytes(&mut bytes, &new_chunk);
                } else if !old_eq_new && new_eq_other {
                    // Falsely conflicting: changed identically in both.
                    append_bytes(&mut bytes, &new_chunk);
                } else if !old_eq_new && !old_eq_other && !new_eq_other {
                    // Truly conflicting. With no user to intervene, and
                    // to keep as much of the reverted text as possible,
                    // keep other here and keep going.
                    append_marked(&mut bytes, &other_chunk, marker);
                }
                o_idx = o_idx + ob.1;
                n_idx = n_idx + nb.1;
                t_idx = t_idx + tb.1;
            },
        }
        ci += 1;
    }

    proof {
        assert(chunks@.take(chunks@.len() as int) =~= chunks@);
    }
    bytes
}

/// The merged output for the three texts: for some pair of valid, globally
/// optimal subsequences of the token sequences (base/mine and base/theirs),
/// the chunks are exactly the diff3 parse of that pair, they cover the
/// three token sequences with no two stable chunks adjacent, and the output
/// resolves them chunk by chunk under the fixed policy.
pub open spec fn merged_output(
    old_text: Seq<u8>,
    new_text: Seq<u8>,
    other_text: Seq<u8>,
    marker: Seq<u8>,
    out: Seq<u8>,
) -> bool {
    let ot = crate::words::spec_tokens(old_text);
    let nt = crate::words::spec_tokens(new_text);
    let tt = crate::words::spec_tokens(other_text);
    exists|cs_m: CommonSubsequence, cs_t: CommonSubsequence|
        #![trigger valid_lcs(cs_m, ot, nt), valid_lcs(cs_t, ot, tt)]
        {
            let chunks = spec_parse(
                cs_m.common_regions@,
                cs_t.common_regions@,
                (ot.len() as usize),
                (nt.len() as usize),
                (tt.len() as usize),
            );
            &&& valid_lcs(cs_m, ot, nt)
            &&& valid_lcs(cs_t, ot, tt)
            &&& cs_m.size == crate::longest_common_subsequence::spec_lcs_len(ot, nt, 0, 0)
            &&& cs_t.size == crate::longest_common_subsequence::spec_lcs_len(ot, tt, 0, 0)
            &&& chunks_cover(chunks, 0, 0, 0, ot.len() as int, nt.len() as int, tt.len() as int)
            &&& no_consecutive_stables(chunks)
            &&& out == resolve_chunks(chunks, ot, nt, tt, marker)
        }
}

/// Resolving the identity parse reproduces the base text: one stable chunk
/// covering every token, or no chunk at all for an empty text.
proof fn lemma_resolve_identity(
    chunks: Seq<Chunk>,
    ot: Seq<Seq<u8>>,
    nt: Seq<Seq<u8>>,
    tt: Seq<Seq<u8>>,
    marker: Seq<u8>,
    text: Seq<u8>,
    old_count: usize,
)
    requires
        ot == crate::words::spec_tokens(text),
        old_count == ot.len(),
        old_count >= 1 ==> chunks == seq![(Chunk::Stable(0, old_count))],
        old_count == 0 ==> chunks_cover(chunks, 0, 0, 0, 0, 0, 0),
    ensures
        resolve_chunks(chunks, ot, nt, tt, marker) == text,
{
    crate::words::lemma_tokens_flatten(text);
    if old_count >= 1 {
        assert(chunks[0] == (Chunk::Stable(0, old_count)));
        assert(chunks.drop_first() =~= Seq::<Chunk>::empty());
        assert(resolve_chunks(chunks.drop_first(), ot, nt, tt, marker) == Seq::<u8>::empty());
        assert(resolve_chunks(chunks, ot, nt, tt, marker) == chunk_bytes(
            chunks[0],
            ot,
            nt,
            tt,
            marker,
        ) + Seq::<u8>::empty());
        assert(ot.subrange(0, old_count as int) =~= ot);
        assert(chunk_bytes(chunks[0], ot, nt, tt, marker) == ot.flatten());
        assert(resolve_chunks(chunks, ot, nt, tt, marker) =~= text);
    } else {
        lemma_cover_fixpoint(chunks, 0, 0, 0);
        assert(chunks =~= Seq::<Chunk>::empty());
        assert(text.len() == 0);
        assert(resolve_chunks(chunks, ot, nt, tt, marker) =~= text);
    }
}

/// Attempts three-way merges with a fixed size guard and time budget.
#[derive(Clone, Copy)]
pub struct Merger {
    /// The size (in bytes) above which a diff is automatically skipped,
    /// without any attempt to merge.
    diff_size_limit: usize,
    /// The time budget of each subsequence search, in milliseconds;
    /// `u64::MAX` disables the clock.
    diff_time_limit_ms: u64,
}

impl Merger {
    pub fn new(diff_size_limit: usize, diff_time_limit_ms: u64) -> (r: Merger)
        ensures
            r.spec_diff_size_limit() == diff_size_limit,
            r.spec_diff_time_limit_ms() == diff_time_limit_ms,
    {
        Merger { diff_size_limit, diff_time_limit_ms }
    }

    /// How far apart in size base and theirs may be before the merge is
    /// skipped.
    pub closed spec fn spec_diff_size_limit(&self) -> int {
        self.diff_size_limit as int
    }

    /// The time budget of each subsequence search, in milliseconds.
    pub closed spec fn spec_diff_time_limit_ms(&self) -> u64 {
        self.diff_time_limit_ms
    }

    /// The size guard's threshold, in bytes.
    pub fn diff_size_limit(&self) -> (r: usize)
        ensures
            r as int == self.spec_diff_size_limit(),
    {
        self.diff_size_limit
    }

    /// Attempts a three-way merge of `new` and `other` under the assumption
    /// that both diverged from `old`. If base and theirs differ in size by
    /// more than the size limit, or either subsequence search misses its
    /// deadline (the second component is then `true`), `new` comes back
    /// unchanged. Otherwise the output resolves a diff3 parse of the three
    /// token sequences chunk by chunk under the fixed policy, with kept
    /// insertions from `other` wrapped in `marker` sentinels.
    pub fn try_merge(&self, old: &[u8], new: &[u8], other: &[u8], marker: &[u8]) -> (r: (
        Vec<u8>,
        bool,
    ))
        requires
            old@.len() <= MAX_LCS_INPUT_LEN,
            new@.len() <= MAX_LCS_INPUT_LEN,
            other@.len() <= MAX_LCS_INPUT_LEN,
        ensures
            (if old@.len() >= other@.len() {
                old@.len() - other@.len()
            } else {
                other@.len() - old@.len()
            }) > self.spec_diff_size_limit() ==> r.0@ == new@ && r.1 == false,
            r.1 == true ==> r.0@ == new@,
            ((if old@.len() >= other@.len() {
                old@.len() - other@.len()
            } else {
                other@.len() - old@.len()
            }) <= self.spec_diff_size_limit() && r.1 == false) ==> merged_output(
                old@,
                new@,
                other@,
                marker@,
                r.0@,
            ),
            (self.spec_diff_time_limit_ms() == u64::MAX && old@ == new@ && old@ == other@)
                ==> r.0@ == old@ && r.1 == false,
            self.spec_diff_time_limit_ms() == u64::MAX ==> r.1 == false,
    {
        // It takes entirely too long to calculate diffs this large.
        let size_diff = if old.len() >= other.len() {
            old.len() - other.len()
        } else {
            other.len() - old.len()
        };
        if size_diff > self.diff_size_limit {
            return (vstd::slice::slice_to_vec(new), false);
        }

        let old_words = crate::words::tokenize(old);
        let new_words = crate::words::tokenize(new);
        let other_words = crate::words::tokenize(other);
        proof {
            crate::words::lemma_tokens_count(old@);
            crate::words::lemma_tokens_count(new@);
            crate::words::lemma_tokens_count(other@);
        }

        let new_lcs = crate::longest_common_subsequence::get_longest_common_subsequence(
            &old_words,
            &new_words,
            self.diff_time_limit_ms,
        );
        let other_lcs = crate::longest_common_subsequence::get_longest_common_subsequence(
            &old_words,
            &other_words,
            self.diff_time_limit_ms,
        );
        let (new_lcs, other_lcs) = match (new_lcs, other_lcs) {
            (Some(new_lcs), Some(other_lcs)) => (new_lcs, other_lcs),
            _ => {
                return (vstd::slice::slice_to_vec(new), true);
            },
        };

        let ghost ot = old_words.deep_view();
        let ghost nt = new_words.deep_view();
        let ghost tt = other_words.deep_view();
        let old_count = old_words.len();
        let new_count = new_words.len();
        let other_count = other_words.len();
        let chunks = parse(new_lcs, other_lcs, old_count, new_count, other_count);

        let bytes = resolve_all(&chunks, &old_words, &new_words, &other_words, marker);
        proof {
            assert(valid_lcs(new_lcs, ot, nt));
            assert(valid_lcs(other_lcs, ot, tt));
            assert(merged_output(old@, new@, other@, marker@, bytes@));
            if self.spec_diff_time_limit_ms() == u64::MAX && old@ == new@ && old@ == other@ {
                if old_count >= 1 {
                    assert(single_full_pair(
                        new_lcs.common_regions@,
                        other_lcs.common_regions@,
                        old_count,
                        new_count,
                        other_count,
                    ));
                }
                lemma_resolve_identity(chunks@, ot, nt, tt, marker@, old@, old_count);
            }
        }
        (bytes, false)
    }
}

} // verus!
