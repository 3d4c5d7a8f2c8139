//! Longest-common-subsequence search over token sequences, used by the
//! three-way merge. The search is best-first over the grid of offset pairs:
//! each queued task records how far it has come in both sequences and the
//! common subsequence collected so far; working a task means sliding down the
//! diagonal while tokens match, then trying one step right and one step down.
//! A dominance map prunes tasks that cannot beat an already-seen task at the
//! same offset pair, and a monotonic-clock deadline bounds the whole search.

use vstd::prelude::*;

use crate::clock::instant_now;
use crate::clock::millis_elapsed_exceeds;

verus! {

/// Upper bound on accepted token-sequence lengths; keeps every priority
/// computation comfortably inside machine integers.
pub const MAX_LCS_INPUT_LEN: usize = 0x4000_0000;

/// A run of `size` consecutive tokens that two sequences have in common,
/// starting at `iter1_offset` in the first and `iter2_offset` in the second.
#[derive(PartialEq, Eq, Structural, Clone, Copy, Debug)]
pub struct CommonRegion {
    /// The offset into the first sequence of the beginning of the common region.
    pub iter1_offset: usize,
    /// The offset into the second sequence of the beginning of the common region.
    pub iter2_offset: usize,
    /// The length of the region, in tokens.
    pub size: usize,
}

impl CommonRegion {
    pub fn new(iter1_offset: usize, iter2_offset: usize, size: usize) -> (r: CommonRegion)
        ensures
            r == (CommonRegion { iter1_offset, iter2_offset, size }),
    {
        CommonRegion { iter1_offset, iter2_offset, size }
    }
}

/// Total number of tokens covered by a list of regions.
pub open spec fn total_size(rs: Seq<CommonRegion>) -> int
    decreases rs.len(),
{
    if rs.len() == 0 {
        0
    } else {
        total_size(rs.drop_last()) + rs.last().size
    }
}

/// An ordered list of common regions whose projections on both sequences are
/// strictly increasing, with the total covered length cached in `size`.
#[derive(PartialEq, Eq, Clone, Debug)]
pub struct CommonSubsequence {
    pub common_regions: Vec<CommonRegion>,
    /// The total length of the common subsequence, in tokens.
    pub size: usize,
}

impl CommonSubsequence {
    pub fn new(common_regions: Vec<CommonRegion>) -> (r: CommonSubsequence)
        requires
            total_size(common_regions@) <= usize::MAX,
        ensures
            r.common_regions == common_regions,
            r.size == total_size(common_regions@),
    {
        let mut size: usize = 0;
        let mut i: usize = 0;
        proof {
            assert(common_regions@.take(0) =~= Seq::<CommonRegion>::empty());
        }
        while i < common_regions.len()
            invariant
                0 <= i <= common_regions@.len(),
                size == total_size(common_regions@.take(i as int)),
                total_size(common_regions@) <= usize::MAX,
            decreases common_regions@.len() - i,
        {
            proof {
                lemma_total_size_prefix(common_regions@, i as int);
                lemma_total_size_prefix_bound(common_regions@, i + 1);
                assert(common_regions@.take(i + 1).drop_last() =~= common_regions@.take(i as int));
                assert(common_regions@.take(i + 1).last() == common_regions@[i as int]);
            }
            size = size + common_regions[i].size;
            i = i + 1;
        }
        proof {
            assert(common_regions@.take(common_regions@.len() as int) =~= common_regions@);
        }
        CommonSubsequence { common_regions, size }
    }
}

/// Unfolds `total_size` one step at the end of a prefix.
proof fn lemma_total_size_prefix(rs: Seq<CommonRegion>, i: int)
    requires
        0 <= i < rs.len(),
    ensures
        total_size(rs.take(i + 1)) == total_size(rs.take(i)) + rs[i].size,
{
    assert(rs.take(i + 1).drop_last() =~= rs.take(i));
    assert(rs.take(i + 1).last() == rs[i]);
}

/// Region sizes are non-negative, so prefixes never exceed the total.
proof fn lemma_total_size_prefix_bound(rs: Seq<CommonRegion>, i: int)
    requires
        0 <= i <= rs.len(),
    ensures
        total_size(rs.take(i)) <= total_size(rs),
        0 <= total_size(rs.take(i)),
    decreases rs.len() - i, rs.len(),
{
    lemma_total_size_nonneg(rs.take(i));
    if i == rs.len() {
        assert(rs.take(i) =~= rs);
    } else {
        lemma_total_size_prefix(rs, i);
        lemma_total_size_prefix_bound(rs, i + 1);
    }
}

proof fn lemma_total_size_nonneg(rs: Seq<CommonRegion>)
    ensures
        0 <= total_size(rs),
    decreases rs.len(),
{
    if rs.len() > 0 {
        lemma_total_size_nonneg(rs.drop_last());
    }
}

/// The regions cover disjoint, strictly increasing token runs in both
/// sequences, each of at least one token, ending by `len1` and `len2`.
pub open spec fn regions_ordered(rs: Seq<CommonRegion>, len1: int, len2: int) -> bool {
    &&& forall|i: int| #![trigger rs[i]] 0 <= i < rs.len() ==> rs[i].size >= 1
    &&& forall|i: int|
        #![trigger rs[i]]
        0 <= i && i + 1 < rs.len() ==> rs[i].iter1_offset + rs[i].size <= rs[i + 1].iter1_offset
            && rs[i].iter2_offset + rs[i].size <= rs[i + 1].iter2_offset
    &&& rs.len() > 0 ==> rs.last().iter1_offset + rs.last().size <= len1
        && rs.last().iter2_offset + rs.last().size <= len2
}

/// One region marks pointwise-equal tokens in the two sequences.
pub open spec fn region_matches(r: CommonRegion, a: Seq<Seq<u8>>, b: Seq<Seq<u8>>) -> bool {
    forall|k: int|
        0 <= k < r.size ==> a[r.iter1_offset + k] == #[trigger] b[r.iter2_offset + k]
}

/// Every region marks pointwise-equal tokens.
pub open spec fn regions_match(rs: Seq<CommonRegion>, a: Seq<Seq<u8>>, b: Seq<Seq<u8>>) -> bool {
    forall|i: int| 0 <= i < rs.len() ==> #[trigger] region_matches(rs[i], a, b)
}

/// Consecutive regions never touch in both sequences at once: between two
/// regions at least one side has a gap. The search cannot produce touching
/// regions, because consecutive regions are always separated by at least one
/// single-sided step.
pub open spec fn regions_normalized(rs: Seq<CommonRegion>) -> bool {
    forall|i: int|
        #![trigger rs[i]]
        0 <= i && i + 1 < rs.len() ==> rs[i].iter1_offset + rs[i].size < rs[i + 1].iter1_offset
            || rs[i].iter2_offset + rs[i].size < rs[i + 1].iter2_offset
}

/// Where gap number `i` begins: at the origin for `i == 0`, else at the end
/// of region `i - 1`.
pub open spec fn gap_start(rs: Seq<CommonRegion>, i: int) -> (int, int) {
    if i == 0 {
        (0, 0)
    } else {
        ((rs[i - 1].iter1_offset + rs[i - 1].size) as int, (rs[i - 1].iter2_offset + rs[i - 1].size) as int)
    }
}

/// Where gap number `i` ends: at the start of region `i`, or at the sequence
/// ends after the last region.
pub open spec fn gap_end(rs: Seq<CommonRegion>, i: int, len1: int, len2: int) -> (int, int) {
    if i < rs.len() {
        (rs[i].iter1_offset as int, rs[i].iter2_offset as int)
    } else {
        (len1, len2)
    }
}

/// Whenever the unmatched gap between two regions (or before the first, or
/// after the last) is non-empty on both sides, its first tokens differ. The
/// search guarantees this: a gap only opens where a diagonal slide stopped on
/// a mismatch.
pub open spec fn no_equal_gaps(rs: Seq<CommonRegion>, a: Seq<Seq<u8>>, b: Seq<Seq<u8>>) -> bool {
    forall|i: int|
        #![trigger gap_start(rs, i)]
        0 <= i <= rs.len() ==> {
            let s = gap_start(rs, i);
            let e = gap_end(rs, i, a.len() as int, b.len() as int);
            s.0 < e.0 && s.1 < e.1 ==> a[s.0] != b[s.1]
        }
}

/// What the search promises of any subsequence it returns for token
/// sequences `a` and `b`.
pub open spec fn valid_lcs(cs: CommonSubsequence, a: Seq<Seq<u8>>, b: Seq<Seq<u8>>) -> bool {
    let rs = cs.common_regions@;
    &&& regions_ordered(rs, a.len() as int, b.len() as int)
    &&& regions_match(rs, a, b)
    &&& regions_normalized(rs)
    &&& no_equal_gaps(rs, a, b)
    &&& cs.size == total_size(rs)
}

/// If the two sequences share no token at all, a valid subsequence can hold
/// no region, and its length is zero.
pub proof fn lemma_disjoint_lcs_empty(cs: CommonSubsequence, a: Seq<Seq<u8>>, b: Seq<Seq<u8>>)
    requires
        valid_lcs(cs, a, b),
        forall|i: int, j: int| 0 <= i < a.len() && 0 <= j < b.len() ==> #[trigger] a[i] != #[trigger] b[j],
    ensures
        cs.common_regions@.len() == 0,
        cs.size == 0,
{
    let rs = cs.common_regions@;
    if rs.len() > 0 {
        lemma_regions_in_bounds(rs, a.len() as int, b.len() as int, 0);
        assert(region_matches(rs[0], a, b));
        assert(a[rs[0].iter1_offset + 0] == b[rs[0].iter2_offset + 0]);
        assert(false);
    }
    assert(total_size(rs) == 0);
}

/// Every region of an ordered list lies inside the sequence bounds.
pub proof fn lemma_regions_in_bounds(rs: Seq<CommonRegion>, len1: int, len2: int, i: int)
    requires
        regions_ordered(rs, len1, len2),
        0 <= i < rs.len(),
    ensures
        rs[i].iter1_offset + rs[i].size <= len1,
        rs[i].iter2_offset + rs[i].size <= len2,
    decreases rs.len() - i,
{
    if i + 1 < rs.len() {
        lemma_regions_in_bounds(rs, len1, len2, i + 1);
    } else {
        assert(rs[i] == rs.last());
    }
}

/// Byte-wise equality of two tokens.
pub fn tokens_equal(x: &Vec<u8>, y: &Vec<u8>) -> (r: bool)
    ensures
        r == (x@ == y@),
{
    if x.len() != y.len() {
        assert(x@ != y@);
        return false;
    }
    let mut i: usize = 0;
    while i < x.len()
        invariant
            0 <= i <= x@.len(),
            x@.len() == y@.len(),
            forall|k: int| 0 <= k < i ==> x@[k] == y@[k],
        decreases x@.len() - i,
    {
        if x[i] != y[i] {
            assert(x@ != y@);
            return false;
        }
        i += 1;
    }
    assert(x@ =~= y@);
    true
}

/// Each element of the deep view of a vector of byte vectors is that
/// element's own byte view.
pub proof fn lemma_deep_view_index(v: &Vec<Vec<u8>>, i: int)
    requires
        0 <= i < v@.len(),
    ensures
        v.deep_view()[i] == v@[i]@,
{
    assert(v.deep_view()[i] =~= v@[i]@);
}

/// The length of a longest common subsequence of the suffixes of `a` and
/// `b` from positions `i` and `j`: a matching pair of tokens is always
/// taken (taking a match never hurts), and on a mismatch the better of the
/// two single-sided steps wins.
pub open spec fn spec_lcs_len(a: Seq<Seq<u8>>, b: Seq<Seq<u8>>, i: int, j: int) -> int
    decreases a.len() - i, b.len() - j,
    when 0 <= i && 0 <= j
{
    if i >= a.len() || j >= b.len() {
        0
    } else if a[i] == b[j] {
        1 + spec_lcs_len(a, b, i + 1, j + 1)
    } else {
        let right = spec_lcs_len(a, b, i + 1, j);
        let down = spec_lcs_len(a, b, i, j + 1);
        if right >= down {
            right
        } else {
            down
        }
    }
}

/// The optimum is non-negative and at most either remaining length.
pub proof fn lemma_lcs_len_basic(a: Seq<Seq<u8>>, b: Seq<Seq<u8>>, i: int, j: int)
    requires
        0 <= i <= a.len(),
        0 <= j <= b.len(),
    ensures
        0 <= spec_lcs_len(a, b, i, j),
        spec_lcs_len(a, b, i, j) <= a.len() - i,
        spec_lcs_len(a, b, i, j) <= b.len() - j,
    decreases a.len() - i, b.len() - j,
{
    if i >= a.len() || j >= b.len() {
    } else if a[i] == b[j] {
        lemma_lcs_len_basic(a, b, i + 1, j + 1);
    } else {
        lemma_lcs_len_basic(a, b, i + 1, j);
        lemma_lcs_len_basic(a, b, i, j + 1);
    }
}

/// Stepping one position forward on either side loses at most one matched
/// token and never gains.
pub proof fn lemma_lcs_len_step(a: Seq<Seq<u8>>, b: Seq<Seq<u8>>, i: int, j: int)
    requires
        0 <= i <= a.len(),
        0 <= j <= b.len(),
    ensures
        spec_lcs_len(a, b, i, j) >= spec_lcs_len(a, b, i + 1, j),
        spec_lcs_len(a, b, i, j) >= spec_lcs_len(a, b, i, j + 1),
        spec_lcs_len(a, b, i, j) <= spec_lcs_len(a, b, i + 1, j) + 1,
        spec_lcs_len(a, b, i, j) <= spec_lcs_len(a, b, i, j + 1) + 1,
    decreases a.len() - i, b.len() - j,
{
    if i >= a.len() || j >= b.len() {
        if i < a.len() && j == b.len() {
            lemma_lcs_len_basic(a, b, i + 1, j);
            lemma_lcs_len_basic(a, b, i, j);
        }
        if i == a.len() && j < b.len() {
            lemma_lcs_len_basic(a, b, i, j + 1);
            lemma_lcs_len_basic(a, b, i, j);
        }
    } else if a[i] == b[j] {
        lemma_lcs_len_step(a, b, i + 1, j);
        lemma_lcs_len_step(a, b, i, j + 1);
    } else {
        lemma_lcs_len_step(a, b, i + 1, j);
        lemma_lcs_len_step(a, b, i, j + 1);
    }
}

/// The first region's size splits off the total.
proof fn lemma_total_size_first(rs: Seq<CommonRegion>)
    requires
        rs.len() > 0,
    ensures
        total_size(rs) == rs[0].size + total_size(rs.drop_first()),
    decreases rs.len(),
{
    if rs.len() == 1 {
        assert(rs.drop_last() =~= Seq::<CommonRegion>::empty());
        assert(rs.drop_first() =~= Seq::<CommonRegion>::empty());
        assert(rs.last() == rs[0]);
    } else {
        lemma_total_size_first(rs.drop_last());
        assert(rs.drop_last()[0] == rs[0]);
        assert(rs.drop_last().drop_first() =~= rs.drop_first().drop_last());
        assert(rs.drop_first().last() == rs.last());
    }
}

/// Concatenating region lists adds their totals.
proof fn lemma_total_size_concat(x: Seq<CommonRegion>, y: Seq<CommonRegion>)
    ensures
        total_size(x + y) == total_size(x) + total_size(y),
    decreases y.len(),
{
    if y.len() == 0 {
        assert(x + y =~= x);
    } else {
        lemma_total_size_concat(x, y.drop_last());
        assert((x + y).drop_last() =~= x + y.drop_last());
        assert((x + y).last() == y.last());
    }
}

/// Every region of the list starts at or after `(i, j)`.
pub open spec fn regions_from(rs: Seq<CommonRegion>, i: int, j: int) -> bool {
    rs.len() > 0 ==> rs[0].iter1_offset >= i && rs[0].iter2_offset >= j
}

/// No ordered, pointwise-matching region list starting at or after `(i, j)`
/// covers more tokens than the optimum from there: `spec_lcs_len` is the
/// maximum over all common subsequences.
#[verifier::rlimit(100)]
pub proof fn lemma_lcs_len_is_max(
    rs: Seq<CommonRegion>,
    a: Seq<Seq<u8>>,
    b: Seq<Seq<u8>>,
    i: int,
    j: int,
)
    requires
        a.len() <= usize::MAX,
        b.len() <= usize::MAX,
        0 <= i <= a.len(),
        0 <= j <= b.len(),
        regions_ordered(rs, a.len() as int, b.len() as int),
        regions_match(rs, a, b),
        regions_from(rs, i, j),
    ensures
        total_size(rs) <= spec_lcs_len(a, b, i, j),
    decreases a.len() - i, b.len() - j,
{
    lemma_lcs_len_basic(a, b, i, j);
    if rs.len() == 0 {
        assert(total_size(rs) == 0);
    } else {
        let r0 = rs[0];
        lemma_regions_in_bounds(rs, a.len() as int, b.len() as int, 0);
        lemma_total_size_first(rs);
        if r0.iter1_offset > i {
            lemma_lcs_len_step(a, b, i, j);
            lemma_lcs_len_is_max(rs, a, b, i + 1, j);
        } else if r0.iter2_offset > j {
            lemma_lcs_len_step(a, b, i, j);
            lemma_lcs_len_is_max(rs, a, b, i, j + 1);
        } else {
            // The first region starts exactly here, so these tokens match
            // and the optimum takes them.
            assert(region_matches(r0, a, b));
            assert(a[r0.iter1_offset + 0] == b[r0.iter2_offset + 0]);
            assert(a[i] == b[j]);
            if r0.size == 1 {
                let rest = rs.drop_first();
                assert forall|k: int| #![trigger rest[k]] 0 <= k < rest.len() implies rest[k]
                    == rs[k + 1] by {}
                if rest.len() > 0 {
                    assert(rest.last() == rs.last());
                    assert(rs[0].iter1_offset + rs[0].size <= rs[1].iter1_offset);
                }
                lemma_lcs_len_is_max(rest, a, b, i + 1, j + 1);
            } else {
                let shrunk = CommonRegion {
                    iter1_offset: (r0.iter1_offset + 1) as usize,
                    iter2_offset: (r0.iter2_offset + 1) as usize,
                    size: (r0.size - 1) as usize,
                };
                assert(shrunk.iter1_offset == r0.iter1_offset + 1);
                assert(shrunk.iter2_offset == r0.iter2_offset + 1);
                assert(shrunk.size == r0.size - 1);
                let rs2 = rs.update(0, shrunk);
                assert(rs2[0] == shrunk);
                assert forall|k: int| #![trigger rs2[k]] 0 < k < rs2.len() implies rs2[k]
                    == rs[k] by {}
                assert(rs2.last() == if rs.len() == 1 {
                    shrunk
                } else {
                    rs.last()
                });
                assert forall|k: int| 0 <= k < rs2.len() implies #[trigger] region_matches(
                    rs2[k],
                    a,
                    b,
                ) by {
                    if k == 0 {
                        assert forall|m: int|
                            0 <= m < shrunk.size implies a[shrunk.iter1_offset + m]
                            == #[trigger] b[shrunk.iter2_offset + m] by {
                            assert(a[r0.iter1_offset + (m + 1)] == b[r0.iter2_offset + (m + 1)]);
                        }
                    } else {
                        assert(region_matches(rs[k], a, b));
                    }
                }
                assert(rs2.drop_first() =~= rs.drop_first());
                lemma_total_size_first(rs2);
                lemma_lcs_len_is_max(rs2, a, b, i + 1, j + 1);
            }
        }
    }
}

/// An ordered, pointwise-matching region list achieving the optimum from
/// `(i, j)` always exists.
#[verifier::rlimit(100)]
pub proof fn lemma_lcs_len_achievable(a: Seq<Seq<u8>>, b: Seq<Seq<u8>>, i: int, j: int) -> (rs:
    Seq<CommonRegion>)
    requires
        a.len() <= usize::MAX,
        b.len() <= usize::MAX,
        0 <= i <= a.len(),
        0 <= j <= b.len(),
    ensures
        regions_ordered(rs, a.len() as int, b.len() as int),
        regions_match(rs, a, b),
        regions_from(rs, i, j),
        total_size(rs) == spec_lcs_len(a, b, i, j),
    decreases a.len() - i, b.len() - j,
{
    if i >= a.len() || j >= b.len() {
        Seq::empty()
    } else if a[i] == b[j] {
        let rest = lemma_lcs_len_achievable(a, b, i + 1, j + 1);
        let r0 = CommonRegion { iter1_offset: i as usize, iter2_offset: j as usize, size: 1 };
        assert(r0.iter1_offset == i);
        assert(r0.iter2_offset == j);
        let rs = rest.insert(0, r0);
        assert(rs[0] == r0);
        assert(rs.drop_first() =~= rest);
        assert forall|k: int| #![trigger rs[k]] 0 < k < rs.len() implies rs[k] == rest[k - 1] by {}
        if rest.len() > 0 {
            assert(rs.last() == rest.last());
        }
        assert forall|k: int| 0 <= k < rs.len() implies #[trigger] region_matches(rs[k], a, b) by {
            if k > 0 {
                assert(region_matches(rest[k - 1], a, b));
            }
        }
        lemma_total_size_first(rs);
        rs
    } else {
        lemma_lcs_len_step(a, b, i, j);
        if spec_lcs_len(a, b, i + 1, j) >= spec_lcs_len(a, b, i, j + 1) {
            let rs = lemma_lcs_len_achievable(a, b, i + 1, j);
            assert(regions_from(rs, i, j));
            rs
        } else {
            let rs = lemma_lcs_len_achievable(a, b, i, j + 1);
            assert(regions_from(rs, i, j));
            rs
        }
    }
}

/// A task's collected subsequence plus the best completion from its offsets
/// never beats the overall optimum: gluing the collected regions onto an
/// optimal completion gives an ordered matching list, which the optimum
/// bounds.
#[verifier::rlimit(100)]
pub proof fn lemma_task_size_bound(
    rs: Seq<CommonRegion>,
    a: Seq<Seq<u8>>,
    b: Seq<Seq<u8>>,
    o1: int,
    o2: int,
)
    requires
        a.len() <= usize::MAX,
        b.len() <= usize::MAX,
        0 <= o1 <= a.len(),
        0 <= o2 <= b.len(),
        regions_ordered(rs, o1, o2),
        regions_match(rs, a, b),
    ensures
        total_size(rs) + spec_lcs_len(a, b, o1, o2) <= spec_lcs_len(a, b, 0, 0),
    decreases a.len(),
{
    let suffix = lemma_lcs_len_achievable(a, b, o1, o2);
    let glued = rs + suffix;
    assert forall|k: int| #![trigger glued[k]] 0 <= k < glued.len() implies glued[k] == (if k
        < rs.len() {
        rs[k]
    } else {
        suffix[k - rs.len()]
    }) by {}
    assert forall|k: int| #![trigger glued[k]] 0 <= k < glued.len() implies glued[k].size >= 1 by {
        if k >= rs.len() {
            assert(suffix[k - rs.len()].size >= 1);
        }
    }
    assert forall|k: int|
        #![trigger glued[k]]
        0 <= k && k + 1 < glued.len() implies glued[k].iter1_offset + glued[k].size <= glued[k
        + 1].iter1_offset && glued[k].iter2_offset + glued[k].size <= glued[k
        + 1].iter2_offset by {
        if k + 1 < rs.len() {
        } else if k + 1 == rs.len() {
            assert(glued[k] == rs.last());
            assert(glued[k + 1] == suffix[0]);
        } else {
            assert(glued[k] == suffix[k - rs.len()]);
            assert(glued[k + 1] == suffix[k + 1 - rs.len()]);
        }
    }
    if glued.len() > 0 {
        if suffix.len() > 0 {
            assert(glued.last() == suffix.last());
        } else {
            assert(glued.last() == rs.last());
        }
    }
    assert forall|k: int| 0 <= k < glued.len() implies #[trigger] region_matches(
        glued[k],
        a,
        b,
    ) by {
        if k < rs.len() {
            assert(region_matches(rs[k], a, b));
        } else {
            assert(region_matches(suffix[k - rs.len()], a, b));
        }
    }
    lemma_lcs_len_is_max(glued, a, b, 0, 0);
    lemma_total_size_concat(rs, suffix);
}

/// A step of the search that still has to be worked: a possible common
/// subsequence of the prefixes up to `iter1_offset` and `iter2_offset`.
/// Working a task means sliding down the diagonal as far as tokens match,
/// then enqueueing one task a step right and one a step down.
pub struct Task {
    /// The highest offset in the first sequence which has been searched.
    pub iter1_offset: usize,
    /// The highest offset in the second sequence which has been searched.
    pub iter2_offset: usize,
    /// The common subsequence which is known so far.
    pub common_subsequence: CommonSubsequence,
}

/// Where the last collected region ends, or the origin if none was collected.
pub open spec fn task_end(t: Task) -> (int, int) {
    let rs = t.common_subsequence.common_regions@;
    if rs.len() == 0 {
        (0, 0)
    } else {
        (
            (rs.last().iter1_offset + rs.last().size) as int,
            (rs.last().iter2_offset + rs.last().size) as int,
        )
    }
}

/// Between two collected regions (and before the first), a gap that is
/// non-empty on both sides starts with differing tokens.
pub open spec fn internal_gaps_differ(rs: Seq<CommonRegion>, a: Seq<Seq<u8>>, b: Seq<Seq<u8>>) -> bool {
    forall|i: int|
        #![trigger gap_start(rs, i)]
        0 <= i < rs.len() ==> {
            let s = gap_start(rs, i);
            s.0 < rs[i].iter1_offset && s.1 < rs[i].iter2_offset ==> a[s.0] != b[s.1]
        }
}

/// The tokens just past the last collected region differ; for a task that
/// has collected nothing and left the origin, the very first tokens differ.
/// This is what every diagonal slide leaves behind when it stops short of
/// the sequence ends.
pub open spec fn end_mismatch(t: Task, a: Seq<Seq<u8>>, b: Seq<Seq<u8>>) -> bool {
    let rs = t.common_subsequence.common_regions@;
    if rs.len() == 0 {
        ((t.iter1_offset != 0 || t.iter2_offset != 0) && a.len() > 0 && b.len() > 0) ==> a[0]
            != b[0]
    } else {
        let e = task_end(t);
        (e.0 < a.len() && e.1 < b.len()) ==> a[e.0] != b[e.1]
    }
}

/// Everything the search maintains of every queued task.
pub open spec fn task_inv(t: Task, a: Seq<Seq<u8>>, b: Seq<Seq<u8>>) -> bool {
    let rs = t.common_subsequence.common_regions@;
    &&& t.iter1_offset <= a.len() && t.iter2_offset <= b.len()
    &&& regions_ordered(rs, t.iter1_offset as int, t.iter2_offset as int)
    &&& regions_match(rs, a, b)
    &&& regions_normalized(rs)
    &&& internal_gaps_differ(rs, a, b)
    &&& end_mismatch(t, a, b)
    &&& rs.len() > 0 ==> (t.iter1_offset > task_end(t).0 || t.iter2_offset > task_end(t).1)
    &&& t.common_subsequence.size == total_size(rs)
    &&& t.common_subsequence.size <= t.iter1_offset && t.common_subsequence.size
        <= t.iter2_offset
}

/// Offsets and cached length small enough for the priority arithmetic.
pub open spec fn task_arith(t: Task) -> bool {
    &&& t.iter1_offset <= MAX_LCS_INPUT_LEN
    &&& t.iter2_offset <= MAX_LCS_INPUT_LEN
    &&& t.common_subsequence.size <= t.iter1_offset
    &&& t.common_subsequence.size <= t.iter2_offset
}

/// One token more than the shorter input's length: no record can reach it.
pub open spec fn lcs_cap(a: Seq<Seq<u8>>, b: Seq<Seq<u8>>) -> int {
    (if a.len() <= b.len() {
        a.len() as int
    } else {
        b.len() as int
    }) + 1
}

/// Every recorded best length stays under the cap.
pub open spec fn seen_bounded(sv: Seq<(usize, usize, usize)>, cap: int) -> bool {
    forall|k1: int, k2: int|
        (#[trigger] seen_get(sv, k1, k2)) matches Some(s) ==> s <= cap - 1
}

/// How far the record at one key can still rise; an unrecorded key has one
/// extra step for the record's creation.
pub open spec fn key_headroom(sv: Seq<(usize, usize, usize)>, k1: int, k2: int, cap: int) -> int {
    match seen_get(sv, k1, k2) {
        Some(s) => cap - 1 - s,
        None => cap,
    }
}

/// Total headroom of one row of keys.
pub open spec fn row_headroom(sv: Seq<(usize, usize, usize)>, k1: int, cols: int, cap: int) -> int
    decreases cols,
{
    if cols <= 0 {
        0
    } else {
        row_headroom(sv, k1, cols - 1, cap) + key_headroom(sv, k1, cols - 1, cap)
    }
}

/// Total headroom of the whole key grid. Every enqueue strictly raises one
/// record, so this strictly falls: the search terminates.
pub open spec fn grid_headroom(sv: Seq<(usize, usize, usize)>, rows: int, cols: int, cap: int) -> int
    decreases rows,
{
    if rows <= 0 {
        0
    } else {
        grid_headroom(sv, rows - 1, cols, cap) + row_headroom(sv, rows - 1, cols, cap)
    }
}

proof fn lemma_row_headroom_nonneg(sv: Seq<(usize, usize, usize)>, k1: int, cols: int, cap: int)
    requires
        seen_bounded(sv, cap),
        cap >= 1,
    ensures
        row_headroom(sv, k1, cols, cap) >= 0,
    decreases cols,
{
    if cols > 0 {
        lemma_row_headroom_nonneg(sv, k1, cols - 1, cap);
    }
}

proof fn lemma_grid_headroom_nonneg(sv: Seq<(usize, usize, usize)>, rows: int, cols: int, cap: int)
    requires
        seen_bounded(sv, cap),
        cap >= 1,
    ensures
        grid_headroom(sv, rows, cols, cap) >= 0,
    decreases rows,
{
    if rows > 0 {
        lemma_grid_headroom_nonneg(sv, rows - 1, cols, cap);
        lemma_row_headroom_nonneg(sv, rows - 1, cols, cap);
    }
}

proof fn lemma_row_headroom_same(
    sv1: Seq<(usize, usize, usize)>,
    sv2: Seq<(usize, usize, usize)>,
    k1: int,
    cols: int,
    cap: int,
)
    requires
        forall|k2: int| 0 <= k2 < cols ==> #[trigger] seen_get(sv2, k1, k2) == seen_get(sv1, k1, k2),
    ensures
        row_headroom(sv2, k1, cols, cap) == row_headroom(sv1, k1, cols, cap),
    decreases cols,
{
    if cols > 0 {
        lemma_row_headroom_same(sv1, sv2, k1, cols - 1, cap);
    }
}

proof fn lemma_row_headroom_dec(
    sv1: Seq<(usize, usize, usize)>,
    sv2: Seq<(usize, usize, usize)>,
    k1: int,
    cols: int,
    cap: int,
    u2: int,
)
    requires
        0 <= u2 < cols,
        forall|k2: int|
            0 <= k2 < cols && k2 != u2 ==> #[trigger] seen_get(sv2, k1, k2) == seen_get(
                sv1,
                k1,
                k2,
            ),
        key_headroom(sv2, k1, u2, cap) <= key_headroom(sv1, k1, u2, cap) - 1,
    ensures
        row_headroom(sv2, k1, cols, cap) <= row_headroom(sv1, k1, cols, cap) - 1,
    decreases cols,
{
    if u2 == cols - 1 {
        lemma_row_headroom_same(sv1, sv2, k1, cols - 1, cap);
    } else {
        lemma_row_headroom_dec(sv1, sv2, k1, cols - 1, cap, u2);
    }
}

proof fn lemma_grid_headroom_same(
    sv1: Seq<(usize, usize, usize)>,
    sv2: Seq<(usize, usize, usize)>,
    rows: int,
    cols: int,
    cap: int,
)
    requires
        forall|k1: int, k2: int|
            0 <= k1 < rows && 0 <= k2 < cols ==> #[trigger] seen_get(sv2, k1, k2) == seen_get(
                sv1,
                k1,
                k2,
            ),
    ensures
        grid_headroom(sv2, rows, cols, cap) == grid_headroom(sv1, rows, cols, cap),
    decreases rows,
{
    if rows > 0 {
        lemma_grid_headroom_same(sv1, sv2, rows - 1, cols, cap);
        lemma_row_headroom_same(sv1, sv2, rows - 1, cols, cap);
    }
}

/// Raising one record in the grid lowers the total headroom.
proof fn lemma_grid_headroom_dec(
    sv1: Seq<(usize, usize, usize)>,
    sv2: Seq<(usize, usize, usize)>,
    rows: int,
    cols: int,
    cap: int,
    u1: int,
    u2: int,
)
    requires
        0 <= u1 < rows,
        0 <= u2 < cols,
        forall|k1: int, k2: int|
            !(k1 == u1 && k2 == u2) ==> #[trigger] seen_get(sv2, k1, k2) == seen_get(sv1, k1, k2),
        key_headroom(sv2, u1, u2, cap) <= key_headroom(sv1, u1, u2, cap) - 1,
    ensures
        grid_headroom(sv2, rows, cols, cap) <= grid_headroom(sv1, rows, cols, cap) - 1,
    decreases rows,
{
    if u1 == rows - 1 {
        lemma_grid_headroom_same(sv1, sv2, rows - 1, cols, cap);
        lemma_row_headroom_dec(sv1, sv2, rows - 1, cols, cap, u2);
    } else {
        lemma_grid_headroom_dec(sv1, sv2, rows - 1, cols, cap, u1, u2);
        lemma_row_headroom_same(sv1, sv2, rows - 1, cols, cap);
    }
}

/// Records bounded by the optimum stay under the cap.
proof fn lemma_seen_sound_bounded(sv: Seq<(usize, usize, usize)>, a: Seq<Seq<u8>>, b: Seq<Seq<u8>>)
    requires
        seen_sound(sv, a, b),
    ensures
        seen_bounded(sv, lcs_cap(a, b)),
{
    assert forall|k1: int, k2: int|
        (#[trigger] seen_get(sv, k1, k2)) is Some implies seen_get(sv, k1, k2)->Some_0 <= lcs_cap(
        a,
        b,
    ) - 1 by {
        lemma_lcs_len_basic(a, b, k1, k2);
        lemma_lcs_len_basic(a, b, 0, 0);
    }
}

/// A task on an optimal path: its collected subsequence plus the best
/// completion from its offsets reaches the overall optimum.
pub open spec fn task_perfect(t: Task, a: Seq<Seq<u8>>, b: Seq<Seq<u8>>) -> bool {
    &&& task_inv(t, a, b)
    &&& t.common_subsequence.size + spec_lcs_len(
        a,
        b,
        t.iter1_offset as int,
        t.iter2_offset as int,
    ) == spec_lcs_len(a, b, 0, 0)
}

/// Some queued task is on an optimal path.
pub open spec fn queue_has_perfect(q: Seq<Task>, a: Seq<Seq<u8>>, b: Seq<Seq<u8>>) -> bool {
    exists|i: int| 0 <= i < q.len() && #[trigger] task_perfect(q[i], a, b)
}

/// Every recorded best length is honest: no subsequence reaching that
/// offset pair, completed optimally, can beat the overall optimum.
pub open spec fn seen_sound(
    sv: Seq<(usize, usize, usize)>,
    a: Seq<Seq<u8>>,
    b: Seq<Seq<u8>>,
) -> bool {
    forall|k1: int, k2: int|
        (#[trigger] seen_get(sv, k1, k2)) matches Some(s) ==> 0 <= k1 <= a.len() && 0 <= k2
            <= b.len() && s + spec_lcs_len(a, b, k1, k2) <= spec_lcs_len(a, b, 0, 0)
}

/// Every record lying on an optimal path is covered by a queued task on an
/// optimal path at least as far along. This is what survives dominance
/// pruning: a pruned optimal descendant always leaves such a cover behind.
pub open spec fn seen_aux(
    sv: Seq<(usize, usize, usize)>,
    q: Seq<Task>,
    a: Seq<Seq<u8>>,
    b: Seq<Seq<u8>>,
) -> bool {
    forall|k1: int, k2: int|
        ((#[trigger] seen_get(sv, k1, k2)) matches Some(s) && s + spec_lcs_len(a, b, k1, k2)
            == spec_lcs_len(a, b, 0, 0)) ==> exists|i: int|
            0 <= i < q.len() && #[trigger] task_perfect(q[i], a, b) && q[i].iter1_offset
                + q[i].iter2_offset >= k1 + k2
}

/// As `seen_aux`, but the cover may also be the one task in hand.
pub open spec fn seen_aux_with(
    sv: Seq<(usize, usize, usize)>,
    q: Seq<Task>,
    t: Task,
    a: Seq<Seq<u8>>,
    b: Seq<Seq<u8>>,
) -> bool {
    forall|k1: int, k2: int|
        ((#[trigger] seen_get(sv, k1, k2)) matches Some(s) && s + spec_lcs_len(a, b, k1, k2)
            == spec_lcs_len(a, b, 0, 0)) ==> (exists|i: int|
            0 <= i < q.len() && #[trigger] task_perfect(q[i], a, b) && q[i].iter1_offset
                + q[i].iter2_offset >= k1 + k2) || (task_perfect(t, a, b) && t.iter1_offset
            + t.iter2_offset >= k1 + k2)
}

/// The negated edit distance implied by a task: each matched token saves one
/// deletion and one insertion.
pub open spec fn task_value(t: Task) -> int {
    2 * t.common_subsequence.size - t.iter1_offset - t.iter2_offset
}

/// How far off the main diagonal the task stands.
pub open spec fn task_offset_diff(t: Task) -> int {
    if t.iter2_offset >= t.iter1_offset {
        t.iter2_offset - t.iter1_offset
    } else {
        t.iter1_offset - t.iter2_offset
    }
}

/// The final tiebreak of the task priority: the task whose earliest
/// differing region is larger wins (regions compared by size, then, to keep
/// the order total, by their two offsets; a longer region list beats its
/// own proper prefix). Tasks whose compared data are all equal carry the
/// same region list, so no preference is needed.
pub open spec fn regions_tiebreak_gt(rs1: Seq<CommonRegion>, rs2: Seq<CommonRegion>) -> bool
    decreases rs1.len(),
{
    if rs1.len() == 0 {
        false
    } else if rs2.len() == 0 {
        true
    } else if rs1[0].size != rs2[0].size {
        rs1[0].size > rs2[0].size
    } else if rs1[0].iter1_offset != rs2[0].iter1_offset {
        rs1[0].iter1_offset > rs2[0].iter1_offset
    } else if rs1[0].iter2_offset != rs2[0].iter2_offset {
        rs1[0].iter2_offset > rs2[0].iter2_offset
    } else {
        regions_tiebreak_gt(rs1.drop_first(), rs2.drop_first())
    }
}

/// The task priority order, highest popped first: prefer the lowest implied
/// edit distance, then tasks nearest the diagonal, then tasks farthest
/// along, then arbitrary but total tiebreaks, ending at the earliest
/// differing region.
pub open spec fn spec_task_gt(t1: Task, t2: Task) -> bool {
    let rs1 = t1.common_subsequence.common_regions@;
    let rs2 = t2.common_subsequence.common_regions@;
    if task_value(t1) != task_value(t2) {
        task_value(t1) > task_value(t2)
    } else if task_offset_diff(t1) != task_offset_diff(t2) {
        task_offset_diff(t1) < task_offset_diff(t2)
    } else if t1.iter1_offset + t1.iter2_offset != t2.iter1_offset + t2.iter2_offset {
        t1.iter1_offset + t1.iter2_offset > t2.iter1_offset + t2.iter2_offset
    } else if t1.iter1_offset != t2.iter1_offset {
        t1.iter1_offset > t2.iter1_offset
    } else if t1.iter2_offset != t2.iter2_offset {
        t1.iter2_offset > t2.iter2_offset
    } else {
        regions_tiebreak_gt(rs1, rs2)
    }
}

/// Executable task comparison; `true` when `t1` has strictly higher priority.
fn task_gt(t1: &Task, t2: &Task) -> (r: bool)
    requires
        task_arith(*t1),
        task_arith(*t2),
    ensures
        r == spec_task_gt(*t1, *t2),
{
    let v1: i64 = 2 * (t1.common_subsequence.size as i64) - t1.iter1_offset as i64
        - t1.iter2_offset as i64;
    let v2: i64 = 2 * (t2.common_subsequence.size as i64) - t2.iter1_offset as i64
        - t2.iter2_offset as i64;
    if v1 != v2 {
        return v1 > v2;
    }
    let d1: usize = if t1.iter2_offset >= t1.iter1_offset {
        t1.iter2_offset - t1.iter1_offset
    } else {
        t1.iter1_offset - t1.iter2_offset
    };
    let d2: usize = if t2.iter2_offset >= t2.iter1_offset {
        t2.iter2_offset - t2.iter1_offset
    } else {
        t2.iter1_offset - t2.iter2_offset
    };
    if d1 != d2 {
        return d1 < d2;
    }
    let s1 = t1.iter1_offset + t1.iter2_offset;
    let s2 = t2.iter1_offset + t2.iter2_offset;
    if s1 != s2 {
        return s1 > s2;
    }
    if t1.iter1_offset != t2.iter1_offset {
        return t1.iter1_offset > t2.iter1_offset;
    }
    if t1.iter2_offset != t2.iter2_offset {
        return t1.iter2_offset > t2.iter2_offset;
    }
    regions_tiebreak_gt_exec(&t1.common_subsequence.common_regions, &t2.common_subsequence.common_regions)
}

/// Executable mirror of `regions_tiebreak_gt`.
fn regions_tiebreak_gt_exec(rs1: &Vec<CommonRegion>, rs2: &Vec<CommonRegion>) -> (r: bool)
    ensures
        r == regions_tiebreak_gt(rs1@, rs2@),
{
    let mut i: usize = 0;
    proof {
        assert(rs1@.skip(0) =~= rs1@);
        assert(rs2@.skip(0) =~= rs2@);
    }
    while i < rs1.len() && i < rs2.len()
        invariant
            0 <= i <= rs1@.len(),
            0 <= i <= rs2@.len(),
            regions_tiebreak_gt(rs1@.skip(i as int), rs2@.skip(i as int)) == regions_tiebreak_gt(
                rs1@,
                rs2@,
            ),
        decreases rs1@.len() - i,
    {
        let a = rs1[i];
        let b = rs2[i];
        proof {
            assert(rs1@.skip(i as int)[0] == rs1@[i as int]);
            assert(rs2@.skip(i as int)[0] == rs2@[i as int]);
            assert(rs1@.skip(i as int).drop_first() =~= rs1@.skip(i + 1));
            assert(rs2@.skip(i as int).drop_first() =~= rs2@.skip(i + 1));
        }
        if a.size != b.size {
            return a.size > b.size;
        }
        if a.iter1_offset != b.iter1_offset {
            return a.iter1_offset > b.iter1_offset;
        }
        if a.iter2_offset != b.iter2_offset {
            return a.iter2_offset > b.iter2_offset;
        }
        i += 1;
    }
    proof {
        if i >= rs1@.len() {
            assert(rs1@.skip(i as int) =~= Seq::<CommonRegion>::empty());
        } else {
            assert(rs2@.skip(i as int) =~= Seq::<CommonRegion>::empty());
            assert(rs1@.skip(i as int).len() > 0);
        }
    }
    i < rs1.len()
}

/// The longest subsequence length recorded so far for an offset pair:
/// the first matching entry decides.
pub open spec fn seen_get(s: Seq<(usize, usize, usize)>, k1: int, k2: int) -> Option<int>
    decreases s.len(),
{
    if s.len() == 0 {
        None
    } else if s[0].0 == k1 && s[0].1 == k2 {
        Some(s[0].2 as int)
    } else {
        seen_get(s.drop_first(), k1, k2)
    }
}

/// Records, for offset pairs the search has considered, the length of the
/// longest common subsequence observed there, for dominance pruning.
pub struct SeenMap {
    entries: Vec<(usize, usize, usize)>,
}

impl SeenMap {
    pub closed spec fn view(&self) -> Seq<(usize, usize, usize)> {
        self.entries@
    }

    pub fn new() -> (r: SeenMap)
        ensures
            r@.len() == 0,
    {
        SeenMap { entries: Vec::new() }
    }

    /// The recorded best length at `(k1, k2)`, if any.
    pub fn lookup(&self, k1: usize, k2: usize) -> (r: Option<usize>)
        ensures
            match r {
                Some(v) => seen_get(self@, k1 as int, k2 as int) == Some(v as int),
                None => seen_get(self@, k1 as int, k2 as int) is None,
            },
    {
        let mut i: usize = 0;
        proof {
            assert(self.entries@.skip(0) =~= self.entries@);
        }
        while i < self.entries.len()
            invariant
                0 <= i <= self.entries@.len(),
                seen_get(self.entries@.skip(i as int), k1 as int, k2 as int) == seen_get(
                    self.entries@,
                    k1 as int,
                    k2 as int,
                ),
            decreases self.entries@.len() - i,
        {
            let e = self.entries[i];
            proof {
                assert(self.entries@.skip(i as int)[0] == self.entries@[i as int]);
                assert(self.entries@.skip(i as int).drop_first() =~= self.entries@.skip(i + 1));
            }
            if e.0 == k1 && e.1 == k2 {
                return Some(e.2);
            }
            i += 1;
        }
        proof {
            assert(self.entries@.skip(i as int) =~= Seq::<(usize, usize, usize)>::empty());
        }
        None
    }
}

/// Copies a subsequence field for field.
fn copy_subsequence(cs: &CommonSubsequence) -> (r: CommonSubsequence)
    ensures
        r.common_regions@ == cs.common_regions@,
        r.size == cs.size,
{
    let mut regions: Vec<CommonRegion> = Vec::new();
    let mut i: usize = 0;
    while i < cs.common_regions.len()
        invariant
            0 <= i <= cs.common_regions@.len(),
            regions@ == cs.common_regions@.take(i as int),
        decreases cs.common_regions@.len() - i,
    {
        regions.push(cs.common_regions[i]);
        proof {
            assert(regions@ =~= cs.common_regions@.take(i + 1));
        }
        i += 1;
    }
    proof {
        assert(cs.common_regions@.take(cs.common_regions@.len() as int) =~= cs.common_regions@);
    }
    CommonSubsequence { common_regions: regions, size: cs.size }
}

/// Considers enqueueing a descendant at `(iter1_offset, iter2_offset)`
/// carrying `cs`. The descendant is enqueued exactly when no subsequence at
/// least as long has been seen at that offset pair; afterwards the recorded
/// length there is at least the descendant's. So no enqueued descendant can
/// ever improve on a seen offset pair.
pub fn consider_descendant(
    queue: &mut Vec<Task>,
    seen: &mut SeenMap,
    iter1_offset: usize,
    iter2_offset: usize,
    cs: CommonSubsequence,
) -> (enqueued: bool)
    ensures
        enqueued == !(match seen_get(old(seen)@, iter1_offset as int, iter2_offset as int) {
            Some(s) => s >= cs.size,
            None => false,
        }),
        !enqueued ==> final(queue)@ == old(queue)@ && final(seen)@ == old(seen)@,
        enqueued ==> {
            &&& final(queue)@.len() == old(queue)@.len() + 1
            &&& final(queue)@.drop_last() == old(queue)@
            &&& final(queue)@.last().iter1_offset == iter1_offset
            &&& final(queue)@.last().iter2_offset == iter2_offset
            &&& final(queue)@.last().common_subsequence.common_regions@ == cs.common_regions@
            &&& final(queue)@.last().common_subsequence.size == cs.size
            &&& seen_get(final(seen)@, iter1_offset as int, iter2_offset as int) == Some(
                cs.size as int,
            )
            &&& forall|k1: int, k2: int|
                !(k1 == iter1_offset && k2 == iter2_offset) ==> #[trigger] seen_get(
                    final(seen)@,
                    k1,
                    k2,
                ) == seen_get(old(seen)@, k1, k2)
        },
        (match seen_get(final(seen)@, iter1_offset as int, iter2_offset as int) {
            Some(s) => s >= cs.size,
            None => false,
        }),
{
    let dominated = match seen.lookup(iter1_offset, iter2_offset) {
        Some(s) => s >= cs.size,
        None => false,
    };
    if dominated {
        return false;
    }
    let ghost old_entries = seen@;
    let ghost old_queue = queue@;
    let size = cs.size;
    queue.push(Task { iter1_offset, iter2_offset, common_subsequence: cs });
    seen.entries.insert(0, (iter1_offset, iter2_offset, size));
    proof {
        assert(queue@.drop_last() =~= old_queue);
        assert(seen@[0] == (iter1_offset, iter2_offset, size));
        assert(seen@.drop_first() =~= old_entries);
        assert forall|k1: int, k2: int|
            !(k1 == iter1_offset && k2 == iter2_offset) implies #[trigger] seen_get(seen@, k1, k2)
            == seen_get(old_entries, k1, k2) by {
            assert(seen@.drop_first() =~= old_entries);
        }
    }
    true
}

/// Removes and returns a task of maximal priority: no task left behind has
/// a higher value under the priority's deciding key (the negated implied
/// edit distance), and none the scan saw beats it under the full order.
fn pop_best(queue: &mut Vec<Task>) -> (r: Task)
    requires
        old(queue)@.len() > 0,
        forall|i: int| 0 <= i < old(queue)@.len() ==> task_arith(#[trigger] old(queue)@[i]),
    ensures
        final(queue)@.len() == old(queue)@.len() - 1,
        old(queue)@.contains(r),
        forall|i: int|
            0 <= i < final(queue)@.len() ==> old(queue)@.contains(#[trigger] final(queue)@[i]),
        old(queue)@.len() == 1 ==> r == old(queue)@[0],
        forall|i: int|
            0 <= i < old(queue)@.len() ==> task_value(r) >= task_value(#[trigger] old(queue)@[i]),
        forall|t: Task| old(queue)@.contains(t) && t != r ==> final(queue)@.contains(t),
{
    let mut best: usize = 0;
    let mut i: usize = 1;
    while i < queue.len()
        invariant
            queue@ == old(queue)@,
            0 <= best < queue@.len(),
            1 <= i <= queue@.len(),
            forall|j: int| 0 <= j < queue@.len() ==> task_arith(#[trigger] queue@[j]),
            forall|j: int|
                0 <= j < i ==> task_value(queue@[best as int]) >= task_value(
                    #[trigger] queue@[j],
                ),
        decreases queue@.len() - i,
    {
        if task_gt(&queue[i], &queue[best]) {
            best = i;
        }
        i += 1;
    }
    let r = queue.remove(best);
    proof {
        assert(old(queue)@.contains(r));
        assert forall|j: int| 0 <= j < queue@.len() implies old(queue)@.contains(
            #[trigger] queue@[j],
        ) by {
            if j < best {
                assert(queue@[j] == old(queue)@[j]);
            } else {
                assert(queue@[j] == old(queue)@[j + 1]);
            }
        }
        assert forall|t: Task| old(queue)@.contains(t) && t != r implies queue@.contains(t) by {
            let j = choose|j: int| 0 <= j < old(queue)@.len() && old(queue)@[j] == t;
            if j < best {
                assert(queue@[j] == t);
            } else {
                assert(j != best);
                assert(queue@[j - 1] == t);
            }
        }
    }
    r
}

/// Appending a freshly slid region to a task's subsequence preserves every
/// per-task invariant, with the new region ending at the new offsets.
proof fn lemma_extend_regions(
    rs_old: Seq<CommonRegion>,
    rs_new: Seq<CommonRegion>,
    o1: usize,
    o2: usize,
    m: usize,
    a: Seq<Seq<u8>>,
    b: Seq<Seq<u8>>,
)
    requires
        m >= 1,
        o1 + m <= a.len(),
        o2 + m <= b.len(),
        rs_new == rs_old.push(CommonRegion { iter1_offset: o1, iter2_offset: o2, size: m }),
        regions_ordered(rs_old, o1 as int, o2 as int),
        regions_match(rs_old, a, b),
        regions_normalized(rs_old),
        internal_gaps_differ(rs_old, a, b),
        rs_old.len() == 0 ==> (((o1 != 0 || o2 != 0) && a.len() > 0 && b.len() > 0) ==> a[0]
            != b[0]),
        rs_old.len() > 0 ==> {
            let e0 = rs_old.last().iter1_offset + rs_old.last().size;
            let e1 = rs_old.last().iter2_offset + rs_old.last().size;
            &&& (e0 < a.len() && e1 < b.len() ==> a[e0 as int] != b[e1 as int])
            &&& (o1 > e0 || o2 > e1)
        },
        forall|k: int| 0 <= k < m ==> a[o1 + k] == #[trigger] b[o2 + k],
    ensures
        regions_ordered(rs_new, o1 + m, o2 + m),
        regions_match(rs_new, a, b),
        regions_normalized(rs_new),
        internal_gaps_differ(rs_new, a, b),
        rs_new.len() > 0,
        rs_new.last().iter1_offset + rs_new.last().size == o1 + m,
        rs_new.last().iter2_offset + rs_new.last().size == o2 + m,
        total_size(rs_new) == total_size(rs_old) + m,
{
    let r = CommonRegion { iter1_offset: o1, iter2_offset: o2, size: m };
    let n = rs_old.len() as int;
    assert(rs_new.last() == r);
    assert(rs_new.drop_last() =~= rs_old);
    assert forall|i: int| #![trigger rs_new[i]] 0 <= i < rs_new.len() implies rs_new[i].size
        >= 1 by {
        if i < n {
            assert(rs_new[i] == rs_old[i]);
        }
    }
    assert forall|i: int|
        #![trigger rs_new[i]]
        0 <= i && i + 1 < rs_new.len() implies rs_new[i].iter1_offset + rs_new[i].size <= rs_new[i
        + 1].iter1_offset && rs_new[i].iter2_offset + rs_new[i].size <= rs_new[i
        + 1].iter2_offset && (rs_new[i].iter1_offset + rs_new[i].size < rs_new[i + 1].iter1_offset
        || rs_new[i].iter2_offset + rs_new[i].size < rs_new[i + 1].iter2_offset) by {
        if i + 1 < n {
            assert(rs_new[i] == rs_old[i]);
            assert(rs_new[i + 1] == rs_old[i + 1]);
        } else {
            assert(rs_new[i] == rs_old[n - 1]);
            assert(rs_new[i + 1] == r);
            assert(rs_old[n - 1] == rs_old.last());
        }
    }
    assert forall|i: int| 0 <= i < rs_new.len() implies #[trigger] region_matches(
        rs_new[i],
        a,
        b,
    ) by {
        if i < n {
            assert(rs_new[i] == rs_old[i]);
            assert(region_matches(rs_old[i], a, b));
        } else {
            assert(rs_new[i] == r);
            assert forall|k: int| 0 <= k < r.size implies a[r.iter1_offset + k] == #[trigger] b[
                r.iter2_offset + k] by {
                assert(a[o1 + k] == b[o2 + k]);
            }
        }
    }
    assert forall|i: int| #![trigger gap_start(rs_new, i)] 0 <= i < rs_new.len() implies {
        let s = gap_start(rs_new, i);
        s.0 < rs_new[i].iter1_offset && s.1 < rs_new[i].iter2_offset ==> a[s.0] != b[s.1]
    } by {
        if i < n {
            assert(gap_start(rs_new, i) == gap_start(rs_old, i));
            assert(rs_new[i] == rs_old[i]);
        } else {
            assert(rs_new[i] == r);
            if n == 0 {
                assert(gap_start(rs_new, i) == (0int, 0int));
            } else {
                assert(rs_new[i - 1] == rs_old[n - 1]);
                assert(rs_old[n - 1] == rs_old.last());
            }
        }
    }
    assert(total_size(rs_new) == total_size(rs_old) + m);
}

/// A task standing at the sequence ends holds a valid common subsequence of
/// the whole sequences.
proof fn lemma_result_valid(rs: Seq<CommonRegion>, a: Seq<Seq<u8>>, b: Seq<Seq<u8>>)
    requires
        regions_ordered(rs, a.len() as int, b.len() as int),
        regions_match(rs, a, b),
        regions_normalized(rs),
        internal_gaps_differ(rs, a, b),
        rs.len() == 0 ==> ((a.len() > 0 && b.len() > 0) ==> a[0] != b[0]),
        rs.len() > 0 ==> {
            let e0 = rs.last().iter1_offset + rs.last().size;
            let e1 = rs.last().iter2_offset + rs.last().size;
            (e0 < a.len() && e1 < b.len()) ==> a[e0 as int] != b[e1 as int]
        },
    ensures
        no_equal_gaps(rs, a, b),
{
    assert forall|i: int| #![trigger gap_start(rs, i)] 0 <= i <= rs.len() implies {
        let s = gap_start(rs, i);
        let e = gap_end(rs, i, a.len() as int, b.len() as int);
        s.0 < e.0 && s.1 < e.1 ==> a[s.0] != b[s.1]
    } by {
        if i < rs.len() {
        } else {
            if rs.len() > 0 {
                assert(rs[i - 1] == rs.last());
            }
        }
    }
}

/// Slides down the diagonal from `(o1, o2)`: counts how many consecutive
/// tokens match, stopping at a mismatch or at either sequence's end.
fn slide_diagonal(iter1: &Vec<Vec<u8>>, iter2: &Vec<Vec<u8>>, o1: usize, o2: usize) -> (m: usize)
    requires
        o1 <= iter1@.len(),
        o2 <= iter2@.len(),
    ensures
        o1 + m <= iter1@.len(),
        o2 + m <= iter2@.len(),
        forall|k: int|
            0 <= k < m ==> iter1.deep_view()[o1 + k] == #[trigger] iter2.deep_view()[o2 + k],
        o1 + m < iter1@.len() && o2 + m < iter2@.len() ==> iter1.deep_view()[o1 + m]
            != iter2.deep_view()[o2 + m],
        spec_lcs_len(iter1.deep_view(), iter2.deep_view(), o1 as int, o2 as int) == m
            + spec_lcs_len(iter1.deep_view(), iter2.deep_view(), o1 + m, o2 + m),
{
    let ghost av = iter1.deep_view();
    let ghost bv = iter2.deep_view();
    let len1 = iter1.len();
    let len2 = iter2.len();
    let mut m: usize = 0;
    loop
        invariant
            av == iter1.deep_view(),
            bv == iter2.deep_view(),
            len1 == iter1@.len(),
            len2 == iter2@.len(),
            o1 + m <= len1,
            o2 + m <= len2,
            forall|k: int| 0 <= k < m ==> av[o1 + k] == #[trigger] bv[o2 + k],
            spec_lcs_len(av, bv, o1 as int, o2 as int) == m + spec_lcs_len(
                av,
                bv,
                o1 + m,
                o2 + m,
            ),
        ensures
            o1 + m <= len1,
            o2 + m <= len2,
            forall|k: int| 0 <= k < m ==> av[o1 + k] == #[trigger] bv[o2 + k],
            o1 + m < len1 && o2 + m < len2 ==> av[o1 + m] != bv[o2 + m],
            spec_lcs_len(av, bv, o1 as int, o2 as int) == m + spec_lcs_len(
                av,
                bv,
                o1 + m,
                o2 + m,
            ),
        decreases len1 - o1 - m,
    {
        if !(o1 + m < len1 && o2 + m < len2) {
            break;
        }
        proof {
            lemma_deep_view_index(iter1, o1 + m);
            lemma_deep_view_index(iter2, o2 + m);
        }
        if !tokens_equal(&iter1[o1 + m], &iter2[o2 + m]) {
            break;
        }
        m += 1;
    }
    m
}

/// The optimum is symmetric in the two sequences: transposing the inputs
/// transposes every common subsequence and keeps its length.
pub proof fn lemma_lcs_len_symmetric(a: Seq<Seq<u8>>, b: Seq<Seq<u8>>, i: int, j: int)
    requires
        0 <= i <= a.len(),
        0 <= j <= b.len(),
    ensures
        spec_lcs_len(a, b, i, j) == spec_lcs_len(b, a, j, i),
    decreases a.len() - i, b.len() - j,
{
    if i >= a.len() || j >= b.len() {
    } else if a[i] == b[j] {
        lemma_lcs_len_symmetric(a, b, i + 1, j + 1);
    } else {
        lemma_lcs_len_symmetric(a, b, i + 1, j);
        lemma_lcs_len_symmetric(a, b, i, j + 1);
    }
}

/// A valid subsequence at least as long as the optimum is exactly optimal.
proof fn lemma_result_optimal(rs: Seq<CommonRegion>, a: Seq<Seq<u8>>, b: Seq<Seq<u8>>)
    requires
        a.len() <= usize::MAX,
        b.len() <= usize::MAX,
        regions_ordered(rs, a.len() as int, b.len() as int),
        regions_match(rs, a, b),
        total_size(rs) >= spec_lcs_len(a, b, 0, 0),
    ensures
        total_size(rs) == spec_lcs_len(a, b, 0, 0),
{
    assert(regions_from(rs, 0, 0));
    lemma_lcs_len_is_max(rs, a, b, 0, 0);
}

/// Works one popped task: slides the diagonal, extends the subsequence,
/// answers it if both sequences are exhausted, and otherwise enqueues the
/// right and down descendants.
#[verifier::rlimit(100)]
fn work_task(
    iter1: &Vec<Vec<u8>>,
    iter2: &Vec<Vec<u8>>,
    task: Task,
    queue: &mut Vec<Task>,
    seen: &mut SeenMap,
) -> (r: Option<CommonSubsequence>)
    requires
        iter1@.len() <= MAX_LCS_INPUT_LEN,
        iter2@.len() <= MAX_LCS_INPUT_LEN,
        task_inv(task, iter1.deep_view(), iter2.deep_view()),
        forall|i: int|
            0 <= i < old(queue)@.len() ==> task_inv(
                #[trigger] old(queue)@[i],
                iter1.deep_view(),
                iter2.deep_view(),
            ),
        seen_sound(old(seen)@, iter1.deep_view(), iter2.deep_view()),
        seen_aux_with(old(seen)@, old(queue)@, task, iter1.deep_view(), iter2.deep_view()),
        queue_has_perfect(old(queue)@, iter1.deep_view(), iter2.deep_view()) || task_perfect(
            task,
            iter1.deep_view(),
            iter2.deep_view(),
        ),
        2 * task.common_subsequence.size - task.iter1_offset - task.iter2_offset >= 2
            * spec_lcs_len(iter1.deep_view(), iter2.deep_view(), 0, 0) - iter1@.len()
            - iter2@.len(),
    ensures
        forall|i: int|
            0 <= i < final(queue)@.len() ==> task_inv(
                #[trigger] final(queue)@[i],
                iter1.deep_view(),
                iter2.deep_view(),
            ),
        (r matches Some(cs) ==> valid_lcs(cs, iter1.deep_view(), iter2.deep_view())),
        (iter1.deep_view() == iter2.deep_view() && task.iter1_offset == 0 && task.iter2_offset
            == 0 && task.common_subsequence.common_regions@.len() == 0
            && task.common_subsequence.size == 0) ==> (r matches Some(cs) && cs.size
            == iter1@.len() && cs.common_regions@ == (if iter1@.len() == 0 {
            Seq::<CommonRegion>::empty()
        } else {
            seq![(CommonRegion { iter1_offset: 0, iter2_offset: 0, size: iter1@.len() as usize })]
        })),
        (r matches Some(cs) ==> cs.size == spec_lcs_len(iter1.deep_view(), iter2.deep_view(), 0, 0)),
        (r is None ==> queue_has_perfect(final(queue)@, iter1.deep_view(), iter2.deep_view())
            && seen_sound(final(seen)@, iter1.deep_view(), iter2.deep_view()) && seen_aux(
            final(seen)@,
            final(queue)@,
            iter1.deep_view(),
            iter2.deep_view(),
        )),
        2 * grid_headroom(
            final(seen)@,
            iter1@.len() as int + 1,
            iter2@.len() as int + 1,
            lcs_cap(iter1.deep_view(), iter2.deep_view()),
        ) + final(queue)@.len() <= 2 * grid_headroom(
            old(seen)@,
            iter1@.len() as int + 1,
            iter2@.len() as int + 1,
            lcs_cap(iter1.deep_view(), iter2.deep_view()),
        ) + old(queue)@.len(),
{
    let ghost av = iter1.deep_view();
    let ghost bv = iter2.deep_view();
    let ghost l00 = spec_lcs_len(av, bv, 0, 0);
    let ghost q0 = old(queue)@;
    let ghost s0 = old(seen)@;
    proof {
        assert(av.len() == iter1@.len());
        assert(bv.len() == iter2@.len());
    }
    let len1 = iter1.len();
    let len2 = iter2.len();
    let o1 = task.iter1_offset;
    let o2 = task.iter2_offset;

    // 1. Slide down the diagonal for as long as the tokens match.
    let m = slide_diagonal(iter1, iter2, o1, o2);

    let iter1_finished = o1 + m == len1;
    let iter2_finished = o2 + m == len2;

    // 2. Add the slid region, if any, to the subsequence.
    let ghost rs_old = task.common_subsequence.common_regions@;
    let mut new_cs = copy_subsequence(&task.common_subsequence);
    if m > 0 {
        proof {
            lemma_total_size_nonneg(rs_old);
        }
        new_cs.common_regions.push(CommonRegion::new(o1, o2, m));
        new_cs.size = new_cs.size + m;
        proof {
            lemma_extend_regions(rs_old, new_cs.common_regions@, o1, o2, m, av, bv);
        }
    }
    let ghost rs_new = new_cs.common_regions@;

    if iter1_finished && iter2_finished {
        proof {
            if m == 0 {
                assert(rs_new == rs_old);
            }
            lemma_result_valid(rs_new, av, bv);
            // The slide preserved the task's priority value, which bounds
            // the optimum from below; the upper-bound lemma closes it.
            assert(new_cs.size >= l00);
            lemma_result_optimal(rs_new, av, bv);
            if av == bv && o1 == 0 && o2 == 0 && rs_old.len() == 0
                && task.common_subsequence.size == 0 {
                if len1 > 0 {
                    assert(rs_new =~= seq![
                        (CommonRegion { iter1_offset: 0, iter2_offset: 0, size: len1 }),
                    ]);
                } else {
                    assert(rs_new =~= Seq::<CommonRegion>::empty());
                }
            }
        }
        return Some(new_cs);
    }
    proof {
        if av == bv && o1 == 0 && o2 == 0 && rs_old.len() == 0 {
            // On identical inputs the first slide runs to both ends, so this
            // point is never reached.
            assert(len1 == len2);
            assert(o1 + m < len1 || o2 + m < len2);
            assert(av[m as int] == bv[m as int]);
            assert(false);
        }
    }

    let no1 = o1 + m;
    let no2 = o2 + m;

    enqueue_descendants(
        iter1,
        iter2,
        new_cs,
        no1,
        no2,
        iter1_finished,
        iter2_finished,
        queue,
        seen,
        Ghost(task),
    );
    None
}

/// Enqueues the right and down descendants of a worked task, unless a
/// longer subsequence was already seen at their offset pairs, and keeps the
/// optimal-path bookkeeping: some queued task stays on an optimal path, and
/// every record lying on one keeps a cover in the queue.
#[verifier::rlimit(100)]
fn enqueue_descendants(
    iter1: &Vec<Vec<u8>>,
    iter2: &Vec<Vec<u8>>,
    new_cs: CommonSubsequence,
    no1: usize,
    no2: usize,
    iter1_finished: bool,
    iter2_finished: bool,
    queue: &mut Vec<Task>,
    seen: &mut SeenMap,
    Ghost(task): Ghost<Task>,
)
    requires
        iter1@.len() <= MAX_LCS_INPUT_LEN,
        iter2@.len() <= MAX_LCS_INPUT_LEN,
        task_inv(task, iter1.deep_view(), iter2.deep_view()),
        task.iter1_offset <= no1,
        no1 - task.iter1_offset == no2 - task.iter2_offset,
        new_cs.size == task.common_subsequence.size + (no1 - task.iter1_offset),
        spec_lcs_len(iter1.deep_view(), iter2.deep_view(), task.iter1_offset as int, task.iter2_offset as int)
            == (no1 - task.iter1_offset) + spec_lcs_len(iter1.deep_view(), iter2.deep_view(), no1 as int, no2 as int),
        iter1_finished == (no1 == iter1@.len()),
        iter2_finished == (no2 == iter2@.len()),
        !(iter1_finished && iter2_finished),
        no1 <= iter1@.len(),
        no2 <= iter2@.len(),
        !iter1_finished && !iter2_finished ==> iter1.deep_view()[no1 as int]
            != iter2.deep_view()[no2 as int],
        regions_ordered(new_cs.common_regions@, no1 as int, no2 as int),
        new_cs.size == total_size(new_cs.common_regions@),
        !iter1_finished ==> task_inv(
            (Task {
                iter1_offset: (no1 + 1) as usize,
                iter2_offset: no2,
                common_subsequence: new_cs,
            }),
            iter1.deep_view(),
            iter2.deep_view(),
        ),
        !iter2_finished ==> task_inv(
            (Task {
                iter1_offset: no1,
                iter2_offset: (no2 + 1) as usize,
                common_subsequence: new_cs,
            }),
            iter1.deep_view(),
            iter2.deep_view(),
        ),
        forall|i: int|
            0 <= i < old(queue)@.len() ==> task_inv(
                #[trigger] old(queue)@[i],
                iter1.deep_view(),
                iter2.deep_view(),
            ),
        seen_sound(old(seen)@, iter1.deep_view(), iter2.deep_view()),
        seen_aux_with(old(seen)@, old(queue)@, task, iter1.deep_view(), iter2.deep_view()),
        queue_has_perfect(old(queue)@, iter1.deep_view(), iter2.deep_view()) || task_perfect(
            task,
            iter1.deep_view(),
            iter2.deep_view(),
        ),
    ensures
        forall|i: int|
            0 <= i < final(queue)@.len() ==> task_inv(
                #[trigger] final(queue)@[i],
                iter1.deep_view(),
                iter2.deep_view(),
            ),
        queue_has_perfect(final(queue)@, iter1.deep_view(), iter2.deep_view()),
        seen_sound(final(seen)@, iter1.deep_view(), iter2.deep_view()),
        seen_aux(final(seen)@, final(queue)@, iter1.deep_view(), iter2.deep_view()),
        2 * grid_headroom(
            final(seen)@,
            iter1@.len() as int + 1,
            iter2@.len() as int + 1,
            lcs_cap(iter1.deep_view(), iter2.deep_view()),
        ) + final(queue)@.len() <= 2 * grid_headroom(
            old(seen)@,
            iter1@.len() as int + 1,
            iter2@.len() as int + 1,
            lcs_cap(iter1.deep_view(), iter2.deep_view()),
        ) + old(queue)@.len(),
{
    let ghost av = iter1.deep_view();
    let ghost bv = iter2.deep_view();
    let ghost l00 = spec_lcs_len(av, bv, 0, 0);
    let ghost q0 = old(queue)@;
    let ghost s0 = old(seen)@;
    let ghost cap = lcs_cap(av, bv);
    let ghost rs_new = new_cs.common_regions@;
    let ghost rs_old = task.common_subsequence.common_regions@;
    let ghost o1 = task.iter1_offset;
    let ghost o2 = task.iter2_offset;
    let ghost m = no1 - task.iter1_offset;
    proof {
        assert(av.len() == iter1@.len());
        assert(bv.len() == iter2@.len());
    }
    let ghost perf = task_perfect(task, av, bv);
    // The side of the step that keeps an optimal path reachable.
    let ghost d_right = !iter1_finished && (iter2_finished || spec_lcs_len(av, bv, no1 + 1, no2 as int)
        >= spec_lcs_len(av, bv, no1 as int, no2 + 1));
    proof {
        lemma_lcs_len_basic(av, bv, no1 as int, no2 as int);
        if !iter1_finished {
            lemma_lcs_len_basic(av, bv, no1 + 1, no2 as int);
        }
        if !iter2_finished {
            lemma_lcs_len_basic(av, bv, no1 as int, no2 + 1);
        }
        assert(regions_ordered(rs_new, no1 as int, no2 as int));
        assert(new_cs.size == total_size(rs_new));
        if perf {
            assert(new_cs.size + spec_lcs_len(av, bv, no1 as int, no2 as int) == l00);
            if !iter1_finished && !iter2_finished {
                assert(av[no1 as int] != bv[no2 as int]);
            } else if iter1_finished {
                assert(spec_lcs_len(av, bv, no1 as int, no2 as int) == 0);
                assert(spec_lcs_len(av, bv, no1 as int, no2 + 1) == 0);
            } else {
                assert(spec_lcs_len(av, bv, no1 as int, no2 as int) == 0);
                assert(spec_lcs_len(av, bv, no1 + 1, no2 as int) == 0);
            }
            if d_right {
                assert(new_cs.size + spec_lcs_len(av, bv, no1 + 1, no2 as int) == l00);
            } else {
                assert(!iter2_finished);
                assert(new_cs.size + spec_lcs_len(av, bv, no1 as int, no2 + 1) == l00);
            }
        } else {
            // A child on an optimal path would put the task itself on one.
            lemma_task_size_bound(rs_old, av, bv, o1 as int, o2 as int);
            lemma_lcs_len_step(av, bv, no1 as int, no2 as int);
        }
    }

    // 3. Enqueue a task one step right and one a step down, unless a longer
    // subsequence was already seen there.
    let mut enqueued_right = false;
    if !iter1_finished {
        let cs_right = copy_subsequence(&new_cs);
        let ghost qprev = queue@;
        enqueued_right = consider_descendant(queue, seen, no1 + 1, no2, cs_right);
        proof {
            assert forall|i: int| 0 <= i < queue@.len() implies task_inv(
                #[trigger] queue@[i],
                av,
                bv,
            ) by {
                if i < qprev.len() {
                    assert(queue@[i] == qprev[i]);
                } else {
                    assert(queue@[i] == queue@.last());
                    assert(queue@.last().common_subsequence.common_regions@ == rs_new);
                }
            }
            assert(regions_ordered(rs_new, no1 + 1, no2 as int));
            lemma_task_size_bound(rs_new, av, bv, no1 + 1, no2 as int);
            assert forall|k1: int, k2: int|
                (#[trigger] seen_get(seen@, k1, k2)) is Some implies 0 <= k1 <= av.len() && 0
                <= k2 <= bv.len() && seen_get(seen@, k1, k2)->Some_0 + spec_lcs_len(
                av,
                bv,
                k1,
                k2,
            ) <= l00 by {
                if !(k1 == no1 + 1 && k2 == no2) {
                    assert(seen_get(seen@, k1, k2) == seen_get(s0, k1, k2));
                }
            }
            assert(seen_sound(seen@, av, bv));
            if enqueued_right {
                assert(task_perfect(queue@.last(), av, bv) == (task_inv(queue@.last(), av, bv)
                    && new_cs.size + spec_lcs_len(av, bv, no1 + 1, no2 as int) == l00));
                assert(key_headroom(seen@, no1 + 1, no2 as int, cap) <= key_headroom(
                    s0,
                    no1 + 1,
                    no2 as int,
                    cap,
                ) - 1);
                lemma_grid_headroom_dec(
                    s0,
                    seen@,
                    av.len() as int + 1,
                    bv.len() as int + 1,
                    cap,
                    no1 + 1,
                    no2 as int,
                );
            }
        }
    }
    let ghost q_mid = queue@;
    let ghost s_mid = seen@;
    let mut enqueued_down = false;
    if !iter2_finished {
        let cs_down = copy_subsequence(&new_cs);
        let ghost qprev = queue@;
        enqueued_down = consider_descendant(queue, seen, no1, no2 + 1, cs_down);
        proof {
            assert forall|i: int| 0 <= i < queue@.len() implies task_inv(
                #[trigger] queue@[i],
                av,
                bv,
            ) by {
                if i < qprev.len() {
                    assert(queue@[i] == qprev[i]);
                } else {
                    assert(queue@[i] == queue@.last());
                    assert(queue@.last().common_subsequence.common_regions@ == rs_new);
                }
            }
            assert(regions_ordered(rs_new, no1 as int, no2 + 1));
            lemma_task_size_bound(rs_new, av, bv, no1 as int, no2 + 1);
            assert forall|k1: int, k2: int|
                (#[trigger] seen_get(seen@, k1, k2)) is Some implies 0 <= k1 <= av.len() && 0
                <= k2 <= bv.len() && seen_get(seen@, k1, k2)->Some_0 + spec_lcs_len(
                av,
                bv,
                k1,
                k2,
            ) <= l00 by {
                if !(k1 == no1 && k2 == no2 + 1) {
                    assert(seen_get(seen@, k1, k2) == seen_get(s_mid, k1, k2));
                }
            }
            assert(seen_sound(seen@, av, bv));
            if enqueued_down {
                assert(task_perfect(queue@.last(), av, bv) == (task_inv(queue@.last(), av, bv)
                    && new_cs.size + spec_lcs_len(av, bv, no1 as int, no2 + 1) == l00));
                assert(key_headroom(seen@, no1 as int, no2 + 1, cap) <= key_headroom(
                    s_mid,
                    no1 as int,
                    no2 + 1,
                    cap,
                ) - 1);
                lemma_grid_headroom_dec(
                    s_mid,
                    seen@,
                    av.len() as int + 1,
                    bv.len() as int + 1,
                    cap,
                    no1 as int,
                    no2 + 1,
                );
            }
        }
    }
    proof {
        // Old queue entries survive both calls at their indices.
        assert forall|i: int| 0 <= i < q0.len() implies queue@[i] == q0[i] by {}
        assert(queue@.len() >= q0.len());
        // Locate the surviving or fresh cover on an optimal path.
        let ghost wit: int = if perf {
            if d_right {
                if enqueued_right {
                    q0.len() as int
                } else {
                    // The dominating entry lies on an optimal path, so a
                    // queued task past this one covers it.
                    let sv = seen_get(s0, no1 + 1, no2 as int)->Some_0;
                    assert(sv + spec_lcs_len(av, bv, no1 + 1, no2 as int) == l00);
                    let i = choose|i: int|
                        0 <= i < q0.len() && #[trigger] task_perfect(q0[i], av, bv)
                            && q0[i].iter1_offset + q0[i].iter2_offset >= no1 + 1 + no2;
                    i
                }
            } else {
                if enqueued_down {
                    q_mid.len() as int
                } else {
                    assert(seen_get(s_mid, no1 as int, no2 + 1) == seen_get(
                        s0,
                        no1 as int,
                        no2 + 1,
                    ));
                    let sv = seen_get(s0, no1 as int, no2 + 1)->Some_0;
                    assert(sv + spec_lcs_len(av, bv, no1 as int, no2 + 1) == l00);
                    let i = choose|i: int|
                        0 <= i < q0.len() && #[trigger] task_perfect(q0[i], av, bv)
                            && q0[i].iter1_offset + q0[i].iter2_offset >= no1 + no2 + 1;
                    i
                }
            }
        } else {
            choose|i: int| 0 <= i < q0.len() && #[trigger] task_perfect(q0[i], av, bv)
        };
        assert(0 <= wit < queue@.len());
        assert(task_perfect(queue@[wit], av, bv));
        assert(queue_has_perfect(queue@, av, bv));
        if perf {
            assert(queue@[wit].iter1_offset + queue@[wit].iter2_offset >= no1 + no2 + 1);
        }
        // Every record on an optimal path is covered.
        assert forall|k1: int, k2: int|
            ((#[trigger] seen_get(seen@, k1, k2)) is Some && seen_get(seen@, k1, k2)->Some_0
                + spec_lcs_len(av, bv, k1, k2) == l00) implies exists|i: int|
            0 <= i < queue@.len() && #[trigger] task_perfect(queue@[i], av, bv)
                && queue@[i].iter1_offset + queue@[i].iter2_offset >= k1 + k2 by {
            let v = seen_get(seen@, k1, k2)->Some_0;
            if perf {
                if k1 == no1 + 1 && k2 == no2 {
                    assert(queue@[wit].iter1_offset + queue@[wit].iter2_offset >= k1 + k2);
                } else if k1 == no1 && k2 == no2 + 1 {
                    assert(queue@[wit].iter1_offset + queue@[wit].iter2_offset >= k1 + k2);
                } else {
                    assert(seen_get(seen@, k1, k2) == seen_get(s0, k1, k2));
                    // The pre-existing cover either survives or was this
                    // task, which the new cover strictly outruns.
                    if exists|i: int|
                        0 <= i < q0.len() && #[trigger] task_perfect(q0[i], av, bv)
                            && q0[i].iter1_offset + q0[i].iter2_offset >= k1 + k2 {
                        let i = choose|i: int|
                            0 <= i < q0.len() && #[trigger] task_perfect(q0[i], av, bv)
                                && q0[i].iter1_offset + q0[i].iter2_offset >= k1 + k2;
                        assert(task_perfect(queue@[i], av, bv));
                    } else {
                        assert(task.iter1_offset + task.iter2_offset >= k1 + k2);
                        assert(queue@[wit].iter1_offset + queue@[wit].iter2_offset >= k1 + k2);
                    }
                }
            } else {
                // Without an optimal task in hand no new record can lie on
                // an optimal path, and old ones keep their covers.
                if (k1 == no1 + 1 && k2 == no2 && !iter1_finished) || (k1 == no1 && k2 == no2 + 1
                    && !iter2_finished) {
                    if seen_get(seen@, k1, k2) != seen_get(s0, k1, k2) {
                        assert(v == new_cs.size);
                        assert(spec_lcs_len(av, bv, no1 as int, no2 as int) >= spec_lcs_len(
                            av,
                            bv,
                            k1,
                            k2,
                        ));
                        assert(task.common_subsequence.size + spec_lcs_len(
                            av,
                            bv,
                            o1 as int,
                            o2 as int,
                        ) >= l00);
                        assert(task_perfect(task, av, bv));
                        assert(false);
                    }
                }
                assert(seen_get(seen@, k1, k2) == seen_get(s0, k1, k2));
                let i = choose|i: int|
                    0 <= i < q0.len() && #[trigger] task_perfect(q0[i], av, bv)
                        && q0[i].iter1_offset + q0[i].iter2_offset >= k1 + k2;
                assert(task_perfect(queue@[i], av, bv));
            }
        }
        assert(seen_aux(seen@, queue@, av, bv));
    }
}


/// Finds a longest common subsequence of the two token sequences by
/// best-first search. Returns `None` only if the time budget
/// `time_limit_ms` runs out first; a limit of `u64::MAX` disables the clock
/// entirely and always answers. Any returned
/// subsequence is valid for the inputs — its regions are ordered, disjoint,
/// mark pointwise-equal tokens, never touch on both sides at once, and every
/// two-sided gap starts with a genuine mismatch — and is globally optimal by
/// token count: its size equals `spec_lcs_len`, which no ordered matching
/// region list can beat (`lemma_lcs_len_is_max`). On identical inputs (with
/// the clock disabled) the very first diagonal slide answers: one region
/// covering every token.
pub fn get_longest_common_subsequence(
    iter1: &Vec<Vec<u8>>,
    iter2: &Vec<Vec<u8>>,
    time_limit_ms: u64,
) -> (r: Option<CommonSubsequence>)
    requires
        iter1@.len() <= MAX_LCS_INPUT_LEN,
        iter2@.len() <= MAX_LCS_INPUT_LEN,
    ensures
        (r matches Some(cs) ==> valid_lcs(cs, iter1.deep_view(), iter2.deep_view())),
        (r matches Some(cs) ==> cs.size == spec_lcs_len(iter1.deep_view(), iter2.deep_view(), 0, 0)),
        time_limit_ms == u64::MAX ==> r is Some,
        (time_limit_ms == u64::MAX && iter1.deep_view() == iter2.deep_view()) ==> (r matches Some(
            cs,
        ) && cs.size == iter1@.len() && cs.common_regions@ == (if iter1@.len() == 0 {
            Seq::<CommonRegion>::empty()
        } else {
            seq![(CommonRegion { iter1_offset: 0, iter2_offset: 0, size: iter1@.len() as usize })]
        })),
{
    let ghost av = iter1.deep_view();
    let ghost bv = iter2.deep_view();
    proof {
        assert(av.len() == iter1@.len());
        assert(bv.len() == iter2@.len());
    }
    let start_time = instant_now();

    let mut queue: Vec<Task> = Vec::new();
    let first_task = Task {
        iter1_offset: 0,
        iter2_offset: 0,
        common_subsequence: CommonSubsequence { common_regions: Vec::new(), size: 0 },
    };
    proof {
        assert(first_task.common_subsequence.common_regions@ =~= Seq::<CommonRegion>::empty());
        assert(task_inv(first_task, av, bv));
    }
    proof {
        assert(task_perfect(first_task, av, bv));
    }
    queue.push(first_task);
    let mut seen = SeenMap::new();
    proof {
        assert(task_perfect(queue@[0], av, bv));
        assert(queue_has_perfect(queue@, av, bv));
        assert forall|k1: int, k2: int| (#[trigger] seen_get(seen@, k1, k2)) is Some implies
            false by {}
        assert(seen_sound(seen@, av, bv));
        assert(seen_aux(seen@, queue@, av, bv));
    }

    // Dominance pruning lets the search revisit an offset pair only with a
    // strictly longer subsequence, so the total headroom of the dominance
    // map falls with every enqueue: the search terminates.
    loop
        invariant
            av == iter1.deep_view(),
            bv == iter2.deep_view(),
            iter1@.len() <= MAX_LCS_INPUT_LEN,
            iter2@.len() <= MAX_LCS_INPUT_LEN,
            forall|i: int| 0 <= i < queue@.len() ==> task_inv(#[trigger] queue@[i], av, bv),
            queue_has_perfect(queue@, av, bv),
            seen_sound(seen@, av, bv),
            seen_aux(seen@, queue@, av, bv),
            (time_limit_ms == u64::MAX && av == bv) ==> (queue@.len() == 1
                && queue@[0].iter1_offset == 0 && queue@[0].iter2_offset == 0
                && queue@[0].common_subsequence.common_regions@.len() == 0
                && queue@[0].common_subsequence.size == 0),
        decreases 2 * grid_headroom(
            seen@,
            iter1@.len() as int + 1,
            iter2@.len() as int + 1,
            lcs_cap(av, bv),
        ) + queue@.len(),
    {
        if time_limit_ms != u64::MAX {
            if millis_elapsed_exceeds(&start_time, time_limit_ms) {
                return None;
            }
        }
        if queue.len() == 0 {
            proof {
                // A task on an optimal path is always queued.
                assert(queue@.len() > 0);
            }
            return None;
        }
        proof {
            assert forall|i: int| 0 <= i < queue@.len() implies task_arith(
                #[trigger] queue@[i],
            ) by {
                assert(task_inv(queue@[i], av, bv));
            }
        }
        let ghost qbefore = queue@;
        let task = pop_best(&mut queue);
        proof {
            let idx = choose|i: int| 0 <= i < qbefore.len() && qbefore[i] == task;
            assert(task == qbefore[idx]);
            assert(task_inv(task, av, bv));
            assert forall|i: int| 0 <= i < queue@.len() implies task_inv(
                #[trigger] queue@[i],
                av,
                bv,
            ) by {
                assert(qbefore.contains(queue@[i]));
                let j = choose|j: int| 0 <= j < qbefore.len() && qbefore[j] == queue@[i];
                assert(task_inv(qbefore[j], av, bv));
            }
        }
        let ghost was_initial = task.iter1_offset == 0 && task.iter2_offset == 0
            && task.common_subsequence.common_regions@.len() == 0
            && task.common_subsequence.size == 0;
        proof {
            // The popped task's priority value is at least the perfect
            // witness's, which itself bounds the optimum's value.
            let w = choose|i: int| 0 <= i < qbefore.len() && #[trigger] task_perfect(
                qbefore[i],
                av,
                bv,
            );
            lemma_lcs_len_basic(
                av,
                bv,
                qbefore[w].iter1_offset as int,
                qbefore[w].iter2_offset as int,
            );
            assert(task_value(task) >= task_value(qbefore[w]));
            assert(2 * task.common_subsequence.size - task.iter1_offset - task.iter2_offset >= 2
                * spec_lcs_len(av, bv, 0, 0) - av.len() - bv.len());
            // Covers survive the pop or pass to the task in hand.
            assert forall|k1: int, k2: int|
                ((#[trigger] seen_get(seen@, k1, k2)) is Some && seen_get(seen@, k1, k2)->Some_0
                    + spec_lcs_len(av, bv, k1, k2) == spec_lcs_len(av, bv, 0, 0)) implies (exists|
                i: int,
            |
                0 <= i < queue@.len() && #[trigger] task_perfect(queue@[i], av, bv)
                    && queue@[i].iter1_offset + queue@[i].iter2_offset >= k1 + k2) || (
            task_perfect(task, av, bv) && task.iter1_offset + task.iter2_offset >= k1 + k2) by {
                let i0 = choose|i: int|
                    0 <= i < qbefore.len() && #[trigger] task_perfect(qbefore[i], av, bv)
                        && qbefore[i].iter1_offset + qbefore[i].iter2_offset >= k1 + k2;
                if qbefore[i0] != task {
                    assert(queue@.contains(qbefore[i0]));
                    let j = choose|j: int| 0 <= j < queue@.len() && queue@[j] == qbefore[i0];
                    assert(task_perfect(queue@[j], av, bv));
                }
            }
            assert(seen_aux_with(seen@, queue@, task, av, bv));
            // A perfect witness survives or is the task itself.
            let w2 = choose|i: int| 0 <= i < qbefore.len() && #[trigger] task_perfect(
                qbefore[i],
                av,
                bv,
            );
            if qbefore[w2] != task {
                assert(queue@.contains(qbefore[w2]));
                let j = choose|j: int| 0 <= j < queue@.len() && queue@[j] == qbefore[w2];
                assert(task_perfect(queue@[j], av, bv));
                assert(queue_has_perfect(queue@, av, bv));
            } else {
                assert(task_perfect(task, av, bv));
            }
        }
        match work_task(iter1, iter2, task, &mut queue, &mut seen) {
            Some(cs) => {
                return Some(cs);
            },
            None => {
                proof {
                    if time_limit_ms == u64::MAX && av == bv {
                        // The popped task was the initial one, for which
                        // working the task always answers.
                        assert(was_initial);
                        assert(false);
                    }
                    lemma_seen_sound_bounded(seen@, av, bv);
                    lemma_grid_headroom_nonneg(
                        seen@,
                        av.len() as int + 1,
                        bv.len() as int + 1,
                        lcs_cap(av, bv),
                    );
                }
            },
        }
    }
}

} // verus!
