//! The integer parts of ranking: where the matched tokens of a query stand
//! in an entry, how far apart, and how many match exactly.
use vstd::prelude::*;

verus! {

/// Each element is strictly larger than the one before.
pub open spec fn increasing(s: Seq<usize>) -> bool {
    forall|i: int, j: int| 0 <= i < j < s.len() ==> #[trigger] s[i] < #[trigger] s[j]
}

/// The number of positions skipped between consecutive elements: the sum
/// of `s[i + 1] - s[i] - 1`.
pub open spec fn gap_sum(s: Seq<usize>) -> int
    decreases s.len(),
{
    if s.len() < 2 {
        0
    } else {
        gap_sum(s.drop_last()) + (s.last() - s[s.len() - 2] - 1)
    }
}

/// The smallest element, or `usize::MAX` for an empty sequence.
pub open spec fn min_or_max(s: Seq<usize>) -> usize
    decreases s.len(),
{
    if s.len() == 0 {
        usize::MAX
    } else {
        let m = min_or_max(s.drop_last());
        if s.last() < m {
            s.last()
        } else {
            m
        }
    }
}

/// The number of `true` elements.
pub open spec fn count_true(s: Seq<bool>) -> nat
    decreases s.len(),
{
    if s.len() == 0 {
        0
    } else {
        count_true(s.drop_last()) + if s.last() {
            1nat
        } else {
            0nat
        }
    }
}

/// For increasing positions, the skipped positions add up to the span
/// between the first and the last less the positions taken.
pub proof fn lemma_gap_sum_span(s: Seq<usize>)
    requires
        increasing(s),
        s.len() > 0,
    ensures
        gap_sum(s) == s.last() - s[0] - (s.len() - 1),
        gap_sum(s) >= 0,
    decreases s.len(),
{
    if s.len() >= 2 {
        lemma_gap_sum_span(s.drop_last());
        assert(s[s.len() - 2] < s.last());
    }
}

/// The first matched position is the smallest: with nothing matched it is
/// `usize::MAX`; otherwise it is one of the positions, and no position is
/// smaller.
pub proof fn law_first_position_is_min(s: Seq<usize>)
    ensures
        s.len() == 0 ==> min_or_max(s) == usize::MAX,
        s.len() > 0 ==> s.contains(min_or_max(s)),
        forall|i: int| 0 <= i < s.len() ==> min_or_max(s) <= #[trigger] s[i],
    decreases s.len(),
{
    if s.len() > 0 {
        let init = s.drop_last();
        law_first_position_is_min(init);
        assert(s[s.len() - 1] == s.last());
        if init.len() > 0 && min_or_max(init) <= s.last() {
            let k = choose|k: int| 0 <= k < init.len() && init[k] == min_or_max(init);
            assert(s[k] == min_or_max(s));
        }
        assert forall|i: int| 0 <= i < s.len() implies min_or_max(s) <= #[trigger] s[i] by {
            if i < s.len() - 1 {
                assert(s[i] == init[i]);
            }
        }
    }
}

/// The total number of positions skipped between consecutive matched
/// positions; zero for fewer than two.
pub fn proximity_cost(doc_indices: &[usize]) -> (r: usize)
    requires
        increasing(doc_indices@),
    ensures
        r == gap_sum(doc_indices@),
        doc_indices@.len() > 0 ==> r == doc_indices@.last() - doc_indices@[0] - (
        doc_indices@.len() - 1),
{
    if doc_indices.len() < 2 {
        return 0;
    }
    proof {
        lemma_gap_sum_span(doc_indices@);
    }
    let mut cost: usize = 0;
    let mut i: usize = 1;
    while i < doc_indices.len()
        invariant
            1 <= i <= doc_indices@.len(),
            increasing(doc_indices@),
            cost == gap_sum(doc_indices@.take(i as int)),
            cost == doc_indices@[i - 1] - doc_indices@[0] - (i - 1),
        decreases doc_indices@.len() - i,
    {
        let lhs = doc_indices[i - 1];
        let rhs = doc_indices[i];
        proof {
            assert(doc_indices@.take(i + 1).drop_last() =~= doc_indices@.take(i as int));
            assert(lhs < rhs);
            assert(doc_indices@[0] <= lhs);
        }
        cost = cost + (rhs - lhs - 1);
        i = i + 1;
    }
    proof {
        assert(doc_indices@.take(i as int) =~= doc_indices@);
    }
    cost
}

/// The smallest matched position, or `usize::MAX` when nothing matched.
pub fn first_position(doc_indices: &[usize]) -> (r: usize)
    ensures
        r == min_or_max(doc_indices@),
        doc_indices@.len() == 0 ==> r == usize::MAX,
        doc_indices@.len() > 0 ==> doc_indices@.contains(r),
        forall|i: int| 0 <= i < doc_indices@.len() ==> r <= #[trigger] doc_indices@[i],
{
    proof {
        law_first_position_is_min(doc_indices@);
    }
    let mut first: usize = usize::MAX;
    let mut i: usize = 0;
    proof {
        assert(doc_indices@.take(0) =~= Seq::<usize>::empty());
    }
    while i < doc_indices.len()
        invariant
            i <= doc_indices@.len(),
            first == min_or_max(doc_indices@.take(i as int)),
        decreases doc_indices@.len() - i,
    {
        proof {
            assert(doc_indices@.take(i + 1).drop_last() =~= doc_indices@.take(i as int));
        }
        if doc_indices[i] < first {
            first = doc_indices[i];
        }
        i = i + 1;
    }
    proof {
        assert(doc_indices@.take(i as int) =~= doc_indices@);
    }
    first
}

/// The number of exact matches.
pub fn count_exact(exact: &[bool]) -> (r: usize)
    ensures
        r == count_true(exact@),
{
    let mut count: usize = 0;
    let mut i: usize = 0;
    proof {
        assert(exact@.take(0) =~= Seq::<bool>::empty());
    }
    while i < exact.len()
        invariant
            i <= exact@.len(),
            count == count_true(exact@.take(i as int)),
            count <= i,
        decreases exact@.len() - i,
    {
        proof {
            assert(exact@.take(i + 1).drop_last() =~= exact@.take(i as int));
        }
        if exact[i] {
            count = count + 1;
        }
        i = i + 1;
    }
    proof {
        assert(exact@.take(i as int) =~= exact@);
    }
    count
}

/// Where the matches chosen so far stand: how many there are, how many are
/// exact, how many positions they skip, and the first and last position.
#[derive(Debug, Clone, Copy)]
pub struct PositionMetrics {
    /// The number of matched query terms.
    pub matched_terms: usize,
    /// The number of exact matches.
    pub exact_terms: usize,
    /// The positions skipped between consecutive matches.
    pub proximity_cost: usize,
    /// The smallest matched position, `usize::MAX` when nothing matched.
    pub first_position: usize,
    /// The position of the last match.
    pub last_position: Option<usize>,
}

/// The metrics of matches at `positions`, of which those with `exact` set
/// are exact, as ranking computes them from the finished selection.
pub open spec fn summary(positions: Seq<usize>, exact: Seq<bool>) -> PositionMetrics {
    PositionMetrics {
        matched_terms: positions.len() as usize,
        exact_terms: count_true(exact) as usize,
        proximity_cost: gap_sum(positions) as usize,
        first_position: min_or_max(positions),
        last_position: if positions.len() == 0 {
            None
        } else {
            Some(positions.last())
        },
    }
}

impl PositionMetrics {
    /// The metrics of an empty selection.
    pub fn new() -> (r: Self)
        ensures
            r == summary(seq![], seq![]),
    {
        PositionMetrics {
            matched_terms: 0,
            exact_terms: 0,
            proximity_cost: 0,
            first_position: usize::MAX,
            last_position: None,
        }
    }

    /// The metrics after one more match at `doc_index`, which must come
    /// after the last one.
    pub fn with_match(&self, doc_index: usize, exact: bool) -> (r: Self)
        requires
            self.last_position matches Some(last) ==> last < doc_index
                && self.proximity_cost + (doc_index - last - 1) <= usize::MAX,
            self.matched_terms < usize::MAX,
            exact ==> self.exact_terms < usize::MAX,
        ensures
            r.matched_terms == self.matched_terms + 1,
            r.exact_terms == self.exact_terms + if exact {
                1int
            } else {
                0int
            },
            r.proximity_cost == self.proximity_cost + match self.last_position {
                Some(last) => doc_index - last - 1,
                None => 0,
            },
            r.first_position == (if doc_index < self.first_position {
                doc_index
            } else {
                self.first_position
            }),
            r.last_position == Some(doc_index),
    {
        let proximity_cost = match self.last_position {
            Some(last) => self.proximity_cost + (doc_index - last - 1),
            None => self.proximity_cost,
        };
        PositionMetrics {
            matched_terms: self.matched_terms + 1,
            exact_terms: if exact {
                self.exact_terms + 1
            } else {
                self.exact_terms
            },
            proximity_cost,
            first_position: if doc_index < self.first_position {
                doc_index
            } else {
                self.first_position
            },
            last_position: Some(doc_index),
        }
    }
}

/// The metrics that the search keeps up match by match are those that
/// ranking computes from the finished selection: extending the summary of
/// a selection by a later match gives the summary of the longer selection.
pub proof fn lemma_with_match_summary(
    positions: Seq<usize>,
    exact: Seq<bool>,
    doc_index: usize,
    is_exact: bool,
)
    requires
        increasing(positions.push(doc_index)),
        positions.len() == exact.len(),
        positions.len() < usize::MAX,
    ensures
        ({
            let m = summary(positions, exact);
            let n = summary(positions.push(doc_index), exact.push(is_exact));
            &&& n.matched_terms == m.matched_terms + 1
            &&& n.exact_terms == m.exact_terms + if is_exact {
                1int
            } else {
                0int
            }
            &&& n.proximity_cost == m.proximity_cost + match m.last_position {
                Some(last) => doc_index - last - 1,
                None => 0,
            }
            &&& n.first_position == (if doc_index < m.first_position {
                doc_index
            } else {
                m.first_position
            })
            &&& n.last_position == Some(doc_index)
        }),
{
    let p = positions.push(doc_index);
    let e = exact.push(is_exact);
    assert(p.drop_last() =~= positions);
    assert(e.drop_last() =~= exact);
    assert(increasing(positions));
    if positions.len() > 0 {
        lemma_gap_sum_span(p);
        lemma_gap_sum_span(positions);
    }
    assert(count_true(e) <= e.len()) by {
        lemma_count_true_bound(e);
    }
    assert(count_true(exact) <= exact.len()) by {
        lemma_count_true_bound(exact);
    }
}

/// There are no more `true` elements than elements.
pub proof fn lemma_count_true_bound(s: Seq<bool>)
    ensures
        count_true(s) <= s.len(),
    decreases s.len(),
{
    if s.len() > 0 {
        lemma_count_true_bound(s.drop_last());
    }
}

} // verus!
