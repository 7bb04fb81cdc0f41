//! The inclusive length range and the non-destructive length filter.

use vstd::prelude::*;

verus! {

/// An inclusive range `[min, max]` of record lengths.
///
/// A `max` of `usize::MAX` stands for "no upper bound". Nothing forces
/// `min <= max`: an inverted range simply accepts no length.
#[derive(Clone, Copy, Debug, PartialEq, Eq, Structural)]
pub struct FilterRange {
    pub min: usize,
    pub max: usize,
}

impl FilterRange {
    /// Whether a record of length `len` lies inside the range.
    pub open spec fn accepts(self, len: usize) -> bool {
        self.min <= len <= self.max
    }

    /// Whether the range lets every length through.
    pub open spec fn is_unbounded(self) -> bool {
        self.min == 0 && self.max == usize::MAX
    }

    /// The range `[min, max]`.
    pub fn new(min: usize, max: usize) -> (range: FilterRange)
        ensures
            range.min == min,
            range.max == max,
    {
        FilterRange { min, max }
    }

    /// The range that accepts every length.
    pub fn unbounded() -> (range: FilterRange)
        ensures
            range.is_unbounded(),
    {
        FilterRange { min: 0, max: usize::MAX }
    }

    /// The upper bound, or `None` where the range has none.
    pub fn upper_bound(&self) -> (bound: Option<usize>)
        ensures
            bound == (if self.max == usize::MAX {
                None
            } else {
                Some(self.max)
            }),
    {
        if self.max == usize::MAX {
            None
        } else {
            Some(self.max)
        }
    }

    /// Executable form of [`FilterRange::accepts`].
    pub fn contains(&self, len: usize) -> (inside: bool)
        ensures
            inside == self.accepts(len),
    {
        self.min <= len && len <= self.max
    }
}

impl Default for FilterRange {
    /// The range that accepts every length.
    fn default() -> (range: FilterRange)
        ensures
            range.is_unbounded(),
    {
        FilterRange::unbounded()
    }
}

/// The lengths of `raw` that `range` accepts, in the order in which they
/// stand in `raw`.
pub open spec fn filtered(raw: Seq<usize>, range: FilterRange) -> Seq<usize> {
    raw.filter(|len: usize| range.accepts(len))
}

/// The positions of `raw` whose lengths `range` accepts, in ascending order.
pub open spec fn kept_positions(raw: Seq<usize>, range: FilterRange) -> Seq<int>
    decreases raw.len(),
{
    if raw.len() == 0 {
        Seq::empty()
    } else if range.accepts(raw.last()) {
        kept_positions(raw.drop_last(), range).push(raw.len() - 1)
    } else {
        kept_positions(raw.drop_last(), range)
    }
}

/// `kept` is what remains of `raw` when exactly the lengths at `positions`
/// are taken, in the order in which they stand in `raw`, and `positions`
/// are exactly the places of the lengths that `range` accepts.
pub open spec fn is_selection(
    raw: Seq<usize>,
    range: FilterRange,
    positions: Seq<int>,
    kept: Seq<usize>,
) -> bool {
    &&& positions.len() == kept.len()
    &&& forall|k: int|
        0 <= k < positions.len() ==> 0 <= #[trigger] positions[k] < raw.len() && kept[k]
            == raw[positions[k]]
    &&& forall|j: int, k: int|
        0 <= j < k < positions.len() ==> #[trigger] positions[j] < #[trigger] positions[k]
    &&& forall|i: int|
        0 <= i < raw.len() ==> (range.accepts(#[trigger] raw[i]) <==> exists|k: int|
            0 <= k < positions.len() && #[trigger] positions[k] == i)
}

/// The range without bounds filters nothing out.
pub proof fn lemma_unbounded_filter_is_identity(raw: Seq<usize>, range: FilterRange)
    requires
        range.is_unbounded(),
    ensures
        filtered(raw, range) == raw,
    decreases raw.len(),
{
    reveal(Seq::filter);
    if raw.len() > 0 {
        lemma_unbounded_filter_is_identity(raw.drop_last(), range);
        assert(raw.drop_last().push(raw.last()) =~= raw);
    }
}

/// Filtering takes an order-preserving subsequence of `raw`: exactly the
/// lengths inside the range, each as often as it occurs, none moved.
pub proof fn lemma_filter_selects_in_order(raw: Seq<usize>, range: FilterRange)
    ensures
        is_selection(raw, range, kept_positions(raw, range), filtered(raw, range)),
    decreases raw.len(),
{
    reveal(Seq::filter);
    if raw.len() > 0 {
        let front = raw.drop_last();
        let positions = kept_positions(front, range);
        let grown = kept_positions(raw, range);
        lemma_filter_selects_in_order(front, range);
        assert forall|i: int| 0 <= i < raw.len() implies (range.accepts(#[trigger] raw[i]) <==> exists|
            k: int,
        |
            0 <= k < grown.len() && #[trigger] grown[k] == i) by {
            if i < front.len() {
                assert(front[i] == raw[i]);
                if range.accepts(raw[i]) {
                    let k = choose|k: int| 0 <= k < positions.len() && #[trigger] positions[k] == i;
                    assert(grown[k] == i);
                }
            } else if range.accepts(raw[i]) {
                assert(grown[positions.len() as int] == i);
            }
        }
    }
}

/// Keeps the lengths of `raw` that lie inside `range`, in the order in
/// which they stand. `raw` itself is left untouched, so a wider range can
/// always be applied afterwards.
pub fn apply_filter(raw: &Vec<usize>, range: &FilterRange) -> (kept: Vec<usize>)
    ensures
        kept@ == filtered(raw@, *range),
        is_selection(raw@, *range, kept_positions(raw@, *range), kept@),
        range.is_unbounded() ==> kept@ == raw@,
{
    proof {
        lemma_filter_selects_in_order(raw@, *range);
        if range.is_unbounded() {
            lemma_unbounded_filter_is_identity(raw@, *range);
        }
    }
    let mut kept: Vec<usize> = Vec::new();
    let mut i: usize = 0;
    while i < raw.len()
        invariant
            i <= raw.len(),
            kept@ == filtered(raw@.take(i as int), *range),
        decreases raw.len() - i,
    {
        proof {
            reveal(Seq::filter);
            assert(raw@.take(i + 1).drop_last() =~= raw@.take(i as int));
        }
        if range.contains(raw[i]) {
            kept.push(raw[i]);
        }
        i += 1;
    }
    proof {
        assert(raw@.take(raw.len() as int) =~= raw@);
    }
    kept
}

} // verus!
