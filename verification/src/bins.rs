//! The histogram of record lengths.

use vstd::prelude::*;
use vstd::string::StringExecFns;
use crate::decimal::{append_decimal, decimal};

verus! {

/// One bar of the histogram: the lengths `lo..=hi` named by the label
/// `"lo-hi"`, and how many records fell into them.
#[derive(Clone, Debug, PartialEq, Eq)]
pub struct Bin {
    pub label: String,
    pub count: u64,
}

/// What a [`Bin`] stands for.
pub struct BinView {
    pub label: Seq<char>,
    pub count: nat,
}

impl View for Bin {
    type V = BinView;

    open spec fn view(&self) -> BinView {
        BinView { label: self.label@, count: self.count as nat }
    }
}

/// The views of a run of bins.
pub open spec fn bin_views(bins: Seq<Bin>) -> Seq<BinView> {
    bins.map_values(|b: Bin| b@)
}

/// The largest of `lengths`; zero where there is none.
pub open spec fn max_length(lengths: Seq<usize>) -> nat
    decreases lengths.len(),
{
    if lengths.len() == 0 {
        0
    } else {
        let rest = max_length(lengths.drop_last());
        if lengths.last() > rest {
            lengths.last() as nat
        } else {
            rest
        }
    }
}

/// `a / b`, rounded up.
pub open spec fn ceil_div(a: nat, b: nat) -> nat
    recommends
        b > 0,
{
    if a % b == 0 {
        a / b
    } else {
        a / b + 1
    }
}

/// How many lengths one bin spans: a tenth of the largest length, rounded
/// up, and never less than one.
pub open spec fn bin_width(max_len: nat) -> nat {
    if ceil_div(max_len, 10) < 1 {
        1
    } else {
        ceil_div(max_len, 10)
    }
}

/// How many bins there are: enough to reach the largest length, and one
/// more.
pub open spec fn bin_count(max_len: nat) -> nat {
    ceil_div(max_len, bin_width(max_len)) + 1
}

/// The bin that a record of length `len` falls into. A length beyond the
/// last bin is counted in the last bin.
pub open spec fn bin_index(len: nat, width: nat, count: nat) -> nat
    recommends
        width > 0,
        count > 0,
{
    if len / width < count - 1 {
        len / width
    } else {
        (count - 1) as nat
    }
}

/// The label of bin `index`: its first and last length, joined by a hyphen.
pub open spec fn bin_label(index: nat, width: nat) -> Seq<char>
    recommends
        width > 0,
{
    decimal(index * width) + seq!['-'] + decimal(((index + 1) * width - 1) as nat)
}

/// How many of `lengths` fall into bin `index`.
pub open spec fn tally(lengths: Seq<usize>, width: nat, count: nat, index: nat) -> nat {
    lengths.filter(|len: usize| bin_index(len as nat, width, count) == index).len()
}

/// The histogram of `lengths`: no bins for no lengths, otherwise
/// `bin_count` bins of equal width, in ascending order.
pub open spec fn histogram(lengths: Seq<usize>) -> Seq<BinView> {
    if lengths.len() == 0 {
        Seq::empty()
    } else {
        let width = bin_width(max_length(lengths));
        let count = bin_count(max_length(lengths));
        Seq::new(
            count,
            |i: int| BinView { label: bin_label(i as nat, width), count: tally(lengths, width, count, i as nat) },
        )
    }
}

/// The counts of `bins`, added up.
pub open spec fn total_count(bins: Seq<BinView>) -> nat
    decreases bins.len(),
{
    if bins.len() == 0 {
        0
    } else {
        total_count(bins.drop_last()) + bins.last().count
    }
}

/// The largest count among `bins`; zero where there are none.
pub open spec fn top_count(bins: Seq<BinView>) -> nat
    decreases bins.len(),
{
    if bins.len() == 0 {
        0
    } else if bins.last().count > top_count(bins.drop_last()) {
        bins.last().count
    } else {
        top_count(bins.drop_last())
    }
}

/// How high the bar of a bin with `count` records is drawn when the bar of
/// the fullest bin, with `top` records, is `full` high.
pub open spec fn bar_height(count: nat, top: nat, full: nat) -> nat {
    if top == 0 {
        0
    } else {
        count * full / top
    }
}

/// The largest length is one of the lengths and none exceeds it.
pub proof fn lemma_max_length(lengths: Seq<usize>)
    ensures
        forall|i: int| 0 <= i < lengths.len() ==> #[trigger] lengths[i] <= max_length(lengths),
        lengths.len() > 0 ==> exists|i: int| 0 <= i < lengths.len() && #[trigger] lengths[i] == max_length(lengths),
        max_length(lengths) <= usize::MAX,
    decreases lengths.len(),
{
    if lengths.len() > 0 {
        let front = lengths.drop_last();
        lemma_max_length(front);
        assert forall|i: int| 0 <= i < lengths.len() implies #[trigger] lengths[i] <= max_length(
            lengths,
        ) by {
            if i < front.len() {
                assert(front[i] == lengths[i]);
            }
        }
        if lengths.last() > max_length(front) || front.len() == 0 {
            assert(lengths[lengths.len() - 1] == max_length(lengths));
        } else {
            let i = choose|i: int| 0 <= i < front.len() && #[trigger] front[i] == max_length(front);
            assert(lengths[i] == max_length(lengths));
        }
    }
}

/// A bin is at least one length wide, ten bins reach the largest length,
/// and so there are never more than eleven.
pub proof fn lemma_bin_geometry(max_len: nat)
    ensures
        bin_width(max_len) >= 1,
        bin_width(max_len) <= max_len || max_len == 0,
        10 * bin_width(max_len) >= max_len,
        1 <= bin_count(max_len) <= 11,
{
    let w = bin_width(max_len);
    assert(w >= 1);
    assert(10 * w >= max_len);
    assert(w <= max_len || max_len == 0);
    assert(max_len / w <= 10 && (max_len / w == 10 ==> max_len % w == 0)) by (nonlinear_arith)
        requires
            w >= 1,
            10 * w >= max_len,
    ;
}

/// Every length has a bin.
pub proof fn lemma_bin_index_bound(len: nat, width: nat, count: nat)
    requires
        count > 0,
    ensures
        bin_index(len, width, count) < count,
{
}

/// One more length adds one to the tally of its own bin and nothing to the
/// others.
proof fn lemma_tally_push(lengths: Seq<usize>, len: usize, width: nat, count: nat, index: nat)
    ensures
        tally(lengths.push(len), width, count, index) == tally(lengths, width, count, index) + (if bin_index(
            len as nat,
            width,
            count,
        ) == index {
            1nat
        } else {
            0nat
        }),
{
    reveal(Seq::filter);
    assert(lengths.push(len).drop_last() =~= lengths);
}

/// The tallies of the first `upto` bins, added up.
spec fn tally_upto(lengths: Seq<usize>, width: nat, count: nat, upto: nat) -> nat
    decreases upto,
{
    if upto == 0 {
        0
    } else {
        tally_upto(lengths, width, count, (upto - 1) as nat) + tally(
            lengths,
            width,
            count,
            (upto - 1) as nat,
        )
    }
}

proof fn lemma_tally_upto_push(lengths: Seq<usize>, len: usize, width: nat, count: nat, upto: nat)
    ensures
        tally_upto(lengths.push(len), width, count, upto) == tally_upto(lengths, width, count, upto) + (
        if bin_index(len as nat, width, count) < upto {
            1nat
        } else {
            0nat
        }),
    decreases upto,
{
    if upto > 0 {
        lemma_tally_upto_push(lengths, len, width, count, (upto - 1) as nat);
        lemma_tally_push(lengths, len, width, count, (upto - 1) as nat);
    }
}

proof fn lemma_tally_upto_all(lengths: Seq<usize>, width: nat, count: nat, upto: nat)
    requires
        count > 0,
    ensures
        tally_upto(lengths, width, count, upto) <= lengths.len(),
        upto >= count ==> tally_upto(lengths, width, count, upto) == lengths.len(),
    decreases lengths.len(), upto,
{
    if lengths.len() == 0 {
        if upto > 0 {
            lemma_tally_upto_all(lengths, width, count, (upto - 1) as nat);
            reveal(Seq::filter);
        }
    } else {
        let front = lengths.drop_last();
        assert(front.push(lengths.last()) =~= lengths);
        lemma_tally_upto_all(front, width, count, upto);
        lemma_tally_upto_push(front, lengths.last(), width, count, upto);
    }
}

proof fn lemma_total_count_prefix(lengths: Seq<usize>, upto: nat)
    requires
        lengths.len() > 0,
        upto <= bin_count(max_length(lengths)),
    ensures
        total_count(histogram(lengths).take(upto as int)) == tally_upto(
            lengths,
            bin_width(max_length(lengths)),
            bin_count(max_length(lengths)),
            upto,
        ),
    decreases upto,
{
    let bins = histogram(lengths);
    if upto > 0 {
        lemma_total_count_prefix(lengths, (upto - 1) as nat);
        assert(bins.take(upto as int).drop_last() =~= bins.take(upto - 1));
    }
}

/// No length is lost and none is counted twice: the counts of the
/// histogram add up to the number of lengths.
pub proof fn lemma_histogram_keeps_every_length(lengths: Seq<usize>)
    ensures
        total_count(histogram(lengths)) == lengths.len(),
{
    if lengths.len() > 0 {
        let count = bin_count(max_length(lengths));
        lemma_total_count_prefix(lengths, count);
        lemma_tally_upto_all(lengths, bin_width(max_length(lengths)), count, count);
        assert(histogram(lengths).take(count as int) =~= histogram(lengths));
    }
}

fn largest(lengths: &Vec<usize>) -> (max_len: usize)
    ensures
        max_len == max_length(lengths@),
{
    let mut max_len: usize = 0;
    let mut i: usize = 0;
    while i < lengths.len()
        invariant
            i <= lengths.len(),
            max_len == max_length(lengths@.take(i as int)),
        decreases lengths.len() - i,
    {
        proof {
            assert(lengths@.take(i + 1).drop_last() =~= lengths@.take(i as int));
        }
        if lengths[i] > max_len {
            max_len = lengths[i];
        }
        i += 1;
    }
    proof {
        assert(lengths@.take(i as int) =~= lengths@);
    }
    max_len
}

fn width_for(max_len: usize) -> (width: usize)
    ensures
        width == bin_width(max_len as nat),
{
    let tenth = if max_len % 10 == 0 {
        max_len / 10
    } else {
        max_len / 10 + 1
    };
    if tenth < 1 {
        1
    } else {
        tenth
    }
}

fn count_for(max_len: usize, width: usize) -> (count: usize)
    requires
        width == bin_width(max_len as nat),
    ensures
        count == bin_count(max_len as nat),
{
    proof {
        lemma_bin_geometry(max_len as nat);
    }
    if max_len % width == 0 {
        max_len / width + 1
    } else {
        max_len / width + 2
    }
}

fn tally_all(lengths: &Vec<usize>, width: usize, count: usize) -> (counts: Vec<u64>)
    requires
        width > 0,
        count > 0,
    ensures
        counts.len() == count,
        forall|i: int|
            0 <= i < count ==> #[trigger] counts[i] == tally(lengths@, width as nat, count as nat, i as nat),
{
    let mut counts: Vec<u64> = Vec::new();
    let mut i: usize = 0;
    while i < count
        invariant
            i <= count,
            counts.len() == i,
            forall|j: int| 0 <= j < i ==> #[trigger] counts[j] == 0,
        decreases count - i,
    {
        counts.push(0);
        i += 1;
    }
    proof {
        reveal(Seq::filter);
        assert(lengths@.take(0) =~= Seq::<usize>::empty());
    }
    let mut k: usize = 0;
    while k < lengths.len()
        invariant
            width > 0,
            count > 0,
            k <= lengths.len(),
            counts.len() == count,
            forall|j: int|
                0 <= j < count ==> #[trigger] counts[j] == tally(
                    lengths@.take(k as int),
                    width as nat,
                    count as nat,
                    j as nat,
                ),
        decreases lengths.len() - k,
    {
        let len = lengths[k];
        let index = if len / width < count - 1 {
            len / width
        } else {
            count - 1
        };
        let ghost earlier = counts@;
        proof {
            assert(lengths@.take(k as int).push(len) =~= lengths@.take(k + 1));
            assert forall|j: int| 0 <= j < count implies #[trigger] earlier[j] + (if j == index {
                1nat
            } else {
                0nat
            }) == tally(lengths@.take(k + 1), width as nat, count as nat, j as nat) by {
                lemma_tally_push(lengths@.take(k as int), len, width as nat, count as nat, j as nat);
            }
            lengths@.take(k as int).lemma_filter_len(
                |l: usize| bin_index(l as nat, width as nat, count as nat) == index as nat,
            );
        }
        let bumped = counts[index] + 1;
        counts.set(index, bumped);
        k += 1;
    }
    proof {
        assert(lengths@.take(k as int) =~= lengths@);
    }
    counts
}

fn label_for(index: usize, width: usize) -> (label: String)
    requires
        index <= 10,
        width > 0,
    ensures
        label@ == bin_label(index as nat, width as nat),
{
    assert((index + 1) * width <= 11 * usize::MAX && index * width <= 11 * usize::MAX && (index + 1)
        * width >= 1) by (nonlinear_arith)
        requires
            index <= 10,
            0 < width <= usize::MAX,
    ;
    let lo: u128 = (index as u128) * (width as u128);
    let hi: u128 = (index as u128 + 1) * (width as u128) - 1;
    let mut label = String::new();
    append_decimal(&mut label, lo);
    proof {
        reveal_strlit("-");
    }
    label.append("-");
    append_decimal(&mut label, hi);
    proof {
        assert("-"@ =~= seq!['-']);
        assert(label@ =~= bin_label(index as nat, width as nat));
    }
    label
}

/// Sorts `lengths` into the bins of their histogram.
///
/// No lengths give no bins. Otherwise the bins are a tenth of the largest
/// length wide (rounded up, at least one), there is one bin more than it
/// takes to reach the largest length, and bin `i` is labelled
/// `"{i * width}-{(i + 1) * width - 1}"`.
pub fn compute_bins(lengths: &Vec<usize>) -> (bins: Vec<Bin>)
    ensures
        bin_views(bins@) == histogram(lengths@),
        lengths.len() == 0 ==> bins.len() == 0,
        total_count(bin_views(bins@)) == lengths.len(),
{
    proof {
        lemma_histogram_keeps_every_length(lengths@);
    }
    let mut bins: Vec<Bin> = Vec::new();
    if lengths.len() == 0 {
        assert(bin_views(bins@) =~= histogram(lengths@));
        return bins;
    }
    let max_len = largest(lengths);
    let width = width_for(max_len);
    let count = count_for(max_len, width);
    proof {
        lemma_bin_geometry(max_len as nat);
    }
    let counts = tally_all(lengths, width, count);
    let mut i: usize = 0;
    while i < count
        invariant
            i <= count <= 11,
            width > 0,
            counts.len() == count,
            bins.len() == i,
            lengths.len() > 0,
            width == bin_width(max_length(lengths@)),
            count == bin_count(max_length(lengths@)),
            forall|j: int|
                0 <= j < count ==> #[trigger] counts[j] == tally(lengths@, width as nat, count as nat, j as nat),
            forall|j: int| 0 <= j < i ==> #[trigger] bins[j]@ == histogram(lengths@)[j],
        decreases count - i,
    {
        let label = label_for(i, width);
        bins.push(Bin { label, count: counts[i] });
        i += 1;
    }
    proof {
        assert(bin_views(bins@) =~= histogram(lengths@));
    }
    bins
}

proof fn lemma_top_count(bins: Seq<BinView>)
    ensures
        forall|i: int| 0 <= i < bins.len() ==> (#[trigger] bins[i]).count <= top_count(bins),
    decreases bins.len(),
{
    if bins.len() > 0 {
        let front = bins.drop_last();
        lemma_top_count(front);
        assert forall|i: int| 0 <= i < bins.len() implies (#[trigger] bins[i]).count <= top_count(
            bins,
        ) by {
            if i < front.len() {
                assert(front[i] == bins[i]);
            }
        }
    }
}

fn fullest(bins: &Vec<Bin>) -> (top: u64)
    ensures
        top == top_count(bin_views(bins@)),
{
    let mut top: u64 = 0;
    let mut i: usize = 0;
    while i < bins.len()
        invariant
            i <= bins.len(),
            top == top_count(bin_views(bins@).take(i as int)),
        decreases bins.len() - i,
    {
        proof {
            assert(bin_views(bins@).take(i + 1).drop_last() =~= bin_views(bins@).take(i as int));
        }
        if bins[i].count > top {
            top = bins[i].count;
        }
        i += 1;
    }
    proof {
        assert(bin_views(bins@).take(i as int) =~= bin_views(bins@));
    }
    top
}

/// Scales the counts of `bins` so that the fullest bin gets a bar of
/// height `full` and every other bin its share of it, rounded down. Where
/// no bin holds a record every bar has height zero.
pub fn bar_heights(bins: &Vec<Bin>, full: u64) -> (heights: Vec<u64>)
    ensures
        heights.len() == bins.len(),
        forall|i: int|
            0 <= i < bins.len() ==> #[trigger] heights[i] == bar_height(
                bins[i].count as nat,
                top_count(bin_views(bins@)),
                full as nat,
            ),
{
    let top = fullest(bins);
    let mut heights: Vec<u64> = Vec::new();
    let mut i: usize = 0;
    while i < bins.len()
        invariant
            i <= bins.len(),
            heights.len() == i,
            top == top_count(bin_views(bins@)),
            forall|j: int|
                0 <= j < i ==> #[trigger] heights[j] == bar_height(bins[j].count as nat, top as nat, full as nat),
        decreases bins.len() - i,
    {
        let count = bins[i].count;
        let height = if top == 0 {
            0
        } else {
            proof {
                lemma_top_count(bin_views(bins@));
                assert(bin_views(bins@)[i as int].count == count);
                assert(count * full <= u64::MAX * u64::MAX && count * full / (top as int) <= full)
                    by (nonlinear_arith)
                    requires
                        0 <= count <= top,
                        0 < top <= u64::MAX,
                        0 <= full <= u64::MAX,
                ;
            }
            ((count as u128) * (full as u128) / (top as u128)) as u64
        };
        heights.push(height);
        i += 1;
    }
    heights
}

} // verus!
