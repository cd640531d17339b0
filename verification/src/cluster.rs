//! Clustering of a scan line into regions of one colour.
//!
//! The columns of a scan line are cut into blocks of a fixed width. Each
//! block seeds a region whose colour is the highest ranked class among its
//! columns. Regions of one colour whose blocks are neighbours are joined
//! until no two such regions are left: the result is the set of maximal runs
//! of consecutive blocks of one colour.

use crate::bucket::{position_sum, Bucket};
use crate::color::{neighbours, SimpleColor};
use vstd::prelude::*;

verus! {

/// The number of blocks of `bucket_width` columns that `width` columns fill,
/// the last of them perhaps only in part.
pub open spec fn block_count(width: int, bucket_width: int) -> int {
    (width + bucket_width - 1) / bucket_width
}

/// The highest ranked class among the columns `lo..hi`: white if one of them
/// is white, else red if one of them is red, else other.
pub open spec fn pooled(colors: Seq<SimpleColor>, lo: int, hi: int) -> SimpleColor {
    if exists|c: int| lo <= c < hi && #[trigger] colors[c] == SimpleColor::White {
        SimpleColor::White
    } else if exists|c: int| lo <= c < hi && #[trigger] colors[c] == SimpleColor::Red {
        SimpleColor::Red
    } else {
        SimpleColor::Other
    }
}

/// The column after the last column of block `k`.
pub open spec fn block_end(width: int, bucket_width: int, k: int) -> int {
    if k * bucket_width + bucket_width < width {
        k * bucket_width + bucket_width
    } else {
        width
    }
}

/// The colour of the region that block `k` seeds.
pub open spec fn block_color(colors: Seq<SimpleColor>, bucket_width: int, k: int) -> SimpleColor {
    pooled(colors, k * bucket_width, block_end(colors.len() as int, bucket_width, k))
}

/// The region that block `k` seeds: it holds the block's number, the
/// block's columns and the block's colour.
pub open spec fn is_seed(
    colors: Seq<SimpleColor>,
    bucket_width: int,
    k: int,
    seed: Bucket,
) -> bool {
    &&& forall|j: u32| seed.keys@.contains(j) <==> j == k
    &&& forall|c: u32|
        seed.points@.contains(c) <==> k * bucket_width <= c < block_end(
            colors.len() as int,
            bucket_width,
            k,
        )
    &&& seed.simple_color == block_color(colors, bucket_width, k)
}

/// The regions tile the first `blocks` blocks, in order, cut at `cuts`:
/// region `i` holds the blocks from `cuts[i]` up to `cuts[i + 1]` and their
/// columns, all these blocks are of the region's colour, and a region never
/// has the colour of the region that follows it.
pub open spec fn tiling(
    colors: Seq<SimpleColor>,
    bucket_width: int,
    regions: Seq<Bucket>,
    cuts: Seq<int>,
    blocks: int,
) -> bool {
    &&& cuts.len() == regions.len() + 1
    &&& cuts[0] == 0
    &&& cuts[regions.len() as int] == blocks
    &&& forall|i: int, j: int| 0 <= i < j < cuts.len() ==> cuts[i] < cuts[j]
    &&& forall|i: int, k: u32|
        0 <= i < regions.len() ==> (#[trigger] regions[i].keys@.contains(k) <==> cuts[i] <= k
            < cuts[i + 1])
    &&& forall|i: int, c: u32|
        0 <= i < regions.len() ==> (#[trigger] regions[i].points@.contains(c) <==> c
            < colors.len() && cuts[i] <= c as int / bucket_width < cuts[i + 1])
    &&& forall|i: int, k: int|
        #![trigger regions[i], block_color(colors, bucket_width, k)]
        0 <= i < regions.len() && cuts[i] <= k < cuts[i + 1] ==> block_color(
            colors,
            bucket_width,
            k,
        ) == regions[i].simple_color
    &&& forall|i: int, j: int|
        #![trigger regions[i], regions[j]]
        0 <= i && j == i + 1 && j < regions.len() ==> regions[i].simple_color
            != regions[j].simple_color
}

/// Some region holds column `c`.
pub open spec fn covered(regions: Seq<Bucket>, c: u32) -> bool {
    exists|i: int| 0 <= i < regions.len() && #[trigger] regions[i].points@.contains(c)
}

/// The regions are the clustering of the scan line: they tile all its
/// blocks as [`tiling`] says, for some cuts.
pub open spec fn clustered(
    colors: Seq<SimpleColor>,
    bucket_width: int,
    regions: Seq<Bucket>,
) -> bool {
    exists|cuts: Seq<int>|
        tiling(
            colors,
            bucket_width,
            regions,
            cuts,
            block_count(colors.len() as int, bucket_width),
        )
}

/// Pooling one more column pools its class with that of the columns before.
proof fn lemma_pooled_step(colors: Seq<SimpleColor>, lo: int, hi: int)
    requires
        lo <= hi,
    ensures
        pooled(colors, lo, hi + 1) == pooled(colors, lo, hi).dominant(colors[hi]),
        pooled(colors, lo, lo) == SimpleColor::Other,
{
    if exists|c: int| lo <= c < hi && #[trigger] colors[c] == SimpleColor::White {
        let c = choose|c: int| lo <= c < hi && #[trigger] colors[c] == SimpleColor::White;
        assert(lo <= c < hi + 1 && colors[c] == SimpleColor::White);
    } else if colors[hi] == SimpleColor::White {
        assert(lo <= hi < hi + 1 && colors[hi] == SimpleColor::White);
    } else if exists|c: int| lo <= c < hi && #[trigger] colors[c] == SimpleColor::Red {
        let c = choose|c: int| lo <= c < hi && #[trigger] colors[c] == SimpleColor::Red;
        assert(lo <= c < hi + 1 && colors[c] == SimpleColor::Red);
    } else if colors[hi] == SimpleColor::Red {
        assert(lo <= hi < hi + 1 && colors[hi] == SimpleColor::Red);
    }
}

/// A column lies in block `k` exactly if it lies between the block's first
/// column and the next block's first column.
proof fn lemma_block_of(c: int, bucket_width: int, k: int)
    by (nonlinear_arith)
    requires
        0 <= c,
        0 < bucket_width,
    ensures
        c / bucket_width == k <==> k * bucket_width <= c < k * bucket_width + bucket_width,
{
}

/// The blocks that were begun before the columns ran out are all the blocks.
proof fn lemma_block_count(width: int, bucket_width: int, k: int)
    by (nonlinear_arith)
    requires
        0 <= width,
        0 < bucket_width,
        0 <= k,
        k * bucket_width >= width,
        k > 0 ==> (k - 1) * bucket_width < width,
    ensures
        k == block_count(width, bucket_width),
{
}

/// In a tiling no two regions touch, every column lies in exactly one
/// region, the blocks of a region come before those of the regions that
/// follow it, and every region holds at least one block.
proof fn lemma_tiling_is_stable(
    colors: Seq<SimpleColor>,
    bucket_width: int,
    regions: Seq<Bucket>,
    cuts: Seq<int>,
)
    requires
        0 < bucket_width <= u32::MAX,
        colors.len() <= u32::MAX,
        tiling(
            colors,
            bucket_width,
            regions,
            cuts,
            block_count(colors.len() as int, bucket_width),
        ),
    ensures
        forall|i: int, j: int|
            #![trigger regions[i].touches(&regions[j])]
            0 <= i < regions.len() && 0 <= j < regions.len() && i != j ==> !regions[i].touches(
                &regions[j],
            ),
        forall|i: int, j: int, c: u32|
            #![trigger regions[i].points@.contains(c), regions[j].points@.contains(c)]
            0 <= i < regions.len() && 0 <= j < regions.len() && i != j ==> !(
            regions[i].points@.contains(c) && regions[j].points@.contains(c)),
        forall|c: u32| c < colors.len() ==> #[trigger] covered(regions, c),
        forall|i: int, j: int, a: u32, b: u32|
            #![trigger regions[i].keys@.contains(a), regions[j].keys@.contains(b)]
            0 <= i < j < regions.len() && regions[i].keys@.contains(a) && regions[j].keys@.contains(
                b,
            ) ==> a < b,
        forall|i: int|
            0 <= i < regions.len() ==> (#[trigger] regions[i]).keys@.contains(cuts[i] as u32),
{
    let blocks = block_count(colors.len() as int, bucket_width);
    assert forall|i: int, j: int|
        #![trigger regions[i].touches(&regions[j])]
        0 <= i < regions.len() && 0 <= j < regions.len() && i != j implies !regions[i].touches(
        &regions[j],
    ) by {
        if regions[i].touches(&regions[j]) {
            let (a, b) = choose|a: u32, b: u32|
                #![trigger regions[i].keys@.contains(a), regions[j].keys@.contains(b)]
                regions[i].keys@.contains(a) && regions[j].keys@.contains(b) && neighbours(
                    a as int,
                    b as int,
                );
            if i < j {
                assert(cuts[i + 1] <= cuts[j]);
                assert(j == i + 1);
                assert(regions[i].simple_color != regions[j].simple_color);
            } else {
                assert(cuts[j + 1] <= cuts[i]);
                assert(i == j + 1);
                assert(regions[j].simple_color != regions[i].simple_color);
            }
        }
    }
    assert forall|i: int, j: int, c: u32|
        #![trigger regions[i].points@.contains(c), regions[j].points@.contains(c)]
        0 <= i < regions.len() && 0 <= j < regions.len() && i != j implies !(
    regions[i].points@.contains(c) && regions[j].points@.contains(c)) by {
        if i < j {
            assert(cuts[i + 1] <= cuts[j]);
        } else {
            assert(cuts[j + 1] <= cuts[i]);
        }
    }
    assert forall|i: int, j: int, a: u32, b: u32|
        #![trigger regions[i].keys@.contains(a), regions[j].keys@.contains(b)]
        0 <= i < j < regions.len() && regions[i].keys@.contains(a) && regions[j].keys@.contains(
            b,
        ) implies a < b by {
        assert(cuts[i + 1] <= cuts[j]);
    }
    assert forall|c: u32| c < colors.len() implies #[trigger] covered(regions, c) by {
        let k = c as int / bucket_width;
        assert(0 <= k < blocks) by (nonlinear_arith)
            requires
                k == c as int / bucket_width,
                0 <= c < colors.len(),
                0 < bucket_width,
                blocks == (colors.len() + bucket_width - 1) / bucket_width,
        ;
        lemma_cut_below(cuts, regions.len() as int, k);
        let i = choose|i: int|
            0 <= i < regions.len() && #[trigger] cuts[i] <= k && k < cuts[i + 1];
        assert(regions[i].points@.contains(c));
    }
    assert forall|i: int| 0 <= i < regions.len() implies (#[trigger] regions[i]).keys@.contains(
        cuts[i] as u32,
    ) by {
        assert(cuts[i] < cuts[i + 1]);
        assert(cuts[i + 1] <= cuts[regions.len() as int]);
        assert(blocks <= u32::MAX) by (nonlinear_arith)
            requires
                0 <= colors.len() <= u32::MAX,
                0 < bucket_width,
                blocks == (colors.len() + bucket_width - 1) / bucket_width,
        ;
    }
}

/// A clustering is a fixed point of joining: no two of its regions touch.
/// Its regions share out the columns: every column lies in exactly one of
/// them. Every region holds a block, and its blocks come before those of
/// the regions that follow it, so that the smallest block of a region tells
/// it from all others.
pub proof fn lemma_clustering_is_stable(
    colors: Seq<SimpleColor>,
    bucket_width: int,
    regions: Seq<Bucket>,
)
    requires
        0 < bucket_width <= u32::MAX,
        colors.len() <= u32::MAX,
        clustered(colors, bucket_width, regions),
    ensures
        forall|i: int, j: int|
            #![trigger regions[i].touches(&regions[j])]
            0 <= i < regions.len() && 0 <= j < regions.len() && i != j ==> !regions[i].touches(
                &regions[j],
            ),
        forall|i: int, j: int, c: u32|
            #![trigger regions[i].points@.contains(c), regions[j].points@.contains(c)]
            0 <= i < regions.len() && 0 <= j < regions.len() && i != j ==> !(
            regions[i].points@.contains(c) && regions[j].points@.contains(c)),
        forall|c: u32| c < colors.len() ==> #[trigger] covered(regions, c),
        forall|i: int, j: int, a: u32, b: u32|
            #![trigger regions[i].keys@.contains(a), regions[j].keys@.contains(b)]
            0 <= i < j < regions.len() && regions[i].keys@.contains(a) && regions[j].keys@.contains(
                b,
            ) ==> a < b,
        forall|i: int| 0 <= i < regions.len() ==> !(#[trigger] regions[i]).keys@.is_empty(),
{
    let blocks = block_count(colors.len() as int, bucket_width);
    let cuts = choose|cuts: Seq<int>| tiling(colors, bucket_width, regions, cuts, blocks);
    lemma_tiling_is_stable(colors, bucket_width, regions, cuts);
    assert forall|i: int| 0 <= i < regions.len() implies !(#[trigger] regions[i]).keys@.is_empty() by {
        assert(regions[i].keys@.contains(cuts[i] as u32));
    }
}

/// Every block below the last cut lies between two cuts that follow each
/// other.
proof fn lemma_cut_below(cuts: Seq<int>, m: int, k: int)
    requires
        0 <= m < cuts.len(),
        cuts[0] == 0,
        0 <= k < cuts[m],
    ensures
        exists|i: int| 0 <= i < m && #[trigger] cuts[i] <= k && k < cuts[i + 1],
    decreases m,
{
    if m > 0 {
        if cuts[m - 1] <= k {
            assert(cuts[m - 1] <= k < cuts[m - 1 + 1]);
        } else {
            lemma_cut_below(cuts, m - 1, k);
        }
    }
}

/// A block that is not past the last block holds at least one column.
proof fn lemma_block_is_not_empty(width: int, bucket_width: int, k: int)
    by (nonlinear_arith)
    requires
        0 <= width,
        0 < bucket_width,
        0 <= k < block_count(width, bucket_width),
    ensures
        0 <= k * bucket_width < width,
        k * bucket_width < block_end(width, bucket_width, k) <= width,
{
}

/// Columns of one class pool to that class.
proof fn lemma_pooled_uniform(colors: Seq<SimpleColor>, lo: int, hi: int, color: SimpleColor)
    requires
        lo < hi,
        forall|c: int| lo <= c < hi ==> #[trigger] colors[c] == color,
    ensures
        pooled(colors, lo, hi) == color,
{
    assert(colors[lo] == color);
}

/// Where every column is of one class, a single region holds them all, and
/// it is of that class.
pub proof fn lemma_one_color_one_region(
    colors: Seq<SimpleColor>,
    bucket_width: int,
    regions: Seq<Bucket>,
    color: SimpleColor,
)
    requires
        0 < bucket_width <= u32::MAX,
        0 < colors.len() <= u32::MAX,
        forall|c: int| 0 <= c < colors.len() ==> #[trigger] colors[c] == color,
        clustered(colors, bucket_width, regions),
    ensures
        regions.len() == 1,
        regions[0].simple_color == color,
        forall|c: u32| regions[0].points@.contains(c) <==> c < colors.len(),
{
    let width = colors.len() as int;
    let blocks = block_count(width, bucket_width);
    let cuts = choose|cuts: Seq<int>| tiling(colors, bucket_width, regions, cuts, blocks);
    let m = regions.len() as int;
    assert(blocks >= 1) by (nonlinear_arith)
        requires
            0 < width,
            0 < bucket_width,
            blocks == (width + bucket_width - 1) / bucket_width,
    ;
    assert forall|k: int| 0 <= k < blocks implies #[trigger] block_color(colors, bucket_width, k)
        == color by {
        lemma_block_is_not_empty(width, bucket_width, k);
        lemma_pooled_uniform(
            colors,
            k * bucket_width,
            block_end(width, bucket_width, k),
            color,
        );
    }
    if m >= 2 {
        assert(cuts[0] < cuts[1] && cuts[1] < cuts[2] && cuts[2] <= cuts[m]);
        assert(block_color(colors, bucket_width, cuts[0]) == regions[0].simple_color);
        assert(block_color(colors, bucket_width, cuts[1]) == regions[1].simple_color);
        assert(regions[0].simple_color != regions[1].simple_color);
    }
    assert(m == 1);
    assert(block_color(colors, bucket_width, 0) == regions[0].simple_color);
    assert forall|c: u32| regions[0].points@.contains(c) <==> c < colors.len() by {
        if c < colors.len() {
            assert(0 <= c as int / bucket_width < blocks) by (nonlinear_arith)
                requires
                    0 <= c < width,
                    0 < bucket_width,
                    blocks == (width + bucket_width - 1) / bucket_width,
            ;
        }
    }
}

/// Where no block has the colour of the block that follows it, the cuts
/// fall after every single block.
proof fn lemma_cuts_of_single_blocks(
    colors: Seq<SimpleColor>,
    bucket_width: int,
    regions: Seq<Bucket>,
    cuts: Seq<int>,
    i: int,
)
    requires
        tiling(
            colors,
            bucket_width,
            regions,
            cuts,
            block_count(colors.len() as int, bucket_width),
        ),
        forall|k: int, l: int|
            #![trigger block_color(colors, bucket_width, k), block_color(colors, bucket_width, l)]
            0 <= k && l == k + 1 && l < block_count(colors.len() as int, bucket_width)
                ==> block_color(colors, bucket_width, k) != block_color(colors, bucket_width, l),
        0 <= i <= regions.len(),
    ensures
        cuts[i] == i,
    decreases i,
{
    if i > 0 {
        lemma_cuts_of_single_blocks(colors, bucket_width, regions, cuts, i - 1);
        let k = i - 1;
        assert(cuts[k] < cuts[i] && cuts[i] <= cuts[regions.len() as int]);
        if cuts[i] > k + 1 {
            assert(block_color(colors, bucket_width, k) == regions[k].simple_color);
            assert(block_color(colors, bucket_width, k + 1) == regions[k].simple_color);
        }
    }
}

/// Where no block has the colour of the block that follows it, nothing is
/// joined: there are as many regions as blocks, and region `i` holds block
/// `i` alone.
pub proof fn lemma_differing_blocks_stay_apart(
    colors: Seq<SimpleColor>,
    bucket_width: int,
    regions: Seq<Bucket>,
)
    requires
        0 < bucket_width <= u32::MAX,
        colors.len() <= u32::MAX,
        forall|k: int, l: int|
            #![trigger block_color(colors, bucket_width, k), block_color(colors, bucket_width, l)]
            0 <= k && l == k + 1 && l < block_count(colors.len() as int, bucket_width)
                ==> block_color(colors, bucket_width, k) != block_color(colors, bucket_width, l),
        clustered(colors, bucket_width, regions),
    ensures
        regions.len() == block_count(colors.len() as int, bucket_width),
        forall|i: int, k: u32|
            0 <= i < regions.len() ==> (#[trigger] regions[i].keys@.contains(k) <==> k == i),
        forall|i: int|
            0 <= i < regions.len() ==> (#[trigger] regions[i]).simple_color == block_color(
                colors,
                bucket_width,
                i,
            ),
{
    let blocks = block_count(colors.len() as int, bucket_width);
    let cuts = choose|cuts: Seq<int>| tiling(colors, bucket_width, regions, cuts, blocks);
    lemma_cuts_of_single_blocks(colors, bucket_width, regions, cuts, regions.len() as int);
    assert forall|i: int, k: u32| 0 <= i < regions.len() implies (
    #[trigger] regions[i].keys@.contains(k) <==> k == i) by {
        lemma_cuts_of_single_blocks(colors, bucket_width, regions, cuts, i);
        lemma_cuts_of_single_blocks(colors, bucket_width, regions, cuts, i + 1);
    }
    assert forall|i: int| 0 <= i < regions.len() implies (#[trigger] regions[i]).simple_color
        == block_color(colors, bucket_width, i) by {
        lemma_cuts_of_single_blocks(colors, bucket_width, regions, cuts, i);
        lemma_cuts_of_single_blocks(colors, bucket_width, regions, cuts, i + 1);
        assert(block_color(colors, bucket_width, i) == regions[i].simple_color);
    }
}

/// The columns from `lo` up to `hi`.
pub open spec fn span(lo: int, hi: int) -> Set<u32> {
    Set::new(|c: u32| lo <= c < hi)
}

/// A span holds as many columns as it is long, and they sum up as the
/// numbers of an arithmetic series do.
proof fn lemma_span_sum(lo: int, hi: int)
    requires
        0 <= lo <= hi <= u32::MAX + 1,
    ensures
        span(lo, hi).finite(),
        span(lo, hi).len() == hi - lo,
        2 * position_sum(span(lo, hi)) == (lo + hi - 1) * (hi - lo),
    decreases hi - lo,
{
    let add = |acc: int, p: u32| acc + p;
    if lo == hi {
        assert(span(lo, hi) =~= Set::<u32>::empty());
        vstd::set::fold::lemma_fold_empty(0int, add);
    } else {
        lemma_span_sum(lo, hi - 1);
        let shorter = span(lo, hi - 1);
        let last = (hi - 1) as u32;
        assert(span(lo, hi) =~= shorter.insert(last));
        assert(vstd::set::fold::is_fun_commutative(add));
        vstd::set::fold::lemma_fold_insert(shorter, 0int, add, last);
        assert(position_sum(span(lo, hi)) == position_sum(shorter) + (hi - 1));
        assert((lo + hi - 1) * (hi - lo) == (lo + hi - 2) * (hi - 1 - lo) + 2 * (hi - 1))
            by (nonlinear_arith);
    }
}

/// Half of a product with an even or odd factor, divided by the other
/// factor, is half of the first factor, rounded down.
proof fn lemma_half_quotient(sum: int, count: int, twice: int)
    by (nonlinear_arith)
    requires
        count > 0,
        2 * sum == twice * count,
        0 <= twice,
    ensures
        sum / count == twice / 2,
{
}

/// The position of a region that holds the columns of a span: the middle
/// of the span, rounded down.
pub proof fn lemma_mean_of_span(region: Bucket, lo: int, hi: int)
    requires
        0 <= lo < hi <= u32::MAX + 1,
        region.points@ == span(lo, hi),
    ensures
        region.mean_position() == (lo + hi - 1) / 2,
{
    lemma_span_sum(lo, hi);
    lemma_half_quotient(position_sum(span(lo, hi)), hi - lo, lo + hi - 1);
}

/// The blocks from `lo` up to `hi` hold the columns from the first column
/// of block `lo` up to the first column of block `hi`.
proof fn lemma_blocks_of(c: int, bucket_width: int, lo: int, hi: int)
    by (nonlinear_arith)
    requires
        0 <= c,
        0 < bucket_width,
    ensures
        lo <= c / bucket_width < hi <==> lo * bucket_width <= c < hi * bucket_width,
{
}

/// The first column of block `k` in a tiling, and the column after the
/// last column of the block before it.
pub open spec fn first_column(width: int, bucket_width: int, k: int) -> int {
    if k * bucket_width < width {
        k * bucket_width
    } else {
        width
    }
}

/// In a tiling, region `i` holds the columns of a span that is not empty.
proof fn lemma_region_is_a_span(
    colors: Seq<SimpleColor>,
    bucket_width: int,
    regions: Seq<Bucket>,
    cuts: Seq<int>,
    i: int,
)
    requires
        0 < bucket_width <= u32::MAX,
        colors.len() <= u32::MAX,
        tiling(
            colors,
            bucket_width,
            regions,
            cuts,
            block_count(colors.len() as int, bucket_width),
        ),
        0 <= i < regions.len(),
    ensures
        regions[i].points@ == span(
            first_column(colors.len() as int, bucket_width, cuts[i]),
            first_column(colors.len() as int, bucket_width, cuts[i + 1]),
        ),
        0 <= first_column(colors.len() as int, bucket_width, cuts[i]) < first_column(
            colors.len() as int,
            bucket_width,
            cuts[i + 1],
        ) <= colors.len(),
{
    let width = colors.len() as int;
    let lo = cuts[i];
    let hi = cuts[i + 1];
    assert(0 <= lo) by {
        assert(cuts[0] <= cuts[i]);
    }
    assert(lo < hi && hi <= cuts[regions.len() as int]);
    lemma_block_is_not_empty(width, bucket_width, lo);
    assert(lo * bucket_width < hi * bucket_width) by (nonlinear_arith)
        requires
            lo < hi,
            0 < bucket_width,
    ;
    assert forall|c: u32|
        regions[i].points@.contains(c) <==> span(
            first_column(width, bucket_width, lo),
            first_column(width, bucket_width, hi),
        ).contains(c) by {
        lemma_blocks_of(c as int, bucket_width, lo, hi);
    }
    assert(regions[i].points@ =~= span(
        first_column(width, bucket_width, lo),
        first_column(width, bucket_width, hi),
    ));
}

/// The regions of a clustering lie at positions of their own, which ascend
/// from region to region: putting them in order of position changes nothing.
pub proof fn lemma_positions_ascend(
    colors: Seq<SimpleColor>,
    bucket_width: int,
    regions: Seq<Bucket>,
)
    requires
        0 < bucket_width <= u32::MAX,
        colors.len() <= u32::MAX,
        clustered(colors, bucket_width, regions),
    ensures
        forall|i: int, j: int|
            0 <= i < j < regions.len() ==> (#[trigger] regions[i]).mean_position() < (
            #[trigger] regions[j]).mean_position(),
{
    let width = colors.len() as int;
    let blocks = block_count(width, bucket_width);
    let cuts = choose|cuts: Seq<int>| tiling(colors, bucket_width, regions, cuts, blocks);
    assert forall|i: int, j: int| 0 <= i < j < regions.len() implies (
    #[trigger] regions[i]).mean_position() < (#[trigger] regions[j]).mean_position() by {
        lemma_region_is_a_span(colors, bucket_width, regions, cuts, i);
        lemma_region_is_a_span(colors, bucket_width, regions, cuts, j);
        let a = first_column(width, bucket_width, cuts[i]);
        let b = first_column(width, bucket_width, cuts[i + 1]);
        let c = first_column(width, bucket_width, cuts[j]);
        let d = first_column(width, bucket_width, cuts[j + 1]);
        lemma_mean_of_span(regions[i], a, b);
        lemma_mean_of_span(regions[j], c, d);
        assert(cuts[i + 1] <= cuts[j]);
        assert(cuts[i + 1] * bucket_width <= cuts[j] * bucket_width) by (nonlinear_arith)
            requires
                cuts[i + 1] <= cuts[j],
                0 < bucket_width,
        ;
        assert(b <= c);
    }
}

/// The colours of the regions, from left to right.
pub open spec fn region_colors(regions: Seq<Bucket>) -> Seq<SimpleColor> {
    Seq::new(regions.len(), |i: int| regions[i].simple_color)
}

/// Clustering is idempotent. Take each region of a clustering for a single
/// column of the region's colour, and cluster these columns in blocks of
/// one: nothing is joined, and region `i` of the second clustering is
/// column `i` with the colour of region `i` of the first.
pub proof fn lemma_clustering_again_changes_nothing(
    colors: Seq<SimpleColor>,
    bucket_width: int,
    regions: Seq<Bucket>,
    again: Seq<Bucket>,
)
    requires
        0 < bucket_width <= u32::MAX,
        colors.len() <= u32::MAX,
        clustered(colors, bucket_width, regions),
        clustered(region_colors(regions), 1, again),
    ensures
        again.len() == regions.len(),
        forall|i: int|
            0 <= i < again.len() ==> (#[trigger] again[i]).simple_color
                == regions[i].simple_color,
        forall|i: int, k: u32|
            0 <= i < again.len() ==> (#[trigger] again[i].keys@.contains(k) <==> k == i),
        forall|i: int, c: u32|
            0 <= i < again.len() ==> (#[trigger] again[i].points@.contains(c) <==> c == i),
{
    let blocks = block_count(colors.len() as int, bucket_width);
    let cuts = choose|cuts: Seq<int>| tiling(colors, bucket_width, regions, cuts, blocks);
    let line = region_colors(regions);
    let m = regions.len() as int;
    assert(m <= u32::MAX) by {
        lemma_cuts_at_least_index(cuts, m);
        assert(blocks <= u32::MAX) by (nonlinear_arith)
            requires
                0 <= colors.len() <= u32::MAX,
                0 < bucket_width,
                blocks == (colors.len() + bucket_width - 1) / bucket_width,
        ;
    }
    assert(block_count(m, 1) == m);
    assert forall|k: int| 0 <= k < m implies #[trigger] block_color(line, 1, k) == line[k] by {
        lemma_pooled_step(line, k, k);
        assert(block_end(m, 1, k) == k + 1);
    }
    assert forall|k: int, l: int|
        #![trigger block_color(line, 1, k), block_color(line, 1, l)]
        0 <= k && l == k + 1 && l < block_count(line.len() as int, 1) implies block_color(
        line,
        1,
        k,
    ) != block_color(line, 1, l) by {
        assert(regions[k].simple_color != regions[l].simple_color);
    }
    lemma_differing_blocks_stay_apart(line, 1, again);
    let cuts_again = choose|cuts_again: Seq<int>| tiling(line, 1, again, cuts_again, m);
    assert forall|i: int, c: u32| 0 <= i < again.len() implies (
    #[trigger] again[i].points@.contains(c) <==> c == i) by {
        lemma_cuts_of_single_blocks(line, 1, again, cuts_again, i);
        lemma_cuts_of_single_blocks(line, 1, again, cuts_again, i + 1);
    }
}

/// A cut lies at or after its own index.
proof fn lemma_cuts_at_least_index(cuts: Seq<int>, i: int)
    requires
        0 <= i < cuts.len(),
        cuts[0] == 0,
        forall|i: int, j: int| 0 <= i < j < cuts.len() ==> cuts[i] < cuts[j],
    ensures
        cuts[i] >= i,
    decreases i,
{
    if i > 0 {
        lemma_cuts_at_least_index(cuts, i - 1);
    }
}

/// Two tilings of one scan line are cut alike.
proof fn lemma_same_cuts(
    colors: Seq<SimpleColor>,
    bucket_width: int,
    first: Seq<Bucket>,
    first_cuts: Seq<int>,
    second: Seq<Bucket>,
    second_cuts: Seq<int>,
    i: int,
)
    requires
        tiling(
            colors,
            bucket_width,
            first,
            first_cuts,
            block_count(colors.len() as int, bucket_width),
        ),
        tiling(
            colors,
            bucket_width,
            second,
            second_cuts,
            block_count(colors.len() as int, bucket_width),
        ),
        0 <= i <= first.len(),
    ensures
        i <= second.len(),
        first_cuts[i] == second_cuts[i],
        i == first.len() ==> i == second.len(),
    decreases i,
{
    let blocks = block_count(colors.len() as int, bucket_width);
    let m = first.len() as int;
    let n = second.len() as int;
    if i > 0 {
        lemma_same_cuts(colors, bucket_width, first, first_cuts, second, second_cuts, i - 1);
        let h = i - 1;
        let lo = first_cuts[h];
        assert(lo < first_cuts[i] && first_cuts[i] <= first_cuts[m]);
        if h == n {
            assert(second_cuts[n] == blocks);
        }
        assert(h < n);
        assert(lo < second_cuts[i] && second_cuts[i] <= second_cuts[n]);
        assert(block_color(colors, bucket_width, lo) == first[h].simple_color);
        assert(block_color(colors, bucket_width, lo) == second[h].simple_color);
        let a = first_cuts[i];
        let b = second_cuts[i];
        if a < b {
            assert(block_color(colors, bucket_width, a - 1) == first[h].simple_color);
            assert(block_color(colors, bucket_width, a) == second[h].simple_color);
            assert(a < blocks);
            assert(i < m);
            assert(first_cuts[i] < first_cuts[i + 1]);
            assert(block_color(colors, bucket_width, a) == first[i].simple_color);
            assert(first[h].simple_color != first[i].simple_color);
        } else if b < a {
            assert(block_color(colors, bucket_width, b) == first[h].simple_color);
            assert(b < blocks);
            assert(i < n);
            assert(second_cuts[i] < second_cuts[i + 1]);
            assert(block_color(colors, bucket_width, b) == second[i].simple_color);
            assert(second[h].simple_color != second[i].simple_color);
        }
    }
    if i == m {
        if i < n {
            assert(second_cuts[i] < second_cuts[n]);
        }
    }
}

/// A scan line has one clustering only: two results that both meet
/// [`clustered`] have the same regions, with the same blocks, columns and
/// colours. So the order in which regions are joined does not matter.
pub proof fn lemma_clustering_is_unique(
    colors: Seq<SimpleColor>,
    bucket_width: int,
    first: Seq<Bucket>,
    second: Seq<Bucket>,
)
    requires
        0 < bucket_width,
        clustered(colors, bucket_width, first),
        clustered(colors, bucket_width, second),
    ensures
        first.len() == second.len(),
        forall|i: int|
            0 <= i < first.len() ==> {
                &&& (#[trigger] first[i]).keys@ == second[i].keys@
                &&& first[i].points@ == second[i].points@
                &&& first[i].simple_color == second[i].simple_color
            },
{
    let blocks = block_count(colors.len() as int, bucket_width);
    let first_cuts = choose|cuts: Seq<int>| tiling(colors, bucket_width, first, cuts, blocks);
    let second_cuts = choose|cuts: Seq<int>| tiling(colors, bucket_width, second, cuts, blocks);
    lemma_same_cuts(
        colors,
        bucket_width,
        first,
        first_cuts,
        second,
        second_cuts,
        first.len() as int,
    );
    assert forall|i: int| 0 <= i < first.len() implies {
        &&& (#[trigger] first[i]).keys@ == second[i].keys@
        &&& first[i].points@ == second[i].points@
        &&& first[i].simple_color == second[i].simple_color
    } by {
        lemma_same_cuts(colors, bucket_width, first, first_cuts, second, second_cuts, i);
        lemma_same_cuts(colors, bucket_width, first, first_cuts, second, second_cuts, i + 1);
        assert(first[i].keys@ =~= second[i].keys@);
        assert(first[i].points@ =~= second[i].points@);
        assert(first_cuts[i] < first_cuts[i + 1]);
        assert(block_color(colors, bucket_width, first_cuts[i]) == first[i].simple_color);
        assert(block_color(colors, bucket_width, first_cuts[i]) == second[i].simple_color);
    }
}

/// Seeds the region of block `key`: folds the block's columns into an empty
/// region, one by one.
pub fn seed_block(colors: &Vec<SimpleColor>, bucket_width: u32, key: u32) -> (seed: Bucket)
    requires
        bucket_width > 0,
        colors.len() <= u32::MAX,
        key * bucket_width < colors.len(),
    ensures
        is_seed(colors@, bucket_width as int, key as int, seed),
{
    let width = colors.len() as u64;
    assert(key as u64 * bucket_width as u64 == key * bucket_width) by (nonlinear_arith)
        requires
            key * bucket_width < 0x1_0000_0000,
    ;
    let first: u64 = key as u64 * bucket_width as u64;
    let end: u64 = if first + (bucket_width as u64) < width {
        first + bucket_width as u64
    } else {
        width
    };
    let mut seed = Bucket::new();
    let mut i: u64 = first;
    proof {
        lemma_pooled_step(colors@, first as int, first as int);
    }
    while i < end
        invariant
            first <= i <= end <= width,
            width == colors.len(),
            width <= u32::MAX,
            first < end,
            forall|j: u32| seed.keys@.contains(j) <==> j == key && first < i,
            forall|c: u32| seed.points@.contains(c) <==> first <= c < i,
            seed.simple_color == pooled(colors@, first as int, i as int),
        decreases end - i,
    {
        proof {
            lemma_pooled_step(colors@, first as int, i as int);
        }
        seed.insert(key, i as u32, colors[i as usize]);
        i = i + 1;
    }
    seed
}

/// Clusters a scan line. `colors[c]` is the class of column `c`.
///
/// The result lists the regions from left to right. It is the fixed point
/// of joining: no two of its regions touch. Every column lies in exactly
/// one region, and every region has a smallest block of its own to be
/// known by.
pub fn cluster(colors: &Vec<SimpleColor>, bucket_width: u32) -> (regions: Vec<Bucket>)
    requires
        bucket_width > 0,
        colors.len() <= u32::MAX,
    ensures
        clustered(colors@, bucket_width as int, regions@),
        forall|i: int, j: int|
            #![trigger regions[i].touches(&regions[j])]
            0 <= i < regions.len() && 0 <= j < regions.len() && i != j ==> !regions[i].touches(
                &regions[j],
            ),
        forall|i: int, j: int, c: u32|
            #![trigger regions[i].points@.contains(c), regions[j].points@.contains(c)]
            0 <= i < regions.len() && 0 <= j < regions.len() && i != j ==> !(
            regions[i].points@.contains(c) && regions[j].points@.contains(c)),
        forall|c: u32| c < colors.len() ==> #[trigger] covered(regions@, c),
        forall|i: int, j: int, a: u32, b: u32|
            #![trigger regions[i].keys@.contains(a), regions[j].keys@.contains(b)]
            0 <= i < j < regions.len() && regions[i].keys@.contains(a) && regions[j].keys@.contains(
                b,
            ) ==> a < b,
        forall|i: int| 0 <= i < regions.len() ==> !(#[trigger] regions[i]).keys@.is_empty(),
{
    let width = colors.len() as u64;
    let ghost bw = bucket_width as int;
    let mut regions: Vec<Bucket> = Vec::new();
    let ghost mut cuts: Seq<int> = seq![0int];
    let mut key: u32 = 0;
    let mut first: u64 = 0;
    while first < width
        invariant
            bucket_width > 0,
            bw == bucket_width,
            width == colors.len(),
            width <= u32::MAX,
            first == key * bw,
            key > 0 ==> (key - 1) * bw < width,
            tiling(colors@, bw, regions@, cuts, key as int),
        decreases width + bw - first,
    {
        let ghost before = regions@;
        let ghost cuts_before = cuts;
        let seed = seed_block(colors, bucket_width, key);
        let count = regions.len();
        proof {
            assert(seed.keys@.contains(key));
        }
        if count > 0 && regions[count - 1].adjacent(&seed) {
            let last = regions.pop().unwrap();
            let mut seed = seed;
            let ghost seed_before = seed;
            let joined = last.merge(&mut seed);
            regions.push(joined);
            proof {
                cuts = cuts_before.update(count as int, key + 1);
                let m = count as int;
                assert(before[m - 1] == last);
                assert(last.simple_color == seed_before.simple_color);
                assert forall|i: int, j: int| 0 <= i < j < cuts.len() implies cuts[i] < cuts[j] by {
                    if j == m {
                        assert(cuts_before[i] <= cuts_before[m - 1]);
                    }
                }
                assert forall|i: int, k: u32| 0 <= i < regions@.len() implies (
                #[trigger] regions@[i].keys@.contains(k) <==> cuts[i] <= k < cuts[i + 1]) by {
                    if i < m - 1 {
                        assert(regions@[i] == before[i]);
                    }
                }
                assert forall|i: int, c: u32| 0 <= i < regions@.len() implies (
                #[trigger] regions@[i].points@.contains(c) <==> c < colors@.len() && cuts[i] <= c as int
                    / bw < cuts[i + 1]) by {
                    lemma_block_of(c as int, bw, key as int);
                    if i < m - 1 {
                        assert(regions@[i] == before[i]);
                    } else {
                        assert(before[m - 1].points@.contains(c) <==> c < colors@.len()
                            && cuts_before[m - 1] <= c as int / bw < cuts_before[m]);
                    }
                }
                assert forall|i: int, k: int|
                    #![trigger regions@[i], block_color(colors@, bw, k)]
                    0 <= i < regions@.len() && cuts[i] <= k < cuts[i + 1] implies block_color(
                    colors@,
                    bw,
                    k,
                ) == regions@[i].simple_color by {
                    if i < m - 1 {
                        assert(regions@[i] == before[i]);
                    } else if k < key {
                        assert(cuts_before[m - 1] <= k < cuts_before[m - 1 + 1]);
                    }
                }
                assert forall|i: int, j: int|
                    #![trigger regions@[i], regions@[j]]
                    0 <= i && j == i + 1 && j < regions@.len() implies regions@[i].simple_color
                    != regions@[j].simple_color by {
                    assert(regions@[i] == before[i]);
                    assert(before[i].simple_color != before[j].simple_color);
                    if j < m - 1 {
                        assert(regions@[j] == before[j]);
                    }
                }
            }
        } else {
            regions.push(seed);
            proof {
                cuts = cuts_before.push(key + 1);
                let m = count as int;
                assert forall|i: int, j: int| 0 <= i < j < cuts.len() implies cuts[i] < cuts[j] by {
                    if j == m + 1 {
                        assert(cuts_before[i] <= cuts_before[m]);
                    }
                }
                assert forall|i: int, k: u32| 0 <= i < regions@.len() implies (
                #[trigger] regions@[i].keys@.contains(k) <==> cuts[i] <= k < cuts[i + 1]) by {
                    if i < m {
                        assert(regions@[i] == before[i]);
                    }
                }
                assert forall|i: int, c: u32| 0 <= i < regions@.len() implies (
                #[trigger] regions@[i].points@.contains(c) <==> c < colors@.len() && cuts[i] <= c as int
                    / bw < cuts[i + 1]) by {
                    lemma_block_of(c as int, bw, key as int);
                    if i < m {
                        assert(regions@[i] == before[i]);
                    }
                }
                assert forall|i: int, k: int|
                    #![trigger regions@[i], block_color(colors@, bw, k)]
                    0 <= i < regions@.len() && cuts[i] <= k < cuts[i + 1] implies block_color(
                    colors@,
                    bw,
                    k,
                ) == regions@[i].simple_color by {
                    if i < m {
                        assert(regions@[i] == before[i]);
                    }
                }
                assert forall|i: int, j: int|
                    #![trigger regions@[i], regions@[j]]
                    0 <= i && j == i + 1 && j < regions@.len() implies regions@[i].simple_color
                    != regions@[j].simple_color by {
                    assert(regions@[i] == before[i]);
                    if j < m {
                        assert(regions@[j] == before[j]);
                        assert(before[i].simple_color != before[j].simple_color);
                    } else {
                        assert(before[m - 1].keys@.contains((key - 1) as u32));
                        assert(neighbours(key - 1, key as int));
                    }
                }
            }
        }
        proof {
            assert((key + 1) * bw == first + bw && key <= first) by (nonlinear_arith)
                requires
                    first == key * bw,
                    0 <= key,
                    0 < bw,
            ;
        }
        key = key + 1;
        first = first + bucket_width as u64;
    }
    proof {
        lemma_block_count(width as int, bw, key as int);
        lemma_clustering_is_stable(colors@, bw, regions@);
    }
    regions
}

} // verus!
