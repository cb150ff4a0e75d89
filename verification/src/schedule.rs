//! The order in which a pass visits the pixels.
//!
//! A fresh cache lists every pixel of the grid once, in an order that the
//! random source picks, so that a progressive display fills in evenly instead
//! of sweeping down the image.

use crate::pixel::{PixelCache, PixelPosition};
use crate::random::{lemma_rearranged, shuffle};
use rand::rngs::SmallRng;
use vstd::prelude::*;

verus! {

/// Whether some record of `cache` belongs to the pixel at (`x`, `y`).
pub open spec fn has_pixel(cache: Seq<PixelCache>, x: int, y: int) -> bool {
    exists|i: int| 0 <= i < cache.len() && (#[trigger] cache[i]).pos.x == x && cache[i].pos.y == y
}

/// Whether `cache` holds one record for every pixel of a `width` by `height`
/// grid, and nothing else: the right number of records, each inside the grid,
/// no two for the same pixel, and none of the grid's pixels left out.
pub open spec fn covers_grid(cache: Seq<PixelCache>, width: nat, height: nat) -> bool {
    &&& cache.len() == width * height
    &&& forall|i: int|
        0 <= i < cache.len() ==> (#[trigger] cache[i]).pos.x < width && cache[i].pos.y < height
    &&& forall|i: int, j: int|
        0 <= i < j < cache.len() ==> (#[trigger] cache[i]).pos != (#[trigger] cache[j]).pos
    &&& forall|x: int, y: int|
        0 <= x < width && 0 <= y < height ==> #[trigger] has_pixel(cache, x, y)
}

/// Whether every record of `cache` is the one a pixel starts with.
pub open spec fn all_fresh(cache: Seq<PixelCache>) -> bool {
    forall|i: int|
        0 <= i < cache.len() ==> #[trigger] cache[i] == PixelCache::fresh(cache[i].pos)
}

/// Whether `order` lists each of `0 .. n` exactly once.
pub open spec fn is_order_of(order: Seq<usize>, n: nat) -> bool {
    &&& order.len() == n
    &&& order.no_duplicates()
    &&& forall|i: int| 0 <= i < order.len() ==> #[trigger] order[i] < n
    &&& forall|v: usize| v < n ==> #[trigger] order.contains(v)
}

/// The fresh records of one image row, column by column as `xs` lists them.
pub open spec fn row_records(xs: Seq<usize>, y: usize) -> Seq<PixelCache> {
    Seq::new(xs.len(), |c: int| PixelCache::fresh(PixelPosition { x: xs[c], y }))
}

/// In a cache that covers its grid, every pixel of the grid has one record
/// and no second one.
pub proof fn lemma_one_record_per_pixel(
    cache: Seq<PixelCache>,
    width: nat,
    height: nat,
    x: int,
    y: int,
) -> (at: int)
    requires
        covers_grid(cache, width, height),
        0 <= x < width,
        0 <= y < height,
    ensures
        0 <= at < cache.len(),
        cache[at].pos.x == x && cache[at].pos.y == y,
        forall|other: int|
            0 <= other < cache.len() && (#[trigger] cache[other]).pos.x == x && cache[other].pos.y
                == y ==> other == at,
{
    assert(has_pixel(cache, x, y));
    let at = choose|i: int|
        0 <= i < cache.len() && (#[trigger] cache[i]).pos.x == x && cache[i].pos.y == y;
    assert forall|other: int|
        0 <= other < cache.len() && (#[trigger] cache[other]).pos.x == x && cache[other].pos.y
            == y implies other == at by {
        if other < at {
            assert(cache[other].pos != cache[at].pos);
        } else if at < other {
            assert(cache[at].pos != cache[other].pos);
        }
    }
    at
}

/// Shuffling an order of `0 .. n` gives an order of `0 .. n`.
proof fn lemma_order_rearranged(before: Seq<usize>, after: Seq<usize>, n: nat)
    requires
        is_order_of(before, n),
        after.to_multiset() == before.to_multiset(),
    ensures
        is_order_of(after, n),
{
    lemma_rearranged(before, after);
    assert forall|i: int| 0 <= i < after.len() implies #[trigger] after[i] < n by {
        assert(after.contains(after[i]));
        assert(before.contains(after[i]));
    }
    assert forall|v: usize| v < n implies #[trigger] after.contains(v) by {
        assert(before.contains(v));
    }
}

/// Shuffling a fresh cache that covers the grid gives one that still does.
proof fn lemma_cache_rearranged(
    before: Seq<PixelCache>,
    after: Seq<PixelCache>,
    width: nat,
    height: nat,
)
    requires
        covers_grid(before, width, height),
        all_fresh(before),
        after.to_multiset() == before.to_multiset(),
    ensures
        covers_grid(after, width, height),
        all_fresh(after),
{
    lemma_rearranged(before, after);
    assert forall|i: int| 0 <= i < after.len() implies (#[trigger] after[i]).pos.x < width
        && after[i].pos.y < height && after[i] == PixelCache::fresh(after[i].pos) by {
        assert(after.contains(after[i]));
        assert(before.contains(after[i]));
        let k = choose|k: int| 0 <= k < before.len() && before[k] == after[i];
        assert(before[k].pos.x < width);
    }
    assert(before.no_duplicates()) by {
        assert forall|i: int, j: int|
            0 <= i < before.len() && 0 <= j < before.len() && i != j implies before[i]
            != before[j] by {
            if i < j {
                assert(before[i].pos != before[j].pos);
            } else {
                assert(before[j].pos != before[i].pos);
            }
        }
    }
    assert forall|i: int, j: int| 0 <= i < j < after.len() implies (#[trigger] after[i]).pos != (
    #[trigger] after[j]).pos by {
        assert(after[i] != after[j]);
        assert(after[i] == PixelCache::fresh(after[i].pos));
        assert(after[j] == PixelCache::fresh(after[j].pos));
    }
    assert forall|x: int, y: int| 0 <= x < width && 0 <= y < height implies #[trigger] has_pixel(
        after,
        x,
        y,
    ) by {
        assert(has_pixel(before, x, y));
        let k = choose|k: int|
            0 <= k < before.len() && (#[trigger] before[k]).pos.x == x && before[k].pos.y == y;
        assert(before.contains(before[k]));
        assert(after.contains(before[k]));
        let m = choose|m: int| 0 <= m < after.len() && after[m] == before[k];
        assert(after[m].pos.x == x && after[m].pos.y == y);
    }
}

/// The numbers below `n`, largest first.
fn countdown(n: usize) -> (order: Vec<usize>)
    ensures
        is_order_of(order@, n as nat),
        forall|i: int| 0 <= i < n ==> order@[i] == n - 1 - i,
{
    let mut order: Vec<usize> = Vec::new();
    let mut left: usize = n;
    while left > 0
        invariant
            left <= n,
            order@.len() == n - left,
            forall|i: int| 0 <= i < order@.len() ==> order@[i] == n - 1 - i,
        decreases left,
    {
        left = left - 1;
        order.push(left);
    }
    proof {
        assert forall|v: usize| v < n implies #[trigger] order@.contains(v) by {
            assert(order@[n - 1 - v] == v);
        }
    }
    order
}

/// Appends the fresh records of row `y`, in the column order that `xs` gives.
fn append_row(cache: &mut Vec<PixelCache>, xs: &Vec<usize>, y: usize)
    ensures
        final(cache)@ == old(cache)@ + row_records(xs@, y),
{
    let mut col: usize = 0;
    while col < xs.len()
        invariant
            col <= xs@.len(),
            cache@ == old(cache)@ + row_records(xs@, y).take(col as int),
        decreases xs@.len() - col,
    {
        let x = xs[col];
        cache.push(PixelCache::new(PixelPosition { x, y }));
        col = col + 1;
        assert(row_records(xs@, y).take(col as int) == row_records(xs@, y).take(col - 1).push(
            row_records(xs@, y)[col - 1],
        ));
    }
    assert(row_records(xs@, y).take(col as int) == row_records(xs@, y));
}

/// Builds a fresh cache for a `width` by `height` grid in random order.
///
/// The rows are taken in a shuffled order, the columns are reshuffled for
/// every row, and the finished list is shuffled once more. Whatever the
/// random source does, the result holds each pixel of the grid exactly once
/// and every record is fresh.
pub fn all_pixels_at_random(height: usize, width: usize, rng: &mut SmallRng) -> (cache: Vec<
    PixelCache,
>)
    requires
        width * height <= usize::MAX,
    ensures
        covers_grid(cache@, width as nat, height as nat),
        all_fresh(cache@),
{
    let mut random_y = countdown(height);
    let mut random_x = countdown(width);
    let ghost sorted_y = random_y@;
    shuffle(&mut random_y, rng);
    proof {
        lemma_order_rearranged(sorted_y, random_y@, height as nat);
    }
    let mut random_positions: Vec<PixelCache> = Vec::new();
    let ghost mut rows: Seq<int> = Seq::empty();
    let mut row: usize = 0;
    while row < height
        invariant
            row <= height,
            is_order_of(random_y@, height as nat),
            is_order_of(random_x@, width as nat),
            random_positions@.len() == row * width,
            rows.len() == random_positions@.len(),
            all_fresh(random_positions@),
            forall|k: int|
                #![trigger rows[k]]
                #![trigger random_positions@[k]]
                0 <= k < random_positions@.len() ==> 0 <= rows[k] < row
                    && random_positions@[k].pos.y == random_y@[rows[k]]
                    && random_positions@[k].pos.x < width,
            forall|i: int, j: int|
                0 <= i < j < random_positions@.len() ==> (#[trigger] random_positions@[i]).pos != (
                #[trigger] random_positions@[j]).pos,
            forall|r: int, x: int|
                0 <= r < row && 0 <= x < width ==> #[trigger] has_pixel(
                    random_positions@,
                    x,
                    random_y@[r] as int,
                ),
        decreases height - row,
    {
        let ghost earlier_x = random_x@;
        shuffle(&mut random_x, rng);
        proof {
            lemma_order_rearranged(earlier_x, random_x@, width as nat);
        }
        let y = random_y[row];
        let ghost earlier = random_positions@;
        append_row(&mut random_positions, &random_x, y);
        proof {
            let added = row_records(random_x@, y);
            let now = random_positions@;
            let ghost earlier_rows = rows;
            rows = rows + Seq::new(width as nat, |c: int| row as int);
            assert(now.len() == (row + 1) * width) by (nonlinear_arith)
                requires
                    now.len() == row * width + width,
            ;
            assert forall|k: int|
                #![trigger rows[k]]
                #![trigger now[k]]
                0 <= k < now.len() implies 0 <= rows[k] < row + 1 && now[k].pos.y
                == random_y@[rows[k]] && now[k].pos.x < width && now[k] == PixelCache::fresh(
                now[k].pos,
            ) by {
                if k < earlier.len() {
                    assert(now[k] == earlier[k]);
                    assert(rows[k] == earlier_rows[k]);
                } else {
                    assert(now[k] == added[k - earlier.len()]);
                    assert(random_x@[k - earlier.len()] < width);
                }
            }
            assert forall|i: int, j: int| 0 <= i < j < now.len() implies (#[trigger] now[i]).pos
                != (#[trigger] now[j]).pos by {
                if j < earlier.len() {
                    assert(now[i] == earlier[i] && now[j] == earlier[j]);
                } else if i < earlier.len() {
                    assert(now[i] == earlier[i]);
                    assert(now[j] == added[j - earlier.len()]);
                    assert(0 <= earlier_rows[i] < row);
                    assert(random_y@[earlier_rows[i]] != random_y@[row as int]);
                } else {
                    assert(now[i] == added[i - earlier.len()]);
                    assert(now[j] == added[j - earlier.len()]);
                    assert(random_x@[i - earlier.len()] != random_x@[j - earlier.len()]);
                }
            }
            assert forall|r: int, x: int| 0 <= r < row + 1 && 0 <= x < width implies #[trigger] has_pixel(
                now,
                x,
                random_y@[r] as int,
            ) by {
                if r < row {
                    assert(has_pixel(earlier, x, random_y@[r] as int));
                    let k = choose|k: int|
                        0 <= k < earlier.len() && (#[trigger] earlier[k]).pos.x == x
                            && earlier[k].pos.y == random_y@[r];
                    assert(now[k] == earlier[k]);
                } else {
                    assert(random_x@.contains(x as usize));
                    let c = choose|c: int| 0 <= c < random_x@.len() && random_x@[c] == x as usize;
                    assert(now[earlier.len() + c] == added[c]);
                }
            }
        }
        row = row + 1;
    }
    proof {
        assert forall|x: int, y: int| 0 <= x < width && 0 <= y < height implies #[trigger] has_pixel(
            random_positions@,
            x,
            y,
        ) by {
            assert(random_y@.contains(y as usize));
            let r = choose|r: int| 0 <= r < random_y@.len() && random_y@[r] == y as usize;
            assert(has_pixel(random_positions@, x, random_y@[r] as int));
        }
        assert(covers_grid(random_positions@, width as nat, height as nat)) by {
            assert(row * width == width * height) by (nonlinear_arith)
                requires
                    row == height,
            ;
        }
    }
    let ghost in_rows = random_positions@;
    shuffle(&mut random_positions, rng);
    proof {
        lemma_cache_rearranged(in_rows, random_positions@, width as nat, height as nat);
    }
    random_positions
}

} // verus!
