//! Cutting the image into column strips, one per worker, and walking the
//! pixels of a strip.

use vstd::prelude::*;
use vstd::arithmetic::div_mod::lemma_fundamental_div_mod_converse;
use vstd::arithmetic::div_mod::lemma_fundamental_div_mod;
use vstd::arithmetic::div_mod::lemma_mod_bound;
use vstd::arithmetic::mul::lemma_mul_is_distributive_add_other_way;

verus! {

/// How many columns every worker gets: the width divided by the number of
/// workers, rounded down. The columns left over at the right edge belong to
/// no strip.
pub open spec fn strip_width(width: u32, workers: u32) -> int
    recommends
        workers > 0,
{
    width as int / workers as int
}

/// The first column of the strip of worker `w`.
pub open spec fn strip_start(width: u32, workers: u32, w: int) -> int {
    w * strip_width(width, workers)
}

/// One past the last column of the strip of worker `w`.
pub open spec fn strip_end(width: u32, workers: u32, w: int) -> int {
    (w + 1) * strip_width(width, workers)
}

/// How many pixels a strip from column `start` up to, not including, column
/// `end` holds in an image of the given height.
pub open spec fn section_len(start: int, end: int, height: int) -> int {
    if start < end {
        (end - start) * height
    } else {
        0
    }
}

/// The `k`-th pixel of a strip that begins at column `start`: a strip is
/// walked column by column, each column from the top row down.
pub open spec fn pixel_at(start: int, height: int, k: int) -> (int, int) {
    (start + k / height, k % height)
}

/// The pixel record that a worker hands back: column, row, the three colour
/// channels, and two fields that are always one.
pub open spec fn record_of(x: u32, y: u32, shade: (u8, u8, u8)) -> Seq<u32> {
    seq![x, y, shade.0 as u32, shade.1 as u32, shade.2 as u32, 1u32, 1u32]
}

/// No strip reaches beyond the image: the strips of the first `w` workers
/// end at or before the last column.
proof fn lemma_strip_bounds(width: u32, workers: u32, w: int)
    requires
        workers > 0,
        0 <= w <= workers,
    ensures
        0 <= w * strip_width(width, workers) <= width,
        0 <= strip_width(width, workers) <= width,
{
    let s = strip_width(width, workers);
    lemma_fundamental_div_mod(width as int, workers as int);
    lemma_mod_bound(width as int, workers as int);
    assert(0 <= s) by (nonlinear_arith)
        requires
            s == width as int / workers as int,
            workers > 0,
    ;
    assert(workers * s <= width);
    assert(0 <= w * s <= workers * s) by (nonlinear_arith)
        requires
            0 <= w <= workers,
            0 <= s,
    ;
    assert(s <= workers * s) by (nonlinear_arith)
        requires
            1 <= workers,
            0 <= s,
    ;
}

/// Cuts the columns `0..width` into one strip per worker, all of the same
/// width. A strip is a pair: its first column, and one past its last.
pub fn partition(width: u32, num_of_threads: u32) -> (strips: Vec<Vec<u32>>)
    requires
        num_of_threads > 0,
    ensures
        strips@.len() == num_of_threads,
        forall|w: int|
            0 <= w < num_of_threads ==> {
                &&& (#[trigger] strips@[w])@.len() == 2
                &&& strips@[w]@[0] == strip_start(width, num_of_threads, w)
                &&& strips@[w]@[1] == strip_end(width, num_of_threads, w)
                &&& strips@[w]@[0] <= strips@[w]@[1] <= width
            },
{
    let width_per_thread: u32 = width / num_of_threads;
    let mut strips: Vec<Vec<u32>> = Vec::new();
    let mut i: u32 = 0;
    while i < num_of_threads
        invariant
            num_of_threads > 0,
            0 <= i <= num_of_threads,
            width_per_thread == strip_width(width, num_of_threads),
            strips@.len() == i,
            forall|w: int|
                0 <= w < i ==> {
                    &&& (#[trigger] strips@[w])@.len() == 2
                    &&& strips@[w]@[0] == strip_start(width, num_of_threads, w)
                    &&& strips@[w]@[1] == strip_end(width, num_of_threads, w)
                    &&& strips@[w]@[0] <= strips@[w]@[1] <= width
                },
        decreases num_of_threads - i,
    {
        proof {
            lemma_strip_bounds(width, num_of_threads, i as int);
            lemma_strip_bounds(width, num_of_threads, i + 1);
            assert(i * width_per_thread <= (i + 1) * width_per_thread) by (nonlinear_arith)
                requires
                    0 <= width_per_thread,
            ;
        }
        let entry: u32 = i * width_per_thread;
        let last_entry: u32 = (i + 1) * width_per_thread;
        let mut strip: Vec<u32> = Vec::new();
        strip.push(entry);
        strip.push(last_entry);
        strips.push(strip);
        i = i + 1;
    }
    strips
}

/// The pixels of one strip in the order in which its worker samples them:
/// column by column, and within a column from row `0` to row `height - 1`.
/// A strip whose end is not beyond its start holds no pixel.
pub fn section_pixels(width_seg: &Vec<u32>, height: u32) -> (pixels: Vec<(u32, u32)>)
    requires
        width_seg@.len() >= 2,
        section_len(width_seg@[0] as int, width_seg@[1] as int, height as int) <= usize::MAX,
    ensures
        pixels@.len() == section_len(width_seg@[0] as int, width_seg@[1] as int, height as int),
        forall|k: int|
            0 <= k < pixels@.len() ==> {
                &&& (#[trigger] pixels@[k]).0 == pixel_at(width_seg@[0] as int, height as int, k).0
                &&& pixels@[k].1 == pixel_at(width_seg@[0] as int, height as int, k).1
                &&& width_seg@[0] <= pixels@[k].0 < width_seg@[1]
                &&& pixels@[k].1 < height
            },
{
    let start: u32 = width_seg[0];
    let end: u32 = width_seg[1];
    let mut pixels: Vec<(u32, u32)> = Vec::new();
    let mut i: u32 = start;
    while i < end
        invariant
            start <= i,
            start < end ==> i <= end,
            start >= end ==> i == start,
            section_len(start as int, end as int, height as int) <= usize::MAX,
            pixels@.len() == (i - start) * height,
            forall|k: int|
                0 <= k < pixels@.len() ==> {
                    &&& (#[trigger] pixels@[k]).0 == pixel_at(start as int, height as int, k).0
                    &&& pixels@[k].1 == pixel_at(start as int, height as int, k).1
                    &&& start <= pixels@[k].0 < end
                    &&& pixels@[k].1 < height
                },
        decreases end - i,
    {
        let mut j: u32 = 0;
        while j < height
            invariant
                start <= i < end,
                0 <= j <= height,
                section_len(start as int, end as int, height as int) <= usize::MAX,
                pixels@.len() == (i - start) * height + j,
                forall|k: int|
                    0 <= k < pixels@.len() ==> {
                        &&& (#[trigger] pixels@[k]).0 == pixel_at(start as int, height as int, k).0
                        &&& pixels@[k].1 == pixel_at(start as int, height as int, k).1
                        &&& start <= pixels@[k].0 < end
                        &&& pixels@[k].1 < height
                    },
            decreases height - j,
        {
            proof {
                let k = (i - start) * height + j;
                lemma_fundamental_div_mod_converse(k, height as int, (i - start) as int, j as int);
            }
            pixels.push((i, j));
            j = j + 1;
        }
        proof {
            lemma_mul_is_distributive_add_other_way(height as int, (i - start) as int, 1);
        }
        i = i + 1;
    }
    proof {
        if start < end {
            assert(i == end);
        } else {
            assert(i == start);
            assert((i - start) * height == 0) by (nonlinear_arith)
                requires
                    i == start,
            ;
        }
    }
    pixels
}

/// Builds the record of one finished pixel.
pub fn pixel_record(x: u32, y: u32, shade: (u8, u8, u8)) -> (record: Vec<u32>)
    ensures
        record@ == record_of(x, y, shade),
{
    let mut record: Vec<u32> = Vec::new();
    record.push(x);
    record.push(y);
    record.push(shade.0 as u32);
    record.push(shade.1 as u32);
    record.push(shade.2 as u32);
    record.push(1);
    record.push(1);
    assert(record@ =~= record_of(x, y, shade));
    record
}

/// Assembles what the worker of one strip hands back: one record per pixel
/// of the strip, in sampling order, each carrying the shade found for it.
/// `shades` holds the shade of every pixel of the strip, in that same order.
pub fn render_section(width_seg: Vec<u32>, height: u32, shades: &Vec<(u8, u8, u8)>) -> (records:
    Vec<Vec<u32>>)
    requires
        width_seg@.len() >= 2,
        shades@.len() == section_len(width_seg@[0] as int, width_seg@[1] as int, height as int),
    ensures
        records@.len() == shades@.len(),
        forall|k: int|
            0 <= k < records@.len() ==> {
                &&& (#[trigger] records@[k])@ == record_of(
                    records@[k]@[0],
                    records@[k]@[1],
                    shades@[k],
                )
                &&& records@[k]@[0] == pixel_at(width_seg@[0] as int, height as int, k).0
                &&& records@[k]@[1] == pixel_at(width_seg@[0] as int, height as int, k).1
                &&& width_seg@[0] <= records@[k]@[0] < width_seg@[1]
                &&& records@[k]@[1] < height
            },
{
    let total: usize = shades.len();
    let pixels = section_pixels(&width_seg, height);
    let mut records: Vec<Vec<u32>> = Vec::new();
    let mut k: usize = 0;
    while k < total
        invariant
            width_seg@.len() >= 2,
            0 <= k <= total,
            total == pixels@.len(),
            pixels@.len() == shades@.len(),
            records@.len() == k,
            forall|n: int|
                0 <= n < pixels@.len() ==> {
                    &&& (#[trigger] pixels@[n]).0 == pixel_at(
                        width_seg@[0] as int,
                        height as int,
                        n,
                    ).0
                    &&& pixels@[n].1 == pixel_at(width_seg@[0] as int, height as int, n).1
                    &&& width_seg@[0] <= pixels@[n].0 < width_seg@[1]
                    &&& pixels@[n].1 < height
                },
            forall|n: int|
                0 <= n < k ==> {
                    &&& (#[trigger] records@[n])@ == record_of(
                        records@[n]@[0],
                        records@[n]@[1],
                        shades@[n],
                    )
                    &&& records@[n]@[0] == pixel_at(width_seg@[0] as int, height as int, n).0
                    &&& records@[n]@[1] == pixel_at(width_seg@[0] as int, height as int, n).1
                    &&& width_seg@[0] <= records@[n]@[0] < width_seg@[1]
                    &&& records@[n]@[1] < height
                },
        decreases pixels@.len() - k,
    {
        let (x, y) = pixels[k];
        records.push(pixel_record(x, y, shades[k]));
        k = k + 1;
    }
    records
}

/// Whether worker `w` emits a `k`-th pixel at all.
pub open spec fn emits(width: u32, height: u32, workers: u32, w: int, k: int) -> bool {
    &&& 0 <= w < workers
    &&& 0 <= k < section_len(
        strip_start(width, workers, w),
        strip_end(width, workers, w),
        height as int,
    )
}

/// The coordinates of the `k`-th pixel that worker `w` emits.
pub open spec fn emitted_pixel(width: u32, height: u32, workers: u32, w: int, k: int) -> (
    int,
    int,
) {
    pixel_at(strip_start(width, workers, w), height as int, k)
}

/// An emitted pixel lies in the strip of its worker: its column, divided by
/// the strip width, gives the worker, and the rest gives the column within
/// the strip.
proof fn lemma_emitted_in_strip(width: u32, height: u32, workers: u32, w: int, k: int)
    requires
        workers > 0,
        emits(width, height, workers, w, k),
    ensures
        strip_width(width, workers) > 0,
        height > 0,
        0 <= k / (height as int) < strip_width(width, workers),
        0 <= k % (height as int) < height,
        k == (height as int) * (k / (height as int)) + k % (height as int),
        0 <= emitted_pixel(width, height, workers, w, k).0 < workers * strip_width(width, workers),
        emitted_pixel(width, height, workers, w, k).0 / strip_width(width, workers) == w,
        emitted_pixel(width, height, workers, w, k).0 % strip_width(width, workers) == k / (
        height as int),
{
    let s = strip_width(width, workers);
    let h = height as int;
    lemma_strip_bounds(width, workers, w);
    assert((w + 1) * s - w * s == s) by (nonlinear_arith);
    assert(s > 0 && h > 0) by (nonlinear_arith)
        requires
            0 <= k < s * h,
            0 <= s,
            0 <= h,
    ;
    lemma_fundamental_div_mod(k, h);
    lemma_mod_bound(k, h);
    let c = k / h;
    assert(0 <= c < s) by (nonlinear_arith)
        requires
            k == h * c + k % h,
            0 <= k % h < h,
            0 <= k < s * h,
            s > 0,
            h > 0,
    ;
    lemma_fundamental_div_mod_converse(w * s + c, s, w, c);
    assert(w * s + c < workers * s) by (nonlinear_arith)
        requires
            0 <= w < workers,
            0 <= c < s,
    ;
}

/// Whether `(x, y)` lies in the rectangle that reaches from column `0` to
/// the end of the last strip and over the full height.
pub open spec fn covered(width: u32, height: u32, workers: u32, x: int, y: int) -> bool {
    0 <= x < workers * strip_width(width, workers) && 0 <= y < height
}

/// Whether some worker emits the pixel `(x, y)`.
pub open spec fn is_emitted(width: u32, height: u32, workers: u32, x: int, y: int) -> bool {
    exists|w: int, k: int|
        emits(width, height, workers, w, k) && #[trigger] emitted_pixel(
            width,
            height,
            workers,
            w,
            k,
        ) == (x, y)
}

/// Together the workers emit exactly the pixels of the rectangle that
/// reaches from column `0` to the end of the last strip and over the full
/// height, and no pixel is emitted twice, neither by two workers nor twice
/// by one. The columns beyond the last strip, which the rounded-down strip
/// width leaves over, are emitted by nobody.
pub proof fn lemma_strips_tile_the_image(width: u32, height: u32, workers: u32)
    requires
        workers > 0,
    ensures
        forall|x: int, y: int|
            #![trigger is_emitted(width, height, workers, x, y)]
            #![trigger covered(width, height, workers, x, y)]
            is_emitted(width, height, workers, x, y) <==> covered(width, height, workers, x, y),
        forall|w1: int, k1: int, w2: int, k2: int|
            #[trigger] emits(width, height, workers, w1, k1) && #[trigger] emits(
                width,
                height,
                workers,
                w2,
                k2,
            ) && emitted_pixel(width, height, workers, w1, k1) == emitted_pixel(
                width,
                height,
                workers,
                w2,
                k2,
            ) ==> w1 == w2 && k1 == k2,
{
    let s = strip_width(width, workers);
    let h = height as int;
    assert forall|x: int, y: int| is_emitted(width, height, workers, x, y) implies covered(
        width,
        height,
        workers,
        x,
        y,
    ) by {
        let (w, k) = choose|w: int, k: int|
            emits(width, height, workers, w, k) && #[trigger] emitted_pixel(
                width,
                height,
                workers,
                w,
                k,
            ) == (x, y);
        lemma_emitted_in_strip(width, height, workers, w, k);
    }
    assert forall|x: int, y: int| covered(width, height, workers, x, y) implies is_emitted(
        width,
        height,
        workers,
        x,
        y,
    ) by {
        lemma_strip_bounds(width, workers, 0);
        assert(s > 0) by (nonlinear_arith)
            requires
                0 <= x < workers * s,
                0 <= s,
        ;
        let w = x / s;
        let c = x % s;
        lemma_fundamental_div_mod(x, s);
        lemma_mod_bound(x, s);
        assert(0 <= w < workers) by (nonlinear_arith)
            requires
                x == s * w + c,
                0 <= c < s,
                0 <= x < workers * s,
        ;
        let k = c * h + y;
        lemma_fundamental_div_mod_converse(k, h, c, y);
        assert(0 <= k < s * h) by (nonlinear_arith)
            requires
                k == c * h + y,
                0 <= c < s,
                0 <= y < h,
        ;
        assert((w + 1) * s - w * s == s) by (nonlinear_arith);
        assert(w * s + c == x) by (nonlinear_arith)
            requires
                x == s * w + c,
        ;
        assert(emits(width, height, workers, w, k));
        assert(emitted_pixel(width, height, workers, w, k) == (x, y));
    }
    assert forall|w1: int, k1: int, w2: int, k2: int|
        #[trigger] emits(width, height, workers, w1, k1) && #[trigger] emits(
            width,
            height,
            workers,
            w2,
            k2,
        ) && emitted_pixel(width, height, workers, w1, k1) == emitted_pixel(
            width,
            height,
            workers,
            w2,
            k2,
        ) implies w1 == w2 && k1 == k2 by {
        lemma_emitted_in_strip(width, height, workers, w1, k1);
        lemma_emitted_in_strip(width, height, workers, w2, k2);
    }
}

} // verus!
