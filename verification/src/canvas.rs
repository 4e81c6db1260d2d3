//! Painting the workers' pixel records onto the output image.

use vstd::prelude::*;
use crate::tiles::emits;
use crate::tiles::emitted_pixel;
use crate::tiles::lemma_strips_tile_the_image;
use crate::tiles::section_len;
use crate::tiles::strip_end;
use crate::tiles::strip_start;

verus! {

/// `image::DynamicImage`, the image that the workers' results are painted
/// onto. Nothing inside it is visible here; what it shows is named by
/// `image_pixels`.
#[verifier::external_type_specification]
#[verifier::external_body]
pub struct ExDynamicImage(image::DynamicImage);

/// What an image shows: for every coordinate inside it, given as column and
/// row, the red, green and blue channel of the pixel there. Coordinates
/// outside the image are not in the map.
pub uninterp spec fn image_pixels(img: image::DynamicImage) -> Map<(u32, u32), (u8, u8, u8)>;

/// Whether an image stores its pixels as three 8-bit channels.
pub uninterp spec fn image_is_rgb8(img: image::DynamicImage) -> bool;

/// An image of the given size in which every pixel is black.
pub open spec fn blank(width: u32, height: u32) -> Map<(u32, u32), (u8, u8, u8)> {
    Map::new(|at: (u32, u32)| at.0 < width && at.1 < height, |at: (u32, u32)| (0u8, 0u8, 0u8))
}

/// The value of a record's field as a channel: its lowest eight bits.
pub open spec fn channel(field: u32) -> u8 {
    (field % 256) as u8
}

/// Whether a record can be painted onto an image of the given size: it has
/// its coordinates and four channels, and the coordinates lie inside.
pub open spec fn fits(record: Seq<u32>, width: u32, height: u32) -> bool {
    record.len() >= 6 && record[0] < width && record[1] < height
}

/// The pixel that a record names: its column and its row.
pub open spec fn coords(record: Seq<u32>) -> (u32, u32) {
    (record[0], record[1])
}

/// The colour that a record carries: its red, green and blue channel.
pub open spec fn shade(record: Seq<u32>) -> (u8, u8, u8) {
    (channel(record[2]), channel(record[3]), channel(record[4]))
}

/// The image after one record was painted onto it. The pixel that the
/// record names takes the record's colour; the record's fourth channel is
/// not stored.
pub open spec fn paint(pixels: Map<(u32, u32), (u8, u8, u8)>, record: Seq<u32>) -> Map<
    (u32, u32),
    (u8, u8, u8),
> {
    pixels.insert(coords(record), shade(record))
}

/// The image after the records of one worker were painted onto it, one
/// after the other.
pub open spec fn paint_all(pixels: Map<(u32, u32), (u8, u8, u8)>, records: Seq<Vec<u32>>) -> Map<
    (u32, u32),
    (u8, u8, u8),
>
    decreases records.len(),
{
    if records.len() == 0 {
        pixels
    } else {
        paint(paint_all(pixels, records.drop_last()), records.last()@)
    }
}

/// The image after the records of all workers were painted onto it, worker
/// after worker.
pub open spec fn paint_batches(
    pixels: Map<(u32, u32), (u8, u8, u8)>,
    batches: Seq<Vec<Vec<u32>>>,
) -> Map<(u32, u32), (u8, u8, u8)>
    decreases batches.len(),
{
    if batches.len() == 0 {
        pixels
    } else {
        paint_all(paint_batches(pixels, batches.drop_last()), batches.last()@)
    }
}

/// A pixel that none of the records names is left as it was.
pub proof fn lemma_paint_all_elsewhere(
    pixels: Map<(u32, u32), (u8, u8, u8)>,
    records: Seq<Vec<u32>>,
    at: (u32, u32),
)
    requires
        forall|k: int| 0 <= k < records.len() ==> coords((#[trigger] records[k])@) != at,
    ensures
        paint_all(pixels, records).contains_key(at) == pixels.contains_key(at),
        paint_all(pixels, records)[at] == pixels[at],
    decreases records.len(),
{
    if records.len() > 0 {
        lemma_paint_all_elsewhere(pixels, records.drop_last(), at);
        assert(coords(records[records.len() - 1]@) != at);
    }
}

/// A pixel shows the colour of the last record that names it.
pub proof fn lemma_paint_all_shows_last(
    pixels: Map<(u32, u32), (u8, u8, u8)>,
    records: Seq<Vec<u32>>,
    k: int,
)
    requires
        0 <= k < records.len(),
        forall|j: int|
            k < j < records.len() ==> coords((#[trigger] records[j])@) != coords(records[k]@),
    ensures
        paint_all(pixels, records).contains_key(coords(records[k]@)),
        paint_all(pixels, records)[coords(records[k]@)] == shade(records[k]@),
    decreases records.len(),
{
    if k < records.len() - 1 {
        lemma_paint_all_shows_last(pixels, records.drop_last(), k);
        assert(coords(records[records.len() - 1]@) != coords(records[k]@));
    }
}

/// A pixel that no record of any worker names is left as it was.
pub proof fn lemma_paint_batches_elsewhere(
    pixels: Map<(u32, u32), (u8, u8, u8)>,
    batches: Seq<Vec<Vec<u32>>>,
    at: (u32, u32),
)
    requires
        forall|b: int, k: int|
            0 <= b < batches.len() && 0 <= k < batches[b]@.len() ==> coords(
                (#[trigger] batches[b]@[k])@,
            ) != at,
    ensures
        paint_batches(pixels, batches).contains_key(at) == pixels.contains_key(at),
        paint_batches(pixels, batches)[at] == pixels[at],
    decreases batches.len(),
{
    if batches.len() > 0 {
        let last = batches.len() - 1;
        lemma_paint_batches_elsewhere(pixels, batches.drop_last(), at);
        assert forall|k: int| 0 <= k < batches[last]@.len() implies coords(
            (#[trigger] batches[last]@[k])@,
        ) != at by {}
        lemma_paint_all_elsewhere(paint_batches(pixels, batches.drop_last()), batches[last]@, at);
    }
}

/// A pixel shows the colour of the last record that names it: of record
/// `k` of worker `b`, if neither a later record of that worker nor any
/// record of a later worker names the same pixel. So where the workers name
/// no pixel twice, every record shows in the image, in whatever order the
/// workers' results arrive.
pub proof fn lemma_paint_batches_shows_last(
    pixels: Map<(u32, u32), (u8, u8, u8)>,
    batches: Seq<Vec<Vec<u32>>>,
    b: int,
    k: int,
)
    requires
        0 <= b < batches.len(),
        0 <= k < batches[b]@.len(),
        forall|j: int|
            k < j < batches[b]@.len() ==> coords((#[trigger] batches[b]@[j])@) != coords(
                batches[b]@[k]@,
            ),
        forall|c: int, j: int|
            b < c < batches.len() && 0 <= j < batches[c]@.len() ==> coords(
                (#[trigger] batches[c]@[j])@,
            ) != coords(batches[b]@[k]@),
    ensures
        paint_batches(pixels, batches).contains_key(coords(batches[b]@[k]@)),
        paint_batches(pixels, batches)[coords(batches[b]@[k]@)] == shade(batches[b]@[k]@),
    decreases batches.len(),
{
    let last = batches.len() - 1;
    let before = paint_batches(pixels, batches.drop_last());
    if b == last {
        lemma_paint_all_shows_last(before, batches[last]@, k);
    } else {
        lemma_paint_batches_shows_last(pixels, batches.drop_last(), b, k);
        assert forall|j: int| 0 <= j < batches[last]@.len() implies coords(
            (#[trigger] batches[last]@[j])@,
        ) != coords(batches[b]@[k]@) by {}
        lemma_paint_all_elsewhere(before, batches[last]@, coords(batches[b]@[k]@));
    }
}

/// Whether `records` is what the worker of strip `w` hands back: one record
/// for each pixel of the strip, in sampling order.
pub open spec fn is_strip_result(
    width: u32,
    height: u32,
    workers: u32,
    w: int,
    records: Seq<Vec<u32>>,
) -> bool {
    &&& 0 <= w < workers
    &&& records.len() == section_len(
        strip_start(width, workers, w),
        strip_end(width, workers, w),
        height as int,
    )
    &&& forall|k: int|
        0 <= k < records.len() ==> (coords((#[trigger] records[k])@).0 as int, coords(
            records[k]@,
        ).1 as int) == emitted_pixel(width, height, workers, w, k)
}

/// The order in which the workers' results arrive does not matter. Let
/// every batch be the result of one worker, `worker_of` telling which, and
/// no worker's result arrive twice. Then every record shows in the image:
/// the pixel that it names has the colour that it carries.
pub proof fn lemma_arrival_order_does_not_matter(
    width: u32,
    height: u32,
    workers: u32,
    pixels: Map<(u32, u32), (u8, u8, u8)>,
    batches: Seq<Vec<Vec<u32>>>,
    worker_of: Seq<int>,
    b: int,
    k: int,
)
    requires
        workers > 0,
        worker_of.len() == batches.len(),
        forall|c: int|
            0 <= c < batches.len() ==> is_strip_result(
                width,
                height,
                workers,
                #[trigger] worker_of[c],
                batches[c]@,
            ),
        forall|c: int, d: int|
            0 <= c < d < batches.len() ==> #[trigger] worker_of[c] != #[trigger] worker_of[d],
        0 <= b < batches.len(),
        0 <= k < batches[b]@.len(),
    ensures
        paint_batches(pixels, batches).contains_key(coords(batches[b]@[k]@)),
        paint_batches(pixels, batches)[coords(batches[b]@[k]@)] == shade(batches[b]@[k]@),
{
    lemma_strips_tile_the_image(width, height, workers);
    let w = worker_of[b];
    assert(is_strip_result(width, height, workers, w, batches[b]@));
    let named = coords(batches[b]@[k]@);
    assert(emits(width, height, workers, w, k));
    assert forall|j: int| k < j < batches[b]@.len() implies coords((#[trigger] batches[b]@[j])@)
        != named by {
        assert(emits(width, height, workers, w, j));
    }
    assert forall|c: int, j: int| b < c < batches.len() && 0 <= j < batches[c]@.len() implies coords(
        (#[trigger] batches[c]@[j])@,
    ) != named by {
        let v = worker_of[c];
        assert(is_strip_result(width, height, workers, v, batches[c]@));
        assert(emits(width, height, workers, v, j));
        assert(v != w);
    }
    lemma_paint_batches_shows_last(pixels, batches, b, k);
}

/// Calls `image::DynamicImage::new_rgb8`, which makes an image of the given
/// size that stores three 8-bit channels per pixel, all of them zero. The
/// call panics where the buffer would be larger than a vector can be, so
/// such sizes are left out.
#[verifier::external_body]
fn new_rgb8(width: u32, height: u32) -> (img: image::DynamicImage)
    requires
        3 * width * height <= isize::MAX,
    ensures
        image_is_rgb8(img),
        image_pixels(img) == blank(width, height),
{
    image::DynamicImage::new_rgb8(width, height)
}

/// Calls `image::GenericImage::put_pixel` on an `image::DynamicImage`. On an
/// image of three 8-bit channels it stores the first three channels of the
/// given pixel at the given place and drops the fourth; nothing else
/// changes. The call panics on coordinates outside the image, so those are
/// left out.
#[verifier::external_body]
fn put_pixel(img: &mut image::DynamicImage, x: u32, y: u32, pixel: (u8, u8, u8, u8))
    requires
        image_is_rgb8(*old(img)),
        image_pixels(*old(img)).contains_key((x, y)),
    ensures
        image_is_rgb8(*final(img)),
        image_pixels(*final(img)) == image_pixels(*old(img)).insert(
            (x, y),
            (pixel.0, pixel.1, pixel.2),
        ),
{
    image::GenericImage::put_pixel(img, x, y, image::Rgba([pixel.0, pixel.1, pixel.2, pixel.3]))
}

/// Painting a record that fits keeps the image's coordinates as they are.
proof fn lemma_paint_keeps_domain(
    pixels: Map<(u32, u32), (u8, u8, u8)>,
    record: Seq<u32>,
    width: u32,
    height: u32,
)
    requires
        pixels.dom() == blank(width, height).dom(),
        fits(record, width, height),
    ensures
        paint(pixels, record).dom() == blank(width, height).dom(),
{
    assert(pixels.contains_key((record[0], record[1])));
    assert(paint(pixels, record).dom() =~= pixels.dom());
}

/// Reads the lowest eight bits of a record's field.
fn low_byte(field: u32) -> (byte: u8)
    ensures
        byte == channel(field),
{
    (field % 256) as u8
}

/// Makes a black image of the given size and paints onto it every record of
/// every worker, in the order given. Where two records name the same pixel,
/// the later one stays.
pub fn composite(width: u32, height: u32, thread_data: &Vec<Vec<Vec<u32>>>) -> (img:
    image::DynamicImage)
    requires
        3 * width * height <= isize::MAX,
        forall|b: int, k: int|
            0 <= b < thread_data@.len() && 0 <= k < thread_data@[b]@.len() ==> fits(
                #[trigger] thread_data@[b]@[k]@,
                width,
                height,
            ),
    ensures
        image_is_rgb8(img),
        image_pixels(img) == paint_batches(blank(width, height), thread_data@),
        image_pixels(img).dom() == blank(width, height).dom(),
{
    let mut img = new_rgb8(width, height);
    let mut b: usize = 0;
    while b < thread_data.len()
        invariant
            0 <= b <= thread_data@.len(),
            forall|b: int, k: int|
                0 <= b < thread_data@.len() && 0 <= k < thread_data@[b]@.len() ==> fits(
                    #[trigger] thread_data@[b]@[k]@,
                    width,
                    height,
                ),
            image_is_rgb8(img),
            image_pixels(img).dom() == blank(width, height).dom(),
            image_pixels(img) == paint_batches(blank(width, height), thread_data@.take(b as int)),
        decreases thread_data@.len() - b,
    {
        let first = &thread_data[b];
        let ghost before = image_pixels(img);
        let mut k: usize = 0;
        while k < first.len()
            invariant
                0 <= k <= first@.len(),
                forall|n: int| 0 <= n < first@.len() ==> fits(#[trigger] first@[n]@, width, height),
                image_is_rgb8(img),
                image_pixels(img).dom() == blank(width, height).dom(),
                image_pixels(img) == paint_all(before, first@.take(k as int)),
            decreases first@.len() - k,
        {
            let pix = &first[k];
            assert(fits(pix@, width, height));
            let pixels = (low_byte(pix[2]), low_byte(pix[3]), low_byte(pix[4]), low_byte(pix[5]));
            proof {
                lemma_paint_keeps_domain(image_pixels(img), pix@, width, height);
                assert(first@.take(k + 1).drop_last() == first@.take(k as int));
            }
            put_pixel(&mut img, pix[0], pix[1], pixels);
            k = k + 1;
        }
        proof {
            assert(first@.take(k as int) == first@);
            assert(thread_data@.take(b + 1).drop_last() == thread_data@.take(b as int));
        }
        b = b + 1;
    }
    proof {
        assert(thread_data@.take(b as int) == thread_data@);
    }
    img
}

} // verus!
