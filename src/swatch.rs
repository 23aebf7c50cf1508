//! The swatch strip: one opaque RGBA pixel per palette entry, upscaled so that
//! each entry becomes a square block.
use crate::color::Rgb8;
use image::imageops::FilterType;
use image::RgbaImage;
use vstd::prelude::*;

verus! {

/// The side of the square block that each palette entry becomes.
pub const BLOCK: u32 = 100;

/// The RGBA pixel that starts at byte `4 * m` of a row.
pub open spec fn pixel_at(row: Seq<u8>, m: int) -> (u8, u8, u8, u8) {
    (row[4 * m], row[4 * m + 1], row[4 * m + 2], row[4 * m + 3])
}

/// The RGBA bytes of the base row: one fully opaque pixel per palette entry.
pub open spec fn row_bytes(palette: Seq<Rgb8>) -> Seq<u8>
    decreases palette.len(),
{
    if palette.len() == 0 {
        Seq::empty()
    } else {
        let p = palette.last();
        row_bytes(palette.drop_last()) + seq![p.r, p.g, p.b, 255u8]
    }
}

/// The RGBA bytes of a `width` by 1 image, resampled to `new_width` by
/// `new_height` with nearest-neighbour sampling.
pub uninterp spec fn nearest_resized(row: Seq<u8>, width: u32, new_width: u32, new_height: u32) -> Seq<u8>;

/// Relies on `image::RgbaImage::from_raw`, which accepts a buffer of exactly
/// four bytes per pixel, and on `image::imageops::resize` with
/// `FilterType::Nearest`, which returns an image of the requested size whose
/// raw buffer holds four bytes per pixel.
#[verifier::external_body]
fn resize_nearest(row: &Vec<u8>, width: u32, new_width: u32, new_height: u32) -> (out: Vec<u8>)
    requires
        row.len() == 4 * width,
    ensures
        out@.len() == 4 * new_width * new_height,
        out@ == nearest_resized(row@, width, new_width, new_height),
{
    let img = RgbaImage::from_raw(width, 1, row.clone()).unwrap();
    image::imageops::resize(&img, new_width, new_height, FilterType::Nearest).into_raw()
}

/// The base row: one fully opaque RGBA pixel per palette entry, in order.
pub fn swatch_row(palette: &Vec<Rgb8>) -> (row: Vec<u8>)
    requires
        palette.len() * 4 <= usize::MAX,
    ensures
        row@ == row_bytes(palette@),
        row.len() == 4 * palette.len(),
        forall|m: int|
            0 <= m < palette.len() ==> #[trigger] pixel_at(row@, m) == (
                palette@[m].r,
                palette@[m].g,
                palette@[m].b,
                255u8,
            ),
{
    let mut row: Vec<u8> = Vec::new();
    let mut i: usize = 0;
    while i < palette.len()
        invariant
            palette.len() * 4 <= usize::MAX,
            0 <= i <= palette.len(),
            row.len() == 4 * i,
            row@ == row_bytes(palette@.take(i as int)),
            forall|m: int|
                0 <= m < i ==> #[trigger] pixel_at(row@, m) == (
                    palette@[m].r,
                    palette@[m].g,
                    palette@[m].b,
                    255u8,
                ),
        decreases palette.len() - i,
    {
        let p = palette[i];
        let ghost before = row@;
        row.push(p.r);
        row.push(p.g);
        row.push(p.b);
        row.push(255);
        proof {
            assert forall|m: int| 0 <= m < i + 1 implies #[trigger] pixel_at(row@, m) == (
                palette@[m].r,
                palette@[m].g,
                palette@[m].b,
                255u8,
            ) by {
                if m < i {
                    assert(pixel_at(before, m) == pixel_at(row@, m));
                }
            }
            let t = palette@.take(i + 1);
            assert(t.drop_last() =~= palette@.take(i as int));
            assert(row@ =~= row_bytes(t));
        }
        i = i + 1;
    }
    assert(palette@.take(palette.len() as int) =~= palette@);
    row
}

/// The swatch image as RGBA bytes: `BLOCK * n` pixels wide and `BLOCK` high for
/// a palette of `n` entries, resampled from the base row by nearest neighbour.
pub fn render_swatch(palette: &Vec<Rgb8>) -> (pixels: Vec<u8>)
    requires
        palette.len() * BLOCK <= u32::MAX,
    ensures
        pixels.len() == 4 * (palette.len() * BLOCK) * BLOCK,
        pixels@ == nearest_resized(
            row_bytes(palette@),
            palette.len() as u32,
            (palette.len() * BLOCK) as u32,
            BLOCK,
        ),
{
    let row = swatch_row(palette);
    let n = palette.len() as u32;
    resize_nearest(&row, n, n * BLOCK, BLOCK)
}

} // verus!
