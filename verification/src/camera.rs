//! The order in which the camera shoots its rays.

use vstd::prelude::*;
use vstd::arithmetic::div_mod::{lemma_fundamental_div_mod_converse_div, lemma_fundamental_div_mod_converse_mod};

verus! {

/// The pixel a camera handles `i`-th, for an image `height` pixels high: the
/// columns one after the other, each from its top row down; with the row it
/// lands on in the image, counted from the bottom.
pub open spec fn pixel_at(height: u32, i: int) -> (u32, u32, u32) {
    ((i / height as int) as u32, (i % height as int) as u32, (height - 1 - i % height as int) as u32)
}

/// The pixels of a `pixels.0`-by-`pixels.1` image in the order the camera
/// shoots rays through them: `(px, py, image_y)` where `image_y` is the row
/// `py` flipped upside down.
pub fn pixel_order(pixels: (u32, u32)) -> (r: Vec<(u32, u32, u32)>)
    requires
        pixels.0 * pixels.1 <= usize::MAX,
    ensures
        r.len() == pixels.0 * pixels.1,
        forall|i: int| 0 <= i < r.len() ==> #[trigger] r@[i] == pixel_at(pixels.1, i),
        forall|i: int| 0 <= i < r.len() ==> {
            &&& #[trigger] r@[i].0 as int == i / pixels.1 as int
            &&& r@[i].1 as int == i % pixels.1 as int
            &&& r@[i].1 + r@[i].2 == pixels.1 - 1
        },
{
    let ghost w = pixels.0 as int;
    let ghost h = pixels.1 as int;
    let mut r: Vec<(u32, u32, u32)> = Vec::new();
    let mut px: u32 = 0;
    assert(0 * h == 0);
    while px < pixels.0
        invariant
            w == pixels.0 && h == pixels.1,
            w * h <= usize::MAX,
            px <= w,
            r.len() == px * h,
            forall|i: int| 0 <= i < r.len() ==> #[trigger] r@[i] == pixel_at(pixels.1, i),
        decreases w - px,
    {
        let mut py: u32 = 0;
        while py < pixels.1
            invariant
                w == pixels.0 && h == pixels.1,
                w * h <= usize::MAX,
                px < w,
                py <= h,
                r.len() == px * h + py,
                forall|i: int| 0 <= i < r.len() ==> #[trigger] r@[i] == pixel_at(pixels.1, i),
            decreases h - py,
        {
            proof {
                lemma_fundamental_div_mod_converse_div(px * h + py, h, px as int, py as int);
                lemma_fundamental_div_mod_converse_mod(px * h + py, h, px as int, py as int);
                assert(px * h + py < w * h) by (nonlinear_arith)
                    requires
                        px < w,
                        py < h;
            }
            let ghost i = r.len() as int;
            r.push((px, py, pixels.1 - 1 - py));
            assert(r@[i] == pixel_at(pixels.1, i));
            py = py + 1;
        }
        assert(px * h + h == (px + 1) * h) by (nonlinear_arith);
        px = px + 1;
    }
    proof {
        assert forall|i: int| 0 <= i < r.len() implies {
            &&& #[trigger] r@[i].0 as int == i / pixels.1 as int
            &&& r@[i].1 as int == i % pixels.1 as int
            &&& r@[i].1 + r@[i].2 == pixels.1 - 1
        } by {
            lemma_pixel_at(pixels.0, pixels.1, i);
        }
    }
    r
}

/// The `i`-th pixel of a `width`-by-`height` image is in column `i / height`
/// and camera row `i % height`, and lands on the image row that mirrors the
/// camera row: the two rows add up to `height - 1`.
pub proof fn lemma_pixel_at(width: u32, height: u32, i: int)
    requires
        0 <= i < width * height,
    ensures
        pixel_at(height, i).0 as int == i / height as int,
        pixel_at(height, i).1 as int == i % height as int,
        pixel_at(height, i).1 + pixel_at(height, i).2 == height - 1,
{
    assert(height > 0) by (nonlinear_arith)
        requires
            0 <= i < width * height;
    assert((i / (height as int)) < width) by (nonlinear_arith)
        requires
            0 <= i < width * height,
            height > 0;
}

} // verus!
