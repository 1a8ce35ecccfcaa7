use vstd::prelude::*;
use raster::{Color, Image};
use raster::error::RasterError;
use crate::shapes::pixels_view;

verus! {

#[verifier::external_type_specification]
pub struct ExColor(raster::Color);

#[verifier::external_type_specification]
pub struct ExImage(raster::Image);

#[verifier::external_type_specification]
#[verifier::external_body]
pub struct ExRasterError(raster::error::RasterError);

/// Relies on raster's `Color::rgb`: it fills the three channels and makes the color opaque.
pub assume_specification<'a>[ raster::Color::rgb ](r: u8, g: u8, b: u8) -> (c: Color)
    ensures
        c.r == r,
        c.g == g,
        c.b == b,
        c.a == 255,
;

/// Relies on the derived `Clone` of raster's `Color`: it copies the four channels.
pub assume_specification[ <raster::Color as Clone>::clone ](c: &Color) -> (r: Color)
    ensures
        r == *c,
;

/// Relies on raster's `Image::set_pixel`: inside the image it stores the four
/// channels of `color` at byte `4 * (y * width + x)` and succeeds. The offset
/// arithmetic is done in `i32`, so the image's byte count must fit there.
pub assume_specification<'a>[ raster::Image::set_pixel ](img: &mut Image, x: i32, y: i32, color: Color) -> (r: Result<(), RasterError>)
    requires
        0 <= x < old(img).width,
        0 <= y < old(img).height,
        4 * old(img).width * old(img).height <= i32::MAX,
        old(img).bytes@.len() == 4 * old(img).width * old(img).height,
    ensures
        r is Ok,
        final(img).width == old(img).width,
        final(img).height == old(img).height,
        final(img).bytes@ == old(img).bytes@
            .update(4 * (y * old(img).width + x), color.r)
            .update(4 * (y * old(img).width + x) + 1, color.g)
            .update(4 * (y * old(img).width + x) + 2, color.b)
            .update(4 * (y * old(img).width + x) + 3, color.a),
;

/// The four channels of a color.
pub open spec fn rgba(c: Color) -> (u8, u8, u8, u8) {
    (c.r, c.g, c.b, c.a)
}

/// The image's byte buffer holds four bytes for each of its pixels, and its
/// size can be addressed with `i32` offsets.
pub open spec fn canvas_wf(img: Image) -> bool {
    0 <= img.width && 0 <= img.height && 4 * img.width * img.height <= i32::MAX
        && img.bytes@.len() == 4 * img.width * img.height
}

pub open spec fn in_bounds(img: Image, x: int, y: int) -> bool {
    0 <= x < img.width && 0 <= y < img.height
}

/// Offset of the first byte of pixel `(x, y)`.
pub open spec fn pixel_offset(img: Image, x: int, y: int) -> int {
    4 * (y * img.width + x)
}

/// The four channels stored for pixel `(x, y)`.
pub open spec fn pixel_at(img: Image, x: int, y: int) -> (u8, u8, u8, u8) {
    let i = pixel_offset(img, x, y);
    (img.bytes@[i], img.bytes@[i + 1], img.bytes@[i + 2], img.bytes@[i + 3])
}

/// `new` is `old` with each in-bounds pixel of `px` set to `c` and every other pixel kept.
pub open spec fn painted(old: Image, new: Image, px: Seq<(int, int)>, c: (u8, u8, u8, u8)) -> bool {
    &&& new.width == old.width
    &&& new.height == old.height
    &&& new.bytes@.len() == old.bytes@.len()
    &&& forall|x: int, y: int| #[trigger] in_bounds(old, x, y) ==>
            pixel_at(new, x, y) == if px.contains((x, y)) { c } else { pixel_at(old, x, y) }
}

/// An in-bounds pixel's four bytes lie inside the buffer.
proof fn lemma_offset_inside(img: Image, x: int, y: int)
    requires
        canvas_wf(img),
        in_bounds(img, x, y),
    ensures
        0 <= pixel_offset(img, x, y),
        pixel_offset(img, x, y) + 4 <= img.bytes@.len(),
{
    let w = img.width as int;
    let h = img.height as int;
    assert(0 <= y * w + x && y * w + x + 1 <= w * h) by (nonlinear_arith)
        requires 0 <= y < h, 0 <= x < w;
    assert(4 * w * h == 4 * (w * h)) by (nonlinear_arith);
}

/// Distinct in-bounds pixels occupy disjoint four-byte blocks.
proof fn lemma_offsets_apart(img: Image, x1: int, y1: int, x2: int, y2: int)
    requires
        canvas_wf(img),
        in_bounds(img, x1, y1),
        in_bounds(img, x2, y2),
        (x1, y1) != (x2, y2),
    ensures
        pixel_offset(img, x1, y1) + 4 <= pixel_offset(img, x2, y2)
            || pixel_offset(img, x2, y2) + 4 <= pixel_offset(img, x1, y1),
{
    let w = img.width as int;
    let h = img.height as int;
    if y1 == y2 {
    } else if y1 < y2 {
        assert(y1 * w + x1 + 1 <= y2 * w + x2) by (nonlinear_arith)
            requires y1 + 1 <= y2, 0 <= x1 < w, 0 <= x2;
    } else {
        assert(y2 * w + x2 + 1 <= y1 * w + x1) by (nonlinear_arith)
            requires y2 + 1 <= y1, 0 <= x2 < w, 0 <= x1;
    }
}

/// Writes `color` at `(x, y)` where that pixel is inside a well-formed image;
/// elsewhere the image is left as it was.
pub fn put_pixel(img: &mut Image, x: i32, y: i32, color: Color)
    ensures
        canvas_wf(*old(img)) && in_bounds(*old(img), x as int, y as int) ==>
            painted(*old(img), *final(img), seq![(x as int, y as int)], rgba(color)),
        !(canvas_wf(*old(img)) && in_bounds(*old(img), x as int, y as int)) ==> *final(img) == *old(img),
{
    let w = img.width;
    let h = img.height;
    if 0 <= x && x < w && 0 <= y && y < h {
        proof {
            assert((w as int) * (h as int) <= 0x4000_0000_0000_0000) by (nonlinear_arith)
                requires 0 < w < 0x8000_0000, 0 < h < 0x8000_0000;
        }
        let area: i64 = (w as i64) * (h as i64);
        proof {
            let (wi, hi) = (w as int, h as int);
            assert(4 * wi * hi == 4 * (wi * hi)) by (nonlinear_arith);
        }
        if area <= 0x1fff_ffff && img.bytes.len() == (4 * area) as usize {
            let ghost pre = *img;
            let _ = img.set_pixel(x, y, color);
            proof {
                lemma_offset_inside(pre, x as int, y as int);
                assert forall|px: int, py: int| #[trigger] in_bounds(pre, px, py) implies
                    pixel_at(*img, px, py) == if seq![(x as int, y as int)].contains((px, py)) { rgba(color) } else { pixel_at(pre, px, py) }
                by {
                    lemma_offset_inside(pre, px, py);
                    if (px, py) == (x as int, y as int) {
                        assert(seq![(x as int, y as int)][0] == (px, py));
                    } else {
                        lemma_offsets_apart(pre, px, py, x as int, y as int);
                        assert(pixel_at(*img, px, py) == pixel_at(pre, px, py));
                        assert(!seq![(x as int, y as int)].contains((px, py)));
                    }
                }
            }
        }
    }
}

/// Painting `px` and then one more pixel paints `px` with that pixel appended.
proof fn lemma_painted_push(a: Image, b: Image, d: Image, px: Seq<(int, int)>, p: (int, int), c: (u8, u8, u8, u8))
    requires
        painted(a, b, px, c),
        painted(b, d, seq![p], c),
    ensures
        painted(a, d, px.push(p), c),
{
    assert forall|x: int, y: int| #[trigger] in_bounds(a, x, y) implies
        pixel_at(d, x, y) == if px.push(p).contains((x, y)) { c } else { pixel_at(a, x, y) }
    by {
        assert(in_bounds(b, x, y));
        if (x, y) == p {
            assert(seq![p][0] == p);
            assert(px.push(p)[px.len() as int] == p);
        } else {
            assert(!seq![p].contains((x, y)));
            if px.contains((x, y)) {
                let j = choose|j: int| 0 <= j < px.len() && px[j] == (x, y);
                assert(px.push(p)[j] == (x, y));
            } else {
                assert forall|j: int| 0 <= j < px.push(p).len() implies px.push(p)[j] != (x, y) by {
                    if j < px.len() {
                        assert(px.push(p)[j] == px[j]);
                    }
                }
            }
        }
    }
}

/// Writes `color` at every pixel of `pixels` that lies inside `img`, in order.
pub fn paint(img: &mut Image, pixels: &Vec<(i32, i32)>, color: &Color)
    ensures
        canvas_wf(*old(img)) ==> canvas_wf(*final(img))
            && painted(*old(img), *final(img), pixels_view(pixels@), rgba(*color)),
        !canvas_wf(*old(img)) ==> *final(img) == *old(img),
{
    let ghost pre = *img;
    let mut i: usize = 0;
    proof {
        assert(pixels_view(pixels@).take(0) =~= Seq::<(int, int)>::empty());
    }
    while i < pixels.len()
        invariant
            0 <= i <= pixels@.len(),
            canvas_wf(pre) ==> canvas_wf(*img) && painted(pre, *img, pixels_view(pixels@).take(i as int), rgba(*color)),
            !canvas_wf(pre) ==> *img == pre,
        decreases pixels@.len() - i,
    {
        let (x, y) = pixels[i];
        let ghost mid = *img;
        put_pixel(img, x, y, color.clone());
        proof {
            if canvas_wf(pre) {
                let q = (x as int, y as int);
                if !in_bounds(mid, x as int, y as int) {
                    assert(painted(mid, *img, seq![q], rgba(*color)));
                }
                lemma_painted_push(pre, mid, *img, pixels_view(pixels@).take(i as int), q, rgba(*color));
                assert(pixels_view(pixels@).take(i as int).push(q) =~= pixels_view(pixels@).take(i + 1));
            }
        }
        i = i + 1;
    }
    proof {
        assert(pixels_view(pixels@).take(i as int) =~= pixels_view(pixels@));
    }
}

} // verus!
