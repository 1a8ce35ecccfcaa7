use vstd::prelude::*;
use raster::{Color, Image};
use crate::canvas::{canvas_wf, in_bounds, painted, paint, put_pixel, rgba};
use crate::chance::random_in;
use crate::shapes::{
    circle_spec, line_pixels, line_spec, rectangle_spec, triangle_spec, Circle, Line, Point,
    Rectangle, Triangle,
};

verus! {

/// A random opaque color: each channel drawn in `0 ..= 255`.
pub fn random_color() -> (c: Color)
    ensures
        c.a == 255,
{
    let r = random_in(0, 256) as u8;
    let g = random_in(0, 256) as u8;
    let b = random_in(0, 256) as u8;
    Color::rgb(r, g, b)
}

/// `new` is `old` with the pixels `px` painted in one opaque color.
pub open spec fn painted_in_one_color(old: Image, new: Image, px: Seq<(int, int)>) -> bool {
    exists|c: (u8, u8, u8, u8)| c.3 == 255 && #[trigger] painted(old, new, px, c)
}

/// A shape that can be drawn onto an image in a fresh random color.
pub trait Drawable {
    /// The pixels that drawing writes, in order, duplicates included.
    spec fn spec_pixels(&self) -> Seq<(int, int)>;

    /// The shape's pixels can all be computed without leaving `i32`.
    spec fn drawable(&self) -> bool;

    /// Writes every pixel of the shape that lies inside `img`, all in one
    /// random opaque color; an image whose buffer does not match its size is
    /// left as it was.
    fn draw(&self, img: &mut Image)
        requires
            self.drawable(),
        ensures
            canvas_wf(*old(img)) ==> canvas_wf(*final(img))
                && painted_in_one_color(*old(img), *final(img), self.spec_pixels()),
            !canvas_wf(*old(img)) ==> *final(img) == *old(img),
    ;

    /// A random opaque color for this kind of shape.
    fn color() -> (c: Color)
        ensures
            c.a == 255,
    {
        random_color()
    }
}

/// Something that pixels can be written onto.
pub trait Displayable {
    fn display(&mut self, x: i32, y: i32, color: Color);
}

impl Displayable for Image {
    /// Sets the pixel where it lies inside the image; elsewhere nothing changes.
    fn display(&mut self, x: i32, y: i32, color: Color)
        ensures
            canvas_wf(*old(self)) && in_bounds(*old(self), x as int, y as int) ==>
                painted(*old(self), *final(self), seq![(x as int, y as int)], rgba(color)),
            !(canvas_wf(*old(self)) && in_bounds(*old(self), x as int, y as int)) ==> *final(self) == *old(self),
    {
        put_pixel(self, x, y, color)
    }
}

impl Drawable for Point {
    open spec fn spec_pixels(&self) -> Seq<(int, int)> {
        seq![(self.0 as int, self.1 as int)]
    }

    open spec fn drawable(&self) -> bool {
        true
    }

    fn draw(&self, img: &mut Image) {
        let color = Point::color();
        let pixels = vec![(self.0, self.1)];
        paint(img, &pixels, &color);
        proof {
            assert(crate::shapes::pixels_view(pixels@) =~= self.spec_pixels());
        }
    }
}

impl Drawable for Line {
    open spec fn spec_pixels(&self) -> Seq<(int, int)> {
        line_spec(self.0, self.1)
    }

    open spec fn drawable(&self) -> bool {
        true
    }

    fn draw(&self, img: &mut Image) {
        let color = Point::color();
        let pixels = line_pixels(&self.0, &self.1);
        paint(img, &pixels, &color);
    }
}

impl Drawable for Triangle {
    open spec fn spec_pixels(&self) -> Seq<(int, int)> {
        triangle_spec(self.0, self.1, self.2)
    }

    open spec fn drawable(&self) -> bool {
        true
    }

    fn draw(&self, img: &mut Image) {
        let color = Point::color();
        let pixels = self.pixels();
        paint(img, &pixels, &color);
    }
}

impl Drawable for Rectangle {
    open spec fn spec_pixels(&self) -> Seq<(int, int)> {
        rectangle_spec(self.0, self.1)
    }

    open spec fn drawable(&self) -> bool {
        true
    }

    fn draw(&self, img: &mut Image) {
        let color = Point::color();
        let pixels = self.pixels();
        paint(img, &pixels, &color);
    }
}

impl Drawable for Circle {
    open spec fn spec_pixels(&self) -> Seq<(int, int)> {
        circle_spec(*self)
    }

    open spec fn drawable(&self) -> bool {
        self.fits()
    }

    fn draw(&self, img: &mut Image) {
        let color = Circle::color();
        let pixels = self.draw_circle_pixels();
        paint(img, &pixels, &color);
    }
}

} // verus!
