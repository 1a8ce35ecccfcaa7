use vstd::prelude::*;
use raster::Color;
use crate::chance::random_in;
use crate::rounding::{round_div, round_div_exec, lemma_round_div_exact, lemma_round_div_monotone};

verus! {

/// A pixel position with signed integer coordinates.
#[derive(Debug, Clone, Copy, PartialEq, Eq, Structural)]
pub struct Point(pub i32, pub i32);

impl Point {
    pub fn new(v1: i32, v2: i32) -> (p: Point)
        ensures
            p.0 == v1,
            p.1 == v2,
    {
        Point(v1, v2)
    }

    /// The point made from two drawn values, each reduced modulo its bound.
    pub fn from_draws(r1: u32, r2: u32, width: i32, height: i32) -> (p: Point)
        requires
            width > 0,
            height > 0,
        ensures
            p.0 == r1 % (width as u32),
            p.1 == r2 % (height as u32),
            0 <= p.0 < width,
            0 <= p.1 < height,
    {
        Point((r1 % (width as u32)) as i32, (r2 % (height as u32)) as i32)
    }

    /// A point with coordinates drawn in `0 .. width` and `0 .. height`: two
    /// random `u32` values, x first, each reduced modulo its bound.
    pub fn random(width: i32, height: i32) -> (p: Point)
        requires
            width > 0,
            height > 0,
        ensures
            exists|r1: u32, r2: u32| p == #[trigger] Point::spec_from_draws(r1, r2, width, height),
            0 <= p.0 < width,
            0 <= p.1 < height,
    {
        let r1 = rand::random::<u32>();
        let r2 = rand::random::<u32>();
        let p = Point::from_draws(r1, r2, width, height);
        assert(p == Point::spec_from_draws(r1, r2, width, height));
        p
    }

    /// The point that `from_draws` makes.
    pub open spec fn spec_from_draws(r1: u32, r2: u32, width: i32, height: i32) -> Point {
        Point((r1 % (width as u32)) as i32, (r2 % (height as u32)) as i32)
    }

    pub fn x(&self) -> (r: i32)
        ensures
            r == self.0,
    {
        self.0
    }

    pub fn y(&self) -> (r: i32)
        ensures
            r == self.1,
    {
        self.1
    }
}

/// A segment from its first point to its second.
#[derive(Debug, Clone, Copy, PartialEq, Eq, Structural)]
pub struct Line(pub Point, pub Point);

impl Line {
    pub fn new(p1: &Point, p2: &Point) -> (l: Line)
        ensures
            l.0 == *p1,
            l.1 == *p2,
    {
        Line(*p1, *p2)
    }

    /// A segment between two random points of the `width` by `height` area.
    pub fn random(width: i32, height: i32) -> (l: Line)
        requires
            width > 0,
            height > 0,
        ensures
            0 <= l.0.0 < width && 0 <= l.0.1 < height,
            0 <= l.1.0 < width && 0 <= l.1.1 < height,
    {
        Line(Point::random(width, height), Point::random(width, height))
    }

    pub fn start(&self) -> (p: Point)
        ensures
            p == self.0,
    {
        self.0
    }

    pub fn end(&self) -> (p: Point)
        ensures
            p == self.1,
    {
        self.1
    }
}

pub open spec fn abs(v: int) -> int {
    if v < 0 { -v } else { v }
}

/// Pixels plotted for a segment: the larger of the two coordinate spans.
pub open spec fn line_steps(a: Point, b: Point) -> int {
    let sx = abs(b.0 - a.0);
    let sy = abs(b.1 - a.1);
    if sx >= sy { sx } else { sy }
}

/// Coordinate `i` steps along from `a` towards `b`, in `steps` equal steps, rounded.
pub open spec fn line_coord(a: int, b: int, steps: int, i: int) -> int {
    round_div(a * steps + i * (b - a), steps)
}

/// The pixels plotted for the segment from `a` to `b`: position `i` is the start
/// advanced by `i / steps` of the way, rounded to the nearest pixel, for `i` in
/// `0 .. steps`. The end point itself is not plotted; equal points plot nothing.
pub open spec fn line_spec(a: Point, b: Point) -> Seq<(int, int)> {
    let s = line_steps(a, b);
    Seq::new(s as nat, |i: int| (line_coord(a.0 as int, b.0 as int, s, i), line_coord(a.1 as int, b.1 as int, s, i)))
}

/// The integer view of a list of pixels.
pub open spec fn pixels_view(v: Seq<(i32, i32)>) -> Seq<(int, int)> {
    v.map_values(|p: (i32, i32)| (p.0 as int, p.1 as int))
}

/// A coordinate between two integers stays between them once rounded.
pub proof fn lemma_line_coord_between(a: int, b: int, s: int, i: int)
    requires
        s > 0,
        0 <= i <= s,
        abs(b - a) <= s,
    ensures
        a <= b ==> a <= line_coord(a, b, s, i) <= b,
        b < a ==> b <= line_coord(a, b, s, i) <= a,
{
    let n = a * s + i * (b - a);
    lemma_round_div_exact(a, s);
    lemma_round_div_exact(b, s);
    if a <= b {
        assert(a * s <= n <= b * s) by (nonlinear_arith)
            requires n == a * s + i * (b - a), a <= b, 0 <= i <= s;
        lemma_round_div_monotone(a * s, n, s);
        lemma_round_div_monotone(n, b * s, s);
    } else {
        assert(b * s <= n <= a * s) by (nonlinear_arith)
            requires n == a * s + i * (b - a), b < a, 0 <= i <= s;
        lemma_round_div_monotone(b * s, n, s);
        lemma_round_div_monotone(n, a * s, s);
    }
}

fn line_coord_exec(a: i32, b: i32, s: i64, i: i64) -> (r: i32)
    requires
        0 < s <= 0x1_0000_0000,
        0 <= i < s,
        abs(b - a) <= s,
    ensures
        r == line_coord(a as int, b as int, s as int, i as int),
{
    proof {
        let (ai, si, ii, di) = (a as int, s as int, i as int, b - a);
        assert(-0x8000_0000_0000_0000 <= ai * si <= 0x8000_0000_0000_0000) by (nonlinear_arith)
            requires -0x8000_0000 <= ai < 0x8000_0000, 0 < si <= 0x1_0000_0000;
        assert(-0x1_0000_0000_0000_0000 <= ii * di <= 0x1_0000_0000_0000_0000) by (nonlinear_arith)
            requires -0x1_0000_0000 <= di <= 0x1_0000_0000, 0 <= ii < 0x1_0000_0000;
    }
    let d: i128 = b as i128 - a as i128;
    let base: i128 = a as i128 * s as i128;
    let run: i128 = i as i128 * d;
    let q = round_div_exec(base + run, s as i128);
    proof {
        lemma_line_coord_between(a as int, b as int, s as int, i as int);
    }
    q as i32
}

/// Pixels of the segment from `start` to `end`, plotted from `start` onwards.
pub fn line_pixels(start: &Point, end: &Point) -> (r: Vec<(i32, i32)>)
    ensures
        pixels_view(r@) == line_spec(*start, *end),
{
    let dx: i64 = end.0 as i64 - start.0 as i64;
    let dy: i64 = end.1 as i64 - start.1 as i64;
    let ax: i64 = if dx < 0 { -dx } else { dx };
    let ay: i64 = if dy < 0 { -dy } else { dy };
    let steps: i64 = if ax >= ay { ax } else { ay };
    let mut r: Vec<(i32, i32)> = Vec::new();
    let mut i: i64 = 0;
    while i < steps
        invariant
            steps == line_steps(*start, *end),
            0 <= i <= steps,
            steps <= 0x1_0000_0000,
            pixels_view(r@) == line_spec(*start, *end).take(i as int),
        decreases steps - i,
    {
        let x = line_coord_exec(start.0, end.0, steps, i);
        let y = line_coord_exec(start.1, end.1, steps, i);
        let ghost prev = r@;
        r.push((x, y));
        proof {
            assert(pixels_view(r@) =~= pixels_view(prev).push((x as int, y as int)));
            assert(line_spec(*start, *end)[i as int] == (x as int, y as int));
            assert(pixels_view(r@) =~= line_spec(*start, *end).take(i + 1));
        }
        i = i + 1;
    }
    proof {
        assert(line_spec(*start, *end).take(i as int) =~= line_spec(*start, *end));
    }
    r
}

/// A circle by its center and radius.
#[derive(Debug, Clone, Copy, PartialEq, Eq, Structural)]
pub struct Circle {
    pub center: Point,
    pub radius: i32,
}

/// One round of the midpoint circle algorithm on `(x, y, err)`.
pub open spec fn circle_step(x: int, y: int, err: int) -> (int, int, int) {
    let ny = y + 1;
    if err <= 0 {
        (x, ny, err + 2 * ny + 1)
    } else {
        (x - 1, ny, err + 2 * (ny - (x - 1) + 1))
    }
}

/// The offsets `(x, y)` that the algorithm visits from the given state while `x >= y`.
pub open spec fn octant_from(x: int, y: int, err: int) -> Seq<(int, int)>
    decreases x - y + 2,
{
    if x < y {
        Seq::empty()
    } else {
        let t = circle_step(x, y, err);
        seq![(x, y)] + octant_from(t.0, t.1, t.2)
    }
}

/// The offsets visited for radius `r`: one per round, in the first octant.
pub open spec fn octant(r: int) -> Seq<(int, int)> {
    octant_from(r, 0, 0)
}

/// The eight reflections of offset `(x, y)` around `(cx, cy)`, in emission order.
pub open spec fn octuple(cx: int, cy: int, x: int, y: int) -> Seq<(int, int)> {
    seq![
        (cx + x, cy + y),
        (cx + y, cy + x),
        (cx - y, cy + x),
        (cx - x, cy + y),
        (cx - x, cy - y),
        (cx - y, cy - x),
        (cx + y, cy - x),
        (cx + x, cy - y),
    ]
}

/// The pixels emitted from the given state on: each visited offset's eight reflections.
pub open spec fn circle_from(cx: int, cy: int, x: int, y: int, err: int) -> Seq<(int, int)>
    decreases x - y + 2,
{
    if x < y {
        Seq::empty()
    } else {
        let t = circle_step(x, y, err);
        octuple(cx, cy, x, y) + circle_from(cx, cy, t.0, t.1, t.2)
    }
}

/// The pixels emitted for a circle, duplicates included.
pub open spec fn circle_spec(c: Circle) -> Seq<(int, int)> {
    circle_from(c.center.0 as int, c.center.1 as int, c.radius as int, 0, 0)
}

impl Circle {
    pub fn new(center: Point, radius: i32) -> (c: Circle)
        ensures
            c.center == center,
            c.radius == radius,
    {
        Circle { center, radius }
    }

    /// A circle centred at a random point of the `width` by `height` area, with a
    /// radius drawn in `5 .. min(width, height)`.
    pub fn random(width: i32, height: i32) -> (c: Circle)
        requires
            width > 5,
            height > 5,
        ensures
            0 <= c.center.0 < width,
            0 <= c.center.1 < height,
            5 <= c.radius < width,
            c.radius < height,
    {
        let center = Point::random(width, height);
        let max_radius = if width < height { width } else { height };
        let radius = random_in(5, max_radius);
        Circle { center, radius }
    }

    /// Every pixel of the circle lies in the `i32` plane.
    pub open spec fn fits(self) -> bool {
        self.radius < 0 || (
            i32::MIN <= self.center.0 - self.radius && self.center.0 + self.radius <= i32::MAX
            && i32::MIN <= self.center.1 - self.radius && self.center.1 + self.radius <= i32::MAX)
    }

    /// The pixels of the circle by the midpoint algorithm, eight per round.
    pub fn draw_circle_pixels(&self) -> (r: Vec<(i32, i32)>)
        requires
            self.fits(),
        ensures
            pixels_view(r@) == circle_spec(*self),
    {
        let mut pixels: Vec<(i32, i32)> = Vec::new();
        let cx: i64 = self.center.0 as i64;
        let cy: i64 = self.center.1 as i64;
        let r: i64 = self.radius as i64;
        let mut x: i64 = r;
        let mut y: i64 = 0;
        let mut err: i128 = 0;
        while x >= y
            invariant
                self.fits(),
                cx == self.center.0,
                cy == self.center.1,
                r == self.radius,
                x <= r,
                0 <= y,
                y == 0 || y <= x + 2,
                -(y * (2 * r + 6)) <= err <= y * (2 * r + 6),
                pixels_view(pixels@) + circle_from(cx as int, cy as int, x as int, y as int, err as int)
                    == circle_spec(*self),
            decreases x - y + 2,
        {
            proof {
                let (yi, ri) = (y as int, r as int);
                assert(yi * (2 * ri + 6) <= 0x1_0000_0000_0000_0000_0000) by (nonlinear_arith)
                    requires 0 <= yi <= ri, ri <= 0x8000_0000;
            }
            let ghost prev = pixels@;
            let ghost rest = circle_from(cx as int, cy as int, x as int, y as int, err as int);
            pixels.push(((cx + x) as i32, (cy + y) as i32));
            pixels.push(((cx + y) as i32, (cy + x) as i32));
            pixels.push(((cx - y) as i32, (cy + x) as i32));
            pixels.push(((cx - x) as i32, (cy + y) as i32));
            pixels.push(((cx - x) as i32, (cy - y) as i32));
            pixels.push(((cx - y) as i32, (cy - x) as i32));
            pixels.push(((cx + y) as i32, (cy - x) as i32));
            pixels.push(((cx + x) as i32, (cy - y) as i32));
            let ghost t = circle_step(x as int, y as int, err as int);
            proof {
                assert(pixels_view(pixels@) =~= pixels_view(prev) + octuple(cx as int, cy as int, x as int, y as int));
                assert(rest == octuple(cx as int, cy as int, x as int, y as int) + circle_from(cx as int, cy as int, t.0, t.1, t.2));
                assert(pixels_view(pixels@) + circle_from(cx as int, cy as int, t.0, t.1, t.2)
                    =~= pixels_view(prev) + rest);
                assert((y + 1) * (2 * r + 6) == y * (2 * r + 6) + (2 * r + 6)) by (nonlinear_arith);
            }
            y = y + 1;
            if err <= 0 {
                err = err + 2 * (y as i128) + 1;
            } else {
                x = x - 1;
                err = err + 2 * ((y - x + 1) as i128);
            }
        }
        proof {
            assert(pixels_view(pixels@) + Seq::<(int, int)>::empty() =~= pixels_view(pixels@));
        }
        pixels
    }
}

/// Three corners, with a stored color that drawing does not use.
#[derive(Debug, Clone)]
pub struct Triangle(pub Point, pub Point, pub Point, pub Color);

impl Triangle {
    pub fn new(p1: &Point, p2: &Point, p3: &Point) -> (t: Triangle)
        ensures
            t.0 == *p1,
            t.1 == *p2,
            t.2 == *p3,
            t.3.r == 255 && t.3.g == 255 && t.3.b == 255 && t.3.a == 255,
    {
        Triangle(*p1, *p2, *p3, Color::rgb(255, 255, 255))
    }

    /// The outline: the edges from the first corner to the second, the second
    /// to the third and the third back to the first, in that order.
    pub fn pixels(&self) -> (r: Vec<(i32, i32)>)
        ensures
            pixels_view(r@) == triangle_spec(self.0, self.1, self.2),
    {
        let mut r = line_pixels(&self.0, &self.1);
        let mut e2 = line_pixels(&self.1, &self.2);
        let mut e3 = line_pixels(&self.2, &self.0);
        let ghost (v1, v2, v3) = (r@, e2@, e3@);
        r.append(&mut e2);
        r.append(&mut e3);
        proof {
            assert(pixels_view(r@) =~= pixels_view(v1) + pixels_view(v2) + pixels_view(v3));
        }
        r
    }
}

pub open spec fn triangle_spec(a: Point, b: Point, c: Point) -> Seq<(int, int)> {
    line_spec(a, b) + line_spec(b, c) + line_spec(c, a)
}

/// A rectangle by two opposite corners, in any order.
#[derive(Debug, Clone, Copy, PartialEq, Eq, Structural)]
pub struct Rectangle(pub Point, pub Point);

/// The corner that takes its x from `p` and its y from `q`.
pub open spec fn mixed_corner(p: Point, q: Point) -> Point {
    Point(p.0, q.1)
}

pub open spec fn rectangle_spec(a: Point, b: Point) -> Seq<(int, int)> {
    let top_right = mixed_corner(b, a);
    let bottom_left = mixed_corner(a, b);
    line_spec(a, top_right) + line_spec(top_right, b) + line_spec(b, bottom_left) + line_spec(bottom_left, a)
}

impl Rectangle {
    pub fn new(p1: &Point, p2: &Point) -> (r: Rectangle)
        ensures
            r.0 == *p1,
            r.1 == *p2,
    {
        Rectangle(*p1, *p2)
    }

    /// The two derived corners: the x of the second corner with the y of the
    /// first, then the x of the first with the y of the second.
    pub fn other_corners(&self) -> (r: (Point, Point))
        ensures
            r.0 == mixed_corner(self.1, self.0),
            r.1 == mixed_corner(self.0, self.1),
    {
        (Point::new(self.1.0, self.0.1), Point::new(self.0.0, self.1.1))
    }

    /// The outline: from the first corner to the derived one beside it, on to
    /// the second corner, to the other derived corner and back to the first.
    pub fn pixels(&self) -> (r: Vec<(i32, i32)>)
        ensures
            pixels_view(r@) == rectangle_spec(self.0, self.1),
    {
        let (top_right, bottom_left) = self.other_corners();
        let mut r = line_pixels(&self.0, &top_right);
        let mut e2 = line_pixels(&top_right, &self.1);
        let mut e3 = line_pixels(&self.1, &bottom_left);
        let mut e4 = line_pixels(&bottom_left, &self.0);
        let ghost (v1, v2, v3, v4) = (r@, e2@, e3@, e4@);
        r.append(&mut e2);
        r.append(&mut e3);
        r.append(&mut e4);
        proof {
            assert(pixels_view(r@) =~= pixels_view(v1) + pixels_view(v2) + pixels_view(v3) + pixels_view(v4));
        }
        r
    }
}

} // verus!
