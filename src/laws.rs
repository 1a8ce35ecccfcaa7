use vstd::prelude::*;
use crate::rounding::{
    lemma_round_div_exact, lemma_round_div_monotone, lemma_round_div_small_step,
};
use crate::shapes::{
    abs, circle_from, circle_spec, circle_step, line_coord, line_spec, line_steps, octant,
    octant_from, octuple, rectangle_spec, triangle_spec, mixed_corner, Circle, Point,
};

verus! {

/// The first pixel of a segment is its start point.
proof fn lemma_coord_first(a: int, b: int, s: int)
    requires
        s > 0,
    ensures
        line_coord(a, b, s, 0) == a,
{
    assert(a * s + 0 * (b - a) == a * s);
    lemma_round_div_exact(a, s);
}

/// The last pixel of a segment is within one unit of its end point.
proof fn lemma_coord_last(a: int, b: int, s: int)
    requires
        s > 0,
        abs(b - a) <= s,
    ensures
        abs(line_coord(a, b, s, s - 1) - b) <= 1,
{
    let n = a * s + (s - 1) * (b - a);
    assert(n == b * s - (b - a)) by (nonlinear_arith)
        requires n == a * s + (s - 1) * (b - a);
    lemma_round_div_exact(b, s);
    lemma_round_div_exact(b - 1, s);
    lemma_round_div_exact(b + 1, s);
    assert((b - 1) * s == b * s - s && (b + 1) * s == b * s + s) by (nonlinear_arith);
    if b >= a {
        lemma_round_div_monotone((b - 1) * s, n, s);
        lemma_round_div_monotone(n, b * s, s);
    } else {
        lemma_round_div_monotone(b * s, n, s);
        lemma_round_div_monotone(n, (b + 1) * s, s);
    }
}

/// Consecutive pixels of a segment differ by at most one in a coordinate.
proof fn lemma_coord_step(a: int, b: int, s: int, i: int)
    requires
        s > 0,
        abs(b - a) <= s,
        0 <= i,
    ensures
        abs(line_coord(a, b, s, i + 1) - line_coord(a, b, s, i)) <= 1,
{
    let n = a * s + i * (b - a);
    let m = a * s + (i + 1) * (b - a);
    assert(m == n + (b - a)) by (nonlinear_arith)
        requires n == a * s + i * (b - a), m == a * s + (i + 1) * (b - a);
    if abs(b - a) < s {
        if b >= a {
            lemma_round_div_small_step(n, b - a, s);
        } else {
            lemma_round_div_small_step(m, a - b, s);
        }
    } else {
        let k = if b >= a { a + i } else { a - i };
        assert(n == k * s) by (nonlinear_arith)
            requires n == a * s + i * (b - a), k == if b >= a { a + i } else { a - i }, abs(b - a) == s;
        let k2 = if b >= a { k + 1 } else { k - 1 };
        assert(m == k2 * s) by (nonlinear_arith)
            requires m == n + (b - a), n == k * s, k2 == if b >= a { k + 1 } else { k - 1 }, abs(b - a) == s;
        lemma_round_div_exact(k, s);
        lemma_round_div_exact(k2, s);
    }
}

/// A segment between two distinct points starts at its first point, and its
/// last pixel lies within one unit of its second point on both axes.
pub proof fn line_endpoints(a: Point, b: Point)
    requires
        a != b,
    ensures
        line_spec(a, b).len() > 0,
        line_spec(a, b)[0] == (a.0 as int, a.1 as int),
        abs(line_spec(a, b).last().0 - b.0) <= 1,
        abs(line_spec(a, b).last().1 - b.1) <= 1,
{
    let s = line_steps(a, b);
    lemma_coord_first(a.0 as int, b.0 as int, s);
    lemma_coord_first(a.1 as int, b.1 as int, s);
    lemma_coord_last(a.0 as int, b.0 as int, s);
    lemma_coord_last(a.1 as int, b.1 as int, s);
}

/// Consecutive pixels of a segment are neighbours: no coordinate jumps by more
/// than one.
pub proof fn line_connected(a: Point, b: Point, i: int)
    requires
        0 <= i < line_spec(a, b).len() - 1,
    ensures
        abs(line_spec(a, b)[i + 1].0 - line_spec(a, b)[i].0) <= 1,
        abs(line_spec(a, b)[i + 1].1 - line_spec(a, b)[i].1) <= 1,
{
    let s = line_steps(a, b);
    lemma_coord_step(a.0 as int, b.0 as int, s, i);
    lemma_coord_step(a.1 as int, b.1 as int, s, i);
}

/// A segment whose two points coincide plots no pixel.
pub proof fn line_degenerate(a: Point)
    ensures
        line_spec(a, a).len() == 0,
{
}

/// The emitted pixels are the visited offsets' reflections, eight per offset, in order.
proof fn lemma_circle_layout(cx: int, cy: int, x: int, y: int, e: int)
    ensures
        circle_from(cx, cy, x, y, e).len() == 8 * octant_from(x, y, e).len(),
        forall|j: int, k: int| 0 <= j < octant_from(x, y, e).len() && 0 <= k < 8 ==>
            circle_from(cx, cy, x, y, e)[8 * j + k]
                == #[trigger] octuple(cx, cy, octant_from(x, y, e)[j].0, octant_from(x, y, e)[j].1)[k],
    decreases x - y + 2,
{
    if x >= y {
        let t = circle_step(x, y, e);
        lemma_circle_layout(cx, cy, t.0, t.1, t.2);
        let head = octuple(cx, cy, x, y);
        let tail = circle_from(cx, cy, t.0, t.1, t.2);
        let oct = octant_from(x, y, e);
        let otail = octant_from(t.0, t.1, t.2);
        assert(oct == seq![(x, y)] + otail);
        assert forall|j: int, k: int| 0 <= j < oct.len() && 0 <= k < 8 implies
            circle_from(cx, cy, x, y, e)[8 * j + k] == #[trigger] octuple(cx, cy, oct[j].0, oct[j].1)[k]
        by {
            if j == 0 {
                assert(oct[0] == (x, y));
            } else {
                assert(oct[j] == otail[j - 1]);
                assert(8 * j + k == 8 + (8 * (j - 1) + k));
                assert(octuple(cx, cy, otail[j - 1].0, otail[j - 1].1)[k] == tail[8 * (j - 1) + k]);
            }
        }
    }
}

/// Each visited offset `(a, b)` satisfies `b <= a <= x`, and the `j`-th has `b == y + j`.
proof fn lemma_octant_shape(x: int, y: int, e: int)
    ensures
        forall|j: int| 0 <= j < octant_from(x, y, e).len() ==>
            (#[trigger] octant_from(x, y, e)[j]).1 == y + j
                && octant_from(x, y, e)[j].1 <= octant_from(x, y, e)[j].0 <= x,
    decreases x - y + 2,
{
    if x >= y {
        let t = circle_step(x, y, e);
        lemma_octant_shape(t.0, t.1, t.2);
        let oct = octant_from(x, y, e);
        let otail = octant_from(t.0, t.1, t.2);
        assert forall|j: int| 0 <= j < oct.len() implies
            (#[trigger] oct[j]).1 == y + j && oct[j].1 <= oct[j].0 <= x
        by {
            if j > 0 {
                assert(oct[j] == otail[j - 1]);
            }
        }
    }
}

/// For every offset `(a, b)` that the algorithm visits, all eight points
/// `(cx ± a, cy ± b)` and `(cx ± b, cy ± a)` are drawn.
pub proof fn circle_symmetric(c: Circle, j: int)
    requires
        0 <= j < octant(c.radius as int).len(),
    ensures
        ({
            let (cx, cy) = (c.center.0 as int, c.center.1 as int);
            let (a, b) = octant(c.radius as int)[j];
            let px = circle_spec(c);
            &&& px.contains((cx + a, cy + b)) && px.contains((cx + a, cy - b))
            &&& px.contains((cx - a, cy + b)) && px.contains((cx - a, cy - b))
            &&& px.contains((cx + b, cy + a)) && px.contains((cx + b, cy - a))
            &&& px.contains((cx - b, cy + a)) && px.contains((cx - b, cy - a))
        }),
{
    let (cx, cy) = (c.center.0 as int, c.center.1 as int);
    let r = c.radius as int;
    lemma_circle_layout(cx, cy, r, 0, 0);
    let (a, b) = octant(r)[j];
    let px = circle_spec(c);
    let o = octuple(cx, cy, a, b);
    assert forall|k: int| 0 <= k < 8 implies px.contains(#[trigger] o[k]) by {
        assert(px[8 * j + k] == o[k]);
    }
    assert(o[0] == (cx + a, cy + b));
    assert(o[1] == (cx + b, cy + a));
    assert(o[2] == (cx - b, cy + a));
    assert(o[3] == (cx - a, cy + b));
    assert(o[4] == (cx - a, cy - b));
    assert(o[5] == (cx - b, cy - a));
    assert(o[6] == (cx + b, cy - a));
    assert(o[7] == (cx + a, cy - b));
}

/// Every offset `(a, b)` visited from a state whose error term is
/// `(x - 1)^2 + (y + 1)^2 - (r - 1)^2 - 1` stays near the circle of radius
/// `r - 1` around `(1, 0)`: `(a - 1)^2 + b^2 <= (r - 1)^2 + 1`.
proof fn lemma_octant_near_circle(x: int, y: int, e: int, r: int)
    requires
        e == (x - 1) * (x - 1) + (y + 1) * (y + 1) - (r - 1) * (r - 1) - 1,
        x >= y ==> (x - 1) * (x - 1) + y * y <= (r - 1) * (r - 1) + 1,
    ensures
        forall|j: int| 0 <= j < octant_from(x, y, e).len() ==>
            ((#[trigger] octant_from(x, y, e)[j]).0 - 1) * (octant_from(x, y, e)[j].0 - 1)
                + octant_from(x, y, e)[j].1 * octant_from(x, y, e)[j].1 <= (r - 1) * (r - 1) + 1,
    decreases x - y + 2,
{
    if x >= y {
        let t = circle_step(x, y, e);
        if e <= 0 {
            assert(t.2 == (t.0 - 1) * (t.0 - 1) + (t.1 + 1) * (t.1 + 1) - (r - 1) * (r - 1) - 1) by (nonlinear_arith)
                requires t.0 == x, t.1 == y + 1, t.2 == e + 2 * (y + 1) + 1,
                    e == (x - 1) * (x - 1) + (y + 1) * (y + 1) - (r - 1) * (r - 1) - 1;
        } else {
            assert(t.2 == (t.0 - 1) * (t.0 - 1) + (t.1 + 1) * (t.1 + 1) - (r - 1) * (r - 1) - 1) by (nonlinear_arith)
                requires t.0 == x - 1, t.1 == y + 1, t.2 == e + 2 * ((y + 1) - (x - 1) + 1),
                    e == (x - 1) * (x - 1) + (y + 1) * (y + 1) - (r - 1) * (r - 1) - 1;
            if t.0 >= t.1 {
                assert((t.0 - 1) * (t.0 - 1) + t.1 * t.1 <= (r - 1) * (r - 1) + 1) by (nonlinear_arith)
                    requires t.0 == x - 1, t.1 == y + 1, x >= y + 2,
                        (x - 1) * (x - 1) + y * y <= (r - 1) * (r - 1) + 1,
                        e == (x - 1) * (x - 1) + (y + 1) * (y + 1) - (r - 1) * (r - 1) - 1;
            }
        }
        lemma_octant_near_circle(t.0, t.1, t.2, r);
        let oct = octant_from(x, y, e);
        let otail = octant_from(t.0, t.1, t.2);
        assert forall|j: int| 0 <= j < oct.len() implies
            ((#[trigger] oct[j]).0 - 1) * (oct[j].0 - 1) + oct[j].1 * oct[j].1 <= (r - 1) * (r - 1) + 1
        by {
            if j > 0 {
                assert(oct[j] == otail[j - 1]);
            }
        }
    }
}

/// A circle emits eight pixels per round. For a radius `r >= 0` other than 1 it
/// runs at most `r / sqrt(2) + 1` rounds (`2 * (rounds - 1)^2 <= r^2`), so it
/// emits at most `8 * (r / sqrt(2) + 1)` pixels; radius 1 runs two rounds. A
/// negative radius emits nothing.
pub proof fn circle_size(c: Circle)
    ensures
        circle_spec(c).len() == 8 * octant(c.radius as int).len(),
        c.radius >= 0 ==> octant(c.radius as int).len() <= c.radius + 1,
        c.radius >= 0 && c.radius != 1 ==> 2 * (octant(c.radius as int).len() - 1)
            * (octant(c.radius as int).len() - 1) <= c.radius * c.radius,
        c.radius < 0 ==> circle_spec(c).len() == 0,
{
    let r = c.radius as int;
    lemma_circle_layout(c.center.0 as int, c.center.1 as int, r, 0, 0);
    lemma_octant_shape(r, 0, 0);
    assert(0 == (r - 1) * (r - 1) + (0 + 1) * (0 + 1) - (r - 1) * (r - 1) - 1) by (nonlinear_arith);
    lemma_octant_near_circle(r, 0, 0, r);
    let oct = octant(r);
    if oct.len() > 0 {
        let (a, b) = oct[oct.len() - 1];
        assert(b == oct.len() - 1);
        if r >= 0 && r != 1 {
            assert(2 * b * b <= r * r) by (nonlinear_arith)
                requires 0 <= b <= a <= r, r != 1, (a - 1) * (a - 1) + b * b <= (r - 1) * (r - 1) + 1;
        }
    }
}

pub open spec fn at(p: Point) -> (int, int) {
    (p.0 as int, p.1 as int)
}

/// A segment between distinct points plots its start point.
proof fn lemma_line_has_start(a: Point, b: Point)
    requires
        a != b,
    ensures
        line_spec(a, b).contains(at(a)),
{
    line_endpoints(a, b);
    assert(line_spec(a, b)[0] == at(a));
}

/// Drawing the edges of a triangle visits each of its three corners, unless
/// all three coincide.
pub proof fn triangle_closed(a: Point, b: Point, c: Point)
    requires
        !(a == b && b == c),
    ensures
        triangle_spec(a, b, c).contains(at(a)),
        triangle_spec(a, b, c).contains(at(b)),
        triangle_spec(a, b, c).contains(at(c)),
{
    let (e1, e2, e3) = (line_spec(a, b), line_spec(b, c), line_spec(c, a));
    let all = triangle_spec(a, b, c);
    assert(all == e1 + e2 + e3);
    assert forall|p: (int, int)| e1.contains(p) implies all.contains(p) by {
        let j = choose|j: int| 0 <= j < e1.len() && e1[j] == p;
        assert(all[j] == p);
    }
    assert forall|p: (int, int)| e2.contains(p) implies all.contains(p) by {
        let j = choose|j: int| 0 <= j < e2.len() && e2[j] == p;
        assert(all[e1.len() + j] == p);
    }
    assert forall|p: (int, int)| e3.contains(p) implies all.contains(p) by {
        let j = choose|j: int| 0 <= j < e3.len() && e3[j] == p;
        assert(all[e1.len() + e2.len() + j] == p);
    }
    if a != b { lemma_line_has_start(a, b); }
    if b != c { lemma_line_has_start(b, c); }
    if c != a { lemma_line_has_start(c, a); }
}

/// Drawing a rectangle visits its two given corners and the two derived ones,
/// unless the given corners coincide.
pub proof fn rectangle_closed(a: Point, b: Point)
    requires
        a != b,
    ensures
        rectangle_spec(a, b).contains(at(a)),
        rectangle_spec(a, b).contains(at(mixed_corner(b, a))),
        rectangle_spec(a, b).contains(at(b)),
        rectangle_spec(a, b).contains(at(mixed_corner(a, b))),
{
    let tr = mixed_corner(b, a);
    let bl = mixed_corner(a, b);
    let (e1, e2, e3, e4) = (line_spec(a, tr), line_spec(tr, b), line_spec(b, bl), line_spec(bl, a));
    let all = rectangle_spec(a, b);
    assert(all == e1 + e2 + e3 + e4);
    assert forall|p: (int, int)| e1.contains(p) implies all.contains(p) by {
        let j = choose|j: int| 0 <= j < e1.len() && e1[j] == p;
        assert(all[j] == p);
    }
    assert forall|p: (int, int)| e2.contains(p) implies all.contains(p) by {
        let j = choose|j: int| 0 <= j < e2.len() && e2[j] == p;
        assert(all[e1.len() + j] == p);
    }
    assert forall|p: (int, int)| e3.contains(p) implies all.contains(p) by {
        let j = choose|j: int| 0 <= j < e3.len() && e3[j] == p;
        assert(all[e1.len() + e2.len() + j] == p);
    }
    assert forall|p: (int, int)| e4.contains(p) implies all.contains(p) by {
        let j = choose|j: int| 0 <= j < e4.len() && e4[j] == p;
        assert(all[e1.len() + e2.len() + e3.len() + j] == p);
    }
    if a != tr { lemma_line_has_start(a, tr); }
    if tr != b { lemma_line_has_start(tr, b); }
    if b != bl { lemma_line_has_start(b, bl); }
    if bl != a { lemma_line_has_start(bl, a); }
}

/// Two pixels touch, sideways or diagonally (or coincide).
pub open spec fn neighbours(p: (int, int), q: (int, int)) -> bool {
    abs(p.0 - q.0) <= 1 && abs(p.1 - q.1) <= 1
}

/// Two pixels share a side.
pub open spec fn side_by_side(p: (int, int), q: (int, int)) -> bool {
    abs(p.0 - q.0) + abs(p.1 - q.1) == 1
}

/// `p` and `q` share a side when `sides` holds, else touch at least at a corner.
pub open spec fn touch(p: (int, int), q: (int, int), sides: bool) -> bool {
    if sides { side_by_side(p, q) } else { neighbours(p, q) }
}

/// `px` is a path of touching pixels that leads from `from` to one touching
/// `to`; an empty path leads nowhere, so `from` is `to`.
pub open spec fn linked(px: Seq<(int, int)>, from: (int, int), to: (int, int), sides: bool) -> bool {
    if px.len() == 0 {
        from == to
    } else {
        &&& px[0] == from
        &&& touch(px.last(), to, sides)
        &&& forall|i: int| 0 <= i < px.len() - 1 ==> touch(#[trigger] px[i], px[i + 1], sides)
    }
}

proof fn lemma_line_linked(a: Point, b: Point)
    ensures
        linked(line_spec(a, b), at(a), at(b), false),
{
    if a != b {
        line_endpoints(a, b);
        assert forall|i: int| 0 <= i < line_spec(a, b).len() - 1 implies
            touch(#[trigger] line_spec(a, b)[i], line_spec(a, b)[i + 1], false)
        by {
            line_connected(a, b, i);
        }
    } else {
        line_degenerate(a);
    }
}

proof fn lemma_linked_join(x: Seq<(int, int)>, y: Seq<(int, int)>, p: (int, int), q: (int, int), r: (int, int), sides: bool)
    requires
        linked(x, p, q, sides),
        linked(y, q, r, sides),
    ensures
        linked(x + y, p, r, sides),
{
    if x.len() == 0 {
        assert(x + y =~= y);
    } else if y.len() == 0 {
        assert(x + y =~= x);
    } else {
        let z = x + y;
        assert(z[0] == x[0]);
        assert(z.last() == y.last());
        assert forall|i: int| 0 <= i < z.len() - 1 implies touch(#[trigger] z[i], z[i + 1], sides) by {
            if i < x.len() - 1 {
                assert(z[i] == x[i] && z[i + 1] == x[i + 1]);
            } else if i == x.len() - 1 {
                assert(z[i] == x.last() && z[i + 1] == y[0]);
            } else {
                assert(z[i] == y[i - x.len()] && z[i + 1] == y[i - x.len() + 1]);
            }
        }
    }
}

/// A path that leads back to its start closes into a loop of touching pixels.
proof fn lemma_linked_loop(px: Seq<(int, int)>, p: (int, int), sides: bool)
    requires
        linked(px, p, p, sides),
        px.len() > 0,
    ensures
        forall|i: int| 0 <= i < px.len() ==> touch(#[trigger] px[i], px[(i + 1) % (px.len() as int)], sides),
{
    assert forall|i: int| 0 <= i < px.len() implies touch(#[trigger] px[i], px[(i + 1) % (px.len() as int)], sides) by {
        if i < px.len() - 1 {
            assert((i + 1) % (px.len() as int) == i + 1) by (nonlinear_arith)
                requires 0 <= i + 1 < px.len();
        } else {
            assert((i + 1) % (px.len() as int) == 0) by (nonlinear_arith)
                requires i + 1 == px.len(), px.len() > 0;
        }
    }
}

/// The outline of a triangle whose corners do not all coincide is one closed
/// loop: each pixel touches the next, and the last touches the first.
pub proof fn triangle_loop(a: Point, b: Point, c: Point)
    requires
        !(a == b && b == c),
    ensures
        triangle_spec(a, b, c).len() > 0,
        forall|i: int| 0 <= i < triangle_spec(a, b, c).len() ==> neighbours(
            #[trigger] triangle_spec(a, b, c)[i],
            triangle_spec(a, b, c)[(i + 1) % (triangle_spec(a, b, c).len() as int)],
        ),
{
    triangle_closed(a, b, c);
    lemma_line_linked(a, b);
    lemma_line_linked(b, c);
    lemma_line_linked(c, a);
    lemma_linked_join(line_spec(a, b), line_spec(b, c), at(a), at(b), at(c), false);
    lemma_linked_join(line_spec(a, b) + line_spec(b, c), line_spec(c, a), at(a), at(c), at(a), false);
    lemma_linked_loop(triangle_spec(a, b, c), at(a), false);
}

/// The outline of a rectangle whose given corners differ is one closed loop:
/// each pixel touches the next, and the last touches the first.
pub proof fn rectangle_loop(a: Point, b: Point)
    requires
        a != b,
    ensures
        rectangle_spec(a, b).len() > 0,
        forall|i: int| 0 <= i < rectangle_spec(a, b).len() ==> neighbours(
            #[trigger] rectangle_spec(a, b)[i],
            rectangle_spec(a, b)[(i + 1) % (rectangle_spec(a, b).len() as int)],
        ),
{
    let tr = mixed_corner(b, a);
    let bl = mixed_corner(a, b);
    rectangle_closed(a, b);
    lemma_line_linked(a, tr);
    lemma_line_linked(tr, b);
    lemma_line_linked(b, bl);
    lemma_line_linked(bl, a);
    let (e1, e2, e3, e4) = (line_spec(a, tr), line_spec(tr, b), line_spec(b, bl), line_spec(bl, a));
    lemma_linked_join(e1, e2, at(a), at(tr), at(b), false);
    lemma_linked_join(e1 + e2, e3, at(a), at(b), at(bl), false);
    lemma_linked_join(e1 + e2 + e3, e4, at(a), at(bl), at(a), false);
    lemma_linked_loop(rectangle_spec(a, b), at(a), false);
}

/// `i` steps from `a` towards `b`.
pub open spec fn toward(a: int, b: int, i: int) -> int {
    if b >= a { a + i } else { a - i }
}

/// A segment along one axis moves one pixel along it per step and keeps the
/// other coordinate.
proof fn lemma_axis_line(a: Point, b: Point)
    requires
        a.0 == b.0 || a.1 == b.1,
    ensures
        a.1 == b.1 ==> line_spec(a, b).len() == abs(b.0 - a.0) && forall|i: int| 0 <= i < line_spec(a, b).len()
            ==> #[trigger] line_spec(a, b)[i] == (toward(a.0 as int, b.0 as int, i), a.1 as int),
        a.0 == b.0 ==> line_spec(a, b).len() == abs(b.1 - a.1) && forall|i: int| 0 <= i < line_spec(a, b).len()
            ==> #[trigger] line_spec(a, b)[i] == (a.0 as int, toward(a.1 as int, b.1 as int, i)),
{
    let s = line_steps(a, b);
    assert forall|i: int| 0 <= i < line_spec(a, b).len() implies #[trigger] line_spec(a, b)[i] == (
        if a.1 == b.1 { toward(a.0 as int, b.0 as int, i) } else { a.0 as int },
        if a.1 == b.1 { a.1 as int } else { toward(a.1 as int, b.1 as int, i) },
    ) by {
        let (ax, ay, bx, by) = (a.0 as int, a.1 as int, b.0 as int, b.1 as int);
        if a.1 == b.1 {
            let k = toward(ax, bx, i);
            assert(ax * s + i * (bx - ax) == k * s) by (nonlinear_arith)
                requires k == (if bx >= ax { ax + i } else { ax - i }), s == abs(bx - ax);
            lemma_round_div_exact(k, s);
            assert(ay * s + i * (by - ay) == ay * s) by (nonlinear_arith)
                requires by == ay;
            lemma_round_div_exact(ay, s);
        } else {
            let k = toward(ay, by, i);
            assert(ay * s + i * (by - ay) == k * s) by (nonlinear_arith)
                requires k == (if by >= ay { ay + i } else { ay - i }), s == abs(by - ay);
            lemma_round_div_exact(k, s);
            assert(ax * s + i * (bx - ax) == ax * s) by (nonlinear_arith)
                requires bx == ax;
            lemma_round_div_exact(ax, s);
        }
    }
}

/// An axis-parallel segment is a path of pixels that share sides.
proof fn lemma_axis_linked(a: Point, b: Point)
    requires
        a.0 == b.0 || a.1 == b.1,
    ensures
        linked(line_spec(a, b), at(a), at(b), true),
{
    lemma_axis_line(a, b);
    let px = line_spec(a, b);
    if px.len() > 0 {
        assert(px[0] == at(a));
        assert(px.last() == px[px.len() - 1]);
        assert(touch(px.last(), at(b), true));
        assert forall|i: int| 0 <= i < px.len() - 1 implies touch(#[trigger] px[i], px[i + 1], true) by {
        }
    }
}

/// The four edges of a rectangle, joined in drawing order, form a closed path of
/// pixels that share sides, as long as the two corners differ in both coordinates.
proof fn lemma_rectangle_linked(a: Point, b: Point)
    requires
        a.0 != b.0,
        a.1 != b.1,
    ensures
        linked(rectangle_spec(a, b), at(a), at(a), true),
        rectangle_spec(a, b).len() == 2 * abs(b.0 - a.0) + 2 * abs(b.1 - a.1),
{
    let tr = mixed_corner(b, a);
    let bl = mixed_corner(a, b);
    lemma_axis_linked(a, tr);
    lemma_axis_linked(tr, b);
    lemma_axis_linked(b, bl);
    lemma_axis_linked(bl, a);
    lemma_axis_line(a, tr);
    lemma_axis_line(tr, b);
    lemma_axis_line(b, bl);
    lemma_axis_line(bl, a);
    let (e1, e2, e3, e4) = (line_spec(a, tr), line_spec(tr, b), line_spec(b, bl), line_spec(bl, a));
    lemma_linked_join(e1, e2, at(a), at(tr), at(b), true);
    lemma_linked_join(e1 + e2, e3, at(a), at(b), at(bl), true);
    lemma_linked_join(e1 + e2 + e3, e4, at(a), at(bl), at(a), true);
}

/// A rectangle whose corners differ in both coordinates is drawn as
/// `2 * |dx| + 2 * |dy|` pixels forming one closed loop in which each pixel
/// shares a side with the next, and the last with the first.
pub proof fn rectangle_outline(a: Point, b: Point)
    requires
        a.0 != b.0,
        a.1 != b.1,
    ensures
        rectangle_spec(a, b).len() == 2 * abs(b.0 - a.0) + 2 * abs(b.1 - a.1),
        forall|i: int| 0 <= i < rectangle_spec(a, b).len() ==> side_by_side(
            #[trigger] rectangle_spec(a, b)[i],
            rectangle_spec(a, b)[(i + 1) % (rectangle_spec(a, b).len() as int)],
        ),
{
    lemma_rectangle_linked(a, b);
    lemma_linked_loop(rectangle_spec(a, b), at(a), true);
    let px = rectangle_spec(a, b);
    assert forall|i: int| 0 <= i < px.len() implies side_by_side(#[trigger] px[i], px[(i + 1) % (px.len() as int)]) by {
        assert(touch(px[i], px[(i + 1) % (px.len() as int)], true));
    }
}

proof fn lemma_concat_contains(x: Seq<(int, int)>, y: Seq<(int, int)>, p: (int, int))
    ensures
        (x + y).contains(p) <==> x.contains(p) || y.contains(p),
{
    if x.contains(p) {
        let j = choose|j: int| 0 <= j < x.len() && x[j] == p;
        assert((x + y)[j] == p);
    }
    if y.contains(p) {
        let j = choose|j: int| 0 <= j < y.len() && y[j] == p;
        assert((x + y)[x.len() + j] == p);
    }
    if (x + y).contains(p) {
        let j = choose|j: int| 0 <= j < (x + y).len() && (x + y)[j] == p;
        if j < x.len() {
            assert(x[j] == p);
        } else {
            assert(y[j - x.len()] == p);
        }
    }
}

/// `v` lies between `a` and `b`, either included.
pub open spec fn between(v: int, a: int, b: int) -> bool {
    (a <= v && v <= b) || (b <= v && v <= a)
}

/// `p` lies on the border of the rectangle with opposite corners `a` and `b`.
pub open spec fn on_outline(a: Point, b: Point, p: (int, int)) -> bool {
    &&& between(p.0, a.0 as int, b.0 as int)
    &&& between(p.1, a.1 as int, b.1 as int)
    &&& (p.0 == a.0 || p.0 == b.0 || p.1 == a.1 || p.1 == b.1)
}

/// An axis-parallel segment holds exactly the pixels from its start up to,
/// but not including, its end.
proof fn lemma_axis_contains(a: Point, b: Point, p: (int, int))
    requires
        a.0 == b.0 || a.1 == b.1,
        a != b,
    ensures
        a.1 == b.1 ==> (line_spec(a, b).contains(p) <==>
            p.1 == a.1 && between(p.0, a.0 as int, b.0 as int) && p.0 != b.0),
        a.0 == b.0 ==> (line_spec(a, b).contains(p) <==>
            p.0 == a.0 && between(p.1, a.1 as int, b.1 as int) && p.1 != b.1),
{
    lemma_axis_line(a, b);
    let px = line_spec(a, b);
    if a.1 == b.1 {
        if p.1 == a.1 && between(p.0, a.0 as int, b.0 as int) && p.0 != b.0 {
            let i = abs(p.0 - a.0);
            assert(px[i] == p);
        }
    } else {
        if p.0 == a.0 && between(p.1, a.1 as int, b.1 as int) && p.1 != b.1 {
            let i = abs(p.1 - a.1);
            assert(px[i] == p);
        }
    }
}

/// A rectangle whose corners differ in both coordinates is drawn over exactly
/// the pixels of its border.
pub proof fn rectangle_outline_pixels(a: Point, b: Point, p: (int, int))
    requires
        a.0 != b.0,
        a.1 != b.1,
    ensures
        rectangle_spec(a, b).contains(p) <==> on_outline(a, b, p),
{
    let tr = mixed_corner(b, a);
    let bl = mixed_corner(a, b);
    let (e1, e2, e3, e4) = (line_spec(a, tr), line_spec(tr, b), line_spec(b, bl), line_spec(bl, a));
    lemma_concat_contains(e1, e2, p);
    lemma_concat_contains(e1 + e2, e3, p);
    lemma_concat_contains(e1 + e2 + e3, e4, p);
    lemma_axis_contains(a, tr, p);
    lemma_axis_contains(tr, b, p);
    lemma_axis_contains(b, bl, p);
    lemma_axis_contains(bl, a, p);
}

/// Each round raises `y` by one and lowers `x` by at most one.
proof fn lemma_octant_steps(x: int, y: int, e: int)
    ensures
        forall|j: int| 0 <= j < octant_from(x, y, e).len() - 1 ==> {
            let (p, q) = (#[trigger] octant_from(x, y, e)[j], octant_from(x, y, e)[j + 1]);
            q.1 == p.1 + 1 && (q.0 == p.0 || q.0 == p.0 - 1)
        },
    decreases x - y + 2,
{
    if x >= y {
        let t = circle_step(x, y, e);
        lemma_octant_steps(t.0, t.1, t.2);
        let oct = octant_from(x, y, e);
        let otail = octant_from(t.0, t.1, t.2);
        assert forall|j: int| 0 <= j < oct.len() - 1 implies {
            let (p, q) = (#[trigger] oct[j], oct[j + 1]);
            q.1 == p.1 + 1 && (q.0 == p.0 || q.0 == p.0 - 1)
        } by {
            assert(oct[j + 1] == otail[j]);
            if j == 0 {
                assert(oct[0] == (x, y));
                assert(otail[0] == (t.0, t.1));
            } else {
                assert(oct[j] == otail[j - 1]);
            }
        }
    }
}

/// The offsets a circle visits run from `(r, 0)` along one octant: each has
/// `0 <= b <= a <= r` and lies near the circle, `(a - 1)^2 + b^2 <= (r - 1)^2 + 1`;
/// each next one is one row up and at most one column in, so every arc of the
/// drawn circle is a path of touching pixels.
pub proof fn circle_arc(r: int, j: int)
    requires
        0 <= j < octant(r).len(),
    ensures
        octant(r)[0] == (r, 0int),
        0 <= octant(r)[j].1 <= octant(r)[j].0 <= r,
        (octant(r)[j].0 - 1) * (octant(r)[j].0 - 1) + octant(r)[j].1 * octant(r)[j].1 <= (r - 1) * (r - 1) + 1,
        j + 1 < octant(r).len() ==> octant(r)[j + 1].1 == octant(r)[j].1 + 1
            && (octant(r)[j + 1].0 == octant(r)[j].0 || octant(r)[j + 1].0 == octant(r)[j].0 - 1),
{
    lemma_octant_shape(r, 0, 0);
    assert(0 == (r - 1) * (r - 1) + (0 + 1) * (0 + 1) - (r - 1) * (r - 1) - 1) by (nonlinear_arith);
    lemma_octant_near_circle(r, 0, 0, r);
    lemma_octant_steps(r, 0, 0);
}

} // verus!
