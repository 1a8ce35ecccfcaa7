use geometrical_shapes::canvas::{paint, put_pixel};
use geometrical_shapes::draw::{random_color, Displayable, Drawable};
use geometrical_shapes::shapes::{line_pixels, Circle, Line, Point, Rectangle, Triangle};
use raster::{Color, Image};

fn pixel(img: &Image, x: i32, y: i32) -> (u8, u8, u8, u8) {
    let i = (4 * (y * img.width + x)) as usize;
    (img.bytes[i], img.bytes[i + 1], img.bytes[i + 2], img.bytes[i + 3])
}

fn neighbours(p: (i32, i32), q: (i32, i32)) -> bool {
    (p.0 - q.0).abs() <= 1 && (p.1 - q.1).abs() <= 1
}

#[test]
fn diagonal_line_pixels() {
    let px = line_pixels(&Point::new(0, 0), &Point::new(4, 4));
    assert_eq!(px, vec![(0, 0), (1, 1), (2, 2), (3, 3)]);
}

#[test]
fn diagonal_line_drawn_on_image() {
    let mut img = Image::blank(8, 8);
    let line = Line::new(&Point::new(0, 0), &Point::new(4, 4));
    line.draw(&mut img);
    let c = pixel(&img, 0, 0);
    assert_eq!(c.3, 255);
    for k in 1..4 {
        assert_eq!(pixel(&img, k, k), c);
    }
    for y in 0..8 {
        for x in 0..8 {
            if !(x == y && x < 4) {
                assert_eq!(pixel(&img, x, y), (0, 0, 0, 255));
            }
        }
    }
}

#[test]
fn shallow_line_rounds_halves_up() {
    let px = line_pixels(&Point::new(0, 0), &Point::new(4, 2));
    assert_eq!(px, vec![(0, 0), (1, 1), (2, 1), (3, 2)]);
}

#[test]
fn negative_line_rounds_halves_away_from_zero() {
    let px = line_pixels(&Point::new(0, 0), &Point::new(-4, -2));
    assert_eq!(px, vec![(0, 0), (-1, -1), (-2, -1), (-3, -2)]);
}

#[test]
fn steep_line_steps_along_y() {
    let px = line_pixels(&Point::new(1, 5), &Point::new(2, 0));
    assert_eq!(px, vec![(1, 5), (1, 4), (1, 3), (2, 2), (2, 1)]);
}

#[test]
fn degenerate_line_plots_nothing() {
    let p = Point::new(3, -7);
    assert!(line_pixels(&p, &p).is_empty());
    let mut img = Image::blank(4, 4);
    Line::new(&Point::new(1, 1), &Point::new(1, 1)).draw(&mut img);
    assert_eq!(pixel(&img, 1, 1), (0, 0, 0, 255));
}

#[test]
fn line_starts_at_start_and_ends_next_to_end() {
    let cases = [((2, 3), (9, 5)), ((-5, 8), (4, -13)), ((0, 0), (1, 0)), ((7, 7), (-3, 2))];
    for &(a, b) in cases.iter() {
        let px = line_pixels(&Point::new(a.0, a.1), &Point::new(b.0, b.1));
        assert_eq!(px[0], a);
        assert!(neighbours(*px.last().unwrap(), b));
    }
}

#[test]
fn line_has_no_gaps() {
    let px = line_pixels(&Point::new(-20, 3), &Point::new(17, -11));
    assert_eq!(px.len(), 37);
    for w in px.windows(2) {
        assert!(neighbours(w[0], w[1]));
    }
}

#[test]
fn circle_of_radius_zero_is_its_center() {
    let c = Circle::new(Point::new(3, 4), 0);
    assert_eq!(c.draw_circle_pixels(), vec![(3, 4); 8]);
}

#[test]
fn circle_of_radius_one() {
    let c = Circle::new(Point::new(0, 0), 1);
    let expected = vec![
        (1, 0), (0, 1), (0, 1), (-1, 0), (-1, 0), (0, -1), (0, -1), (1, 0),
        (1, 1), (1, 1), (-1, 1), (-1, 1), (-1, -1), (-1, -1), (1, -1), (1, -1),
    ];
    assert_eq!(c.draw_circle_pixels(), expected);
}

#[test]
fn circle_with_negative_radius_is_empty() {
    assert!(Circle::new(Point::new(3, 4), -2).draw_circle_pixels().is_empty());
}

#[test]
fn circle_is_symmetric() {
    let (cx, cy) = (10, -4);
    let px = Circle::new(Point::new(cx, cy), 9).draw_circle_pixels();
    for &(x, y) in px.iter() {
        let (a, b) = (x - cx, y - cy);
        for &(u, v) in [(a, b), (-a, b), (a, -b), (-a, -b), (b, a), (-b, a), (b, -a), (-b, -a)].iter() {
            assert!(px.contains(&(cx + u, cy + v)));
        }
    }
}

#[test]
fn circle_point_count_is_linear_in_radius() {
    for r in 0..60 {
        let n = Circle::new(Point::new(0, 0), r).draw_circle_pixels().len();
        assert_eq!(n % 8, 0);
        assert!(n <= 8 * (r as usize + 1));
        if r != 1 {
            assert!((n as f64) <= 8.0 * ((r as f64) / 2f64.sqrt() + 1.0));
        } else {
            assert_eq!(n, 16);
        }
    }
}

#[test]
fn circle_of_radius_five_rounds() {
    let px = Circle::new(Point::new(0, 0), 5).draw_circle_pixels();
    let firsts: Vec<(i32, i32)> = px.iter().step_by(8).cloned().collect();
    assert_eq!(firsts, vec![(5, 0), (5, 1), (4, 2), (3, 3)]);
}

#[test]
fn random_point_stays_in_bounds() {
    for _ in 0..2000 {
        let p = Point::random(7, 3);
        assert!(0 <= p.x() && p.x() < 7);
        assert!(0 <= p.y() && p.y() < 3);
    }
}

#[test]
fn random_line_stays_in_bounds() {
    for _ in 0..500 {
        let l = Line::random(5, 9);
        for p in [l.start(), l.end()].iter() {
            assert!(0 <= p.x() && p.x() < 5 && 0 <= p.y() && p.y() < 9);
        }
    }
}

#[test]
fn random_circle_stays_in_bounds() {
    let mut radii = std::collections::HashSet::new();
    for _ in 0..2000 {
        let c = Circle::random(40, 9);
        assert!(0 <= c.center.x() && c.center.x() < 40);
        assert!(0 <= c.center.y() && c.center.y() < 9);
        assert!(5 <= c.radius && c.radius < 9);
        radii.insert(c.radius);
    }
    assert!(radii.len() > 1);
}

#[test]
fn random_colors_are_opaque_and_vary() {
    let mut seen = std::collections::HashSet::new();
    for _ in 0..200 {
        let c = random_color();
        assert_eq!(c.a, 255);
        seen.insert((c.r, c.g, c.b));
        assert_eq!(Point::color().a, 255);
    }
    assert!(seen.len() > 1);
}

#[test]
fn rectangle_corners_are_derived() {
    let r = Rectangle::new(&Point::new(1, 1), &Point::new(4, 5));
    let (top_right, bottom_left) = r.other_corners();
    assert_eq!(top_right, Point::new(4, 1));
    assert_eq!(bottom_left, Point::new(1, 5));
}

#[test]
fn rectangle_outline_is_closed() {
    let r = Rectangle::new(&Point::new(1, 1), &Point::new(4, 5));
    let px = r.pixels();
    assert_eq!(px.len(), 14);
    for c in [(1, 1), (4, 1), (4, 5), (1, 5)].iter() {
        assert!(px.contains(c));
    }
    for x in 1..=4 {
        assert!(px.contains(&(x, 1)) && px.contains(&(x, 5)));
    }
    for y in 1..=5 {
        assert!(px.contains(&(1, y)) && px.contains(&(4, y)));
    }
    for w in px.windows(2) {
        assert!(neighbours(w[0], w[1]));
    }
}

#[test]
fn rectangle_drawn_in_one_color() {
    let mut img = Image::blank(6, 7);
    Rectangle::new(&Point::new(1, 1), &Point::new(4, 5)).draw(&mut img);
    let c = pixel(&img, 1, 1);
    assert_eq!(pixel(&img, 4, 1), c);
    assert_eq!(pixel(&img, 4, 5), c);
    assert_eq!(pixel(&img, 1, 5), c);
    assert_eq!(pixel(&img, 2, 3), (0, 0, 0, 255));
}

#[test]
fn triangle_visits_its_corners() {
    let (a, b, c) = (Point::new(0, 0), Point::new(6, 2), Point::new(3, 8));
    let t = Triangle::new(&a, &b, &c);
    let px = t.pixels();
    for v in [(0, 0), (6, 2), (3, 8)].iter() {
        assert!(px.contains(v));
    }
    let mut edges = line_pixels(&a, &b);
    edges.extend(line_pixels(&b, &c));
    edges.extend(line_pixels(&c, &a));
    assert_eq!(px, edges);
}

#[test]
fn triangle_keeps_white_and_draws_its_corners() {
    let t = Triangle::new(&Point::new(1, 1), &Point::new(1, 1), &Point::new(5, 3));
    assert_eq!((t.3.r, t.3.g, t.3.b, t.3.a), (255, 255, 255, 255));
    let px = t.pixels();
    assert!(px.contains(&(1, 1)) && px.contains(&(5, 3)));
    let mut img = Image::blank(8, 8);
    t.draw(&mut img);
    assert_eq!(pixel(&img, 1, 1), pixel(&img, 5, 3));
    assert_eq!(pixel(&img, 1, 1).3, 255);
}

#[test]
fn point_draw_sets_one_pixel() {
    let mut img = Image::blank(3, 3);
    Point::new(2, 1).draw(&mut img);
    assert_eq!(pixel(&img, 2, 1).3, 255);
    for y in 0..3 {
        for x in 0..3 {
            if (x, y) != (2, 1) {
                assert_eq!(pixel(&img, x, y), (0, 0, 0, 255));
            }
        }
    }
}

#[test]
fn circle_near_edge_is_clipped() {
    let mut img = Image::blank(10, 10);
    Circle::new(Point::new(1, 1), 4).draw(&mut img);
    let c = pixel(&img, 5, 1);
    assert_eq!(pixel(&img, 1, 5), c);
    assert_eq!(pixel(&img, 1, 1), (0, 0, 0, 255));
    assert_eq!(img.bytes.len(), 400);
}

#[test]
fn out_of_bounds_writes_are_ignored() {
    let mut img = Image::blank(2, 2);
    let before = img.bytes.clone();
    put_pixel(&mut img, 2, 0, Color::rgb(9, 9, 9));
    put_pixel(&mut img, 0, -1, Color::rgb(9, 9, 9));
    img.display(-3, 1, Color::rgb(9, 9, 9));
    assert_eq!(img.bytes, before);
    img.display(1, 1, Color::rgb(9, 8, 7));
    assert_eq!(pixel(&img, 1, 1), (9, 8, 7, 255));
}

#[test]
fn paint_writes_listed_pixels_in_order() {
    let mut img = Image::blank(3, 2);
    paint(&mut img, &vec![(0, 0), (2, 1), (5, 5), (0, 0)], &Color::rgb(1, 2, 3));
    assert_eq!(pixel(&img, 0, 0), (1, 2, 3, 255));
    assert_eq!(pixel(&img, 2, 1), (1, 2, 3, 255));
    assert_eq!(pixel(&img, 1, 0), (0, 0, 0, 255));
}

#[test]
fn malformed_image_is_left_alone() {
    let mut img = Image { width: 4, height: 4, bytes: vec![0; 10] };
    put_pixel(&mut img, 0, 0, Color::rgb(1, 2, 3));
    Line::new(&Point::new(0, 0), &Point::new(3, 3)).draw(&mut img);
    assert_eq!(img.bytes, vec![0; 10]);
}

#[test]
fn point_from_draws_reduces_modulo_bounds() {
    assert_eq!(Point::from_draws(10, 4_000_000_000, 3, 7), Point::new(1, 3));
    assert_eq!(Point::from_draws(2, 6, 3, 7), Point::new(2, 6));
    assert_eq!(Point::from_draws(u32::MAX, 0, 1, 1), Point::new(0, 0));
}

#[test]
fn triangle_outline_is_a_closed_loop() {
    let cases = [((0, 0), (6, 2), (3, 8)), ((1, 1), (1, 1), (5, 3)), ((-4, 2), (9, -7), (0, 11))];
    for &(a, b, c) in cases.iter() {
        let t = Triangle::new(&Point::new(a.0, a.1), &Point::new(b.0, b.1), &Point::new(c.0, c.1));
        let px = t.pixels();
        assert!(!px.is_empty());
        for i in 0..px.len() {
            assert!(neighbours(px[i], px[(i + 1) % px.len()]));
        }
    }
}

#[test]
fn rectangle_outline_is_exactly_the_border() {
    let r = Rectangle::new(&Point::new(4, 5), &Point::new(1, 1));
    let px = r.pixels();
    assert_eq!(px.len(), 2 * 3 + 2 * 4);
    let mut border = Vec::new();
    for y in 1..=5 {
        for x in 1..=4 {
            if x == 1 || x == 4 || y == 1 || y == 5 {
                border.push((x, y));
            }
        }
    }
    assert_eq!(border.len(), px.len());
    for p in border.iter() {
        assert!(px.contains(p));
    }
    for i in 0..px.len() {
        let (p, q) = (px[i], px[(i + 1) % px.len()]);
        assert_eq!((p.0 - q.0).abs() + (p.1 - q.1).abs(), 1);
    }
}

#[test]
fn circle_arc_steps_and_stays_near_radius() {
    for r in 0..50 {
        let px = Circle::new(Point::new(0, 0), r).draw_circle_pixels();
        let firsts: Vec<(i32, i32)> = px.iter().step_by(8).cloned().collect();
        assert_eq!(firsts[0], (r, 0));
        for w in firsts.windows(2) {
            assert_eq!(w[1].1, w[0].1 + 1);
            assert!(w[1].0 == w[0].0 || w[1].0 == w[0].0 - 1);
        }
        for &(a, b) in firsts.iter() {
            assert!(0 <= b && b <= a && a <= r);
            assert!((a - 1) * (a - 1) + b * b <= (r - 1) * (r - 1) + 1);
        }
    }
}
