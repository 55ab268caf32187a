//! Exact integer geometry of the local frame.
//!
//! A local coordinate is a whole number of millimetres. Every point of the
//! frame lies within `FRAME_LIMIT` of the origin on both axes, which keeps
//! every product that the containment tests form inside 128 bits.

use std::collections::BTreeSet;
use vstd::prelude::*;
use vstd::arithmetic::div_mod::lemma_fundamental_div_mod_converse;

verus! {

/// The largest magnitude of a local coordinate: 2^30 mm, a little over 1000 km.
pub const FRAME_LIMIT: i64 = 1_073_741_824;

/// A point of the plane with unbounded integer coordinates; specifications
/// speak of these.
pub struct Point {
    pub x: int,
    pub y: int,
}

/// Whether `p` lies within the frame that a [`Pt2D`] can address.
pub open spec fn in_frame(p: Point) -> bool {
    &&& -FRAME_LIMIT <= p.x <= FRAME_LIMIT
    &&& -FRAME_LIMIT <= p.y <= FRAME_LIMIT
}

pub open spec fn dist_sq(a: Point, b: Point) -> int {
    (a.x - b.x) * (a.x - b.x) + (a.y - b.y) * (a.y - b.y)
}

/// `cross(o, a, b)` is positive when `b` lies on the side of growing `y`
/// of the line from `o` through `a`, seen with `x` growing ahead.
pub open spec fn cross(o: Point, a: Point, b: Point) -> int {
    (a.x - o.x) * (b.y - o.y) - (a.y - o.y) * (b.x - o.x)
}

pub open spec fn dot(o: Point, a: Point, b: Point) -> int {
    (a.x - o.x) * (b.x - o.x) + (a.y - o.y) * (b.y - o.y)
}

/// A point of the local frame, in millimetres.
#[derive(Clone, Copy, Debug)]
pub struct Pt2D {
    x: i64,
    y: i64,
}

impl View for Pt2D {
    type V = Point;

    closed spec fn view(&self) -> Point {
        Point { x: self.x as int, y: self.y as int }
    }
}

impl Pt2D {
    #[verifier::type_invariant]
    spec fn inv(self) -> bool {
        in_frame(self@)
    }

    /// The point `(x, y)`, if it lies in the frame.
    pub fn new(x: i64, y: i64) -> (r: Option<Pt2D>)
        ensures
            r is Some <==> in_frame(Point { x: x as int, y: y as int }),
            r is Some ==> r->0@ == (Point { x: x as int, y: y as int }),
    {
        if -FRAME_LIMIT <= x && x <= FRAME_LIMIT && -FRAME_LIMIT <= y && y <= FRAME_LIMIT {
            Some(Pt2D { x, y })
        } else {
            None
        }
    }

    pub fn origin() -> (r: Pt2D)
        ensures
            r@ == (Point { x: 0, y: 0 }),
    {
        Pt2D { x: 0, y: 0 }
    }

    pub fn x(&self) -> (r: i64)
        ensures
            r == self@.x,
            in_frame(self@),
    {
        proof {
            use_type_invariant(self);
        }
        self.x
    }

    pub fn y(&self) -> (r: i64)
        ensures
            r == self@.y,
            in_frame(self@),
    {
        proof {
            use_type_invariant(self);
        }
        self.y
    }

    pub fn same(&self, other: &Pt2D) -> (r: bool)
        ensures
            r == (self@ == other@),
    {
        self.x == other.x && self.y == other.y
    }

    /// The point moved by `(dx, dy)`, if that is still in the frame.
    pub fn offset(&self, dx: i64, dy: i64) -> (r: Option<Pt2D>)
        ensures
            r is Some <==> in_frame(Point { x: self@.x + dx, y: self@.y + dy }),
            r is Some ==> r->0@ == (Point { x: self@.x + dx, y: self@.y + dy }),
    {
        proof {
            use_type_invariant(self);
        }
        let nx: i128 = self.x as i128 + dx as i128;
        let ny: i128 = self.y as i128 + dy as i128;
        if -(FRAME_LIMIT as i128) <= nx && nx <= FRAME_LIMIT as i128 && -(FRAME_LIMIT as i128)
            <= ny && ny <= FRAME_LIMIT as i128 {
            Some(Pt2D { x: nx as i64, y: ny as i64 })
        } else {
            None
        }
    }
}

/// `n / d` rounded towards minus infinity.
pub fn floor_div(n: i128, d: i128) -> (q: i128)
    requires
        d > 0,
        d - n <= i128::MAX,
    ensures
        q == n as int / d as int,
{
    if n >= 0 {
        n / d
    } else {
        let m: i128 = -n;
        let t: i128 = m + (d - 1);
        let q0: i128 = t / d;
        proof {
            let r0: int = t as int % d as int;
            vstd::arithmetic::div_mod::lemma_fundamental_div_mod(t as int, d as int);
            vstd::arithmetic::div_mod::lemma_mod_bound(t as int, d as int);
            assert(t == d * q0 + r0);
            assert(n == (-q0) * d + (d - 1 - r0)) by (nonlinear_arith)
                requires
                    t == d * q0 + r0,
                    t == -n + d - 1,
            ;
            lemma_fundamental_div_mod_converse(n as int, d as int, -(q0 as int), d - 1 - r0);
        }
        -q0
    }
}

pub proof fn lemma_product_bound(a: int, b: int, m: int, n: int)
    requires
        -m <= a <= m,
        -n <= b <= n,
    ensures
        -(m * n) <= a * b <= m * n,
{
    assert(-(m * n) <= a * b <= m * n) by (nonlinear_arith)
        requires
            -m <= a <= m,
            -n <= b <= n,
    ;
}

/// A disc, by its centre and radius.
pub struct Circle {
    pub center: Pt2D,
    pub radius: u32,
}

/// Whether `p` lies strictly within `radius` of `center`.
pub open spec fn circle_contains(center: Point, radius: int, p: Point) -> bool {
    dist_sq(center, p) < radius * radius
}

impl Circle {
    pub fn new(center: Pt2D, radius: u32) -> (c: Circle)
        ensures
            c.center == center,
            c.radius == radius,
    {
        Circle { center, radius }
    }

    pub fn contains_pt(&self, pt: Pt2D) -> (r: bool)
        ensures
            r == circle_contains(self.center@, self.radius as int, pt@),
    {
        let dx: i128 = self.center.x() as i128 - pt.x() as i128;
        let dy: i128 = self.center.y() as i128 - pt.y() as i128;
        let rad: i128 = self.radius as i128;
        proof {
            lemma_product_bound(dx as int, dx as int, 2 * FRAME_LIMIT, 2 * FRAME_LIMIT);
            lemma_product_bound(dy as int, dy as int, 2 * FRAME_LIMIT, 2 * FRAME_LIMIT);
            lemma_product_bound(rad as int, rad as int, 0x1_0000_0000, 0x1_0000_0000);
        }
        dx * dx + dy * dy < rad * rad
    }
}

/// An axis-parallel rectangle, by its centre and half its width and height.
pub struct Rect {
    pub center: Pt2D,
    pub half_width: u32,
    pub half_height: u32,
}

/// Whether `p` lies strictly inside the rectangle.
pub open spec fn rect_contains(center: Point, half_width: int, half_height: int, p: Point) -> bool {
    &&& center.x - half_width < p.x < center.x + half_width
    &&& center.y - half_height < p.y < center.y + half_height
}

impl Rect {
    /// The rectangle of the given width and height around `center`; an odd
    /// width or height loses its last millimetre.
    pub fn rectangle(center: Pt2D, width: u32, height: u32) -> (r: Rect)
        ensures
            r.center == center,
            r.half_width == width / 2,
            r.half_height == height / 2,
    {
        Rect { center, half_width: width / 2, half_height: height / 2 }
    }

    pub fn contains_pt(&self, pt: Pt2D) -> (r: bool)
        ensures
            r == rect_contains(
                self.center@,
                self.half_width as int,
                self.half_height as int,
                pt@,
            ),
    {
        let cx: i128 = self.center.x() as i128;
        let cy: i128 = self.center.y() as i128;
        let hw: i128 = self.half_width as i128;
        let hh: i128 = self.half_height as i128;
        let px: i128 = pt.x() as i128;
        let py: i128 = pt.y() as i128;
        cx - hw < px && px < cx + hw && cy - hh < py && py < cy + hh
    }
}

/// The band of the given width along one side of the segment from `from`
/// to `to`: the side of positive [`cross`] where `right` holds, the other
/// side where it does not.
pub struct Strip {
    pub from: Pt2D,
    pub to: Pt2D,
    pub width: u128,
    pub right: bool,
}

/// Whether `p` lies strictly inside the band: its foot on the line falls
/// strictly between `a` and `b`, it lies on the chosen side, and its distance
/// from the line is less than `width`. The last is stated on squares, which
/// keeps the test exact: distance times the segment's length is the
/// magnitude of the cross product.
pub open spec fn strip_contains(a: Point, b: Point, width: int, right: bool, p: Point) -> bool {
    let side = if right {
        cross(a, b, p)
    } else {
        -cross(a, b, p)
    };
    &&& 0 < dot(a, b, p) < dist_sq(a, b)
    &&& 0 < side
    &&& side * side < width * width * dist_sq(a, b)
}

/// Lagrange's identity in the plane.
pub proof fn lemma_cross_dot(a: Point, b: Point, p: Point)
    ensures
        cross(a, b, p) * cross(a, b, p) + dot(a, b, p) * dot(a, b, p) == dist_sq(a, b) * dist_sq(
            a,
            p,
        ),
{
    let u = b.x - a.x;
    let v = b.y - a.y;
    let s = p.x - a.x;
    let t = p.y - a.y;
    let ut = u * t;
    let vs = v * s;
    let us = u * s;
    let vt = v * t;
    assert((ut - vs) * (ut - vs) == ut * ut - 2 * (ut * vs) + vs * vs) by (nonlinear_arith);
    assert((us + vt) * (us + vt) == us * us + 2 * (us * vt) + vt * vt) by (nonlinear_arith);
    assert(ut * vs == us * vt) by (nonlinear_arith)
        requires
            ut == u * t,
            vs == v * s,
            us == u * s,
            vt == v * t,
    ;
    assert((u * u + v * v) * (s * s + t * t) == (u * u) * (s * s) + (u * u) * (t * t) + (v * v)
        * (s * s) + (v * v) * (t * t)) by (nonlinear_arith);
    assert((u * u) * (s * s) == us * us) by (nonlinear_arith)
        requires
            us == u * s,
    ;
    assert((u * u) * (t * t) == ut * ut) by (nonlinear_arith)
        requires
            ut == u * t,
    ;
    assert((v * v) * (s * s) == vs * vs) by (nonlinear_arith)
        requires
            vs == v * s,
    ;
    assert((v * v) * (t * t) == vt * vt) by (nonlinear_arith)
        requires
            vt == v * t,
    ;
    assert(dist_sq(a, b) == u * u + v * v) by (nonlinear_arith)
        requires
            u == b.x - a.x,
            v == b.y - a.y,
            dist_sq(a, b) == (a.x - b.x) * (a.x - b.x) + (a.y - b.y) * (a.y - b.y),
    ;
    assert(dist_sq(a, p) == s * s + t * t) by (nonlinear_arith)
        requires
            s == p.x - a.x,
            t == p.y - a.y,
            dist_sq(a, p) == (a.x - p.x) * (a.x - p.x) + (a.y - p.y) * (a.y - p.y),
    ;
}

/// A band at least as wide as the frame's diagonal holds every point of the
/// frame that lies on its side and abreast of its segment.
proof fn lemma_wide_strip(a: Point, b: Point, width: int, p: Point)
    requires
        in_frame(a),
        in_frame(b),
        in_frame(p),
        width >= 0x1_0000_0000,
        dist_sq(a, b) > 0,
    ensures
        cross(a, b, p) * cross(a, b, p) < width * width * dist_sq(a, b),
{
    lemma_cross_dot(a, b, p);
    let c = cross(a, b, p);
    let d = dot(a, b, p);
    let l = dist_sq(a, b);
    let m = dist_sq(a, p);
    lemma_product_bound(a.x - p.x, a.x - p.x, 2 * FRAME_LIMIT, 2 * FRAME_LIMIT);
    lemma_product_bound(a.y - p.y, a.y - p.y, 2 * FRAME_LIMIT, 2 * FRAME_LIMIT);
    assert(m < 0x1_0000_0000_0000_0000);
    assert(width * width >= 0x1_0000_0000_0000_0000) by (nonlinear_arith)
        requires
            width >= 0x1_0000_0000,
    ;
    assert(d * d >= 0) by (nonlinear_arith);
    assert(c * c <= l * m);
    assert(l * m < width * width * l) by (nonlinear_arith)
        requires
            l > 0,
            m < width * width,
    ;
}

impl Strip {
    pub fn contains_pt(&self, pt: Pt2D) -> (r: bool)
        ensures
            r == strip_contains(self.from@, self.to@, self.width as int, self.right, pt@),
    {
        let ux: i128 = self.to.x() as i128 - self.from.x() as i128;
        let uy: i128 = self.to.y() as i128 - self.from.y() as i128;
        let sx: i128 = pt.x() as i128 - self.from.x() as i128;
        let sy: i128 = pt.y() as i128 - self.from.y() as i128;
        proof {
            lemma_product_bound(ux as int, ux as int, 2 * FRAME_LIMIT, 2 * FRAME_LIMIT);
            lemma_product_bound(uy as int, uy as int, 2 * FRAME_LIMIT, 2 * FRAME_LIMIT);
            lemma_product_bound(ux as int, sx as int, 2 * FRAME_LIMIT, 2 * FRAME_LIMIT);
            lemma_product_bound(uy as int, sy as int, 2 * FRAME_LIMIT, 2 * FRAME_LIMIT);
            lemma_product_bound(ux as int, sy as int, 2 * FRAME_LIMIT, 2 * FRAME_LIMIT);
            lemma_product_bound(uy as int, sx as int, 2 * FRAME_LIMIT, 2 * FRAME_LIMIT);
        }
        let len_sq: i128 = ux * ux + uy * uy;
        let along: i128 = ux * sx + uy * sy;
        let c: i128 = ux * sy - uy * sx;
        let side: i128 = if self.right {
            c
        } else {
            -c
        };
        assert(len_sq == dist_sq(self.from@, self.to@)) by (nonlinear_arith)
            requires
                len_sq == ux * ux + uy * uy,
                ux == self.to@.x - self.from@.x,
                uy == self.to@.y - self.from@.y,
                dist_sq(self.from@, self.to@) == (self.from@.x - self.to@.x) * (self.from@.x
                    - self.to@.x) + (self.from@.y - self.to@.y) * (self.from@.y - self.to@.y),
        ;
        assert(along == dot(self.from@, self.to@, pt@));
        assert(c == cross(self.from@, self.to@, pt@));
        if !(0 < along && along < len_sq && 0 < side) {
            return false;
        }
        if self.width >= 0x1_0000_0000 {
            proof {
                lemma_wide_strip(self.from@, self.to@, self.width as int, pt@);
                assert(side * side == c * c) by (nonlinear_arith)
                    requires
                        side == c || side == -c,
                ;
            }
            return true;
        }
        let w: u128 = self.width;
        let s: u128 = side as u128;
        let l: u128 = len_sq as u128;
        proof {
            lemma_product_bound(s as int, s as int, 0x8000_0000_0000_0000, 0x8000_0000_0000_0000);
            lemma_product_bound(w as int, w as int, 0xffff_ffff, 0xffff_ffff);
            lemma_product_bound(
                (w * w) as int,
                l as int,
                0xffff_fffe_0000_0001,
                0x8000_0000_0000_0000,
            );
        }
        s * s < w * w * l
    }
}

/// The points that a vector of frame points stands for.
pub open spec fn points_of(v: Seq<Pt2D>) -> Seq<Point> {
    v.map_values(|p: Pt2D| p@)
}

/// A ring is closed, has at least three distinct corners, and passes through
/// no point twice (but for the closing point, which repeats the first).
pub open spec fn valid_ring(pts: Seq<Point>) -> bool {
    &&& pts.len() >= 4
    &&& pts[0] == pts[pts.len() - 1]
    &&& forall|i: int, j: int| 1 <= i < j < pts.len() ==> pts[i] != pts[j]
}

/// Whether `p` lies on the closed segment from `a` to `b`.
pub open spec fn on_segment(a: Point, b: Point, p: Point) -> bool {
    &&& cross(a, b, p) == 0
    &&& (a.x <= p.x <= b.x || b.x <= p.x <= a.x)
    &&& (a.y <= p.y <= b.y || b.y <= p.y <= a.y)
}

/// Whether the edge from `a` to `b` crosses the ray that leaves `p` towards
/// growing `x`. An edge owns its lower end and not its upper one, so a ray
/// through a corner counts the two edges that meet there once or twice as it
/// should.
pub open spec fn edge_crosses_ray(a: Point, b: Point, p: Point) -> bool {
    &&& (a.y > p.y) != (b.y > p.y)
    &&& if b.y > a.y {
        cross(a, b, p) > 0
    } else {
        cross(a, b, p) < 0
    }
}

/// How many of the first `n` edges of `ring` cross the ray from `p`.
pub open spec fn crossings(ring: Seq<Point>, p: Point, n: nat) -> nat
    decreases n,
{
    if n == 0 {
        0
    } else {
        let rest = crossings(ring, p, (n - 1) as nat);
        if edge_crosses_ray(ring[n - 1], ring[n as int], p) {
            rest + 1
        } else {
            rest
        }
    }
}

/// Whether `p` lies on an edge of `ring`.
pub open spec fn on_boundary(ring: Seq<Point>, p: Point) -> bool {
    exists|i: int| 0 <= i < ring.len() - 1 && on_segment(ring[i], #[trigger] ring[i + 1], p)
}

/// Whether `p` lies strictly inside `ring`, by the even-odd rule.
pub open spec fn ring_contains(ring: Seq<Point>, p: Point) -> bool {
    &&& !on_boundary(ring, p)
    &&& ring.len() > 0
    &&& crossings(ring, p, (ring.len() - 1) as nat) % 2 == 1
}

/// Whether `p` lies inside `ring` or on it.
pub open spec fn ring_covers(ring: Seq<Point>, p: Point) -> bool {
    on_boundary(ring, p) || ring_contains(ring, p)
}

/// Whether `p` lies strictly inside the polygon whose first ring is its
/// outline and whose other rings are holes.
pub open spec fn polygon_contains(rings: Seq<Seq<Point>>, p: Point) -> bool {
    &&& rings.len() > 0
    &&& ring_contains(rings[0], p)
    &&& forall|k: int| 1 <= k < rings.len() ==> !ring_covers(#[trigger] rings[k], p)
}

/// Adds `(x, y)` to `seen` and says whether it was new there.
fn note_point(seen: &mut BTreeSet<(i64, i64)>, x: i64, y: i64) -> (fresh: bool)
    ensures
        final(seen)@ == old(seen)@.insert((x, y)),
        fresh == !old(seen)@.contains((x, y)),
{
    proof {
        broadcast use vstd::laws_cmp::group_laws_cmp;
    }
    seen.insert((x, y))
}

/// A closed contour.
pub struct Ring {
    pts: Vec<Pt2D>,
}

impl View for Ring {
    type V = Seq<Point>;

    closed spec fn view(&self) -> Seq<Point> {
        points_of(self.pts@)
    }
}

/// How a point stands to a ring.
#[derive(Clone, Copy, Debug, PartialEq, Eq, Structural)]
pub enum Side {
    Inside,
    OnEdge,
    Outside,
}

impl Ring {
    #[verifier::type_invariant]
    spec fn inv(self) -> bool {
        valid_ring(self@)
    }

    /// The ring through `pts`, where they form one.
    pub fn new(pts: Vec<Pt2D>) -> (r: Option<Ring>)
        ensures
            r is Some <==> valid_ring(points_of(pts@)),
            r is Some ==> r->0@ == points_of(pts@),
    {
        let n = pts.len();
        let ghost ps = points_of(pts@);
        if n < 4 {
            return None;
        }
        if !pts[0].same(&pts[n - 1]) {
            return None;
        }
        let mut seen: BTreeSet<(i64, i64)> = BTreeSet::new();
        let mut i: usize = 1;
        while i < n
            invariant
                1 <= i <= n,
                n == pts.len(),
                ps == points_of(pts@),
                forall|a: int, b: int| 1 <= a < b < i ==> ps[a] != ps[b],
                forall|k: int| 1 <= k < i ==> seen@.contains((#[trigger] ps[k].x as i64, ps[k].y as i64)),
                forall|x: i64, y: i64| #[trigger]
                    seen@.contains((x, y)) ==> exists|k: int|
                        1 <= k < i && ps[k] == (Point { x: x as int, y: y as int }),
            decreases n - i,
        {
            let p = &pts[i];
            let fresh = note_point(&mut seen, p.x, p.y);
            if !fresh {
                proof {
                    let k = choose|k: int|
                        1 <= k < i && ps[k] == (Point { x: p.x as int, y: p.y as int });
                    assert(ps[k] == ps[i as int]);
                }
                return None;
            }
            proof {
                assert forall|x: i64, y: i64| #[trigger] seen@.contains((x, y)) implies exists|
                    k: int,
                | 1 <= k < i + 1 && ps[k] == (Point { x: x as int, y: y as int }) by {
                    if x == p.x && y == p.y {
                        assert(ps[i as int] == (Point { x: x as int, y: y as int }));
                    } else {
                        let k = choose|k: int|
                            1 <= k < i && ps[k] == (Point { x: x as int, y: y as int });
                        assert(1 <= k < i + 1 && ps[k] == (Point { x: x as int, y: y as int }));
                    }
                }
                assert forall|a: int, b: int| 1 <= a < b < i + 1 implies ps[a] != ps[b] by {
                    if b == i {
                        if ps[a] == ps[b] {
                            assert(seen@.contains((ps[a].x as i64, ps[a].y as i64)));
                        }
                    }
                }
            }
            i = i + 1;
        }
        Some(Ring { pts })
    }

    pub fn points(&self) -> (r: &Vec<Pt2D>)
        ensures
            points_of(r@) == self@,
            valid_ring(self@),
    {
        proof {
            use_type_invariant(self);
        }
        &self.pts
    }

    /// Where `pt` lies: strictly inside the ring, on one of its edges, or
    /// outside.
    pub fn locate(&self, pt: Pt2D) -> (r: Side)
        ensures
            r == Side::OnEdge <==> on_boundary(self@, pt@),
            r == Side::Inside <==> ring_contains(self@, pt@),
    {
        proof {
            use_type_invariant(self);
        }
        let n = self.pts.len();
        let ghost ring = self@;
        let ghost q = pt@;
        let px: i128 = pt.x() as i128;
        let py: i128 = pt.y() as i128;
        let mut odd = false;
        let mut i: usize = 0;
        while i + 1 < n
            invariant
                n == self.pts.len(),
                n >= 4,
                ring == self@,
                ring == points_of(self.pts@),
                q == pt@,
                px == q.x,
                py == q.y,
                in_frame(q),
                i + 1 <= n,
                odd == (crossings(ring, q, i as nat) % 2 == 1),
                forall|k: int| 0 <= k < i ==> !on_segment(ring[k], #[trigger] ring[k + 1], q),
            decreases n - i,
        {
            let a = &self.pts[i];
            let b = &self.pts[i + 1];
            let ax: i128 = a.x() as i128;
            let ay: i128 = a.y() as i128;
            let bx: i128 = b.x() as i128;
            let by: i128 = b.y() as i128;
            assert(ring[i as int] == a@);
            assert(ring[i + 1] == b@);
            proof {
                lemma_product_bound(bx - ax, py - ay, 2 * FRAME_LIMIT, 2 * FRAME_LIMIT);
                lemma_product_bound(by - ay, px - ax, 2 * FRAME_LIMIT, 2 * FRAME_LIMIT);
            }
            let c: i128 = (bx - ax) * (py - ay) - (by - ay) * (px - ax);
            assert(c == cross(a@, b@, q));
            if c == 0 && ((ax <= px && px <= bx) || (bx <= px && px <= ax)) && ((ay <= py && py
                <= by) || (by <= py && py <= ay)) {
                assert(on_segment(ring[i as int], ring[i + 1], q));
                return Side::OnEdge;
            }
            if (ay > py) != (by > py) {
                if by > ay {
                    if c > 0 {
                        odd = !odd;
                    }
                } else {
                    if c < 0 {
                        odd = !odd;
                    }
                }
            }
            i = i + 1;
        }
        assert(i == n - 1);
        if odd {
            Side::Inside
        } else {
            Side::Outside
        }
    }
}

/// `p` moved by `(dx, dy)`.
pub open spec fn shift(p: Point, dx: int, dy: int) -> Point {
    Point { x: p.x + dx, y: p.y + dy }
}

/// Every point of `pts` moved by `(dx, dy)`.
pub open spec fn shift_all(pts: Seq<Point>, dx: int, dy: int) -> Seq<Point> {
    pts.map_values(|p: Point| shift(p, dx, dy))
}

/// Whether every point of `pts` lies in the frame.
pub open spec fn all_in_frame(pts: Seq<Point>) -> bool {
    forall|i: int| 0 <= i < pts.len() ==> in_frame(#[trigger] pts[i])
}

impl Ring {
    /// The ring moved by `(dx, dy)`, if all of it stays in the frame.
    pub fn translate(&self, dx: i64, dy: i64) -> (r: Option<Ring>)
        ensures
            r is Some <==> all_in_frame(shift_all(self@, dx as int, dy as int)),
            r is Some ==> r->0@ == shift_all(self@, dx as int, dy as int),
    {
        proof {
            use_type_invariant(self);
        }
        let n = self.pts.len();
        let ghost target = shift_all(self@, dx as int, dy as int);
        let mut out: Vec<Pt2D> = Vec::new();
        let mut i: usize = 0;
        while i < n
            invariant
                n == self.pts.len(),
                i <= n,
                target == shift_all(self@, dx as int, dy as int),
                self@ == points_of(self.pts@),
                out.len() == i,
                points_of(out@) == target.take(i as int),
                forall|k: int| 0 <= k < i ==> in_frame(#[trigger] target[k]),
            decreases n - i,
        {
            match self.pts[i].offset(dx, dy) {
                Some(q) => {
                    out.push(q);
                    assert(points_of(out@) =~= target.take(i + 1));
                },
                None => {
                    assert(!in_frame(target[i as int]));
                    return None;
                },
            }
            i = i + 1;
        }
        proof {
            assert(points_of(out@) =~= target);
            let src = self@;
            assert forall|a: int, b: int| 1 <= a < b < target.len() implies target[a]
                != target[b] by {
                assert(src[a] != src[b]);
            }
        }
        Some(Ring { pts: out })
    }
}

/// A polygon: an outline and the holes cut out of it.
pub struct Polygon {
    rings: Vec<Ring>,
}

impl View for Polygon {
    type V = Seq<Seq<Point>>;

    closed spec fn view(&self) -> Seq<Seq<Point>> {
        self.rings@.map_values(|r: Ring| r@)
    }
}

/// Whether `v` is a corner of one of `rings`.
pub open spec fn is_vertex(rings: Seq<Seq<Point>>, v: Point) -> bool {
    exists|k: int, i: int| 0 <= k < rings.len() && 0 <= i < rings[k].len() && rings[k][i] == v
}

impl Polygon {
    /// The polygon with the first of `rings` as its outline and the others
    /// as its holes.
    pub fn from_rings(rings: Vec<Ring>) -> (p: Polygon)
        ensures
            p@ == rings@.map_values(|r: Ring| r@),
    {
        Polygon { rings }
    }

    pub fn rings(&self) -> (r: &Vec<Ring>)
        ensures
            r@.map_values(|r: Ring| r@) == self@,
    {
        &self.rings
    }

    /// Whether `pt` lies strictly inside the polygon.
    pub fn contains_pt(&self, pt: Pt2D) -> (r: bool)
        ensures
            r == polygon_contains(self@, pt@),
    {
        let n = self.rings.len();
        if n == 0 {
            return false;
        }
        if self.rings[0].locate(pt) != Side::Inside {
            return false;
        }
        let mut k: usize = 1;
        while k < n
            invariant
                n == self.rings.len(),
                1 <= k <= n,
                ring_contains(self@[0], pt@),
                forall|j: int| 1 <= j < k ==> !ring_covers(#[trigger] self@[j], pt@),
            decreases n - k,
        {
            if self.rings[k].locate(pt) != Side::Outside {
                assert(ring_covers(self@[k as int], pt@));
                return false;
            }
            k = k + 1;
        }
        true
    }

    /// The polygon moved by `(dx, dy)`, if all of it stays in the frame.
    pub fn translate(&self, dx: i64, dy: i64) -> (r: Option<Polygon>)
        ensures
            r is Some <==> forall|k: int|
                0 <= k < self@.len() ==> all_in_frame(
                    shift_all(#[trigger] self@[k], dx as int, dy as int),
                ),
            r is Some ==> r->0@ == self@.map_values(
                |ring: Seq<Point>| shift_all(ring, dx as int, dy as int),
            ),
    {
        let n = self.rings.len();
        let ghost target = self@.map_values(
            |ring: Seq<Point>| shift_all(ring, dx as int, dy as int),
        );
        let mut out: Vec<Ring> = Vec::new();
        let mut k: usize = 0;
        while k < n
            invariant
                n == self.rings.len(),
                k <= n,
                out.len() == k,
                target == self@.map_values(
                    |ring: Seq<Point>| shift_all(ring, dx as int, dy as int),
                ),
                out@.map_values(|r: Ring| r@) == target.take(k as int),
                forall|j: int|
                    0 <= j < k ==> all_in_frame(
                        shift_all(#[trigger] self@[j], dx as int, dy as int),
                    ),
            decreases n - k,
        {
            match self.rings[k].translate(dx, dy) {
                Some(ring) => {
                    out.push(ring);
                    assert(out@.map_values(|r: Ring| r@) =~= target.take(k + 1));
                },
                None => {
                    assert(!all_in_frame(shift_all(self@[k as int], dx as int, dy as int)));
                    return None;
                },
            }
            k = k + 1;
        }
        assert(out@.map_values(|r: Ring| r@) =~= target);
        Some(Polygon { rings: out })
    }

    /// Whether a corner of this polygon lies strictly inside `boundary`.
    pub fn has_vertex_inside(&self, boundary: &Polygon) -> (r: bool)
        ensures
            r <==> exists|v: Point| is_vertex(self@, v) && polygon_contains(boundary@, v),
    {
        let n = self.rings.len();
        let mut k: usize = 0;
        while k < n
            invariant
                n == self.rings.len(),
                k <= n,
                forall|j: int, i: int|
                    0 <= j < k && 0 <= i < self@[j].len() ==> !polygon_contains(
                        boundary@,
                        #[trigger] self@[j][i],
                    ),
            decreases n - k,
        {
            let pts = self.rings[k].points();
            let m = pts.len();
            let mut i: usize = 0;
            while i < m
                invariant
                    n == self.rings.len(),
                    k < n,
                    m == pts.len(),
                    i <= m,
                    points_of(pts@) == self@[k as int],
                    forall|j: int, i: int|
                        0 <= j < k && 0 <= i < self@[j].len() ==> !polygon_contains(
                            boundary@,
                            #[trigger] self@[j][i],
                        ),
                    forall|h: int|
                        0 <= h < i ==> !polygon_contains(boundary@, #[trigger] self@[k as int][h]),
                decreases m - i,
            {
                if boundary.contains_pt(pts[i]) {
                    assert(self@[k as int][i as int] == pts[i as int]@);
                    assert(is_vertex(self@, pts[i as int]@));
                    return true;
                }
                i = i + 1;
            }
            k = k + 1;
        }
        false
    }
}

} // verus!
