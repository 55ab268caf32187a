//! Geographic coordinates and their projection onto the local frame.
//!
//! A geographic coordinate is a whole number of 10^-7 degrees. A bounding
//! box carries the extent of the local frame that it is laid over; the
//! projection interpolates linearly between the box and that extent, with
//! north at the top (`y` grows southwards).

use vstd::prelude::*;
use vstd::arithmetic::div_mod::{lemma_fundamental_div_mod, lemma_mod_bound};
use crate::geometry::{floor_div, in_frame, lemma_product_bound, Point, Pt2D, FRAME_LIMIT};

verus! {

/// A geographic position with unbounded coordinates; specifications speak
/// of these.
pub struct Position {
    pub lon: int,
    pub lat: int,
}

/// A geographic position, in units of 10^-7 degrees.
#[derive(Clone, Copy, Debug, PartialEq, Eq, Structural)]
pub struct LonLat {
    pub longitude: i64,
    pub latitude: i64,
}

impl View for LonLat {
    type V = Position;

    open spec fn view(&self) -> Position {
        Position { lon: self.longitude as int, lat: self.latitude as int }
    }
}

/// A bounding box and the local frame laid over it, as specifications see
/// them.
pub struct Bounds {
    pub min_lon: int,
    pub min_lat: int,
    pub max_lon: int,
    pub max_lat: int,
    /// The local frame's extent along `x`.
    pub width: int,
    /// The local frame's extent along `y`.
    pub height: int,
    /// Whether geographic coordinates are local ones under another name.
    pub world_space: bool,
}

impl Bounds {
    pub open spec fn wf(self) -> bool {
        &&& i64::MIN <= self.min_lon <= self.max_lon <= i64::MAX
        &&& i64::MIN <= self.min_lat <= self.max_lat <= i64::MAX
        &&& 0 <= self.width <= FRAME_LIMIT
        &&& 0 <= self.height <= FRAME_LIMIT
    }

    /// A box or a frame of no area gives the projection nothing to divide by.
    pub open spec fn degenerate(self) -> bool {
        !self.world_space && (self.min_lon == self.max_lon || self.min_lat == self.max_lat
            || self.width == 0 || self.height == 0)
    }

    pub open spec fn contains(self, g: Position) -> bool {
        &&& self.min_lon <= g.lon <= self.max_lon
        &&& self.min_lat <= g.lat <= self.max_lat
    }

    /// Where `g` falls in the local frame. Divisions round down.
    pub open spec fn project(self, g: Position) -> Point {
        if self.world_space {
            Point { x: g.lon, y: g.lat }
        } else {
            Point {
                x: ((g.lon - self.min_lon) * self.width) / (self.max_lon - self.min_lon),
                y: self.height - ((g.lat - self.min_lat) * self.height) / (self.max_lat
                    - self.min_lat),
            }
        }
    }

    /// The position that falls on `p`. Divisions round down.
    pub open spec fn unproject(self, p: Point) -> Position {
        if self.world_space {
            Position { lon: p.x, lat: p.y }
        } else {
            Position {
                lon: self.min_lon + (p.x * (self.max_lon - self.min_lon)) / self.width,
                lat: self.min_lat + ((self.height - p.y) * (self.max_lat - self.min_lat))
                    / self.height,
            }
        }
    }
}

/// Why a coordinate could not be converted.
#[derive(Clone, Copy, Debug, PartialEq, Eq, Structural)]
pub enum TransformError {
    /// The bounding box or the local frame has no area.
    DegenerateBounds,
    /// The result lies beyond what the target coordinates can hold.
    OutOfRange,
}

/// What projecting `g` through `b` gives.
pub open spec fn to_local(b: Bounds, g: Position) -> Result<Point, TransformError> {
    if b.degenerate() {
        Err(TransformError::DegenerateBounds)
    } else if !in_frame(b.project(g)) {
        Err(TransformError::OutOfRange)
    } else {
        Ok(b.project(g))
    }
}

pub open spec fn representable(g: Position) -> bool {
    &&& i64::MIN <= g.lon <= i64::MAX
    &&& i64::MIN <= g.lat <= i64::MAX
}

/// What projecting `p` back through `b` gives.
pub open spec fn to_gps(b: Bounds, p: Point) -> Result<Position, TransformError> {
    if b.degenerate() {
        Err(TransformError::DegenerateBounds)
    } else if !representable(b.unproject(p)) {
        Err(TransformError::OutOfRange)
    } else {
        Ok(b.unproject(p))
    }
}

/// A geographic bounding box together with the extent of the local frame
/// that is laid over it.
#[derive(Clone, Copy, Debug)]
pub struct GPSBounds {
    min_lon: i64,
    min_lat: i64,
    max_lon: i64,
    max_lat: i64,
    width: i64,
    height: i64,
    represents_world_space: bool,
}

impl View for GPSBounds {
    type V = Bounds;

    closed spec fn view(&self) -> Bounds {
        Bounds {
            min_lon: self.min_lon as int,
            min_lat: self.min_lat as int,
            max_lon: self.max_lon as int,
            max_lat: self.max_lat as int,
            width: self.width as int,
            height: self.height as int,
            world_space: self.represents_world_space,
        }
    }
}

impl GPSBounds {
    #[verifier::type_invariant]
    spec fn inv(self) -> bool {
        self@.wf()
    }

    /// The box from `(min_lon, min_lat)` to `(max_lon, max_lat)` laid under
    /// the local frame that reaches from the origin to `max_world_pt`, if
    /// the corners come in that order.
    pub fn new(
        min_lon: i64,
        min_lat: i64,
        max_lon: i64,
        max_lat: i64,
        max_world_pt: Pt2D,
        represents_world_space: bool,
    ) -> (r: Option<GPSBounds>)
        ensures
            r is Some <==> (min_lon <= max_lon && min_lat <= max_lat && max_world_pt@.x >= 0
                && max_world_pt@.y >= 0),
            r is Some ==> r->0@ == (Bounds {
                min_lon: min_lon as int,
                min_lat: min_lat as int,
                max_lon: max_lon as int,
                max_lat: max_lat as int,
                width: max_world_pt@.x,
                height: max_world_pt@.y,
                world_space: represents_world_space,
            }),
    {
        let width: i64 = max_world_pt.x();
        let height: i64 = max_world_pt.y();
        if min_lon <= max_lon && min_lat <= max_lat && width >= 0 && height >= 0 {
            Some(
                GPSBounds {
                    min_lon,
                    min_lat,
                    max_lon,
                    max_lat,
                    width,
                    height,
                    represents_world_space,
                },
            )
        } else {
            None
        }
    }

    /// Bounds under which geographic and local coordinates are the same
    /// numbers.
    pub fn world_space() -> (r: GPSBounds)
        ensures
            r@ == (Bounds {
                min_lon: 0,
                min_lat: 0,
                max_lon: 0,
                max_lat: 0,
                width: 0,
                height: 0,
                world_space: true,
            }),
    {
        GPSBounds {
            min_lon: 0,
            min_lat: 0,
            max_lon: 0,
            max_lat: 0,
            width: 0,
            height: 0,
            represents_world_space: true,
        }
    }

    pub fn is_degenerate(&self) -> (r: bool)
        ensures
            r == self@.degenerate(),
            self@.wf(),
    {
        proof {
            use_type_invariant(self);
        }
        !self.represents_world_space && (self.min_lon == self.max_lon || self.min_lat
            == self.max_lat || self.width == 0 || self.height == 0)
    }

    pub fn contains(&self, g: LonLat) -> (r: bool)
        ensures
            r == self@.contains(g@),
    {
        self.min_lon <= g.longitude && g.longitude <= self.max_lon && self.min_lat <= g.latitude
            && g.latitude <= self.max_lat
    }

    /// The far corner of the local frame.
    pub fn get_max_world_pt(&self) -> (r: Pt2D)
        ensures
            r@ == (Point { x: self@.width, y: self@.height }),
    {
        proof {
            use_type_invariant(self);
        }
        match Pt2D::new(self.width, self.height) {
            Some(p) => p,
            None => Pt2D::origin(),
        }
    }
}

impl LonLat {
    pub fn new(longitude: i64, latitude: i64) -> (r: LonLat)
        ensures
            r.longitude == longitude,
            r.latitude == latitude,
    {
        LonLat { longitude, latitude }
    }

    /// This position in the local frame of `b`.
    pub fn to_pt(&self, b: &GPSBounds) -> (r: Result<Pt2D, TransformError>)
        ensures
            match r {
                Ok(p) => to_local(b@, self@) == Ok::<Point, TransformError>(p@),
                Err(e) => to_local(b@, self@) == Err::<Point, TransformError>(e),
            },
    {
        proof {
            use_type_invariant(b);
        }
        if b.is_degenerate() {
            return Err(TransformError::DegenerateBounds);
        }
        if b.represents_world_space {
            return match Pt2D::new(self.longitude, self.latitude) {
                Some(p) => Ok(p),
                None => Err(TransformError::OutOfRange),
            };
        }
        let w: i128 = b.width as i128;
        let h: i128 = b.height as i128;
        let d_lon: i128 = b.max_lon as i128 - b.min_lon as i128;
        let d_lat: i128 = b.max_lat as i128 - b.min_lat as i128;
        let a_lon: i128 = self.longitude as i128 - b.min_lon as i128;
        let a_lat: i128 = self.latitude as i128 - b.min_lat as i128;
        proof {
            lemma_product_bound(
                a_lon as int,
                w as int,
                0x1_0000_0000_0000_0000,
                FRAME_LIMIT as int,
            );
            lemma_product_bound(
                a_lat as int,
                h as int,
                0x1_0000_0000_0000_0000,
                FRAME_LIMIT as int,
            );
        }
        let x: i128 = floor_div(a_lon * w, d_lon);
        let y_up: i128 = floor_div(a_lat * h, d_lat);
        proof {
            bound_quotient(a_lat * h, d_lat as int, 0x1_0000_0000_0000_0000 * FRAME_LIMIT);
        }
        let y: i128 = h - y_up;
        let limit: i128 = FRAME_LIMIT as i128;
        if -limit <= x && x <= limit && -limit <= y && y <= limit {
            match Pt2D::new(x as i64, y as i64) {
                Some(p) => Ok(p),
                None => Err(TransformError::OutOfRange),
            }
        } else {
            Err(TransformError::OutOfRange)
        }
    }
}

impl Pt2D {
    /// The geographic position of this point under `b`.
    pub fn to_gps(&self, b: &GPSBounds) -> (r: Result<LonLat, TransformError>)
        ensures
            match r {
                Ok(g) => to_gps(b@, self@) == Ok::<Position, TransformError>(g@),
                Err(e) => to_gps(b@, self@) == Err::<Position, TransformError>(e),
            },
    {
        proof {
            use_type_invariant(b);
        }
        if b.is_degenerate() {
            return Err(TransformError::DegenerateBounds);
        }
        let px: i128 = self.x() as i128;
        let py: i128 = self.y() as i128;
        if b.represents_world_space {
            return Ok(LonLat { longitude: self.x(), latitude: self.y() });
        }
        let w: i128 = b.width as i128;
        let h: i128 = b.height as i128;
        let d_lon: i128 = b.max_lon as i128 - b.min_lon as i128;
        let d_lat: i128 = b.max_lat as i128 - b.min_lat as i128;
        proof {
            lemma_product_bound(
                px as int,
                d_lon as int,
                FRAME_LIMIT as int,
                0x1_0000_0000_0000_0000,
            );
            lemma_product_bound(
                h - py,
                d_lat as int,
                2 * FRAME_LIMIT,
                0x1_0000_0000_0000_0000,
            );
        }
        let q_lon: i128 = floor_div(px * d_lon, w);
        let q_lat: i128 = floor_div((h - py) * d_lat, h);
        proof {
            bound_quotient(px * d_lon, w as int, 0x4000_0000_0000_0000_0000_0000);
            bound_quotient((h - py) * d_lat, h as int, 0x8000_0000_0000_0000_0000_0000);
        }
        let lon: i128 = b.min_lon as i128 + q_lon;
        let lat: i128 = b.min_lat as i128 + q_lat;
        if i64::MIN as i128 <= lon && lon <= i64::MAX as i128 && i64::MIN as i128 <= lat && lat
            <= i64::MAX as i128 {
            Ok(LonLat { longitude: lon as i64, latitude: lat as i64 })
        } else {
            Err(TransformError::OutOfRange)
        }
    }
}

/// A quotient by a positive divisor is no larger in magnitude than the
/// dividend's bound.
proof fn bound_quotient(n: int, d: int, m: int)
    requires
        d > 0,
        -m <= n <= m,
    ensures
        -m <= n / d <= m,
{
    lemma_fundamental_div_mod(n, d);
    lemma_mod_bound(n, d);
    let q = n / d;
    let r = n % d;
    assert(-m <= q <= m) by (nonlinear_arith)
        requires
            n == d * q + r,
            0 <= r < d,
            d > 0,
            -m <= n <= m,
    ;
}

/// Scaling `a` from a span of `d` onto a span of `w` and back, rounding down
/// both times, loses less than one unit of each span.
proof fn lemma_scale_round_trip(a: int, d: int, w: int)
    requires
        0 <= a <= d,
        d > 0,
        w > 0,
    ensures
        0 <= (a * w) / d <= w,
        (((a * w) / d) * d) / w <= a,
        (a - (((a * w) / d) * d) / w) * w < d + w,
{
    let x = (a * w) / d;
    let r1 = (a * w) % d;
    lemma_fundamental_div_mod(a * w, d);
    lemma_mod_bound(a * w, d);
    assert(a * w == d * x + r1);
    assert(a * w >= 0 && a * w <= d * w) by (nonlinear_arith)
        requires
            0 <= a <= d,
            w > 0,
    ;
    assert(0 <= x <= w) by (nonlinear_arith)
        requires
            a * w == d * x + r1,
            0 <= r1 < d,
            0 <= a * w <= d * w,
            d > 0,
    ;
    let g = (x * d) / w;
    let r2 = (x * d) % w;
    lemma_fundamental_div_mod(x * d, w);
    lemma_mod_bound(x * d, w);
    assert(x * d == w * g + r2);
    assert(g <= a) by (nonlinear_arith)
        requires
            x * d == w * g + r2,
            a * w == d * x + r1,
            0 <= r1,
            0 <= r2,
            w > 0,
    ;
    assert((a - g) * w < d + w) by (nonlinear_arith)
        requires
            x * d == w * g + r2,
            a * w == d * x + r1,
            r1 < d,
            r2 < w,
    ;
}

/// Projecting a position of the box onto the local frame and back gives
/// the position again, short of less than one step of the frame and one of
/// the geographic grid: the position found is never beyond the true one,
/// and falls short of it by less than `1 + span / extent` units on either
/// axis. Under world-space bounds the round trip is exact.
pub proof fn lemma_round_trip(b: Bounds, g: Position)
    requires
        b.wf(),
        !b.degenerate(),
        b.contains(g),
        b.world_space ==> in_frame(Point { x: g.lon, y: g.lat }),
    ensures
        to_local(b, g) is Ok,
        to_gps(b, to_local(b, g)->Ok_0) is Ok,
        ({
            let back = to_gps(b, to_local(b, g)->Ok_0)->Ok_0;
            if b.world_space {
                back == g
            } else {
                &&& back.lon <= g.lon
                &&& (g.lon - back.lon) * b.width < (b.max_lon - b.min_lon) + b.width
                &&& back.lat <= g.lat
                &&& (g.lat - back.lat) * b.height < (b.max_lat - b.min_lat) + b.height
            }
        }),
{
    if !b.world_space {
        lemma_scale_round_trip(g.lon - b.min_lon, b.max_lon - b.min_lon, b.width);
        lemma_scale_round_trip(g.lat - b.min_lat, b.max_lat - b.min_lat, b.height);
        let p = b.project(g);
        assert(0 <= p.x <= b.width);
        assert(0 <= p.y <= b.height);
        assert(in_frame(p));
        let back = b.unproject(p);
        assert(b.height - p.y == ((g.lat - b.min_lat) * b.height) / (b.max_lat - b.min_lat));
        assert(b.min_lon <= back.lon <= g.lon) by {
            assert(back.lon - b.min_lon >= 0) by (nonlinear_arith)
                requires
                    back.lon - b.min_lon == (p.x * (b.max_lon - b.min_lon)) / b.width,
                    p.x >= 0,
                    b.max_lon - b.min_lon > 0,
                    b.width > 0,
            ;
        }
        assert(b.min_lat <= back.lat <= g.lat) by {
            assert(back.lat - b.min_lat >= 0) by (nonlinear_arith)
                requires
                    back.lat - b.min_lat == ((b.height - p.y) * (b.max_lat - b.min_lat))
                        / b.height,
                    b.height - p.y >= 0,
                    b.max_lat - b.min_lat > 0,
                    b.height > 0,
            ;
        }
    }
}

} // verus!
