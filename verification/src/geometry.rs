//! Places on the screen.

use vstd::prelude::*;

verus! {

/// Whether a number can be a coordinate.
pub open spec fn fits(x: int) -> bool {
    i32::MIN <= x <= i32::MAX
}

/// A length that is given for 96 dots per inch, at `dpi` dots per inch.
pub open spec fn scaled(v: int, dpi: int) -> int {
    v * dpi / 96
}

/// A quotient without its fraction.
pub open spec fn quotient(x: int, d: int) -> int {
    if x >= 0 {
        x / d
    } else {
        -((-x) / d)
    }
}

/// The number within the bounds that is nearest to `x`.
pub open spec fn within(x: int, low: int, high: int) -> int {
    if x < low {
        low
    } else if x > high {
        high
    } else {
        x
    }
}

/// The larger of two numbers.
pub open spec fn larger(a: int, b: int) -> int {
    if a >= b {
        a
    } else {
        b
    }
}

/// The smaller of two numbers.
pub open spec fn smaller(a: int, b: int) -> int {
    if a <= b {
        a
    } else {
        b
    }
}

/// A rectangle by its edges.
#[derive(Debug, Clone, Copy, PartialEq, Eq, Structural)]
pub struct Rect {
    pub left: i32,
    pub top: i32,
    pub right: i32,
    pub bottom: i32,
}

/// A rectangle by its edges, without limit.
#[verifier::ext_equal]
pub struct RectView {
    pub left: int,
    pub top: int,
    pub right: int,
    pub bottom: int,
}

impl View for Rect {
    type V = RectView;

    open spec fn view(&self) -> RectView {
        RectView {
            left: self.left as int,
            top: self.top as int,
            right: self.right as int,
            bottom: self.bottom as int,
        }
    }
}

impl RectView {
    /// Whether each edge can be a coordinate.
    pub open spec fn fits(self) -> bool {
        fits(self.left) && fits(self.top) && fits(self.right) && fits(self.bottom)
    }

    /// The height.
    pub open spec fn height(self) -> int {
        self.bottom - self.top
    }

    /// The width.
    pub open spec fn width(self) -> int {
        self.right - self.left
    }
}

/// A rectangle by a corner and its extent.
#[derive(Debug, Clone, Copy, PartialEq, Eq, Structural)]
pub struct Place {
    pub x: i32,
    pub y: i32,
    pub w: i32,
    pub h: i32,
}

/// A rectangle by a corner and its extent, without limit.
#[verifier::ext_equal]
pub struct PlaceView {
    pub x: int,
    pub y: int,
    pub w: int,
    pub h: int,
}

impl View for Place {
    type V = PlaceView;

    open spec fn view(&self) -> PlaceView {
        PlaceView { x: self.x as int, y: self.y as int, w: self.w as int, h: self.h as int }
    }
}

impl PlaceView {
    /// Whether each number can be a coordinate.
    pub open spec fn fits(self) -> bool {
        fits(self.x) && fits(self.y) && fits(self.w) && fits(self.h)
    }
}

/// A length that is given for 96 dots per inch, at `dpi` dots per inch.
pub fn scale(v: i32, dpi: i32) -> (r: i32)
    requires
        0 <= v,
        0 <= dpi,
        fits(scaled(v as int, dpi as int)),
    ensures
        r == scaled(v as int, dpi as int),
        0 <= r,
{
    assert(0 <= v * dpi <= 0x7fff_ffff * 0x7fff_ffff) by (nonlinear_arith)
        requires
            0 <= v <= 0x7fff_ffff,
            0 <= dpi <= 0x7fff_ffff,
    ;
    let n: u64 = v as u64 * dpi as u64;
    (n / 96) as i32
}

/// A larger length is no shorter at any resolution.
pub proof fn lemma_scaled_grows(a: int, b: int, dpi: int)
    requires
        0 <= a <= b,
        0 <= dpi,
    ensures
        0 <= scaled(a, dpi) <= scaled(b, dpi),
{
    assert(0 <= a * dpi <= b * dpi) by (nonlinear_arith)
        requires
            0 <= a <= b,
            0 <= dpi,
    ;
}

/// A quotient without its fraction.
pub fn divide(x: i64, d: i64) -> (r: i64)
    requires
        d > 0,
        x > i64::MIN,
    ensures
        r == quotient(x as int, d as int),
        x >= 0 ==> 0 <= r <= x,
        x < 0 ==> x <= r <= 0,
{
    proof {
        if x >= 0 {
            vstd::arithmetic::div_mod::lemma_div_nonincreasing(x as int, d as int);
            vstd::arithmetic::div_mod::lemma_div_pos_is_pos(x as int, d as int);
        } else {
            vstd::arithmetic::div_mod::lemma_div_nonincreasing(-(x as int), d as int);
            vstd::arithmetic::div_mod::lemma_div_pos_is_pos(-(x as int), d as int);
        }
    }
    if x >= 0 {
        (x as u64 / d as u64) as i64
    } else {
        let m: u64 = (-x) as u64;
        -((m / d as u64) as i64)
    }
}

/// The number within the bounds that is nearest to `x`.
pub fn clamp(x: i64, low: i64, high: i64) -> (r: i64)
    ensures
        r == within(x as int, low as int, high as int),
{
    if x < low {
        low
    } else if x > high {
        high
    } else {
        x
    }
}

/// A rectangle of the same extent with its corner at zero. None where there is
/// nothing in it.
pub fn local_rect(rc: &Rect) -> (r: Option<Rect>)
    requires
        fits(rc@.width()),
        fits(rc@.height()),
    ensures
        match r {
            Some(l) => rc@.width() > 0 && rc@.height() > 0 && l@ == (RectView {
                left: 0,
                top: 0,
                right: rc@.width(),
                bottom: rc@.height(),
            }),
            None => rc@.width() <= 0 || rc@.height() <= 0,
        },
{
    let w: i64 = rc.right as i64 - rc.left as i64;
    let h: i64 = rc.bottom as i64 - rc.top as i64;
    if w <= 0 || h <= 0 {
        None
    } else {
        Some(Rect { left: 0, top: 0, right: w as i32, bottom: h as i32 })
    }
}

/// A length at another resolution is the length times the resolution by 96, without
/// its fraction, and the length itself at 96 dots per inch.
pub proof fn law_lengths_scale(v: int, dpi: int)
    requires
        0 <= v,
        0 <= dpi,
    ensures
        96 * scaled(v, dpi) <= v * dpi < 96 * scaled(v, dpi) + 96,
        scaled(v, 96) == v,
        scaled(v, 192) == 2 * v,
{
}

/// A number is brought within bounds without need of anything but the bounds: it
/// stays where it is between them.
pub proof fn law_bounds_hold(x: int, low: int, high: int)
    requires
        low <= high,
    ensures
        low <= within(x, low, high) <= high,
        low <= x <= high ==> within(x, low, high) == x,
        x < low ==> within(x, low, high) == low,
        x > high ==> within(x, low, high) == high,
        larger(low, high) == high && larger(high, low) == high,
        smaller(low, high) == low && smaller(high, low) == low,
{
}

/// A quotient is without its fraction, and goes with the sign.
pub proof fn law_quotient_drops_the_fraction(q: int, r: int, d: int)
    requires
        0 <= q,
        0 <= r < d,
    ensures
        quotient(q * d + r, d) == q,
        quotient(-(q * d + r), d) == -q,
{
    vstd::arithmetic::div_mod::lemma_fundamental_div_mod_converse(q * d + r, d, q, r);
}

} // verus!
