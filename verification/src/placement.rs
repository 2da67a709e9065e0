//! Where the surface goes on an output, and how large it is.
use crate::app_config::{CircleAnchor, CircleConfig, FitMode, Mode};
use crate::single::{clamped, zero, Single, ONE};
use vstd::prelude::*;

verus! {

/// 0.35
pub const DEFAULT_INNER_RADIUS: u32 = 0x3eb3_3333;

/// 0.95
pub const MAX_INNER_RADIUS: u32 = 0x3f73_3333;

/// `[circle]` with every default filled in.
#[derive(Clone, Copy, Debug, PartialEq, Eq)]
pub struct CircleGeom {
    /// Surface edge in logical pixels, before it is cut down to the output.
    pub diameter: u32,
    /// Fraction of the radius the bars start at: the hole in the middle.
    pub inner_radius: Single,
    pub inner_alpha: Single,
    pub outer_alpha: Single,
    pub anchor: CircleAnchor,
    /// Distance from the anchored edges, logical pixels.
    pub margin: (u32, u32),
}

/// An optional value, or what stands in for it.
pub open spec fn or_else<T>(x: Option<T>, d: T) -> T {
    match x {
        Some(v) => v,
        None => d,
    }
}

/// The geometry that a `[circle]` section stands for.
pub open spec fn geometry(c: CircleConfig) -> CircleGeom {
    let d = or_else(c.diameter, 520u32);
    CircleGeom {
        diameter: if d < 16 {
            16
        } else {
            d
        },
        inner_radius: clamped(
            or_else(c.inner_radius, Single { bits: DEFAULT_INNER_RADIUS }),
            zero(),
            Single { bits: MAX_INNER_RADIUS },
        ),
        inner_alpha: clamped(
            or_else(c.inner_alpha, Single { bits: ONE }),
            zero(),
            Single { bits: ONE },
        ),
        outer_alpha: clamped(
            or_else(c.outer_alpha, Single { bits: ONE }),
            zero(),
            Single { bits: ONE },
        ),
        anchor: or_else(c.anchor, CircleAnchor::Center),
        margin: (or_else(c.margin_x, 0u32), or_else(c.margin_y, 0u32)),
    }
}

/// A `[circle]` section that sets nothing.
pub open spec fn bare_circle() -> CircleConfig {
    CircleConfig {
        diameter: None,
        inner_radius: None,
        inner_alpha: None,
        outer_alpha: None,
        anchor: None,
        bars: None,
        margin_x: None,
        margin_y: None,
    }
}

/// The room beside something `d` wide on an edge `n` long.
pub open spec fn room(n: u32, d: u32) -> int {
    if n > d {
        n - d
    } else {
        0
    }
}

/// A count of pixels as the protocol carries it, in 32 bits with a sign.
pub open spec fn pixels(n: u32) -> int {
    if n > i32::MAX {
        n - 0x1_0000_0000
    } else {
        n as int
    }
}

/// Which edge an axis is measured from.
pub enum Side {
    /// The left or the top.
    Near,
    Middle,
    /// The right or the bottom.
    Far,
}

pub open spec fn side_x(a: CircleAnchor) -> Side {
    match a {
        CircleAnchor::Left | CircleAnchor::TopLeft | CircleAnchor::BottomLeft => Side::Near,
        CircleAnchor::Right | CircleAnchor::TopRight | CircleAnchor::BottomRight => Side::Far,
        _ => Side::Middle,
    }
}

pub open spec fn side_y(a: CircleAnchor) -> Side {
    match a {
        CircleAnchor::Top | CircleAnchor::TopLeft | CircleAnchor::TopRight => Side::Near,
        CircleAnchor::Bottom | CircleAnchor::BottomLeft | CircleAnchor::BottomRight => Side::Far,
        _ => Side::Middle,
    }
}

/// How far along an axis with `free` pixels of room the circle would start.
pub open spec fn wanted(side: Side, free: int, margin: int) -> int {
    match side {
        Side::Near => margin,
        Side::Middle => free / 2,
        Side::Far => free - margin,
    }
}

/// `n` brought into `0..=free`.
pub open spec fn within(n: int, free: int) -> int {
    if n < 0 {
        0
    } else if n > free {
        free
    } else {
        n
    }
}

/// Where along an axis the circle starts.
pub open spec fn margin_at(side: Side, free: int, margin: int) -> int {
    within(wanted(side, free, margin), free)
}

impl CircleGeom {
    /// The room on the output, and what is left of it behind a far margin,
    /// fit the 32 bits with a sign that margins are calculated in.
    pub open spec fn placeable(self, d: u32, w: u32, h: u32) -> bool {
        &&& room(w, d) <= i32::MAX
        &&& room(h, d) <= i32::MAX
        &&& side_x(self.anchor) is Far ==> room(w, d) - pixels(self.margin.0) <= i32::MAX
        &&& side_y(self.anchor) is Far ==> room(h, d) - pixels(self.margin.1) <= i32::MAX
    }

    /// The margins from the top and from the left.
    pub open spec fn margins(self, d: u32, w: u32, h: u32) -> (int, int) {
        (
            margin_at(side_y(self.anchor), room(h, d), pixels(self.margin.1)),
            margin_at(side_x(self.anchor), room(w, d), pixels(self.margin.0)),
        )
    }

    /// The geometry for a `[circle]` section, or for none.
    pub fn from_config(c: Option<&CircleConfig>) -> (r: CircleGeom)
        ensures
            r == geometry(
                match c {
                    Some(config) => *config,
                    None => bare_circle(),
                },
            ),
    {
        let given = match c {
            Some(config) => CircleConfig {
                diameter: config.diameter,
                inner_radius: config.inner_radius,
                inner_alpha: config.inner_alpha,
                outer_alpha: config.outer_alpha,
                anchor: config.anchor,
                bars: config.bars,
                margin_x: config.margin_x,
                margin_y: config.margin_y,
            },
            None => CircleConfig {
                diameter: None,
                inner_radius: None,
                inner_alpha: None,
                outer_alpha: None,
                anchor: None,
                bars: None,
                margin_x: None,
                margin_y: None,
            },
        };
        let diameter: u32 = given.diameter.unwrap_or(520);
        let nought = Single { bits: 0 };
        let one = Single { bits: ONE };
        CircleGeom {
            diameter: if diameter < 16 {
                16
            } else {
                diameter
            },
            inner_radius: given.inner_radius.unwrap_or(
                Single { bits: DEFAULT_INNER_RADIUS },
            ).clamp_to(nought, Single { bits: MAX_INNER_RADIUS }),
            inner_alpha: given.inner_alpha.unwrap_or(one).clamp_to(nought, one),
            outer_alpha: given.outer_alpha.unwrap_or(one).clamp_to(nought, one),
            anchor: given.anchor.unwrap_or(CircleAnchor::Center),
            margin: (given.margin_x.unwrap_or(0), given.margin_y.unwrap_or(0)),
        }
    }

    /// Top and left margins that put a circle `d` wide where the anchor says
    /// on an output of `w` by `h`.
    pub fn margins_for(&self, d: u32, w: u32, h: u32) -> (r: (i32, i32))
        requires
            self.placeable(d, w, h),
        ensures
            (r.0 as int, r.1 as int) == self.margins(d, w, h),
    {
        let mx: i64 = signed_pixels(self.margin.0);
        let my: i64 = signed_pixels(self.margin.1);
        let free_w: i64 = if w > d {
            (w - d) as i64
        } else {
            0
        };
        let free_h: i64 = if h > d {
            (h - d) as i64
        } else {
            0
        };
        let left: i64 = match self.anchor {
            CircleAnchor::Left | CircleAnchor::TopLeft | CircleAnchor::BottomLeft => mx,
            CircleAnchor::Right | CircleAnchor::TopRight | CircleAnchor::BottomRight => free_w - mx,
            _ => free_w / 2,
        };
        let top: i64 = match self.anchor {
            CircleAnchor::Top | CircleAnchor::TopLeft | CircleAnchor::TopRight => my,
            CircleAnchor::Bottom | CircleAnchor::BottomLeft | CircleAnchor::BottomRight => free_h
                - my,
            _ => free_h / 2,
        };
        (clamp(top, free_h) as i32, clamp(left, free_w) as i32)
    }

    /// The circle's edge on an output: the diameter, cut down to fit it.
    pub open spec fn edge(self, w: u32, h: u32) -> u32 {
        let d = if self.diameter < w {
            self.diameter
        } else {
            w
        };
        let e = if d < h {
            d
        } else {
            h
        };
        if e < 1 {
            1
        } else {
            e
        }
    }
}

fn clamp(n: i64, free: i64) -> (r: i64)
    requires
        free >= 0,
    ensures
        r == within(n as int, free as int),
{
    if n < 0 {
        0
    } else if n > free {
        free
    } else {
        n
    }
}

/// A count of pixels as the protocol carries it.
pub(crate) fn signed_pixels(n: u32) -> (r: i64)
    ensures
        r == pixels(n),
{
    if n > 0x7fff_ffff {
        n as i64 - 0x1_0000_0000
    } else {
        n as i64
    }
}

/// Which edges of the output the surface is tied to.
#[derive(Clone, Copy, Debug, PartialEq, Eq, Structural)]
pub enum Anchored {
    Bottom,
    TopLeft,
}

/// What to ask the compositor for.
#[derive(Clone, Copy, Debug, PartialEq, Eq)]
pub struct Placement {
    pub width: u32,
    pub height: u32,
    pub anchored: Anchored,
    /// Distances from the top and from the left, where they are set.
    pub margin: Option<(i32, i32)>,
}

/// The band of an output that bars can reach, given how far up they go.
pub open spec fn band(reach: u32, height: u32) -> u32 {
    if reach < 1 {
        1
    } else if reach > height {
        height
    } else {
        reach
    }
}

/// A count of pixels as the protocol carries it.
pub open spec fn as_signed(n: u32) -> i32 {
    pixels(n) as i32
}

/// Where a surface goes in each mode.
pub open spec fn placement(
    mode: Mode,
    circle: CircleGeom,
    w: u32,
    h: u32,
    reach: u32,
    curve_box: Option<(u32, u32, u32, u32)>,
) -> Placement {
    match mode {
        Mode::Bars => Placement {
            width: w,
            height: band(reach, h),
            anchored: Anchored::Bottom,
            margin: None,
        },
        Mode::Circle => {
            let d = circle.edge(w, h);
            let m = circle.margins(d, w, h);
            Placement {
                width: d,
                height: d,
                anchored: Anchored::TopLeft,
                margin: Some((m.0 as i32, m.1 as i32)),
            }
        },
        Mode::Curve => match curve_box {
            Some(b) => Placement {
                width: b.2,
                height: b.3,
                anchored: Anchored::TopLeft,
                margin: Some((as_signed(b.1), as_signed(b.0))),
            },
            None => Placement { width: w, height: h, anchored: Anchored::TopLeft, margin: None },
        },
    }
}

/// The surface for an output of `w` by `h`.
///
/// `reach` is how many rows a full-volume bar takes, and matters to bars alone;
/// `curve_box` is the part of the output that a curve covers (left, top, width,
/// height), or nothing for the whole of it, and matters to a curve alone.
pub fn place(
    mode: Mode,
    circle: &CircleGeom,
    w: u32,
    h: u32,
    reach: u32,
    curve_box: Option<(u32, u32, u32, u32)>,
) -> (r: Placement)
    requires
        mode == Mode::Bars ==> h >= 1,
        mode == Mode::Circle ==> circle.placeable(circle.edge(w, h), w, h),
    ensures
        r == placement(mode, *circle, w, h, reach, curve_box),
{
    match mode {
        Mode::Bars => {
            let rows: u32 = if reach < 1 {
                1
            } else if reach > h {
                h
            } else {
                reach
            };
            Placement { width: w, height: rows, anchored: Anchored::Bottom, margin: None }
        },
        Mode::Circle => {
            let mut d: u32 = circle.diameter;
            if w < d {
                d = w;
            }
            if h < d {
                d = h;
            }
            if d < 1 {
                d = 1;
            }
            assert(d == circle.edge(w, h));
            let m = circle.margins_for(d, w, h);
            Placement { width: d, height: d, anchored: Anchored::TopLeft, margin: Some(m) }
        },
        Mode::Curve => match curve_box {
            Some(b) => {
                let top: i32 = signed_pixels(b.1) as i32;
                let left: i32 = signed_pixels(b.0) as i32;
                Placement {
                    width: b.2,
                    height: b.3,
                    anchored: Anchored::TopLeft,
                    margin: Some((top, left)),
                }
            },
            None => Placement { width: w, height: h, anchored: Anchored::TopLeft, margin: None },
        },
    }
}

/// The size of the wallpaper that is cropped to cover the output, or `None`
/// where it is taken as already output-shaped: without a readable size, or
/// with nothing to scale, there is nothing to crop against.
pub open spec fn cropped(
    fit: FitMode,
    image: Option<(u32, u32)>,
    output: (u32, u32),
) -> Option<(u32, u32)> {
    match image {
        Some(size) => if fit == FitMode::Cover && size.0 > 0 && size.1 > 0 && output.0 > 0
            && output.1 > 0 {
            Some(size)
        } else {
            None
        },
        None => None,
    }
}

/// The size of the wallpaper that is cropped to cover the output.
pub fn crop(fit: FitMode, image: Option<(u32, u32)>, output: (u32, u32)) -> (r: Option<(u32, u32)>)
    ensures
        r == cropped(fit, image, output),
{
    match image {
        Some(size) => if fit == FitMode::Cover && size.0 > 0 && size.1 > 0 && output.0 > 0
            && output.1 > 0 {
            Some(size)
        } else {
            None
        },
        None => None,
    }
}

/// No margin, however large, pushes a circle off the output it is placed on.
pub proof fn a_circle_stays_on_the_output(circle: CircleGeom, w: u32, h: u32)
    requires
        1 <= w <= i32::MAX,
        1 <= h <= i32::MAX,
        circle.placeable(circle.edge(w, h), w, h),
    ensures
        ({
            let p = placement(Mode::Circle, circle, w, h, 0, None);
            let m = p.margin->0;
            &&& p.width == p.height
            &&& 0 <= m.0
            &&& m.0 + p.height <= h
            &&& 0 <= m.1
            &&& m.1 + p.width <= w
        }),
{
    let d = circle.edge(w, h);
    assert(1 <= d && d <= w && d <= h);
    assert(0 <= room(w, d) == w - d);
    assert(0 <= room(h, d) == h - d);
}

/// An anchor that centres an axis ignores that axis's margin.
pub proof fn a_centred_axis_ignores_its_margin(a: CircleGeom, b: CircleGeom, d: u32, w: u32, h: u32)
    requires
        a.anchor == b.anchor,
    ensures
        side_x(a.anchor) is Middle ==> a.margins(d, w, h).1 == b.margins(d, w, h).1,
        side_y(a.anchor) is Middle ==> a.margins(d, w, h).0 == b.margins(d, w, h).0,
{
}

/// The band of bars is never empty and never taller than the output.
pub proof fn the_band_fits(reach: u32, height: u32)
    requires
        height >= 1,
    ensures
        1 <= band(reach, height) <= height,
{
}

/// Only a wallpaper that covers the output is cropped, by its own size, and
/// only where nothing about either size is nought.
pub proof fn a_covering_wallpaper_is_cropped_by_its_size(image: (u32, u32), output: (u32, u32))
    ensures
        image.0 * image.1 > 0 && output.0 * output.1 > 0 ==> cropped(
            FitMode::Cover,
            Some(image),
            output,
        ) == Some(image),
        image.0 * image.1 == 0 || output.0 * output.1 == 0 ==> cropped(
            FitMode::Cover,
            Some(image),
            output,
        ) is None,
        cropped(FitMode::Stretch, Some(image), output) is None,
        cropped(FitMode::Cover, None, output) is None,
{
    let (a, b, c, d) = (image.0 as int, image.1 as int, output.0 as int, output.1 as int);
    assert(a * b > 0 <==> a > 0 && b > 0) by (nonlinear_arith)
        requires
            a >= 0,
            b >= 0,
    ;
    assert(c * d > 0 <==> c > 0 && d > 0) by (nonlinear_arith)
        requires
            c >= 0,
            d >= 0,
    ;
}

/// A circle keeps what its section sets, as far as that leaves something to
/// see: at least sixteen pixels across, a hole of at most 0.95 of the radius,
/// opacities up to one.
pub proof fn a_circle_keeps_what_fits(c: CircleConfig)
    ensures
        geometry(c).diameter >= 16,
        c.diameter matches Some(d) && d >= 16 ==> geometry(c).diameter == c.diameter->0,
        c.diameter is None ==> geometry(c).diameter == 520,
        c.inner_radius matches Some(r) && c.inner_radius->0.bits <= 0x3f73_3333
            ==> geometry(c).inner_radius == c.inner_radius->0,
        c.inner_radius matches Some(r) && 0x3f73_3333 < c.inner_radius->0.bits <= 0x7f80_0000
            ==> geometry(c).inner_radius.bits == 0x3f73_3333,
        c.inner_radius matches Some(r) && 0x8000_0000 < c.inner_radius->0.bits <= 0xff80_0000
            ==> geometry(c).inner_radius.bits == 0,
        c.inner_radius is None ==> geometry(c).inner_radius.bits == 0x3eb3_3333,
        c.inner_alpha matches Some(a) && c.inner_alpha->0.bits <= 0x3f80_0000
            ==> geometry(c).inner_alpha == c.inner_alpha->0,
        c.outer_alpha matches Some(a) && c.outer_alpha->0.bits <= 0x3f80_0000
            ==> geometry(c).outer_alpha == c.outer_alpha->0,
        c.inner_alpha matches Some(a) && 0x3f80_0000 < c.inner_alpha->0.bits <= 0x7f80_0000
            ==> geometry(c).inner_alpha.bits == 0x3f80_0000,
        c.outer_alpha matches Some(a) && 0x3f80_0000 < c.outer_alpha->0.bits <= 0x7f80_0000
            ==> geometry(c).outer_alpha.bits == 0x3f80_0000,
        c.inner_alpha matches Some(a) && 0x8000_0000 < c.inner_alpha->0.bits <= 0xff80_0000
            ==> geometry(c).inner_alpha.bits == 0,
        c.outer_alpha matches Some(a) && 0x8000_0000 < c.outer_alpha->0.bits <= 0xff80_0000
            ==> geometry(c).outer_alpha.bits == 0,
        c.inner_alpha is None ==> geometry(c).inner_alpha.bits == 0x3f80_0000,
        c.outer_alpha is None ==> geometry(c).outer_alpha.bits == 0x3f80_0000,
        c.anchor is None ==> geometry(c).anchor == CircleAnchor::Center,
        c.anchor is Some ==> geometry(c).anchor == c.anchor->0,
        c.margin_x matches Some(x) ==> geometry(c).margin.0 == x,
        c.margin_y matches Some(y) ==> geometry(c).margin.1 == y,
        c.margin_x is None ==> geometry(c).margin.0 == 0,
        c.margin_y is None ==> geometry(c).margin.1 == 0,
{
}

/// A circle stands off the edges that its anchor names by its margins, and in
/// the middle between the edges that it does not name, a pixel more at the
/// bottom or right where it cannot be helped.
pub proof fn a_circle_stands_where_its_anchor_says(g: CircleGeom, d: u32, w: u32, h: u32)
    requires
        d <= w <= i32::MAX,
        d <= h <= i32::MAX,
        g.margin.0 <= w - d,
        g.margin.1 <= h - d,
    ensures
        ({
            let (top, left) = g.margins(d, w, h);
            let (bottom, right) = (h - d - top, w - d - left);
            let (mx, my) = (g.margin.0, g.margin.1);
            let across = left <= right <= left + 1;
            let down = top <= bottom <= top + 1;
            match g.anchor {
                CircleAnchor::Center => across && down,
                CircleAnchor::Top => across && top == my,
                CircleAnchor::Bottom => across && bottom == my,
                CircleAnchor::Left => left == mx && down,
                CircleAnchor::Right => right == mx && down,
                CircleAnchor::TopLeft => left == mx && top == my,
                CircleAnchor::TopRight => right == mx && top == my,
                CircleAnchor::BottomLeft => left == mx && bottom == my,
                CircleAnchor::BottomRight => right == mx && bottom == my,
            }
        }),
{
}

/// A circle is as wide as its section says where the output has room, and as
/// the output's shorter edge where it has not.
pub proof fn a_circle_is_cut_down_to_the_output(g: CircleGeom, w: u32, h: u32)
    requires
        1 <= w,
        1 <= h,
        1 <= g.diameter,
    ensures
        g.edge(w, h) <= w && g.edge(w, h) <= h && g.edge(w, h) <= g.diameter,
        g.edge(w, h) == w || g.edge(w, h) == h || g.edge(w, h) == g.diameter,
{
}

/// Bars take the whole width along the bottom and the rows they reach; a circle
/// takes a square; a curve takes its box, that far from the top and the left,
/// or the whole output.
pub proof fn a_surface_covers_what_is_drawn(
    g: CircleGeom,
    w: u32,
    h: u32,
    reach: u32,
    b: (u32, u32, u32, u32),
)
    requires
        1 <= h,
        b.0 <= i32::MAX,
        b.1 <= i32::MAX,
    ensures
        ({
            let p = placement(Mode::Bars, g, w, h, reach, None);
            &&& p.width == w && p.anchored == Anchored::Bottom && p.margin is None
            &&& 1 <= reach <= h ==> p.height == reach
            &&& reach > h ==> p.height == h
            &&& reach == 0 ==> p.height == 1
        }),
        ({
            let p = placement(Mode::Curve, g, w, h, reach, Some(b));
            let m = p.margin->0;
            &&& p.width == b.2 && p.height == b.3 && p.anchored == Anchored::TopLeft
            &&& p.margin is Some && m.1 == b.0 && m.0 == b.1
        }),
        ({
            let p = placement(Mode::Curve, g, w, h, reach, None);
            p.width == w && p.height == h && p.anchored == Anchored::TopLeft && p.margin is None
        }),
        ({
            let p = placement(Mode::Circle, g, w, h, reach, None);
            p.width == g.edge(w, h) && p.height == p.width && p.anchored == Anchored::TopLeft
                && p.margin is Some
        }),
{
}

/// A count of pixels beyond the signed range wraps round, as 32 bits do.
pub proof fn pixels_wrap_as_bits_do(n: u32)
    ensures
        n < 0x8000_0000 ==> as_signed(n) == n,
        n >= 0x8000_0000 ==> as_signed(n) + 0x1_0000_0000 == n,
{
}

/// A margin that is larger than the room puts the circle at the far edge where
/// it counts from the near one, and at the near edge where it counts from the
/// far one.
pub proof fn a_large_margin_stops_at_the_edge(free: int, margin: int)
    requires
        0 <= free < margin,
    ensures
        margin_at(Side::Near, free, margin) == free,
        margin_at(Side::Far, free, margin) == 0,
        margin_at(Side::Middle, free, margin) == free / 2,
{
}

} // verus!
