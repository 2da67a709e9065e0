//! Walks along a path and a silhouette: which control points, which segment
//! and which direction each result is taken from.
//!
//! What is calculated from those lies with the caller.
use crate::scheme::{below, encoding_joins, encoding_of_one, join, Environment};
use crate::single::{less, nan, rank, total_rank, Single};
use crate::text::{chars, string_of, text_view, trim, trimmed};
use vstd::arithmetic::div_mod::{lemma_fundamental_div_mod, lemma_fundamental_div_mod_converse};
use vstd::prelude::*;
use vstd::utf8::encode_utf8;

verus! {

/// Resolution of the sampled horizon.
pub const HORIZON_BUCKETS: usize = 2048;

/// Dense points in each segment between two control points.
pub const PER_SEGMENT: usize = 16;

/// The least difference between one and the next number: a length no longer
/// than this has no direction.
pub const EPSILON: u32 = 0x3400_0000;

/// A control point on the image, from the top left, with the scale of the
/// bars there and, where it is given, the angle they lean at.
#[derive(Clone, Copy, Debug, PartialEq, Eq, Structural)]
pub struct Control {
    pub x: Single,
    pub y: Single,
    pub scale: Single,
    pub angle: Option<Single>,
}

/// One stretch of path, with every default filled in.
#[derive(Debug)]
pub struct PathSpec {
    pub controls: Vec<Control>,
    /// Exactly this many bars, rather than a share by length.
    pub bars: Option<u32>,
    /// Reach of a full-volume bar and its width, as fractions of the output.
    pub reach: Single,
    pub width: Single,
    pub flip: bool,
    pub upright: bool,
}

/// How the angle runs along a segment.
#[derive(Clone, Copy, Debug, PartialEq, Eq, Structural)]
pub enum Lean {
    /// Neither end sets one: the path decides.
    Path,
    /// One end sets it, and it holds for all of the segment.
    Held(Single),
    /// Both ends set one: from the first to the second.
    Blend(Single, Single),
}

/// How the angle runs from a control point to the next.
pub open spec fn lean_between(a: Option<Single>, b: Option<Single>) -> Lean {
    match (a, b) {
        (None, None) => Lean::Path,
        (Some(x), None) => Lean::Held(x),
        (None, Some(y)) => Lean::Held(y),
        (Some(x), Some(y)) => Lean::Blend(x, y),
    }
}

/// A dense point: the four control points its position is drawn from, how far
/// it is between the middle two, and how the angle runs there.
#[derive(Clone, Copy, Debug, PartialEq, Eq, Structural)]
pub struct Dense {
    pub before: usize,
    pub from: usize,
    pub to: usize,
    pub after: usize,
    /// So many steps out of those in a segment.
    pub step: usize,
    pub lean: Lean,
}

/// The dense point `step` steps into segment `i`.
///
/// The ends are doubled, not wrapped: the path is open.
pub open spec fn dense_point(controls: Seq<Control>, i: int, step: int) -> Dense {
    Dense {
        before: if i > 0 {
            (i - 1) as usize
        } else {
            0
        },
        from: i as usize,
        to: (i + 1) as usize,
        after: if i + 2 < controls.len() {
            (i + 2) as usize
        } else {
            (controls.len() - 1) as usize
        },
        step: step as usize,
        lean: lean_between(controls[i].angle, controls[i + 1].angle),
    }
}

/// The last dense point, which is the last control point itself.
pub open spec fn last_point(controls: Seq<Control>) -> Dense {
    let n = (controls.len() - 1) as usize;
    Dense {
        before: n,
        from: n,
        to: n,
        after: n,
        step: 0,
        lean: match controls.last().angle {
            Some(a) => Lean::Held(a),
            None => Lean::Path,
        },
    }
}

fn lean(a: Option<Single>, b: Option<Single>) -> (r: Lean)
    ensures
        r == lean_between(a, b),
{
    match (a, b) {
        (None, None) => Lean::Path,
        (Some(x), None) => Lean::Held(x),
        (None, Some(y)) => Lean::Held(y),
        (Some(x), Some(y)) => Lean::Blend(x, y),
    }
}

/// `out` is the dense points along a path: each segment in `per_segment`
/// steps, and then the last control point.
pub open spec fn densified(controls: Seq<Control>, per_segment: int, out: Seq<Dense>) -> bool {
    &&& out.len() == (controls.len() - 1) * per_segment + 1
    &&& forall|k: int|
        0 <= k < (controls.len() - 1) * per_segment ==> #[trigger] out[k] == dense_point(
            controls,
            k / per_segment,
            k % per_segment,
        )
    &&& out.last() == last_point(controls)
}

/// The dense points along a path.
pub fn densify(controls: &[Control], per_segment: usize) -> (out: Vec<Dense>)
    requires
        controls@.len() >= 1,
        (controls@.len() - 1) * per_segment + 1 <= usize::MAX,
    ensures
        densified(controls@, per_segment as int, out@),
{
    let n: usize = controls.len();
    let mut out: Vec<Dense> = Vec::new();
    assert(0 * per_segment == 0) by (nonlinear_arith);
    for i in 0..n - 1
        invariant
            n == controls@.len() >= 1,
            (n - 1) * per_segment + 1 <= usize::MAX,
            out@.len() == i * per_segment,
            forall|k: int|
                0 <= k < i * per_segment ==> #[trigger] out@[k] == dense_point(
                    controls@,
                    k / per_segment as int,
                    k % per_segment as int,
                ),
    {
        let before: usize = if i > 0 {
            i - 1
        } else {
            0
        };
        let after: usize = if i + 1 < n - 1 {
            i + 2
        } else {
            n - 1
        };
        let angle = lean(controls[i].angle, controls[i + 1].angle);
        for step in 0..per_segment
            invariant
                n == controls@.len() >= 1,
                i < n - 1,
                before == if i > 0 {
                    i - 1
                } else {
                    0
                },
                after == if i + 2 < n {
                    i + 2
                } else {
                    n - 1
                },
                angle == lean_between(controls@[i as int].angle, controls@[i + 1].angle),
                out@.len() == i * per_segment + step,
                forall|k: int|
                    0 <= k < i * per_segment + step ==> #[trigger] out@[k] == dense_point(
                        controls@,
                        k / per_segment as int,
                        k % per_segment as int,
                    ),
        {
            let ghost k = i * per_segment + step;
            proof {
                lemma_fundamental_div_mod_converse(
                    k,
                    per_segment as int,
                    i as int,
                    step as int,
                );
            }
            out.push(Dense { before, from: i, to: i + 1, after, step, lean: angle });
            assert(out@[k] == dense_point(controls@, i as int, step as int));
        }
        assert(i * per_segment + per_segment == (i + 1) * per_segment) by (nonlinear_arith);
    }
    let lean = match controls[n - 1].angle {
        Some(a) => Lean::Held(a),
        None => Lean::Path,
    };
    out.push(Dense { before: n - 1, from: n - 1, to: n - 1, after: n - 1, step: 0, lean });
    out
}

/// What a path's samples are taken from.
#[derive(Debug)]
pub enum Resampling {
    /// Too few points to have a direction: so many upright copies of the one
    /// point there is, or of the middle of the output where there is none.
    Copies { base: Option<Control>, count: u32 },
    /// So many samples along these dense points.
    Along { dense: Vec<Dense>, count: u32 },
}

/// There is always a sample.
pub open spec fn at_least_one(count: u32) -> u32 {
    if count < 1 {
        1
    } else {
        count
    }
}

/// `r` is what `count` samples of a path are taken from.
pub open spec fn resampled(controls: Seq<Control>, count: u32, r: Resampling) -> bool {
    match r {
        Resampling::Copies { base, count: n } => {
            &&& controls.len() < 2
            &&& n == at_least_one(count)
            &&& base == if controls.len() == 0 {
                None
            } else {
                Some(controls[0])
            }
        },
        Resampling::Along { dense, count: n } => {
            &&& controls.len() >= 2
            &&& n == at_least_one(count)
            &&& densified(controls, PER_SEGMENT as int, dense@)
        },
    }
}

/// What `count` samples of a path are taken from.
pub fn resample(controls: &[Control], count: u32) -> (r: Resampling)
    requires
        controls@.len() >= 2 ==> (controls@.len() - 1) * PER_SEGMENT + 1 <= usize::MAX,
    ensures
        resampled(controls@, count, r),
{
    let n: u32 = if count < 1 {
        1
    } else {
        count
    };
    if controls.len() == 0 {
        Resampling::Copies { base: None, count: n }
    } else if controls.len() < 2 {
        Resampling::Copies { base: Some(controls[0]), count: n }
    } else {
        Resampling::Along { dense: densify(controls, PER_SEGMENT), count: n }
    }
}

/// The walk stops at segment `c`: it is the last one, or its end is not short
/// of the target.
pub open spec fn stops(acc: Seq<Single>, target: Single, c: int) -> bool {
    c + 2 >= acc.len() || !less(acc[c + 1], target)
}

/// The first segment at or after `from` at which the walk stops.
pub open spec fn segment_from(acc: Seq<Single>, target: Single, from: int) -> int
    decreases (if from < acc.len() { acc.len() - from } else { 0 }),
{
    if stops(acc, target, from) {
        from
    } else {
        segment_from(acc, target, from + 1)
    }
}

/// Where the walk stands for target `i`: it goes on from where it stood for
/// the target before.
pub open spec fn cursor(acc: Seq<Single>, targets: Seq<Single>, i: int) -> int
    decreases i,
{
    segment_from(
        acc,
        targets[i],
        if i <= 0 {
            0
        } else {
            cursor(acc, targets, i - 1)
        },
    )
}

/// The segment that each target lies in, where `acc` holds the length of the
/// path up to each dense point.
pub fn segments(acc: &[Single], targets: &[Single]) -> (out: Vec<usize>)
    requires
        acc@.len() >= 2,
    ensures
        out@.len() == targets@.len(),
        forall|i: int|
            0 <= i < targets@.len() ==> #[trigger] out@[i] == cursor(acc@, targets@, i) && out@[i]
                + 1 < acc@.len(),
{
    let mut out: Vec<usize> = Vec::new();
    let n: usize = acc.len();
    let mut c: usize = 0;
    for i in 0..targets.len()
        invariant
            n == acc@.len() >= 2,
            c + 1 < n,
            c == if i == 0 {
                0
            } else {
                cursor(acc@, targets@, i - 1)
            },
            out@.len() == i,
            forall|j: int|
                0 <= j < i ==> #[trigger] out@[j] == cursor(acc@, targets@, j) && out@[j] + 1 < n,
    {
        let target = targets[i];
        while c < n - 2 && acc[c + 1].lt(target)
            invariant
                n == acc@.len() >= 2,
                c + 1 < n,
                cursor(acc@, targets@, i as int) == segment_from(acc@, target, c as int),
            decreases n - c,
        {
            c += 1;
        }
        assert(stops(acc@, target, c as int));
        out.push(c);
    }
    out
}

/// Targets that never fall back.
pub open spec fn never_falls(targets: Seq<Single>) -> bool {
    forall|i: int, j: int|
        0 <= i <= j < targets.len() ==> !nan(#[trigger] targets[i]) && rank(targets[i]) <= rank(
            #[trigger] targets[j],
        )
}

proof fn segment_skips(acc: Seq<Single>, low: Single, high: Single, from: int)
    requires
        !nan(high),
        !nan(low),
        rank(low) <= rank(high),
        0 <= from,
    ensures
        segment_from(acc, high, from) == segment_from(acc, high, segment_from(acc, low, from)),
    decreases (if from < acc.len() { acc.len() - from } else { 0 }),
{
    if !stops(acc, low, from) {
        assert(!stops(acc, high, from));
        segment_skips(acc, low, high, from + 1);
    }
}

/// One walk finds what a search from the start finds for each target, as long
/// as the targets never fall back.
pub proof fn walking_is_searching(acc: Seq<Single>, targets: Seq<Single>, i: int)
    requires
        never_falls(targets),
        0 <= i < targets.len(),
    ensures
        cursor(acc, targets, i) == segment_from(acc, targets[i], 0),
    decreases i,
{
    if i > 0 {
        walking_is_searching(acc, targets, i - 1);
        assert(!nan(targets[i - 1]) && !nan(targets[i]));
        assert(rank(targets[i - 1]) <= rank(targets[i]));
        segment_skips(acc, targets[i - 1], targets[i], 0);
    }
}

/// Where a bar points before it is turned over.
#[derive(Clone, Copy, Debug, PartialEq, Eq, Structural)]
pub enum Direction {
    /// At this angle.
    Angle(Single),
    /// Straight up.
    Up,
    /// At right angles to the path.
    Across,
}

/// Where a bar points: at its own angle, straight up where bars are upright or
/// the segment, `length` long, has no direction, else across the path.
pub open spec fn direction_of(angle: Option<Single>, upright: bool, length: Single) -> Direction {
    match angle {
        Some(a) => Direction::Angle(a),
        None => if upright || less(length, Single { bits: EPSILON }) || length == (Single {
            bits: EPSILON,
        }) {
            Direction::Up
        } else {
            Direction::Across
        },
    }
}

/// Where a bar points.
pub fn direction(angle: Option<Single>, upright: bool, length: Single) -> (r: Direction)
    ensures
        r == direction_of(angle, upright, length),
{
    match angle {
        Some(a) => Direction::Angle(a),
        None => if upright || length.lt(Single { bits: EPSILON }) || length == (Single {
            bits: EPSILON,
        }) {
            Direction::Up
        } else {
            Direction::Across
        },
    }
}

/// A silhouette's point: its place across the output and its height.
pub type Point = (Single, Single);

/// The points stand in order, left to right.
pub open spec fn left_to_right(pts: Seq<Point>) -> bool {
    forall|i: int, j: int|
        0 <= i < j < pts.len() ==> total_rank((#[trigger] pts[i]).0) <= total_rank(
            (#[trigger] pts[j]).0,
        )
}

/// Point `j` comes before point `i`.
pub open spec fn comes_before(pts: Seq<Point>, j: int, i: int) -> bool {
    total_rank(pts[j].0) < total_rank(pts[i].0) || (total_rank(pts[j].0) == total_rank(pts[i].0)
        && j < i)
}

/// `out` holds the points in order; points at one place keep theirs.
pub open spec fn ordered(pts: Seq<Point>, order: Seq<int>, out: Seq<Point>) -> bool {
    &&& order.len() == pts.len()
    &&& out.len() == pts.len()
    &&& forall|k: int|
        0 <= k < order.len() ==> 0 <= #[trigger] order[k] < pts.len() && out[k] == pts[order[k]]
    &&& forall|k: int, l: int|
        0 <= k < l < order.len() ==> comes_before(pts, #[trigger] order[k], #[trigger] order[l])
}

/// `out` is the points in some order that runs from left to right.
pub open spec fn sorted(pts: Seq<Point>, out: Seq<Point>) -> bool {
    exists|order: Seq<int>| #[trigger] ordered(pts, order, out)
}

/// The points, left to right; points at one place keep their order.
pub fn sort_points(pts: &[Point]) -> (out: Vec<Point>)
    ensures
        sorted(pts@, out@),
        left_to_right(out@),
{
    let mut out: Vec<Point> = Vec::new();
    let ghost mut order: Seq<int> = Seq::empty();
    for i in 0..pts.len()
        invariant
            out@.len() == i,
            order.len() == i,
            forall|k: int|
                0 <= k < i ==> 0 <= #[trigger] order[k] < i && out@[k] == pts@[order[k]],
            forall|k: int, l: int|
                0 <= k < l < i ==> comes_before(pts@, #[trigger] order[k], #[trigger] order[l]),
    {
        let p = pts[i];
        let mut at: usize = i;
        while at > 0 && p.0.order() < out[at - 1].0.order()
            invariant
                p == pts@[i as int],
                at <= i == out@.len() == order.len(),
                forall|k: int|
                    0 <= k < i ==> 0 <= #[trigger] order[k] < i && out@[k] == pts@[order[k]],
                forall|k: int| at <= k < i ==> total_rank(p.0) < total_rank((#[trigger] out@[k]).0),
            decreases at,
        {
            at -= 1;
        }
        let ghost before = out@;
        let ghost old_order = order;
        proof {
            assert forall|k: int| 0 <= k < at implies comes_before(
                pts@,
                #[trigger] order[k],
                i as int,
            ) by {
                assert(out@[k] == pts@[order[k]]);
                if k < at - 1 {
                    assert(comes_before(pts@, order[k], order[at - 1]));
                }
                assert(out@[at - 1] == pts@[order[at - 1]]);
            }
            assert forall|k: int| at <= k < i implies comes_before(
                pts@,
                i as int,
                #[trigger] order[k],
            ) by {
                assert(out@[k] == pts@[order[k]]);
            }
        }
        out.insert(at, p);
        proof {
            order = order.insert(at as int, i as int);
            assert forall|k: int| 0 <= k < i + 1 implies 0 <= #[trigger] order[k] < i + 1
                && out@[k] == pts@[order[k]] by {
                if k < at {
                    assert(order[k] == old_order[k] && out@[k] == before[k]);
                } else if k > at {
                    assert(order[k] == old_order[k - 1] && out@[k] == before[k - 1]);
                }
            }
            assert forall|k: int, l: int| 0 <= k < l < i + 1 implies comes_before(
                pts@,
                #[trigger] order[k],
                #[trigger] order[l],
            ) by {
                let kk = if k < at {
                    k
                } else {
                    k - 1
                };
                let ll = if l < at {
                    l
                } else {
                    l - 1
                };
                if k != at {
                    assert(order[k] == old_order[kk]);
                }
                if l != at {
                    assert(order[l] == old_order[ll]);
                }
                if k != at && l != at {
                    assert(comes_before(pts@, old_order[kk], old_order[ll]));
                }
            }
        }
    }
    proof {
        assert(ordered(pts@, order, out@));
        assert forall|i: int, j: int| 0 <= i < j < out@.len() implies total_rank(
            (#[trigger] out@[i]).0,
        ) <= total_rank((#[trigger] out@[j]).0) by {
            assert(comes_before(pts@, order[i], order[j]));
            assert(out@[i] == pts@[order[i]]);
            assert(out@[j] == pts@[order[j]]);
        }
    }
    out
}

/// Where the horizon's height is taken from.
#[derive(Clone, Copy, Debug, PartialEq, Eq, Structural)]
pub enum Height {
    /// Beyond an end: as high as this point.
    Flat(usize),
    /// Between this point and the next.
    Between(usize),
}

/// The first point that is not left of `x`, or the last point.
pub open spec fn reached(pts: Seq<Point>, x: Single, from: int) -> int
    decreases (if from < pts.len() { pts.len() - from } else { 0 }),
{
    if from + 1 >= pts.len() || !less(pts[from].0, x) {
        from
    } else {
        reached(pts, x, from + 1)
    }
}

/// Where the height at `x` is taken from: flat before the first point and
/// past the last, else between the two points round `x`.
pub open spec fn height_at(pts: Seq<Point>, x: Single) -> Height {
    let k = reached(pts, x, 0);
    if less(pts[k].0, x) {
        Height::Flat((pts.len() - 1) as usize)
    } else if k == 0 {
        Height::Flat(0)
    } else {
        Height::Between((k - 1) as usize)
    }
}

proof fn reached_is_bounded(pts: Seq<Point>, x: Single, from: int)
    requires
        0 <= from < pts.len(),
    ensures
        from <= reached(pts, x, from) < pts.len(),
    decreases pts.len() - from,
{
    if !(from + 1 >= pts.len() || !less(pts[from].0, x)) {
        reached_is_bounded(pts, x, from + 1);
    }
}

proof fn reached_skips(pts: Seq<Point>, low: Single, high: Single, from: int)
    requires
        !nan(low),
        !nan(high),
        rank(low) <= rank(high),
        0 <= from,
    ensures
        reached(pts, high, from) == reached(pts, high, reached(pts, low, from)),
    decreases (if from < pts.len() { pts.len() - from } else { 0 }),
{
    if from + 1 < pts.len() && less(pts[from].0, low) {
        reached_skips(pts, low, high, from + 1);
    }
}

/// `heights` are where the horizon's heights at `xs` are taken from; fewer than
/// two points make no horizon.
pub open spec fn sampled(pts: Seq<Point>, xs: Seq<Single>, heights: Seq<Height>) -> bool {
    &&& heights.len() == if pts.len() < 2 {
        0
    } else {
        xs.len()
    }
    &&& forall|i: int| 0 <= i < heights.len() ==> #[trigger] heights[i] == height_at(pts, xs[i])
}

/// The horizon over `points` at each of `xs`, which run left to right: where
/// each height is taken from. The points may come in any order; with fewer
/// than two there is no horizon.
///
/// One walk serves all of `xs`, and each result is what a search of its own
/// would give.
pub fn horizon(points: &[Point], xs: &[Single]) -> (r: (Vec<Point>, Vec<Height>))
    requires
        never_falls(xs@),
    ensures
        sorted(points@, r.0@),
        left_to_right(r.0@),
        sampled(r.0@, xs@, r.1@),
{
    let pts = sort_points(points);
    let mut out: Vec<Height> = Vec::new();
    if pts.len() < 2 {
        return (pts, out);
    }
    let last: usize = pts.len() - 1;
    let mut k: usize = 0;
    for i in 0..xs.len()
        invariant
            never_falls(xs@),
            last == pts@.len() - 1,
            last >= 1,
            k <= last,
            i > 0 ==> k == reached(pts@, xs@[i - 1], 0),
            i == 0 ==> k == 0,
            out@.len() == i,
            forall|j: int| 0 <= j < i ==> #[trigger] out@[j] == height_at(pts@, xs@[j]),
    {
        let x = xs[i];
        proof {
            if i > 0 {
                assert(!nan(xs@[i - 1]) && !nan(xs@[i as int]));
                assert(rank(xs@[i - 1]) <= rank(xs@[i as int]));
                reached_skips(pts@, xs@[i - 1], x, 0);
            }
        }
        while k < last && pts[k].0.lt(x)
            invariant
                last == pts@.len() - 1,
                k <= last,
                reached(pts@, x, 0) == reached(pts@, x, k as int),
            decreases last - k,
        {
            k += 1;
        }
        let height = if pts[k].0.lt(x) {
            Height::Flat(last)
        } else if k == 0 {
            Height::Flat(0)
        } else {
            Height::Between(k - 1)
        };
        out.push(height);
    }
    (pts, out)
}

/// A horizon takes every height from one of its points, or from two
/// neighbours.
pub proof fn heights_come_from_the_points(pts: Seq<Point>, x: Single)
    requires
        2 <= pts.len() <= usize::MAX,
    ensures
        match height_at(pts, x) {
            Height::Flat(k) => k < pts.len(),
            Height::Between(k) => k + 1 < pts.len() && less(pts[k as int].0, x) && !less(
                pts[k + 1].0,
                x,
            ),
        },
{
    reached_is_bounded(pts, x, 0);
    reached_passes(pts, x, 0);
}

proof fn reached_passes(pts: Seq<Point>, x: Single, from: int)
    requires
        0 <= from < pts.len(),
    ensures
        forall|j: int| from <= j < reached(pts, x, from) ==> less((#[trigger] pts[j]).0, x),
    decreases pts.len() - from,
{
    if !(from + 1 >= pts.len() || !less(pts[from].0, x)) {
        reached_passes(pts, x, from + 1);
    }
}

/// `r` is the lowest of the heights from `lo` to `hi`, one of them; what is
/// not a number counts only where nothing else is there.
pub open spec fn lowest(heights: Seq<Single>, lo: int, hi: int, r: Single) -> bool {
    &&& exists|i: int| lo <= i <= hi && #[trigger] heights[i] == r
    &&& forall|i: int| lo <= i <= hi ==> !less(#[trigger] heights[i], r)
    &&& nan(r) ==> forall|i: int| lo <= i <= hi ==> nan(#[trigger] heights[i])
}

/// A place on the horizon, no further than its last.
pub open spec fn place_in(heights: Seq<Single>, at: usize) -> int {
    if at < heights.len() {
        at as int
    } else {
        heights.len() - 1
    }
}

/// `r` is the lowest that the horizon drops between two of its places, or
/// `None` where there is no horizon or nothing between them.
pub open spec fn floor_is(heights: Seq<Single>, lo: usize, hi: usize, r: Option<Single>) -> bool {
    match r {
        None => heights.len() < 2 || place_in(heights, lo) > place_in(heights, hi),
        Some(h) => heights.len() >= 2 && place_in(heights, lo) <= place_in(heights, hi) && lowest(
            heights,
            place_in(heights, lo),
            place_in(heights, hi),
            h,
        ),
    }
}

/// The lowest that the horizon drops between two of its places, or `None`
/// where there is no horizon.
pub fn horizon_floor(heights: &[Single], lo: usize, hi: usize) -> (r: Option<Single>)
    requires
        place_in(heights@, lo) <= place_in(heights@, hi) + 1,
    ensures
        floor_is(heights@, lo, hi, r),
{
    let n: usize = heights.len();
    if n < 2 {
        return None;
    }
    let first: usize = if lo < n {
        lo
    } else {
        n - 1
    };
    let last: usize = if hi < n {
        hi
    } else {
        n - 1
    };
    if first > last {
        return None;
    }
    let mut best = heights[first];
    let mut i: usize = first;
    while i < last
        invariant
            first <= i <= last < n == heights@.len(),
            lowest(heights@, first as int, i as int, best),
        decreases last - i,
    {
        i += 1;
        let h = heights[i];
        let ghost was = best;
        let unknown = best.bits % 0x8000_0000 > 0x7f80_0000;
        if h.lt(best) || unknown {
            best = h;
        }
        proof {
            assert(heights@[i as int] == h);
            if best == was {
                let j = choose|j: int| first <= j <= i - 1 && #[trigger] heights@[j] == was;
                assert(heights@[j] == best);
            }
            assert forall|j: int| first <= j <= i implies !less(
                #[trigger] heights@[j],
                best,
            ) by {
                if j < i {
                    assert(!less(heights@[j], was));
                }
            }
        }
    }
    Some(best)
}

/// The file that names the current wallpaper: below the state directory, or
/// below the home directory's; `None` where neither is known.
pub open spec fn wallpaper_record(env: Environment) -> Option<Seq<u8>> {
    let file = encode_utf8("caelestia/wallpaper/path.txt"@);
    match env.state_home {
        Some(dir) => Some(below(dir@, file)),
        None => match env.home {
            Some(home) => Some(below(below(home@, encode_utf8(".local/state"@)), file)),
            None => None,
        },
    }
}

/// The file that names the current wallpaper.
pub fn current_wallpaper_file(env: &Environment) -> (r: Option<Vec<u8>>)
    ensures
        crate::frame::bytes_view(r) == wallpaper_record(*env),
{
    match &env.state_home {
        Some(dir) => Some(join(dir.as_slice(), "caelestia/wallpaper/path.txt")),
        None => match &env.home {
            Some(home) => {
                let dir = join(home.as_slice(), ".local/state");
                Some(join(dir.as_slice(), "caelestia/wallpaper/path.txt"))
            },
            None => None,
        },
    }
}

/// The wallpaper that such a file names: its text without the white space
/// round it, unless nothing is left.
pub open spec fn wallpaper_named(text: Seq<char>) -> Option<Seq<char>> {
    if trim(text).len() > 0 {
        Some(trim(text))
    } else {
        None
    }
}

/// The wallpaper that such a file names.
pub fn current_wallpaper(text: &str) -> (r: Option<String>)
    ensures
        text_view(r) == wallpaper_named(text@),
{
    let cs = chars(text);
    let t = trimmed(cs.as_slice());
    if t.len() == 0 {
        None
    } else {
        Some(string_of(t.as_slice()))
    }
}

proof fn segment_and_step(k: int, per: int)
    requires
        0 <= k,
        0 < per,
    ensures
        k / per * per + k % per == k,
        0 <= k % per < per,
        0 <= k / per,
        k >= per ==> (k - per) / per == k / per - 1 && (k - per) % per == k % per,
{
    lemma_fundamental_div_mod(k, per);
    let (q, r) = (k / per, k % per);
    assert(per * q == q * per) by (nonlinear_arith);
    assert(0 <= r < per && 0 <= q) by (nonlinear_arith)
        requires
            k == per * q + r,
            r == k % per,
            q == k / per,
            0 <= k,
            0 < per,
    ;
    if k >= per {
        assert((q - 1) * per == q * per - per) by (nonlinear_arith);
        lemma_fundamental_div_mod_converse(k - per, per, q - 1, r);
    }
}

/// Each dense point lies between two neighbouring control points, so many
/// steps on from the first, and takes its tangents from the neighbours of
/// these two: the path's first and last points have none and stand in
/// themselves.
pub proof fn a_dense_point_lies_between_neighbours(
    controls: Seq<Control>,
    per_segment: int,
    out: Seq<Dense>,
    k: int,
)
    requires
        1 <= controls.len() <= usize::MAX,
        0 < per_segment <= usize::MAX,
        densified(controls, per_segment, out),
        0 <= k < (controls.len() - 1) * per_segment,
    ensures
        out[k].from * per_segment + out[k].step == k,
        out[k].step < per_segment,
        out[k].to == out[k].from + 1,
        out[k].to < controls.len(),
        out[k].before == out[k].from - 1 || (out[k].before == 0 && out[k].from == 0),
        out[k].after == out[k].to + 1 || (out[k].after == out[k].to && out[k].to
            == controls.len() - 1),
        out[k].after < controls.len(),
{
    segment_and_step(k, per_segment);
    let i = k / per_segment;
    assert(i < controls.len() - 1) by (nonlinear_arith)
        requires
            i * per_segment <= k,
            k < (controls.len() - 1) * per_segment,
            0 < per_segment,
    ;
    assert(out[k] == dense_point(controls, i, k % per_segment));
}

/// Neighbouring segments share their control points, so the path runs on at
/// the same tangent from one into the next.
pub proof fn neighbouring_segments_join(
    controls: Seq<Control>,
    per_segment: int,
    out: Seq<Dense>,
    k: int,
)
    requires
        1 <= controls.len() <= usize::MAX,
        0 < per_segment <= usize::MAX,
        densified(controls, per_segment, out),
        per_segment <= k < (controls.len() - 1) * per_segment,
    ensures
        out[k].before == out[k - per_segment].from,
        out[k].from == out[k - per_segment].to,
        out[k].to == out[k - per_segment].after,
        out[k].step == out[k - per_segment].step,
{
    a_dense_point_lies_between_neighbours(controls, per_segment, out, k);
    a_dense_point_lies_between_neighbours(controls, per_segment, out, k - per_segment);
    segment_and_step(k, per_segment);
    assert(out[k] == dense_point(controls, k / per_segment, k % per_segment));
    assert(out[k - per_segment] == dense_point(
        controls,
        (k - per_segment) / per_segment,
        (k - per_segment) % per_segment,
    ));
}

/// A path ends on its last control point, at the angle that is set there.
pub proof fn a_path_ends_on_its_last_point(
    controls: Seq<Control>,
    per_segment: int,
    out: Seq<Dense>,
)
    requires
        1 <= controls.len() <= usize::MAX,
        0 <= per_segment,
        densified(controls, per_segment, out),
    ensures
        out.len() == (controls.len() - 1) * per_segment + 1,
        out.last().from == controls.len() - 1,
        out.last().to == controls.len() - 1,
        out.last().step == 0,
        match out.last().lean {
            Lean::Path => controls.last().angle is None,
            Lean::Held(a) => controls.last().angle == Some(a),
            Lean::Blend(_, _) => false,
        },
{
}

/// An angle that is set at one end of a segment holds all along it, two blend
/// from the first into the second, and where none is set the path decides.
pub proof fn an_angle_holds_along_its_segment(
    controls: Seq<Control>,
    per_segment: int,
    out: Seq<Dense>,
    k: int,
)
    requires
        1 <= controls.len() <= usize::MAX,
        0 < per_segment <= usize::MAX,
        densified(controls, per_segment, out),
        0 <= k < (controls.len() - 1) * per_segment,
    ensures
        ({
            let (a, b) = (controls[out[k].from as int].angle, controls[out[k].to as int].angle);
            match out[k].lean {
                Lean::Path => a is None && b is None,
                Lean::Held(x) => (a == Some(x) && b is None) || (a is None && b == Some(x)),
                Lean::Blend(x, y) => a == Some(x) && b == Some(y),
            }
        }),
{
    a_dense_point_lies_between_neighbours(controls, per_segment, out, k);
    segment_and_step(k, per_segment);
    let seg = k / per_segment;
    assert(seg < controls.len() - 1) by (nonlinear_arith)
        requires
            seg * per_segment <= k,
            k < (controls.len() - 1) * per_segment,
            0 < per_segment,
    ;
    assert(out[k] == dense_point(controls, seg, k % per_segment));
}

proof fn segment_is_reached(acc: Seq<Single>, target: Single, from: int)
    requires
        0 <= from,
        from + 2 <= acc.len(),
    ensures
        from <= segment_from(acc, target, from) <= acc.len() - 2,
        forall|j: int|
            from < j <= segment_from(acc, target, from) ==> less(#[trigger] acc[j], target),
        segment_from(acc, target, from) + 2 < acc.len() ==> !less(
            acc[segment_from(acc, target, from) + 1],
            target,
        ),
    decreases acc.len() - from,
{
    if !stops(acc, target, from) {
        segment_is_reached(acc, target, from + 1);
    }
}

/// A target lies in the segment that is found for it: past the segment's start,
/// unless that is the path's, and not past its end, unless that is the path's.
pub proof fn a_target_lies_in_its_segment(acc: Seq<Single>, targets: Seq<Single>, i: int)
    requires
        acc.len() >= 2,
        never_falls(targets),
        0 <= i < targets.len(),
    ensures
        ({
            let c = cursor(acc, targets, i);
            &&& 0 <= c <= acc.len() - 2
            &&& c > 0 ==> less(acc[c], targets[i])
            &&& c < acc.len() - 2 ==> !less(acc[c + 1], targets[i])
        }),
{
    walking_is_searching(acc, targets, i);
    segment_is_reached(acc, targets[i], 0);
}

/// A bar with an angle of its own points there, an upright one up, and the
/// others across the path wherever it has a length to speak of: more than
/// 2^-23.
pub proof fn a_bar_points_as_it_is_told(angle: Option<Single>, upright: bool, length: Single)
    ensures
        angle matches Some(a) ==> direction_of(angle, upright, length) == Direction::Angle(a),
        angle is None && upright ==> direction_of(angle, upright, length) == Direction::Up,
        angle is None && !upright && length.bits <= 0x3400_0000 ==> direction_of(
            angle,
            upright,
            length,
        ) == Direction::Up,
        angle is None && !upright && 0x3400_0000 < length.bits <= 0x7f80_0000 ==> direction_of(
            angle,
            upright,
            length,
        ) == Direction::Across,
{
}

/// Left of the first point the horizon is as high as that one, right of the
/// last as high as that, and elsewhere it runs between the two points on
/// either side.
pub proof fn the_horizon_runs_flat_beyond_its_ends(pts: Seq<Point>, x: Single, k: int)
    requires
        2 <= pts.len() <= usize::MAX,
    ensures
        !less(pts[0].0, x) ==> height_at(pts, x) == Height::Flat(0),
        (forall|j: int| 0 <= j < pts.len() ==> less((#[trigger] pts[j]).0, x)) ==> height_at(pts, x)
            == Height::Flat((pts.len() - 1) as usize),
        0 <= k < pts.len() - 1 && !less(pts[k + 1].0, x) && (forall|j: int|
            0 <= j <= k ==> less((#[trigger] pts[j]).0, x)) ==> height_at(pts, x)
            == Height::Between(k as usize),
{
    reached_is_bounded(pts, x, 0);
    reached_passes(pts, x, 0);
    reached_stops(pts, x, 0);
    let r = reached(pts, x, 0);
    if 0 <= k < pts.len() - 1 && !less(pts[k + 1].0, x) && (forall|j: int|
        0 <= j <= k ==> less((#[trigger] pts[j]).0, x)) {
        if r > k + 1 {
            assert(less(pts[k + 1].0, x));
        }
        if r <= k {
            assert(less(pts[r].0, x));
        }
    }
}

proof fn reached_stops(pts: Seq<Point>, x: Single, from: int)
    requires
        0 <= from < pts.len(),
    ensures
        reached(pts, x, from) < pts.len() - 1 ==> !less(pts[reached(pts, x, from)].0, x),
    decreases pts.len() - from,
{
    if !(from + 1 >= pts.len() || !less(pts[from].0, x)) {
        reached_stops(pts, x, from + 1);
    }
}

/// Nothing in reach is lower than the floor, the floor is touched, and looking
/// further never raises it.
pub proof fn the_floor_lies_below_all_in_reach(
    heights: Seq<Single>,
    lo: int,
    hi: int,
    r: Single,
    wider: int,
    s: Single,
)
    requires
        0 <= lo <= hi <= wider < heights.len(),
        lowest(heights, lo, hi, r),
        lowest(heights, lo, wider, s),
        forall|i: int| 0 <= i < heights.len() ==> !nan(#[trigger] heights[i]),
    ensures
        forall|i: int| lo <= i <= hi ==> rank(r) <= rank(#[trigger] heights[i]),
        exists|i: int| lo <= i <= hi && #[trigger] heights[i] == r,
        rank(s) <= rank(r),
{
    let i = choose|i: int| lo <= i <= hi && #[trigger] heights[i] == r;
    assert(!less(heights[i], s));
    let j = choose|j: int| lo <= j <= wider && #[trigger] heights[j] == s;
    assert(!nan(heights[j]) && !nan(heights[i]));
}

/// There is always a sample, and otherwise as many as were asked for.
pub proof fn samples_are_as_many_as_asked(count: u32)
    ensures
        count > 0 ==> at_least_one(count) == count,
        at_least_one(0) == 1,
{
}

/// The file that names the current wallpaper is `path.txt` in the directory
/// that is watched for it.
pub proof fn the_record_lies_in_the_watched_directory(env: Environment)
    requires
        env.state_home is Some || env.home is Some,
    ensures
        wallpaper_record(env) == Some(
            below(crate::scheme::wallpaper_path(env), encode_utf8("path.txt"@)),
        ),
{
    reveal_strlit("caelestia/wallpaper");
    reveal_strlit("caelestia/wallpaper/path.txt");
    reveal_strlit("path.txt");
    let head = "caelestia/wallpaper"@;
    let tail = "path.txt"@;
    assert("caelestia/wallpaper/path.txt"@ =~= head + (seq!['/'] + tail));
    encoding_joins(head, seq!['/'] + tail);
    encoding_joins(seq!['/'], tail);
    encoding_of_one('/');
    assert(head =~= head.drop_last() + seq!['r']);
    encoding_joins(head.drop_last(), seq!['r']);
    encoding_of_one('r');
    let h = encode_utf8(head);
    assert(h.last() == 0x72);
    let dir = crate::scheme::wallpaper_path(env);
    assert(dir.last() == h.last());
    assert(wallpaper_record(env)->0 =~= below(dir, encode_utf8(tail)));
}

/// Sorted points run from left to right, points at one place keep the order
/// they were listed in, and every point is there once.
pub proof fn points_run_from_left_to_right(
    pts: Seq<Point>,
    order: Seq<int>,
    out: Seq<Point>,
    i: int,
    j: int,
)
    requires
        ordered(pts, order, out),
        0 <= i < j < out.len(),
    ensures
        out.len() == pts.len(),
        !less(out[j].0, out[i].0),
        out[i] == pts[order[i]] && out[j] == pts[order[j]],
        order[i] != order[j],
        out[i].0 == out[j].0 ==> order[i] < order[j],
{
    assert(comes_before(pts, order[i], order[j]));
    assert(out[i] == pts[order[i]] && out[j] == pts[order[j]]);
}

/// A horizon has a height for each place where it has two points or more, and
/// none at all where it has fewer; the path is walked in sixteen steps a
/// segment, and the horizon in 2048 places.
pub proof fn a_horizon_takes_two_points(
    pts: Seq<Point>,
    xs: Seq<Single>,
    heights: Seq<Height>,
    i: int,
)
    requires
        sampled(pts, xs, heights),
    ensures
        pts.len() <= 1 ==> heights.len() == 0,
        pts.len() > 1 ==> heights.len() == xs.len(),
        pts.len() > 1 && 0 <= i < xs.len() ==> heights[i] == height_at(pts, xs[i]),
        PER_SEGMENT == 16,
        HORIZON_BUCKETS == 2048,
{
}

/// Between two places on a horizon the floor is as low as the lowest height
/// there; without a horizon there is none.
pub proof fn a_horizon_has_a_floor(heights: Seq<Single>, lo: usize, hi: usize, r: Option<Single>)
    requires
        floor_is(heights, lo, hi, r),
        forall|i: int| 0 <= i < heights.len() ==> !nan(#[trigger] heights[i]),
    ensures
        heights.len() <= 1 ==> r is None,
        heights.len() > 1 && lo <= hi ==> r is Some,
        heights.len() > 1 && lo <= hi < heights.len() ==> forall|i: int|
            lo <= i <= hi ==> rank(r->0) <= rank(#[trigger] heights[i]),
        heights.len() > 1 && lo < heights.len() <= hi ==> forall|i: int|
            lo <= i < heights.len() ==> rank(r->0) <= rank(#[trigger] heights[i]),
        heights.len() > 1 && lo < heights.len() && lo <= hi ==> exists|i: int|
            lo <= i < heights.len() && i <= hi && #[trigger] heights[i] == r->0,
{
    if heights.len() > 1 && lo <= hi {
        let (a, b) = (place_in(heights, lo), place_in(heights, hi));
        let h = r->0;
        assert(lowest(heights, a, b, h));
        let k = choose|k: int| a <= k <= b && #[trigger] heights[k] == h;
        assert(!nan(heights[k]));
        if lo < heights.len() {
            assert(heights[k] == h && lo <= k && k <= hi);
        }
        assert forall|i: int| a <= i <= b implies rank(h) <= rank(#[trigger] heights[i]) by {
            assert(!less(heights[i], h) && !nan(heights[i]));
        }
    }
}

/// A path with fewer than two points is resampled into copies of the one it
/// has, and any other along its dense points, in as many samples as were asked
/// for.
pub proof fn a_path_takes_two_points(controls: Seq<Control>, count: u32, r: Resampling)
    requires
        resampled(controls, count, r),
    ensures
        controls.len() >= 2 <==> r is Along,
        r matches Resampling::Copies { base, count: n } ==> (n == count || (n == 1 && count == 0))
            && (controls.len() == 1 ==> base == Some(controls[0])) && (controls.len() == 0
            ==> base is None),
        r matches Resampling::Along { dense, count: n } ==> (n == count || (n == 1 && count == 0))
            && dense@.len() == (controls.len() - 1) * 16 + 1,
{
}

/// A file that names a wallpaper names it by its text without the white space
/// round it, and one of nothing but white space names none.
pub proof fn a_wallpaper_is_named_without_blanks(text: Seq<char>)
    ensures
        wallpaper_named(text) is None <==> forall|i: int|
            0 <= i < text.len() ==> crate::text::white(#[trigger] text[i]),
        wallpaper_named(text) matches Some(p) ==> p == trim(text) && p.len() > 0,
{
    let a = crate::text::trimming_takes_white_space_alone(text);
    let t = trim(text);
    if t.len() == 0 {
        assert forall|i: int| 0 <= i < text.len() implies crate::text::white(
            #[trigger] text[i],
        ) by {
            if i < a {
            } else {
                assert(a + t.len() <= i);
            }
        }
    } else {
        assert(t[0] == text[a]);
        assert(!crate::text::white(text[a]));
    }
}

/// Sorting loses no point and adds none, and leaves none to the right of one
/// that it lies left of.
pub proof fn sorting_keeps_every_point(pts: Seq<Point>, out: Seq<Point>, i: int, j: int)
    requires
        sorted(pts, out),
        0 <= i < j < out.len(),
    ensures
        out.len() == pts.len(),
        !less(out[j].0, out[i].0),
        out.contains(pts[i]) && out.contains(pts[j]),
        pts.contains(out[i]) && pts.contains(out[j]),
{
    let order = choose|order: Seq<int>| #[trigger] ordered(pts, order, out);
    points_run_from_left_to_right(pts, order, out, i, j);
    assert forall|p: int, q: int| 0 <= p < q < order.len() implies #[trigger] order[p]
        != #[trigger] order[q] by {
        assert(comes_before(pts, order[p], order[q]));
    }
    crate::palette::order_is_onto(order, i);
    crate::palette::order_is_onto(order, j);
    let p = choose|p: int| 0 <= p < order.len() && order[p] == i;
    let q = choose|q: int| 0 <= q < order.len() && order[q] == j;
    assert(out[p] == pts[i] && out[q] == pts[j]);
    assert(out[i] == pts[order[i]] && out[j] == pts[order[j]]);
}

} // verus!
