//! Damage: which pixels changed between two frames.
//!
//! Bars stand in a row, so a bar's columns never move while the surface keeps
//! its size. They are gathered into a few buckets of neighbouring bars, and a
//! frame damages at most one rectangle for each bucket.
use vstd::arithmetic::div_mod::lemma_fundamental_div_mod;
use vstd::prelude::*;

verus! {

/// Damage rectangles in a frame, at most.
pub const DAMAGE_BUCKETS: usize = 8;

/// One unit quad in triangle-strip order: top-left, top-right, bottom-left,
/// bottom-right.
pub fn unit_quad() -> (r: [[u8; 2]; 4])
    ensures
        r@.len() == 4,
        r@[0]@ == seq![0u8, 1u8],
        r@[1]@ == seq![1u8, 1u8],
        r@[2]@ == seq![0u8, 0u8],
        r@[3]@ == seq![1u8, 0u8],
{
    let r = [[0, 1], [1, 1], [0, 0], [1, 0]];
    assert(r@[0]@ =~= seq![0u8, 1u8]);
    assert(r@[1]@ =~= seq![1u8, 1u8]);
    assert(r@[2]@ =~= seq![0u8, 0u8]);
    assert(r@[3]@ =~= seq![1u8, 0u8]);
    r
}

/// What of the damage depends on the surface's size and the bars' layout.
#[derive(Debug)]
pub struct DamageMap {
    /// Each bar's bucket.
    pub bucket_of: Vec<u8>,
    /// Each bucket's columns, from the first to past the last.
    pub bucket_x: Vec<(i32, i32)>,
    pub height: i32,
}

/// The bucket of bar `i` out of `bars`.
pub open spec fn bucket(i: int, bars: int) -> int {
    i * 8 / bars
}

/// `n` brought into `0..=limit`.
pub open spec fn clip(n: int, limit: int) -> int {
    if n < 0 {
        0
    } else if n > limit {
        limit
    } else {
        n
    }
}

/// The first column of a bar that starts at column `x`, widened by a pixel.
pub open spec fn first_column(x: i32, width: u32) -> int {
    clip(x - 1, width as int)
}

/// The column past a bar that ends at column `x`, widened by a pixel.
pub open spec fn past_column(x: i32, width: u32) -> int {
    clip(x + 1, width as int)
}

/// `xs` is the hull of the columns of the first `n` bars that are in bucket
/// `b`: it holds them all and reaches no further. Without any it is inside out.
pub open spec fn hull(
    columns: Seq<(i32, i32)>,
    width: u32,
    b: int,
    n: int,
    xs: (i32, i32),
) -> bool {
    &&& forall|i: int|
        0 <= i < n && #[trigger] bucket(i, columns.len() as int) == b ==> xs.0 <= first_column(
            columns[i].0,
            width,
        ) && past_column(columns[i].1, width) <= xs.1
    &&& xs.0 == i32::MAX || exists|i: int|
        0 <= i < n && #[trigger] bucket(i, columns.len() as int) == b && xs.0 == first_column(
            columns[i].0,
            width,
        )
    &&& xs.1 == i32::MIN || exists|i: int|
        0 <= i < n && #[trigger] bucket(i, columns.len() as int) == b && xs.1 == past_column(
            columns[i].1,
            width,
        )
}

impl DamageMap {
    /// Eight buckets, every bar in one of them.
    pub open spec fn wf(self) -> bool {
        &&& self.bucket_x@.len() == 8
        &&& self.height >= 0
        &&& forall|i: int| 0 <= i < self.bucket_of@.len() ==> #[trigger] self.bucket_of@[i] < 8
        &&& forall|b: int|
            0 <= b < 8 ==> (#[trigger] self.bucket_x@[b]).0 >= 0 && (self.bucket_x@[b].1
                == i32::MIN || self.bucket_x@[b].1 >= 0)
    }

    /// The map of a surface of `width` by `height` on which the bars stand at
    /// `columns`: each bar's left edge rounded down, and its right edge
    /// rounded up.
    pub open spec fn maps(self, columns: Seq<(i32, i32)>, width: u32, height: u32) -> bool {
        &&& self.wf()
        &&& self.height == height
        &&& self.bucket_of@.len() == columns.len()
        &&& forall|i: int|
            0 <= i < columns.len() ==> #[trigger] self.bucket_of@[i] == bucket(
                i,
                columns.len() as int,
            )
        &&& forall|b: int|
            0 <= b < 8 ==> hull(
                columns,
                width,
                b,
                columns.len() as int,
                #[trigger] self.bucket_x@[b],
            )
    }

    /// Lays the bars out on a surface of `width` by `height`.
    pub fn new(columns: &[(i32, i32)], width: u32, height: u32) -> (map: DamageMap)
        requires
            columns@.len() <= u32::MAX,
            width <= i32::MAX,
            height <= i32::MAX,
            forall|i: int|
                0 <= i < columns@.len() ==> (#[trigger] columns@[i]).0 > i32::MIN && columns@[i].1
                    < i32::MAX,
        ensures
            map.maps(columns@, width, height),
    {
        let bars: usize = columns.len();
        let mut bucket_of: Vec<u8> = Vec::new();
        let mut bucket_x: Vec<(i32, i32)> = Vec::new();
        for k in 0..DAMAGE_BUCKETS
            invariant
                bucket_x@.len() == k,
                forall|b: int| 0 <= b < k ==> #[trigger] bucket_x@[b] == (i32::MAX, i32::MIN),
        {
            bucket_x.push((i32::MAX, i32::MIN));
        }
        for i in 0..bars
            invariant
                bars == columns@.len() <= u32::MAX,
                width <= i32::MAX,
                height <= i32::MAX,
                forall|i: int|
                    0 <= i < columns@.len() ==> (#[trigger] columns@[i]).0 > i32::MIN
                        && columns@[i].1 < i32::MAX,
                bucket_of@.len() == i,
                bucket_x@.len() == 8,
                forall|j: int|
                    0 <= j < i ==> #[trigger] bucket_of@[j] == bucket(j, bars as int)
                        && bucket_of@[j] < 8,
                forall|b: int|
                    0 <= b < 8 ==> (#[trigger] bucket_x@[b]).0 >= 0 && (bucket_x@[b].1 == i32::MIN
                        || bucket_x@[b].1 >= 0),
                forall|b: int|
                    0 <= b < 8 ==> hull(columns@, width, b, i as int, #[trigger] bucket_x@[b]),
        {
            assert(0 <= i * 8 / (bars as int) < 8) by (nonlinear_arith)
                requires
                    0 <= i < bars,
            ;
            let b: usize = (i as u64 * 8 / bars as u64) as usize;
            assert(b == bucket(i as int, bars as int));
            bucket_of.push(b as u8);
            let (left, right) = columns[i];
            let x0: i32 = clip_to(left - 1, width as i32);
            let x1: i32 = clip_to(right + 1, width as i32);
            let ghost before = bucket_x@;
            let (lo, hi) = bucket_x[b];
            let xs: (i32, i32) = (
                if x0 < lo {
                    x0
                } else {
                    lo
                },
                if x1 > hi {
                    x1
                } else {
                    hi
                },
            );
            bucket_x.set(b, xs);
            proof {
                assert forall|c: int| 0 <= c < 8 implies hull(
                    columns@,
                    width,
                    c,
                    i + 1,
                    #[trigger] bucket_x@[c],
                ) by {
                    assert(hull(columns@, width, c, i as int, before[c]));
                    assert(bucket(i as int, columns@.len() as int) == b);
                }
            }
        }
        DamageMap { bucket_of, bucket_x, height: height as i32 }
    }
}

fn clip_to(n: i32, limit: i32) -> (r: i32)
    requires
        limit >= 0,
    ensures
        r == clip(n as int, limit as int),
{
    if n < 0 {
        0
    } else if n > limit {
        limit
    } else {
        n
    }
}

/// The sample of bar `i` in a frame: two bytes, the low one first.
pub open spec fn sample(frame: Seq<u8>, i: int) -> int {
    frame[2 * i] + 256 * frame[2 * i + 1]
}

/// How many bars two frames and a map have in common.
pub open spec fn common(frame: Seq<u8>, prev: Seq<u8>, bars: int) -> int {
    let a = frame.len() as int / 2;
    let b = prev.len() as int / 2;
    let n = if a < b {
        a
    } else {
        b
    };
    if n < bars {
        n
    } else {
        bars
    }
}

/// Bar `i` is in bucket `b` and stands elsewhere than in the frame before.
pub open spec fn moved(
    frame: Seq<u8>,
    prev: Seq<u8>,
    buckets: Seq<u8>,
    b: int,
    i: int,
) -> bool {
    buckets[i] == b && sample(frame, i) != sample(prev, i)
}

pub open spec fn lower_of(a: int, b: int) -> int {
    if a < b {
        a
    } else {
        b
    }
}

pub open spec fn higher_of(a: int, b: int) -> int {
    if a > b {
        a
    } else {
        b
    }
}

/// `e` is the span swept by those of the first `n` bars that moved in bucket
/// `b`: the lowest and the highest of their samples, old and new. Where none
/// moved it is inside out.
pub open spec fn swept(
    frame: Seq<u8>,
    prev: Seq<u8>,
    buckets: Seq<u8>,
    b: int,
    n: int,
    e: (u16, u16),
) -> bool {
    if exists|i: int| 0 <= i < n && #[trigger] moved(frame, prev, buckets, b, i) {
        &&& forall|i: int|
            0 <= i < n && #[trigger] moved(frame, prev, buckets, b, i) ==> e.0 <= lower_of(
                sample(frame, i),
                sample(prev, i),
            ) && higher_of(sample(frame, i), sample(prev, i)) <= e.1
        &&& exists|i: int|
            0 <= i < n && #[trigger] moved(frame, prev, buckets, b, i) && e.0 == lower_of(
                sample(frame, i),
                sample(prev, i),
            )
        &&& exists|i: int|
            0 <= i < n && #[trigger] moved(frame, prev, buckets, b, i) && e.1 == higher_of(
                sample(frame, i),
                sample(prev, i),
            )
    } else {
        e == (u16::MAX, 0u16)
    }
}

fn read_sample(frame: &[u8], i: usize) -> (r: u16)
    requires
        2 * i + 1 < frame@.len() <= usize::MAX,
    ensures
        r == sample(frame@, i as int),
{
    frame[2 * i] as u16 + 256 * frame[2 * i + 1] as u16
}

/// For each bucket, the lowest and the highest sample that its moved bars
/// swept through.
pub fn extents(frame: &[u8], prev: &[u8], map: &DamageMap) -> (out: Vec<(u16, u16)>)
    requires
        map.wf(),
    ensures
        out@.len() == 8,
        forall|b: int|
            0 <= b < 8 ==> swept(
                frame@,
                prev@,
                map.bucket_of@,
                b,
                common(frame@, prev@, map.bucket_of@.len() as int),
                #[trigger] out@[b],
            ),
{
    let mut out: Vec<(u16, u16)> = Vec::new();
    for k in 0..DAMAGE_BUCKETS
        invariant
            out@.len() == k,
            forall|b: int| 0 <= b < k ==> #[trigger] out@[b] == (u16::MAX, 0u16),
    {
        out.push((u16::MAX, 0));
    }
    let mut n: usize = map.bucket_of.len();
    if frame.len() / 2 < n {
        n = frame.len() / 2;
    }
    if prev.len() / 2 < n {
        n = prev.len() / 2;
    }
    for i in 0..n
        invariant
            map.wf(),
            n <= map.bucket_of@.len(),
            2 * n <= frame@.len() <= usize::MAX,
            2 * n <= prev@.len() <= usize::MAX,
            out@.len() == 8,
            forall|b: int|
                0 <= b < 8 ==> swept(
                    frame@,
                    prev@,
                    map.bucket_of@,
                    b,
                    i as int,
                    #[trigger] out@[b],
                ),
    {
        let new: u16 = read_sample(frame, i);
        let old_one: u16 = read_sample(prev, i);
        let b: usize = map.bucket_of[i] as usize;
        let ghost earlier = out@;
        if new != old_one {
            let (mut lo, mut hi) = out[b];
            if new < lo {
                lo = new;
            }
            if old_one < lo {
                lo = old_one;
            }
            if new > hi {
                hi = new;
            }
            if old_one > hi {
                hi = old_one;
            }
            out.set(b, (lo, hi));
            assert(moved(frame@, prev@, map.bucket_of@, b as int, i as int));
        }
        proof {
            assert forall|c: int| 0 <= c < 8 implies swept(
                frame@,
                prev@,
                map.bucket_of@,
                c,
                i + 1,
                #[trigger] out@[c],
            ) by {
                assert(swept(frame@, prev@, map.bucket_of@, c, i as int, earlier[c]));
                if c != b || new == old_one {
                    assert(!moved(frame@, prev@, map.bucket_of@, c, i as int));
                    assert(out@[c] == earlier[c]);
                }
            }
        }
    }
    out
}

/// A rectangle: left, bottom, width, height, counted from the bottom left.
#[derive(Clone, Copy, Debug, PartialEq, Eq, Structural)]
pub struct Rect {
    pub x: i32,
    pub y: i32,
    pub width: i32,
    pub height: i32,
}

/// The rectangle of a bucket whose columns are `xs` and whose swept span comes
/// to the rows `ys`, widened by a pixel; `None` where it is empty.
pub open spec fn rect_of(xs: (i32, i32), ys: (i32, i32), height: i32) -> Option<Rect> {
    let y0 = clip(ys.0 - 1, height as int);
    let y1 = clip(ys.1 + 1, height as int);
    if xs.1 > xs.0 && y1 > y0 {
        Some(
            Rect {
                x: xs.0,
                y: y0 as i32,
                width: (xs.1 - xs.0) as i32,
                height: (y1 - y0) as i32,
            },
        )
    } else {
        None
    }
}

/// What bucket `b` damages.
pub open spec fn bucket_damage(
    extents: Seq<(u16, u16)>,
    rows: Seq<(i32, i32)>,
    map: DamageMap,
    b: int,
) -> Option<Rect> {
    if extents[b].0 > extents[b].1 {
        None
    } else {
        rect_of(map.bucket_x@[b], rows[b], map.height)
    }
}

/// What the first `n` buckets damage, in order.
pub open spec fn damage(
    extents: Seq<(u16, u16)>,
    rows: Seq<(i32, i32)>,
    map: DamageMap,
    n: int,
) -> Seq<Rect>
    decreases n,
{
    if n <= 0 {
        Seq::empty()
    } else {
        let earlier = damage(extents, rows, map, n - 1);
        match bucket_damage(extents, rows, map, n - 1) {
            Some(r) => earlier.push(r),
            None => earlier,
        }
    }
}

/// The rectangles that cover everything that moved.
///
/// `rows` holds, for each bucket, the row that its lowest swept sample comes
/// to, rounded down, and that of its highest, rounded up.
pub fn damage_rects(extents: &[(u16, u16)], rows: &[(i32, i32)], map: &DamageMap) -> (out: Vec<
    Rect,
>)
    requires
        map.wf(),
        extents@.len() == 8,
        rows@.len() == 8,
        forall|b: int|
            0 <= b < 8 ==> (#[trigger] rows@[b]).0 > i32::MIN && rows@[b].1 < i32::MAX,
    ensures
        out@ == damage(extents@, rows@, *map, 8),
{
    let mut out: Vec<Rect> = Vec::new();
    for b in 0..DAMAGE_BUCKETS
        invariant
            map.wf(),
            extents@.len() == 8,
            rows@.len() == 8,
            forall|b: int|
                0 <= b < 8 ==> (#[trigger] rows@[b]).0 > i32::MIN && rows@[b].1 < i32::MAX,
            out@ == damage(extents@, rows@, *map, b as int),
    {
        let (lo, hi) = extents[b];
        let (x0, x1) = map.bucket_x[b];
        let (below, above) = rows[b];
        let ghost xs = map.bucket_x@[b as int];
        assert(xs.0 >= 0);
        if lo <= hi {
            let y0: i32 = clip_to(below - 1, map.height);
            let y1: i32 = clip_to(above + 1, map.height);
            if x1 > x0 && y1 > y0 {
                out.push(Rect { x: x0, y: y0, width: x1 - x0, height: y1 - y0 });
            }
        }
    }
    out
}

/// The pixel in column `px` and row `py` is in `r`.
pub open spec fn holds(r: Rect, px: int, py: int) -> bool {
    r.x <= px < r.x + r.width && r.y <= py < r.y + r.height
}

proof fn damage_holds_each(
    extents: Seq<(u16, u16)>,
    rows: Seq<(i32, i32)>,
    map: DamageMap,
    n: int,
    b: int,
)
    requires
        0 <= b < n,
        bucket_damage(extents, rows, map, b) is Some,
    ensures
        damage(extents, rows, map, n).contains(bucket_damage(extents, rows, map, b)->0),
    decreases n,
{
    let all = damage(extents, rows, map, n);
    let r = bucket_damage(extents, rows, map, b)->0;
    if b == n - 1 {
        assert(all.last() == r);
    } else {
        damage_holds_each(extents, rows, map, n - 1, b);
        let earlier = damage(extents, rows, map, n - 1);
        let k = choose|k: int| 0 <= k < earlier.len() && earlier[k] == r;
        assert(all[k] == r);
    }
}

/// Every pixel that a moved bar swept over is in some rectangle.
///
/// `row` is whatever turns a sample into a row, as long as it keeps the order
/// of samples and `rows` are no tighter than what it gives.
pub proof fn every_moved_bar_is_covered(
    frame: Seq<u8>,
    prev: Seq<u8>,
    map: DamageMap,
    columns: Seq<(i32, i32)>,
    width: u32,
    height: u32,
    extents: Seq<(u16, u16)>,
    rows: Seq<(i32, i32)>,
    row: spec_fn(int) -> int,
    i: int,
    px: int,
    py: int,
)
    requires
        map.maps(columns, width, height),
        extents.len() == 8,
        rows.len() == 8,
        forall|b: int|
            0 <= b < 8 ==> swept(
                frame,
                prev,
                map.bucket_of@,
                b,
                common(frame, prev, columns.len() as int),
                #[trigger] extents[b],
            ),
        forall|s: int, t: int| s <= t ==> #[trigger] row(s) <= #[trigger] row(t),
        forall|b: int|
            0 <= b < 8 ==> (#[trigger] rows[b]).0 <= row(extents[b].0 as int) && row(
                extents[b].1 as int,
            ) <= rows[b].1,
        0 <= i < common(frame, prev, columns.len() as int),
        sample(frame, i) != sample(prev, i),
        0 <= px < width,
        columns[i].0 - 1 <= px < columns[i].1 + 1,
        0 <= py < height,
        row(lower_of(sample(frame, i), sample(prev, i))) - 1 <= py,
        py <= row(higher_of(sample(frame, i), sample(prev, i))),
    ensures
        exists|k: int|
            0 <= k < damage(extents, rows, map, 8).len() && #[trigger] holds(
                damage(extents, rows, map, 8)[k],
                px,
                py,
            ),
{
    let b = map.bucket_of@[i] as int;
    assert(bucket(i, columns.len() as int) == b);
    assert(hull(columns, width, b, columns.len() as int, map.bucket_x@[b]));
    assert(swept(
        frame,
        prev,
        map.bucket_of@,
        b,
        common(frame, prev, columns.len() as int),
        extents[b],
    ));
    assert(moved(frame, prev, map.bucket_of@, b, i));
    let e = extents[b];
    assert(rows[b].0 <= row(e.0 as int));
    assert(row(e.0 as int) <= row(lower_of(sample(frame, i), sample(prev, i))));
    assert(row(higher_of(sample(frame, i), sample(prev, i))) <= row(e.1 as int));
    let r = bucket_damage(extents, rows, map, b)->0;
    damage_holds_each(extents, rows, map, 8, b);
    let all = damage(extents, rows, map, 8);
    let k = choose|k: int| 0 <= k < all.len() && all[k] == r;
    assert(holds(all[k], px, py));
}

/// No frame damages more rectangles than there are buckets, none of them is
/// empty, and each lies inside the surface.
pub proof fn rects_lie_inside_the_surface(
    extents: Seq<(u16, u16)>,
    rows: Seq<(i32, i32)>,
    map: DamageMap,
    columns: Seq<(i32, i32)>,
    width: u32,
    height: u32,
    n: int,
)
    requires
        map.maps(columns, width, height),
        0 <= n <= 8,
    ensures
        damage(extents, rows, map, n).len() <= n,
        forall|k: int|
            0 <= k < damage(extents, rows, map, n).len() ==> {
                let r = #[trigger] damage(extents, rows, map, n)[k];
                &&& r.width > 0 && r.height > 0
                &&& 0 <= r.x && r.x + r.width <= width
                &&& 0 <= r.y && r.y + r.height <= height
            },
    decreases n,
{
    if n > 0 {
        rects_lie_inside_the_surface(extents, rows, map, columns, width, height, n - 1);
        let b = n - 1;
        assert(hull(columns, width, b, columns.len() as int, map.bucket_x@[b]));
        let earlier = damage(extents, rows, map, n - 1);
        let all = damage(extents, rows, map, n);
        assert forall|k: int| 0 <= k < all.len() implies ({
            let r = #[trigger] all[k];
            &&& r.width > 0 && r.height > 0
            &&& 0 <= r.x && r.x + r.width <= width
            &&& 0 <= r.y && r.y + r.height <= height
        }) by {
            if k < earlier.len() {
                assert(all[k] == earlier[k]);
            }
        }
    }
}

/// Where no bar moved nothing is damaged.
pub proof fn nothing_moving_damages_nothing(
    frame: Seq<u8>,
    prev: Seq<u8>,
    map: DamageMap,
    extents: Seq<(u16, u16)>,
    rows: Seq<(i32, i32)>,
    n: int,
)
    requires
        0 <= n <= 8,
        forall|b: int|
            0 <= b < 8 ==> swept(
                frame,
                prev,
                map.bucket_of@,
                b,
                common(frame, prev, map.bucket_of@.len() as int),
                #[trigger] extents[b],
            ),
        forall|i: int|
            0 <= i < common(frame, prev, map.bucket_of@.len() as int) ==> #[trigger] sample(
                frame,
                i,
            ) == sample(prev, i),
    ensures
        damage(extents, rows, map, n) == Seq::<Rect>::empty(),
    decreases n,
{
    if n > 0 {
        nothing_moving_damages_nothing(frame, prev, map, extents, rows, n - 1);
        assert(extents[n - 1] == (u16::MAX, 0u16)) by {
            let m = common(frame, prev, map.bucket_of@.len() as int);
            assert(swept(frame, prev, map.bucket_of@, n - 1, m, extents[n - 1]));
            assert forall|i: int| 0 <= i < m implies !(#[trigger] moved(
                frame,
                prev,
                map.bucket_of@,
                n - 1,
                i,
            )) by {
                assert(sample(frame, i) == sample(prev, i));
            }
        }
    }
}

/// A falling bar sweeps the same span as a rising one: exchanging the two
/// frames changes no bucket's extent.
pub proof fn direction_does_not_matter(
    frame: Seq<u8>,
    prev: Seq<u8>,
    buckets: Seq<u8>,
    b: int,
    e: (u16, u16),
    f: (u16, u16),
)
    requires
        swept(frame, prev, buckets, b, common(frame, prev, buckets.len() as int), e),
        swept(prev, frame, buckets, b, common(prev, frame, buckets.len() as int), f),
    ensures
        e == f,
{
    let n = common(frame, prev, buckets.len() as int);
    assert(n == common(prev, frame, buckets.len() as int));
    assert forall|i: int| #[trigger] moved(frame, prev, buckets, b, i) implies moved(
        prev,
        frame,
        buckets,
        b,
        i,
    ) by {}
    assert forall|i: int| #[trigger] moved(prev, frame, buckets, b, i) implies moved(
        frame,
        prev,
        buckets,
        b,
        i,
    ) by {}
}

/// Neighbouring bars share a bucket or stand in neighbouring ones, the first in
/// the first; with eight bars or more no bucket is left out, and no bar falls
/// past the last.
pub proof fn buckets_run_along_the_row(i: int, bars: int)
    requires
        0 <= i < bars,
    ensures
        0 <= bucket(i, bars) < 8,
        bucket(0, bars) == 0,
        i + 1 < bars ==> bucket(i, bars) <= bucket(i + 1, bars),
        bars >= 8 && i + 1 < bars ==> bucket(i + 1, bars) <= bucket(i, bars) + 1,
        bars >= 8 ==> bucket(bars - 1, bars) == 7,
        bars * bucket(i, bars) <= 8 * i < bars * (bucket(i, bars) + 1),
{
    let b = bucket(i, bars);
    lemma_fundamental_div_mod(i * 8, bars);
    lemma_fundamental_div_mod((i + 1) * 8, bars);
    lemma_fundamental_div_mod((bars - 1) * 8, bars);
    lemma_fundamental_div_mod(0, bars);
    let c = bucket(i + 1, bars);
    let l = bucket(bars - 1, bars);
    assert(0 <= (i * 8) % bars < bars && 0 <= ((i + 1) * 8) % bars < bars && 0 <= ((bars - 1) * 8)
        % bars < bars) by (nonlinear_arith)
        requires
            bars > 0,
    ;
    assert(0 <= b < 8 && bars * (b + 1) == bars * b + bars) by (nonlinear_arith)
        requires
            bars * b <= 8 * i < bars * b + bars,
            0 <= i < bars,
    ;
    assert(0int * 8 / bars == 0) by (nonlinear_arith)
        requires
            bars > 0,
    ;
    assert(b <= c && (bars >= 8 ==> c <= b + 1)) by (nonlinear_arith)
        requires
            bars > 0,
            bars * b <= 8 * i < bars * b + bars,
            bars * c <= 8 * i + 8 < bars * c + bars,
    ;
    assert(bars >= 8 ==> l == 7) by (nonlinear_arith)
        requires
            bars > 0,
            bars * l <= 8 * bars - 8 < bars * l + bars,
    ;
}

/// A sample is a number of sixteen bits, the first of its two bytes the low
/// one: the least is 0, the greatest 65535, and a step in the second byte
/// counts 256 times one in the first.
pub proof fn a_sample_has_its_low_byte_first(frame: Seq<u8>, other: Seq<u8>, i: int)
    requires
        0 <= i,
        2 * i + 1 < frame.len(),
        2 * i + 1 < other.len(),
    ensures
        0 <= sample(frame, i) <= 65535,
        sample(frame, i) % 256 == frame[2 * i],
        sample(frame, i) / 256 == frame[2 * i + 1],
        frame[2 * i + 1] < other[2 * i + 1] ==> sample(frame, i) < sample(other, i),
{
}

proof fn damage_comes_from_buckets(
    extents: Seq<(u16, u16)>,
    rows: Seq<(i32, i32)>,
    map: DamageMap,
    n: int,
    k: int,
) -> (b: int)
    requires
        0 <= k < damage(extents, rows, map, n).len(),
    ensures
        0 <= b < n,
        bucket_damage(extents, rows, map, b) == Some(damage(extents, rows, map, n)[k]),
    decreases n,
{
    let earlier = damage(extents, rows, map, n - 1);
    if k < earlier.len() {
        let b = damage_comes_from_buckets(extents, rows, map, n - 1, k);
        assert(damage(extents, rows, map, n)[k] == earlier[k]);
        b
    } else {
        n - 1
    }
}

/// `at` is `n` where that lies from 0 to `limit`, and the nearer of these two
/// where it does not.
pub open spec fn held(at: int, n: int, limit: int) -> bool {
    &&& 0 <= n <= limit ==> at == n
    &&& n < 0 ==> at == 0
    &&& n > limit && n >= 0 ==> at == limit
}

/// No rectangle is larger than it has to be: its sides are those of bars out of
/// one bucket in which some bar moved, a pixel further out where the surface
/// has one, and it reaches no lower and no higher than the rows that the bars
/// swept, a pixel further out likewise.
pub proof fn no_rect_is_larger_than_it_has_to_be(
    frame: Seq<u8>,
    prev: Seq<u8>,
    map: DamageMap,
    columns: Seq<(i32, i32)>,
    width: u32,
    height: u32,
    extents: Seq<(u16, u16)>,
    rows: Seq<(i32, i32)>,
    k: int,
)
    requires
        map.maps(columns, width, height),
        0 <= k < damage(extents, rows, map, 8).len(),
        extents.len() == 8,
        forall|b: int|
            0 <= b < 8 ==> swept(
                frame,
                prev,
                map.bucket_of@,
                b,
                common(frame, prev, columns.len() as int),
                #[trigger] extents[b],
            ),
    ensures
        exists|b: int, l: int, r: int, m: int|
            #![trigger bucket(l, columns.len() as int), bucket(r, columns.len() as int), moved(frame, prev, map.bucket_of@, b, m)]
            {
                let d = damage(extents, rows, map, 8)[k];
                &&& 0 <= b < 8
                &&& 0 <= l < columns.len() && bucket(l, columns.len() as int) == b
                &&& 0 <= r < columns.len() && bucket(r, columns.len() as int) == b
                &&& 0 <= m < common(frame, prev, columns.len() as int)
                &&& moved(frame, prev, map.bucket_of@, b, m)
                &&& held(d.x as int, columns[l].0 - 1, width as int)
                &&& held(d.x + d.width, columns[r].1 + 1, width as int)
                &&& held(d.y as int, rows[b].0 - 1, height as int)
                &&& held(d.y + d.height, rows[b].1 + 1, height as int)
            },
{
    let n = columns.len() as int;
    let all = damage(extents, rows, map, 8);
    let b = damage_comes_from_buckets(extents, rows, map, 8, k);
    let xs = map.bucket_x@[b];
    let e = extents[b];
    assert(hull(columns, width, b, n, xs));
    assert(swept(frame, prev, map.bucket_of@, b, common(frame, prev, n), e));
    assert(exists|i: int|
        0 <= i < common(frame, prev, n) && #[trigger] moved(frame, prev, map.bucket_of@, b, i));
    let m = choose|i: int|
        0 <= i < common(frame, prev, n) && #[trigger] moved(frame, prev, map.bucket_of@, b, i);
    assert(map.bucket_of@[m] == bucket(m, n));
    assert(xs.0 <= first_column(columns[m].0, width));
    assert(past_column(columns[m].1, width) <= xs.1);
    if xs.0 == i32::MAX {
        assert(first_column(columns[m].0, width) <= width);
    }
    let l = if exists|i: int|
        0 <= i < n && #[trigger] bucket(i, n) == b && xs.0 == first_column(columns[i].0, width) {
        choose|i: int|
            0 <= i < n && #[trigger] bucket(i, n) == b && xs.0 == first_column(columns[i].0, width)
    } else {
        m
    };
    let r = choose|i: int|
        0 <= i < n && #[trigger] bucket(i, n) == b && xs.1 == past_column(columns[i].1, width);
    assert(bucket(l, n) == b && bucket(r, n) == b && moved(frame, prev, map.bucket_of@, b, m));
}

/// A bucket's extent reaches from the lowest sample of a bar that moved, old or
/// new, to the highest, and no further.
pub proof fn an_extent_is_that_of_moved_bars(
    frame: Seq<u8>,
    prev: Seq<u8>,
    buckets: Seq<u8>,
    b: int,
    n: int,
    e: (u16, u16),
    i: int,
)
    requires
        swept(frame, prev, buckets, b, n, e),
        0 <= i < n,
        buckets[i] == b,
        sample(frame, i) != sample(prev, i),
    ensures
        e.0 <= sample(frame, i) <= e.1,
        e.0 <= sample(prev, i) <= e.1,
        exists|k: int|
            0 <= k < n && buckets[k] == b && #[trigger] sample(frame, k) != sample(prev, k) && (e.0
                == sample(frame, k) || e.0 == sample(prev, k)),
        exists|k: int|
            0 <= k < n && buckets[k] == b && #[trigger] sample(frame, k) != sample(prev, k) && (e.1
                == sample(frame, k) || e.1 == sample(prev, k)),
{
    assert(moved(frame, prev, buckets, b, i));
    let k = choose|k: int|
        0 <= k < n && #[trigger] moved(frame, prev, buckets, b, k) && e.0 == lower_of(
            sample(frame, k),
            sample(prev, k),
        );
    assert(sample(frame, k) != sample(prev, k));
    let l = choose|k: int|
        0 <= k < n && #[trigger] moved(frame, prev, buckets, b, k) && e.1 == higher_of(
            sample(frame, k),
            sample(prev, k),
        );
    assert(sample(frame, l) != sample(prev, l));
}

/// Every bar is looked at that both frames have a sample for and that stands on
/// the surface.
pub proof fn every_bar_is_looked_at(frame: Seq<u8>, prev: Seq<u8>, bars: int, i: int)
    requires
        0 <= bars,
        0 <= i,
    ensures
        i < common(frame, prev, bars) <==> i < bars && 2 * i + 1 < frame.len() && 2 * i + 1
            < prev.len(),
        frame.len() == 2 * bars && prev.len() == 2 * bars ==> common(frame, prev, bars) == bars,
{
}

} // verus!
