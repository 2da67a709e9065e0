use cavawall::app_config::{CircleAnchor, CircleConfig, FitMode, Mode};
use cavawall::frame::{is_silent, SILENCE_RAW};
use cavawall::placement::{crop, place, Anchored, CircleGeom, Placement};
use cavawall::render::{
    damage_rects, extents, unit_quad, DamageMap, Rect, DAMAGE_BUCKETS,
};
use cavawall::single::Single;

const SILENCE_THRESHOLD: f32 = 0.005;
const BAR_NDC_SCALE: f32 = 2.0 / 65535.0;

fn single(x: f32) -> Single {
    Single { bits: x.to_bits() }
}

fn float(s: Single) -> f32 {
    f32::from_bits(s.bits)
}

/// A circle closes, so it has as many gaps as bars - one more than a row
/// of the same count. Getting that wrong leaves a visible seam at bar 0 or
/// overlaps it with the last bar, and no GL test would catch either
#[test]
fn circle_slots_tile_the_full_turn() {
    for bars in [1u32, 8, 76, 255] {
        for gap in [0.0f32, 0.1, 0.5] {
            let step = std::f32::consts::TAU / bars as f32;
            let bar = step / (1.0 + gap);
            // Bars plus gaps come back to exactly one turn
            let total = (bar + bar * gap) * bars as f32;
            assert!(
                (total - std::f32::consts::TAU).abs() < 1e-4,
                "bars={bars} gap={gap} covered {total}"
            );
            // And the gap really is that fraction of the bar, as on a row
            assert!((bar * gap - (step - bar)).abs() < 1e-5, "gap ratio wrong");
        }
    }
}

/// Defaults and clamps, because an out-of-range inner_radius is silently
/// invisible rather than loud: 1.0 leaves no span for a bar to grow into
#[test]
fn circle_geom_clamps_its_config() {
    let wild = CircleConfig {
        diameter: Some(0),
        inner_radius: Some(single(2.5)),
        inner_alpha: Some(single(-1.0)),
        outer_alpha: Some(single(9.0)),
        bars: None,
        anchor: None,
        margin_x: None,
        margin_y: None,
    };
    let g = CircleGeom::from_config(Some(&wild));
    assert_eq!(g.diameter, 16, "diameter floored");
    assert_eq!(float(g.inner_radius), 0.95, "inner_radius leaves a span");
    assert_eq!(float(g.inner_alpha), 0.0);
    assert_eq!(float(g.outer_alpha), 1.0);

    let d = CircleGeom::from_config(None);
    assert_eq!(d.anchor, CircleAnchor::Center, "no section means centred");
    assert_eq!(d.margin, (0, 0));
    assert!(float(d.inner_radius) > 0.0 && float(d.inner_radius) < 1.0);
    assert_eq!(d.diameter, 520);
    assert_eq!(float(d.inner_radius), 0.35);
    assert_eq!((float(d.inner_alpha), float(d.outer_alpha)), (1.0, 1.0));
}

fn geom(anchor: CircleAnchor, mx: u32, my: u32) -> CircleGeom {
    CircleGeom {
        diameter: 300,
        inner_radius: single(0.35),
        inner_alpha: single(1.0),
        outer_alpha: single(1.0),
        anchor,
        margin: (mx, my),
    }
}

#[test]
fn circle_anchors_land_where_they_say() {
    // 1920x1080 output, 300px circle: 1620 and 780 of free space
    let (w, h, d) = (1920, 1080, 300);
    assert_eq!(geom(CircleAnchor::Center, 0, 0).margins_for(d, w, h), (390, 810));
    assert_eq!(geom(CircleAnchor::TopLeft, 40, 60).margins_for(d, w, h), (60, 40));
    assert_eq!(geom(CircleAnchor::TopRight, 40, 60).margins_for(d, w, h), (60, 1580));
    assert_eq!(geom(CircleAnchor::BottomRight, 40, 60).margins_for(d, w, h), (720, 1580));
    // Anchors that centre one axis ignore that axis's margin
    assert_eq!(geom(CircleAnchor::Top, 999, 25).margins_for(d, w, h), (25, 810));
    assert_eq!(geom(CircleAnchor::Left, 25, 999).margins_for(d, w, h), (390, 25));
    // A margin bigger than the output cannot push it off-screen
    let far = geom(CircleAnchor::TopLeft, 9999, 9999).margins_for(d, w, h);
    assert_eq!(far, (780, 1620), "clamped to the free space");
}

#[test]
fn the_other_anchors_land_where_they_say() {
    let (w, h, d) = (1920, 1080, 300);
    assert_eq!(geom(CircleAnchor::Bottom, 7, 60).margins_for(d, w, h), (720, 810));
    assert_eq!(geom(CircleAnchor::Right, 40, 7).margins_for(d, w, h), (390, 1580));
    assert_eq!(geom(CircleAnchor::BottomLeft, 40, 60).margins_for(d, w, h), (720, 40));
    // No room at all leaves no margin
    assert_eq!(geom(CircleAnchor::BottomRight, 40, 60).margins_for(2000, w, h), (0, 0));
    // A margin past the signed range wraps, and still lands inside
    assert_eq!(geom(CircleAnchor::TopLeft, u32::MAX, 0).margins_for(d, w, h), (0, 0));
}

#[test]
fn a_surface_is_placed_by_its_mode() {
    let circle = geom(CircleAnchor::TopRight, 10, 20);
    assert_eq!(
        place(Mode::Bars, &circle, 1920, 1080, 703, None),
        Placement { width: 1920, height: 703, anchored: Anchored::Bottom, margin: None }
    );
    assert_eq!(place(Mode::Bars, &circle, 1920, 1080, 0, None).height, 1);
    assert_eq!(place(Mode::Bars, &circle, 1920, 1080, 5000, None).height, 1080);
    assert_eq!(
        place(Mode::Circle, &circle, 1920, 1080, 0, None),
        Placement {
            width: 300,
            height: 300,
            anchored: Anchored::TopLeft,
            margin: Some((20, 1610))
        }
    );
    // Cut down to an output that is smaller than the circle
    assert_eq!(
        place(Mode::Circle, &circle, 400, 200, 0, None),
        Placement { width: 200, height: 200, anchored: Anchored::TopLeft, margin: Some((0, 190)) }
    );
    assert_eq!(
        place(Mode::Curve, &circle, 1920, 1080, 0, Some((1031, 201, 857, 244))),
        Placement {
            width: 857,
            height: 244,
            anchored: Anchored::TopLeft,
            margin: Some((201, 1031))
        }
    );
    assert_eq!(
        place(Mode::Curve, &circle, 1920, 1080, 0, None),
        Placement { width: 1920, height: 1080, anchored: Anchored::TopLeft, margin: None }
    );
}

#[test]
fn only_a_readable_image_is_cropped() {
    let out = (1920, 1080);
    assert_eq!(crop(FitMode::Cover, Some((2560, 1440)), out), Some((2560, 1440)));
    assert_eq!(crop(FitMode::Stretch, Some((2560, 1440)), out), None);
    assert_eq!(crop(FitMode::Cover, None, out), None);
    assert_eq!(crop(FitMode::Cover, Some((0, 0)), out), None);
    assert_eq!(crop(FitMode::Cover, Some((1, 1)), (0, 5)), None);
}

/// The quad must be a strip in the order the shader assumes: corner.x
/// selects the left or right edge, corner.y the bottom or the top
#[test]
fn unit_quad_is_a_bottom_anchored_strip() {
    let corners: Vec<[f32; 2]> =
        unit_quad().iter().map(|c| [f32::from(c[0]), f32::from(c[1])]).collect();
    assert_eq!(
        corners,
        &[[0.0, 1.0], [1.0, 1.0], [0.0, 0.0], [1.0, 0.0]],
        "top-left, top-right, bottom-left, bottom-right"
    );
    for c in corners {
        assert!(c[0] == 0.0 || c[0] == 1.0, "corner.x is an edge selector");
        assert!(c[1] == 0.0 || c[1] == 1.0, "corner.y is a bottom/top selector");
    }
}

/// Bar width and stride in NDC
fn bar_geometry(bar_count: u32, gap: f32) -> (f32, f32) {
    let bars = bar_count as f32;
    let bar_width = 2.0 / (bars + (bars - 1.0) * gap);
    (bar_width, bar_width * (1.0 + gap))
}

/// Cases are written in NDC because that is what a bar's height means on
/// screen. A frame carries cava's raw samples, so they go back into that
/// domain here
fn raw(hs: &[f32]) -> Vec<u8> {
    hs.iter().flat_map(|ndc| (((ndc + 1.0) / BAR_NDC_SCALE) as u16).to_le_bytes()).collect()
}

fn damage_map(bars: usize, bw: f32, stride: f32, w: u32, h: u32) -> DamageMap {
    let columns: Vec<(i32, i32)> = (0..bars)
        .map(|i| {
            (
                (stride * i as f32 * 0.5 * w as f32).floor() as i32,
                ((stride * i as f32 + bw) * 0.5 * w as f32).ceil() as i32,
            )
        })
        .collect();
    DamageMap::new(&columns, w, h)
}

fn damaged(new: &[f32], prev: &[f32], map: &DamageMap, h: u32) -> Vec<[i32; 4]> {
    let spans = extents(&raw(new), &raw(prev), map);
    let half = h as f32 * 0.5;
    let rows: Vec<(i32, i32)> = spans
        .iter()
        .map(|(lo, hi)| {
            let l = f32::from(*lo) * BAR_NDC_SCALE + -1.0;
            let u = f32::from(*hi) * BAR_NDC_SCALE + -1.0;
            (((l + 1.0) * half).floor() as i32, ((u + 1.0) * half).ceil() as i32)
        })
        .collect();
    damage_rects(&spans, &rows, map).iter().map(|r| [r.x, r.y, r.width, r.height]).collect()
}

fn rects_of(heights: &[f32], prev: &[f32], w: u32, h: u32) -> Vec<[i32; 4]> {
    let (bw, stride) = bar_geometry(heights.len() as u32, 0.0);
    damaged(heights, prev, &damage_map(heights.len(), bw, stride, w, h), h)
}

/// The pixel row a height sits on, the same mapping the shader uses
fn row(ndc: f32, h: u32) -> i32 {
    ((ndc + 1.0) * 0.5 * h as f32) as i32
}

#[test]
fn nothing_moving_damages_nothing() {
    let hs = [0.0, -0.5, 0.25, 1.0];
    assert!(rects_of(&hs, &hs, 1920, 703).is_empty());
}

#[test]
fn a_moved_bar_is_fully_covered() {
    let prev = [-1.0, -1.0, -1.0, -1.0];
    let new = [-1.0, 0.5, -1.0, -1.0]; // bar 1 rises from the floor
    let rects = rects_of(&new, &prev, 1920, 703);
    assert_eq!(rects.len(), 1, "one bucket moved, one rect");
    let [x, y, rw, rh] = rects[0];
    let (lo, hi) = (row(-1.0, 703), row(0.5, 703));
    assert!(y <= lo && y + rh >= hi, "covers the span the bar swept: {rects:?}");
    // And it is a slice of the width, not the whole band
    assert!(rw < 1920 / 2, "one bar of four should not span the surface: {rw}");
    assert!(x >= 0 && x + rw <= 1920 && y >= 0 && y + rh <= 703, "in bounds");
}

#[test]
fn a_falling_bar_covers_the_same_span_as_a_rising_one() {
    let a = rects_of(&[-1.0, 0.5, -1.0, -1.0], &[-1.0, -1.0, -1.0, -1.0], 1920, 703);
    let b = rects_of(&[-1.0, -1.0, -1.0, -1.0], &[-1.0, 0.5, -1.0, -1.0], 1920, 703);
    assert_eq!(a, b, "direction must not change what is damaged");
}

/// The invariant that matters: EVERY bar that moved is fully inside some
/// rect. Anything less leaves a stale strip of the old bar on screen. A bar
/// that did NOT move needs no coverage, which is the whole point
#[test]
fn every_moved_bar_is_covered_and_the_rect_count_stays_capped() {
    let (w, h) = (1920u32, 703u32);
    let bars = 76usize;
    let (bw, stride) = bar_geometry(bars as u32, 0.0);
    let prev = vec![-1.0f32; bars];
    // i % 7 == 0 leaves that bar exactly where it was, so the input mixes
    // moved and unmoved bars the way a real frame does
    let new: Vec<f32> = (0..bars).map(|i| -1.0 + (i % 7) as f32 * 0.2).collect();
    let rects = rects_of(&new, &prev, w, h);
    assert!(!rects.is_empty() && rects.len() <= DAMAGE_BUCKETS, "{}", rects.len());

    let mut moved = 0;
    for i in 0..bars {
        if new[i] == prev[i] {
            continue;
        }
        moved += 1;
        let x0 = (stride * i as f32 * 0.5 * w as f32) as i32;
        let x1 = ((stride * i as f32 + bw) * 0.5 * w as f32).ceil() as i32;
        let (lo, hi) = (row(prev[i].min(new[i]), h), row(prev[i].max(new[i]), h));
        assert!(
            rects.iter().any(|r| {
                r[0] <= x0 && r[0] + r[2] >= x1 && r[1] <= lo && r[1] + r[3] >= hi
            }),
            "bar {i} moved {:?}->{:?} (x {x0}..{x1}, y {lo}..{hi}) is not covered by {rects:?}",
            prev[i], new[i]
        );
    }
    assert!(moved > 60, "the fixture should move most bars, moved {moved}");
}

/// Nothing in the damage maths may assume this panel. The surface size
/// comes from the compositor's configure and the band from
/// `bars.max_height`, so the same frame has to work at any resolution -
/// these are three real ones plus the max_height fractions they imply
#[test]
fn damage_is_resolution_independent() {
    let bars = 40usize;
    let (bw, stride) = bar_geometry(bars as u32, 0.1);
    let prev = vec![-1.0f32; bars];
    let new: Vec<f32> = (0..bars).map(|i| -1.0 + (i % 5) as f32 * 0.3).collect();

    for (w, full_h, frac) in [(1920u32, 1080u32, 0.65f32), (2560, 1440, 0.5), (1366, 768, 1.0)] {
        let h = (full_h as f32 * frac).ceil() as u32;
        let rects = damaged(&new, &prev, &damage_map(bars, bw, stride, w, h), h);
        assert!(!rects.is_empty(), "{w}x{h}: nothing damaged");
        for r in &rects {
            assert!(r[0] >= 0 && r[1] >= 0, "{w}x{h}: {r:?}");
            assert!(r[0] + r[2] <= w as i32, "{w}x{h}: past the right edge {r:?}");
            assert!(r[1] + r[3] <= h as i32, "{w}x{h}: past the top {r:?}");
        }
        // Every moved bar still covered, at this size too
        for i in 0..bars {
            if new[i] == prev[i] {
                continue;
            }
            let x0 = (stride * i as f32 * 0.5 * w as f32) as i32;
            let x1 = ((stride * i as f32 + bw) * 0.5 * w as f32).ceil() as i32;
            let (lo, hi) = (row(prev[i].min(new[i]), h), row(prev[i].max(new[i]), h));
            assert!(
                rects.iter().any(|r| r[0] <= x0 && r[0] + r[2] >= x1
                    && r[1] <= lo && r[1] + r[3] >= hi),
                "{w}x{h}: bar {i} uncovered"
            );
        }
    }
}

/// Bars at the very top and bottom must not produce rects outside the
/// surface, which the one-pixel widening could otherwise do
#[test]
fn rects_stay_inside_the_surface_at_the_extremes() {
    for (a, b) in [(-1.0f32, 1.0f32), (1.0, -1.0)] {
        let rects = rects_of(&[a, a], &[b, b], 1920, 703);
        for r in &rects {
            assert!(r[0] >= 0 && r[1] >= 0, "{r:?}");
            assert!(r[0] + r[2] <= 1920 && r[1] + r[3] <= 703, "{r:?}");
            assert!(r[2] > 0 && r[3] > 0, "degenerate rect {r:?}");
        }
    }
}

#[test]
fn a_bucket_gathers_its_bars() {
    // Sixteen bars of ten columns each: two to a bucket
    let columns: Vec<(i32, i32)> = (0..16).map(|i| (i * 10, i * 10 + 10)).collect();
    let map = DamageMap::new(&columns, 160, 100);
    assert_eq!(map.bucket_of, vec![0, 0, 1, 1, 2, 2, 3, 3, 4, 4, 5, 5, 6, 6, 7, 7]);
    assert_eq!(map.bucket_x[0], (0, 21));
    assert_eq!(map.bucket_x[3], (59, 81));
    assert_eq!(map.bucket_x[7], (139, 160));
    let mut old = vec![0u8; 32];
    let mut new = vec![0u8; 32];
    new[6..8].copy_from_slice(&500u16.to_le_bytes());
    old[4..6].copy_from_slice(&9u16.to_le_bytes());
    let spans = extents(&new, &old, &map);
    assert_eq!(spans[1], (0, 500));
    assert_eq!(spans[0], (u16::MAX, 0));
    let rows = vec![(0, 5); 8];
    assert_eq!(
        damage_rects(&spans, &rows, &map),
        vec![Rect { x: 19, y: 0, width: 22, height: 6 }]
    );
}

#[test]
fn a_map_without_bars_damages_nothing() {
    let map = DamageMap::new(&[], 160, 100);
    let spans = extents(&[1, 2, 3, 4], &[0, 0, 0, 0], &map);
    assert!(damage_rects(&spans, &vec![(0, 5); 8], &map).is_empty());
}

/// Parking and waking must not be able to disagree about what silence
/// is: they are the park and unpark halves of one decision. This pins the
/// shared predicate to the threshold as a fraction of full scale
#[test]
fn silence_boundary_matches_the_f32_threshold() {
    let frame = |n: u16| n.to_le_bytes();
    let loudest_silent = SILENCE_RAW;
    assert!(is_silent(&frame(loudest_silent)));
    assert!(!is_silent(&frame(loudest_silent + 1)));
    assert!(f32::from(loudest_silent) / 65530.0 < SILENCE_THRESHOLD);
    assert!(f32::from(loudest_silent + 1) / 65530.0 >= SILENCE_THRESHOLD);
}

/// One loud bar in an otherwise quiet frame keeps the visualiser awake
#[test]
fn a_single_loud_bar_is_not_silence() {
    let mut frame = [0u8; 8];
    frame[6..8].copy_from_slice(&u16::MAX.to_le_bytes());
    assert!(!is_silent(&frame));
    assert!(is_silent(&[0u8; 8]));
}
