use cavawall::curve::resample as plan_samples;
use cavawall::curve::{
    allocate, asked_bars, asked_fits, current_wallpaper, current_wallpaper_file, densify, direction,
    horizon, horizon_floor, lay_out, plan_allocation, segments, usable, AllocationPlan,
    Control, Dense, Direction, Division, Height, Ideal, Lean, PathSpec, Point, Resampling, Weight,
    HORIZON_BUCKETS, PER_SEGMENT,
};
use cavawall::scheme::Environment;
use cavawall::single::Single;

fn single(x: f32) -> Single {
    Single { bits: x.to_bits() }
}

fn float(s: Single) -> f32 {
    f32::from_bits(s.bits)
}

fn singles(xs: &[f32]) -> Vec<Single> {
    xs.iter().map(|x| single(*x)).collect()
}

fn control(x: f32, y: f32, scale: f32, angle: Option<f32>) -> Control {
    Control { x: single(x), y: single(y), scale: single(scale), angle: angle.map(single) }
}

/// Divides the shared bars in proportion to the weights
fn divide(plan: &AllocationPlan) -> Division {
    let weights: Vec<f32> = plan
        .weights
        .iter()
        .map(|w| match w {
            Weight::Length(l) => float(*l),
            Weight::Asked(n) => *n as f32,
        })
        .collect();
    let total: f32 = weights.iter().sum();
    if !total.is_finite() || total <= 0.0 {
        return Division::Even;
    }
    Division::Parts(
        weights
            .iter()
            .map(|w| {
                let ideal = plan.shared as f32 * w / total;
                Ideal { whole: ideal as u32, fraction: single(ideal - ideal.floor()) }
            })
            .collect(),
    )
}

fn share_out(lengths: &[f32], fixed: &[Option<u32>], count: u32) -> Vec<u32> {
    assert!(asked_fits(fixed));
    let plan = plan_allocation(&singles(lengths), fixed, count);
    let division = divide(&plan);
    allocate(&plan, &division)
}

/// The instance count, the SSBO and cava's channels all have to agree, so
/// an allocation that is one off is a desync, not a rounding detail
#[test]
fn allocation_is_proportional_and_exact() {
    let free = |n| vec![None; n];
    assert_eq!(share_out(&[3.0, 1.0], &free(2), 40), vec![30, 10]);
    // 10 bars over thirds: 3.33 each, and the remainder goes to the
    // largest fraction first
    let split = share_out(&[1.0, 1.0, 1.0], &free(3), 10);
    assert_eq!(split.iter().sum::<u32>(), 10);
    assert_eq!(split, vec![4, 3, 3]);
    // A path too short to earn a bar gets none rather than stealing one
    assert_eq!(share_out(&[100.0, 0.001], &free(2), 8), vec![8, 0]);
    // Degenerate input still totals exactly
    assert_eq!(share_out(&[0.0, 0.0], &free(2), 5).iter().sum::<u32>(), 5);
    assert!(share_out(&[], &free(0), 5).is_empty());
    for n in [1u32, 7, 27, 64, 200] {
        assert_eq!(share_out(&[2.0, 5.0, 0.3], &free(3), n).iter().sum::<u32>(), n, "for {n}");
    }
}

/// A path that names a count gets it; the others share what is left, and
/// the total still lands exactly on what cava produces
#[test]
fn a_fixed_count_is_taken_off_the_top() {
    assert_eq!(share_out(&[1.0, 1.0], &[Some(6), None], 20), vec![6, 14]);
    // Length still decides between the paths that did not name one
    assert_eq!(share_out(&[1.0, 3.0, 1.0], &[Some(10), None, None], 30), vec![10, 15, 5]);
    // Asking for more than exists shares out what exists, in proportion
    // to what was asked - nobody gets their number, and the total holds
    let over = share_out(&[1.0, 1.0], &[Some(30), Some(10)], 20);
    assert_eq!(over, vec![15, 5]);
    assert_eq!(over.iter().sum::<u32>(), 20);
    // Every bar named, exactly: no remainder to share
    assert_eq!(share_out(&[1.0, 1.0], &[Some(7), Some(13)], 20), vec![7, 13]);
}

#[test]
fn named_counts_below_the_total_share_all_of_it() {
    assert_eq!(share_out(&[1.0, 1.0], &[Some(3), Some(4)], 20), vec![9, 11]);
    assert_eq!(share_out(&[1.0, 1.0], &[Some(6), Some(7)], 20).iter().sum::<u32>(), 20);
    // A path without a length cannot take the rest
    assert_eq!(share_out(&[1.0, 0.0], &[Some(6), None], 20), vec![20, 0]);
    // Nor can counts of nothing divide it
    assert_eq!(share_out(&[1.0, 1.0], &[Some(0), Some(0)], 5), vec![3, 2]);
    assert_eq!(share_out(&[1.0, 1.0], &[Some(0), None], 5), vec![0, 5]);
}

#[test]
fn the_total_is_exact_whatever_the_division_says() {
    let part = |whole: u32, fraction: f32| Ideal { whole, fraction: single(fraction) };
    let plan = plan_allocation(&singles(&[1.0, 1.0, 1.0]), &[Some(4), None, None], 10);
    assert_eq!((plan.given.clone(), plan.shared), (vec![4, 0, 0], 6));
    let wild = Division::Parts(vec![part(9, 0.9), part(5, 0.0), part(u32::MAX, 0.5)]);
    assert_eq!(allocate(&plan, &wild), vec![4, 5, 1]);
    let short = Division::Parts(vec![part(0, 0.9), part(0, 0.0), part(1, 0.5)]);
    assert_eq!(allocate(&plan, &short), vec![4, 2, 4]);
    assert_eq!(allocate(&plan, &Division::Even), vec![4, 3, 3]);
}

#[test]
fn degenerate_lengths_share_evenly_front_first() {
    assert_eq!(share_out(&[0.0, 0.0, 0.0], &[None, None, None], 11), vec![4, 4, 3]);
    assert_eq!(share_out(&[f32::NAN, 1.0], &[None, None], 3), vec![2, 1]);
}

#[test]
fn counts_that_overflow_are_told() {
    assert!(asked_fits(&[Some(u32::MAX), None, Some(0)]));
    assert!(!asked_fits(&[Some(u32::MAX), Some(1)]));
}

fn ndc(c: &Control) -> [f32; 2] {
    [float(c.x) * 2.0 - 1.0, 1.0 - float(c.y) * 2.0]
}

fn catmull_rom(p0: [f32; 2], p1: [f32; 2], p2: [f32; 2], p3: [f32; 2], t: f32) -> [f32; 2] {
    let mut out = [0.0; 2];
    for i in 0..2 {
        let a = -p0[i] + 3.0 * p1[i] - 3.0 * p2[i] + p3[i];
        let b = 2.0 * p0[i] - 5.0 * p1[i] + 4.0 * p2[i] - p3[i];
        let c = -p0[i] + p2[i];
        let d = 2.0 * p1[i];
        out[i] = 0.5 * (((a * t + b) * t + c) * t + d);
    }
    out
}

type DensePoint = ([f32; 2], f32, Option<f32>);

fn dense_points(controls: &[Control], plan: &[Dense]) -> Vec<DensePoint> {
    plan.iter()
        .map(|d| {
            let t = d.step as f32 / PER_SEGMENT as f32;
            let at = |i: usize| ndc(&controls[i]);
            let (s1, s2) = (float(controls[d.from].scale), float(controls[d.to].scale));
            let angle = match d.lean {
                Lean::Path => None,
                Lean::Held(a) => Some(float(a)),
                Lean::Blend(a, b) => Some(float(a) + (float(b) - float(a)) * t),
            };
            let p = catmull_rom(at(d.before), at(d.from), at(d.to), at(d.after), t);
            (p, s1 + (s2 - s1) * t, angle)
        })
        .collect()
}

#[derive(Clone, Copy, Debug)]
struct Sample {
    pos: [f32; 2],
    normal: [f32; 2],
}

/// Each path's dense points, and its length up to each of them
fn measure(controls: &[Control], aspect: f32) -> (Vec<DensePoint>, Vec<f32>) {
    measure_along(controls, &densify(controls, PER_SEGMENT), aspect)
}

fn measure_along(controls: &[Control], plan: &[Dense], aspect: f32) -> (Vec<DensePoint>, Vec<f32>) {
    let dense = dense_points(controls, plan);
    let mut acc = vec![0.0f32];
    let mut total = 0.0f32;
    for w in dense.windows(2) {
        let (a, b) = (w[0].0, w[1].0);
        total += (((b[0] - a[0]) * aspect).powi(2) + (b[1] - a[1]).powi(2)).sqrt();
        acc.push(total);
    }
    (dense, acc)
}

fn sample_along(
    dense: &[DensePoint],
    acc: &[f32],
    count: usize,
    flip: bool,
    upright: bool,
    aspect: f32,
) -> Vec<(Sample, f32)> {
    let total = acc[acc.len() - 1];
    let targets: Vec<f32> =
        (0..count).map(|i| total * (i as f32 + 0.5) / count as f32).collect();
    segments(&singles(acc), &singles(&targets))
        .iter()
        .zip(&targets)
        .map(|(&c, target)| {
            let seg = (acc[c + 1] - acc[c]).max(f32::EPSILON);
            let t = ((target - acc[c]) / seg).clamp(0.0, 1.0);
            let ((a, sa, aa), (b, sb, _)) = (dense[c], dense[c + 1]);
            let (dx, dy) = ((b[0] - a[0]) * aspect, b[1] - a[1]);
            let len = (dx * dx + dy * dy).sqrt();
            let mut normal = match direction(aa.map(single), upright, single(len)) {
                Direction::Angle(deg) => {
                    let r = float(deg).to_radians();
                    [r.sin(), r.cos()]
                }
                Direction::Up => [0.0, 1.0],
                Direction::Across => [-dy / len, dx / len],
            };
            if flip {
                normal = [-normal[0], -normal[1]];
            }
            let pos = [a[0] + (b[0] - a[0]) * t, a[1] + (b[1] - a[1]) * t];
            (Sample { pos, normal }, sa + (sb - sa) * t)
        })
        .collect()
}

fn resample(
    controls: &[Control],
    count: u32,
    flip: bool,
    upright: bool,
    aspect: f32,
) -> Vec<(Sample, f32)> {
    match plan_samples(controls, count) {
        Resampling::Copies { base, count: n } => {
            let pos = base.as_ref().map_or([0.0, 0.0], ndc);
            let scale = base.map_or(1.0, |c| float(c.scale));
            vec![(Sample { pos, normal: [0.0, 1.0] }, scale); n as usize]
        }
        Resampling::Along { dense, count: n } => {
            let (dense, acc) = measure_along(controls, &dense, aspect);
            sample_along(&dense, &acc, n as usize, flip, upright, aspect)
        }
    }
}

fn line(n: usize) -> Vec<Control> {
    (0..n).map(|i| control(i as f32 / (n - 1) as f32, 0.5, 1.0, None)).collect()
}

/// A horizontal line must come back as bars pointing straight up, evenly
/// spaced - i.e. curve mode with a flat path reproduces the bars mode it
/// generalises
#[test]
fn a_flat_path_reproduces_a_row_of_bars() {
    let s = resample(&line(4), 8, false, false, 1.0);
    assert_eq!(s.len(), 8);
    for (sample, scale) in &s {
        assert!((sample.pos[1] - 0.0).abs() < 1e-3, "y drifted: {:?}", sample.pos);
        assert!((sample.normal[0]).abs() < 1e-3, "normal not vertical");
        assert!((sample.normal[1] - 1.0).abs() < 1e-3, "normal not up");
        assert!((scale - 1.0).abs() < 1e-6);
    }
    // Evenly spaced along x
    let gaps: Vec<f32> = s.windows(2).map(|w| w[1].0.pos[0] - w[0].0.pos[0]).collect();
    let first = gaps[0];
    for g in &gaps {
        assert!((g - first).abs() < 1e-3, "uneven spacing: {gaps:?}");
    }
}

/// Normals stay unit length whatever the path does; a non-unit normal
/// scales the bar with the slope and the visualiser gets taller on hills
#[test]
fn normals_are_unit_length_on_a_slope() {
    let controls = vec![
        control(0.0, 0.9, 1.0, None),
        control(0.35, 0.3, 1.0, None),
        control(0.7, 0.6, 1.0, None),
        control(1.0, 0.35, 1.0, None),
    ];
    for (s, _) in resample(&controls, 32, false, false, 1.0) {
        let len = (s.normal[0].powi(2) + s.normal[1].powi(2)).sqrt();
        assert!((len - 1.0).abs() < 1e-3, "normal length {len}");
    }
}

/// flip mirrors the normal and nothing else
#[test]
fn flip_only_reverses_the_normal() {
    let c = line(3);
    let (plain, flipped) =
        (resample(&c, 6, false, false, 1.0), resample(&c, 6, true, false, 1.0));
    for ((a, _), (b, _)) in plain.iter().zip(flipped.iter()) {
        assert_eq!(a.pos, b.pos);
        assert!((a.normal[0] + b.normal[0]).abs() < 1e-6);
        assert!((a.normal[1] + b.normal[1]).abs() < 1e-6);
    }
}

/// Per-point scale interpolates along the path - this is what makes a
/// distant stretch of ridge carry shorter bars
#[test]
fn scale_interpolates_between_control_points() {
    let controls = vec![control(0.0, 0.5, 1.0, None), control(1.0, 0.5, 0.2, None)];
    let s = resample(&controls, 10, false, false, 1.0);
    assert!(s[0].1 > s[9].1, "scale should fall along the path");
    assert!(s[0].1 <= 1.0 && s[9].1 >= 0.2);
    // Monotone, not jumping about
    for w in s.windows(2) {
        assert!(w[1].1 <= w[0].1 + 1e-6, "scale not monotone");
    }
}

/// A per-point angle overrides the tangent, and only where it is set
#[test]
fn angle_override_beats_the_tangent() {
    let controls = vec![control(0.0, 0.9, 1.0, Some(90.0)), control(1.0, 0.2, 1.0, Some(90.0))];
    for (s, _) in resample(&controls, 8, false, false, 1.0) {
        // 90 degrees clockwise from up is straight right
        assert!((s.normal[0] - 1.0).abs() < 1e-3, "normal {:?}", s.normal);
        assert!(s.normal[1].abs() < 1e-3);
    }
    // Without it the same slope leans
    let plain = vec![control(0.0, 0.9, 1.0, None), control(1.0, 0.2, 1.0, None)];
    assert!(resample(&plain, 8, false, false, 1.0).iter().all(|(s, _)| s.normal[0] < 0.95));
}

/// A normal has to be perpendicular ON SCREEN, not in NDC. NDC is square
/// and a 16:9 output is not, so ignoring aspect leans every bar on a slope
/// by a visible amount
#[test]
fn normals_are_perpendicular_on_screen_not_in_ndc() {
    // Pixel slope of exactly 45 degrees on 16:9
    let dy_norm = 0.5; // 0.75 -> 0.25
    let dx_norm = dy_norm * 9.0 / 16.0;
    let controls = vec![
        control(0.5 - dx_norm / 2.0, 0.75, 1.0, None),
        control(0.5 + dx_norm / 2.0, 0.25, 1.0, None),
    ];
    let aspect = 16.0 / 9.0;
    let (s, _) = resample(&controls, 3, false, false, aspect)[1];
    // Perpendicular to a 45-degree pixel slope is 45 degrees the other way
    assert!(
        (s.normal[0].abs() - s.normal[1].abs()).abs() < 0.02,
        "not 45 degrees in pixel space: {:?}",
        s.normal
    );
    // The same path at aspect 1.0 gives a measurably different lean
    let (flat, _) = resample(&controls, 3, false, false, 1.0)[1];
    assert!(
        (flat.normal[0] - s.normal[0]).abs() > 0.05,
        "aspect made no difference, so it is not being applied"
    );
}

/// flip must reach EVERY bar, including one carrying an angle override
#[test]
fn flip_applies_to_angle_overrides_too() {
    let controls = vec![control(0.0, 0.5, 1.0, Some(0.0)), control(1.0, 0.5, 1.0, Some(0.0))];
    for (s, _) in resample(&controls, 6, true, false, 1.0) {
        assert!((s.normal[1] + 1.0).abs() < 1e-3, "override ignored flip: {:?}", s.normal);
    }
    // And upright flips as well
    let plain = vec![control(0.0, 0.4, 1.0, None), control(1.0, 0.7, 1.0, None)];
    for (s, _) in resample(&plain, 6, true, true, 1.0) {
        assert_eq!(s.normal, [0.0, -1.0]);
    }
}

/// Fewer than two controls is a config mistake, not a crash
#[test]
fn degenerate_input_yields_usable_samples() {
    assert_eq!(resample(&[], 4, false, false, 1.0).len(), 4);
    let one = vec![control(0.5, 0.5, 1.0, None)];
    let s = resample(&one, 3, false, false, 1.0);
    assert_eq!(s.len(), 3);
    assert_eq!(s[0].0.normal, [0.0, 1.0]);
}

/// upright keeps every bar vertical whatever the path does - the "plain
/// rectangles standing on the ridge" look, as against leaning with it
#[test]
fn upright_ignores_the_slope() {
    let controls = vec![
        control(0.0, 0.9, 1.0, None),
        control(0.5, 0.2, 1.0, None),
        control(1.0, 0.8, 1.0, None),
    ];
    for (s, _) in resample(&controls, 16, false, true, 1.0) {
        assert_eq!(s.normal, [0.0, 1.0], "upright bar leaned");
    }
    // And the slope still moves them when upright is off
    let leaned = resample(&controls, 16, false, false, 1.0);
    assert!(leaned.iter().any(|(s, _)| s.normal[0].abs() > 0.1), "nothing leaned");
}

#[test]
fn there_is_always_a_sample() {
    let c = line(5);
    let told = |n: usize, count: u32| match plan_samples(&c[..n], count) {
        Resampling::Copies { base, count } => (base, None, count),
        Resampling::Along { dense, count } => (None, Some(dense), count),
    };
    assert_eq!(told(0, 0), (None, None, 1));
    assert_eq!(told(1, 7), (Some(c[0]), None, 7));
    assert_eq!(told(2, 0), (None, Some(densify(&c[..2], PER_SEGMENT)), 1));
    assert_eq!(told(5, 9), (None, Some(densify(&c, PER_SEGMENT)), 9));
}

#[test]
fn a_segment_without_direction_points_up() {
    let up = f32::EPSILON;
    assert_eq!(direction(None, false, single(up)), Direction::Up);
    assert_eq!(direction(None, false, single(up * 1.5)), Direction::Across);
    assert_eq!(direction(None, false, single(0.0)), Direction::Up);
    assert_eq!(direction(None, true, single(3.0)), Direction::Up);
    assert_eq!(direction(None, false, single(f32::NAN)), Direction::Across);
    assert_eq!(direction(Some(single(30.0)), true, single(3.0)), Direction::Angle(single(30.0)));
}

#[test]
fn dense_points_double_the_ends() {
    let c = vec![
        control(0.0, 0.0, 1.0, Some(5.0)),
        control(0.5, 0.5, 1.0, None),
        control(1.0, 1.0, 1.0, Some(9.0)),
    ];
    let d = densify(&c, 2);
    assert_eq!(d.len(), 5);
    assert_eq!((d[0].before, d[0].from, d[0].to, d[0].after, d[0].step), (0, 0, 1, 2, 0));
    assert_eq!((d[3].before, d[3].from, d[3].to, d[3].after, d[3].step), (0, 1, 2, 2, 1));
    assert_eq!(d[1].lean, Lean::Held(single(5.0)));
    assert_eq!(d[2].lean, Lean::Held(single(9.0)));
    assert_eq!((d[4].from, d[4].step, d[4].lean), (2, 0, Lean::Held(single(9.0))));
    let both = densify(&[c[0], c[2]], 1);
    assert_eq!(both[0].lean, Lean::Blend(single(5.0), single(9.0)));
}

#[test]
fn one_walk_finds_what_a_search_finds() {
    let acc = singles(&[0.0, 1.0, 1.0, 2.5, 4.0]);
    let targets = singles(&[0.5, 1.0, 1.2, 2.6, 9.0]);
    let walked = segments(&acc, &targets);
    assert_eq!(walked, vec![0, 0, 2, 3, 3]);
    for (i, t) in targets.iter().enumerate() {
        assert_eq!(segments(&acc, &[*t]), vec![walked[i]]);
    }
    // A target that falls back does not turn the walk round
    assert_eq!(segments(&acc, &singles(&[2.6, 0.5])), vec![3, 3]);
}

fn path(controls: Vec<Control>, reach: f32, width: f32) -> PathSpec {
    PathSpec {
        controls,
        bars: None,
        reach: single(reach),
        width: single(width),
        flip: false,
        upright: false,
    }
}

/// Each bar's reach and width
fn build(paths: &[PathSpec], count: u32, aspect: f32) -> Vec<(f32, f32)> {
    let usable = usable(paths);
    if usable.is_empty() {
        return Vec::new();
    }
    let arcs: Vec<(Vec<DensePoint>, Vec<f32>)> =
        usable.iter().map(|&i| measure(&paths[i].controls, aspect)).collect();
    let lengths: Vec<f32> = arcs.iter().map(|(_, acc)| acc[acc.len() - 1]).collect();
    let counts = share_out(&lengths, &asked_bars(paths, &usable), count);
    let mut out = Vec::new();
    for slot in lay_out(&usable, &counts) {
        let spec = &paths[slot.path];
        let place = usable.iter().position(|&u| u == slot.path).expect("a usable path");
        let (dense, acc) = &arcs[place];
        let all = sample_along(dense, acc, slot.of as usize, spec.flip, spec.upright, aspect);
        let (_, scale) = all[slot.index as usize];
        out.push((float(spec.reach) * scale, float(spec.width) * scale));
    }
    out
}

/// Two paths share one buffer and one draw call, and each carries its own
/// reach - which is the whole reason a bar holds reach rather than the
/// shader holding a uniform
#[test]
fn build_splits_bars_and_keeps_per_path_reach() {
    let line =
        |x0: f32, x1: f32| vec![control(x0, 0.5, 1.0, None), control(x1, 0.5, 1.0, None)];
    let paths = vec![path(line(0.0, 0.6), 0.4, 0.01), path(line(0.7, 1.0), 0.1, 0.02)];
    let bars = build(&paths, 20, 16.0 / 9.0);
    assert_eq!(bars.len(), 20);
    // Twice the length, twice the bars
    let long = bars.iter().filter(|b| (b.0 - 0.4).abs() < 1e-6).count();
    assert_eq!(long, 13, "0.6 against 0.3 of width");
    assert!(bars.iter().filter(|b| (b.0 - 0.1).abs() < 1e-6).count() == 7);
    // A path with too few points to be a curve is skipped, not drawn as a
    // point: one path left means it takes every bar
    let broken = vec![path(line(0.0, 0.6), 0.4, 0.01), path(vec![], 0.0, 0.0)];
    assert_eq!(build(&broken, 9, 1.0).len(), 9);
    assert!(build(&[], 9, 1.0).is_empty());
}

#[test]
fn bars_are_laid_out_path_by_path() {
    let slots = lay_out(&[4, 7], &[2, 1]);
    let plain: Vec<(usize, u32, u32)> = slots.iter().map(|s| (s.path, s.index, s.of)).collect();
    assert_eq!(plain, vec![(4, 0, 2), (4, 1, 2), (7, 0, 1)]);
    assert!(lay_out(&[], &[]).is_empty());
}

#[test]
fn paths_without_two_points_are_left_out() {
    let two = vec![control(0.0, 0.0, 1.0, None), control(1.0, 0.0, 1.0, None)];
    let one = vec![control(0.0, 0.0, 1.0, None)];
    let mut named = path(two.clone(), 0.1, 0.1);
    named.bars = Some(6);
    let paths = vec![path(one, 0.1, 0.1), path(two, 0.1, 0.1), named, path(vec![], 0.1, 0.1)];
    assert_eq!(usable(&paths), vec![1, 2]);
    assert_eq!(asked_bars(&paths, &[1, 2]), vec![None, Some(6)]);
}

fn buckets() -> Vec<f32> {
    (0..HORIZON_BUCKETS).map(|i| i as f32 / (HORIZON_BUCKETS - 1) as f32).collect()
}

fn outline(points: &[(f32, f32)]) -> Vec<Point> {
    points
        .iter()
        .map(|(x, y)| (single(x.clamp(0.0, 1.0)), single(1.0 - y.clamp(0.0, 1.0))))
        .collect()
}

fn sampled_horizon(points: &[(f32, f32)]) -> Vec<f32> {
    let xs = buckets();
    let (pts, heights) = horizon(&outline(points), &singles(&xs));
    let at = |k: usize| (float(pts[k].0), float(pts[k].1));
    heights
        .iter()
        .zip(&xs)
        .map(|(h, x)| match h {
            Height::Flat(k) => at(*k).1,
            Height::Between(k) => {
                let (a, b) = (at(*k), at(*k + 1));
                let span = (b.0 - a.0).max(f32::EPSILON);
                (b.1 - a.1) * ((x - a.0) / span) + a.1
            }
        })
        .collect()
}

/// The single walk has to agree with the obvious search-from-the-start
/// version at every bucket, for silhouettes of every shape: sorted or not,
/// duplicated x, spanning the width or a sliver of it
#[test]
fn the_horizon_walk_matches_a_brute_force_search() {
    fn brute(points: &[(f32, f32)]) -> Vec<f32> {
        let mut pts: Vec<(f32, f32)> =
            points.iter().map(|c| (c.0.clamp(0.0, 1.0), 1.0 - c.1.clamp(0.0, 1.0))).collect();
        pts.sort_by(|a, b| a.0.total_cmp(&b.0));
        (0..HORIZON_BUCKETS)
            .map(|i| {
                let x = i as f32 / (HORIZON_BUCKETS - 1) as f32;
                match pts.iter().position(|p| p.0 >= x) {
                    None => pts[pts.len() - 1].1,
                    Some(0) => pts[0].1,
                    Some(k) => {
                        let (a, b) = (pts[k - 1], pts[k]);
                        let span = (b.0 - a.0).max(f32::EPSILON);
                        a.1 + (b.1 - a.1) * ((x - a.0) / span)
                    }
                }
            })
            .collect()
    }
    // A deterministic spread of shapes, including ones that break naive
    // indexing: reversed input, repeated x, a sliver, the full width
    let mut seed = 0x2545_f491_4f6c_dd1du64;
    let mut rand = || {
        seed ^= seed << 13;
        seed ^= seed >> 7;
        seed ^= seed << 17;
        (seed >> 40) as f32 / 16_777_216.0
    };
    for case in 0..40 {
        let n = 2 + case % 17;
        let (lo, hi) = match case % 4 {
            0 => (0.0, 1.0),
            1 => (0.4, 0.45),
            2 => (0.0, 0.3),
            _ => (0.7, 1.0),
        };
        let pts: Vec<(f32, f32)> = (0..n)
            .map(|i| (lo + (hi - lo) * (i as f32 / (n - 1) as f32), rand()))
            .collect();
        let (walk, slow) = (sampled_horizon(&pts), brute(&pts));
        assert_eq!(walk.len(), slow.len(), "case {case}");
        for (i, (w, b)) in walk.iter().zip(&slow).enumerate() {
            assert!((w - b).abs() < 1e-5, "case {case} bucket {i}: {w} vs {b}");
        }
        // The order in which the points are listed does not matter
        let reversed: Vec<(f32, f32)> = pts.iter().rev().copied().collect();
        assert_eq!(sampled_horizon(&reversed), walk, "case {case} reversed");
    }
}

/// A flat silhouette occludes at a constant height, and one drawn across
/// only part of the width extends flat to both edges rather than dropping
/// to zero and letting bars show through at the sides
#[test]
fn horizon_samples_and_extends_flat() {
    let pts = vec![(0.3, 0.6), (0.7, 0.6)];
    let h = sampled_horizon(&pts);
    assert_eq!(h.len(), HORIZON_BUCKETS);
    // y 0.6 from the top is 0.4 from the bottom, everywhere
    for v in &h {
        assert!((v - 0.4).abs() < 1e-3, "got {v}");
    }
    assert!(sampled_horizon(&pts[..1]).is_empty(), "one point cannot be a horizon");
    // A slope interpolates rather than stepping
    let slope = vec![(0.0, 1.0), (1.0, 0.0)];
    let h = sampled_horizon(&slope);
    assert!(h[0] < 0.01 && h[HORIZON_BUCKETS - 1] > 0.99);
    assert!((h[HORIZON_BUCKETS / 2] - 0.5).abs() < 0.01);
}

#[test]
fn a_horizon_names_the_points_it_runs_between() {
    let (pts, heights) = horizon(
        &outline(&[(0.6, 0.5), (0.2, 0.1), (0.2, 0.9)]),
        &singles(&[0.0, 0.2, 0.5, 0.6, 0.9]),
    );
    assert_eq!(pts, outline(&[(0.2, 0.1), (0.2, 0.9), (0.6, 0.5)]), "equal places keep order");
    assert_eq!(
        heights,
        vec![
            Height::Flat(0),
            Height::Flat(0),
            Height::Between(1),
            Height::Between(1),
            Height::Flat(2)
        ]
    );
}

#[test]
fn the_floor_is_the_lowest_in_reach() {
    let h = singles(&[0.5, 0.2, 0.4, f32::NAN, 0.1]);
    assert_eq!(horizon_floor(&h, 0, 2), Some(single(0.2)));
    assert_eq!(horizon_floor(&h, 2, 3), Some(single(0.4)));
    assert_eq!(horizon_floor(&h, 3, 900), Some(single(0.1)));
    assert_eq!(horizon_floor(&h, 2, 1), None);
    assert_eq!(horizon_floor(&h[..1], 0, 0), None);
    assert_eq!(horizon_floor(&[], 0, 0), None);
}

#[test]
fn the_wallpaper_is_named_by_a_trimmed_line() {
    assert_eq!(current_wallpaper(" /pics/ridge.png\n").as_deref(), Some("/pics/ridge.png"));
    assert_eq!(current_wallpaper(" \n\t"), None);
    let mut env = Environment {
        home: Some(b"/home/u".to_vec()),
        state_home: None,
        config_home: None,
        runtime_dir: None,
    };
    assert_eq!(
        current_wallpaper_file(&env),
        Some(b"/home/u/.local/state/caelestia/wallpaper/path.txt".to_vec())
    );
    env.state_home = Some(b"/state/".to_vec());
    assert_eq!(
        current_wallpaper_file(&env),
        Some(b"/state/caelestia/wallpaper/path.txt".to_vec())
    );
    env.state_home = None;
    env.home = None;
    assert_eq!(current_wallpaper_file(&env), None);
}
