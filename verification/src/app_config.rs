//! The configuration file's contents, and the palette that comes out of it.
//!
//! Sections keyed by name are lists of pairs in which no name occurs twice.
use crate::single::Single;
use crate::text::same;
use std::borrow::Cow;
use vstd::prelude::*;

pub use crate::palette::{
    array_from_config_color, color_from_hex, gradient_buffer, ordered_stops, resolve_stops,
    try_color_from_hex, uploaded_stops, Colour,
};

verus! {

/// Which shape the bars are arranged into.
#[derive(Clone, Copy, Debug, PartialEq, Eq, Structural)]
pub enum Mode {
    /// Left to right along the bottom of the output.
    Bars,
    /// Radiating from the centre of a square surface.
    Circle,
    /// Along an authored path, each bar on the path's normal.
    Curve,
}

impl Default for Mode {
    fn default() -> (r: Mode)
        ensures
            r == Mode::Bars,
    {
        Mode::Bars
    }
}

/// How the wallpaper is laid onto the output.
#[derive(Clone, Copy, Debug, PartialEq, Eq, Structural)]
pub enum FitMode {
    /// Scaled to cover the output and centre-cropped.
    Cover,
    /// Taken as already output-shaped.
    Stretch,
}

impl Default for FitMode {
    fn default() -> (r: FitMode)
        ensures
            r == FitMode::Cover,
    {
        FitMode::Cover
    }
}

/// Where a circle sits on the output.
#[derive(Clone, Copy, Debug, PartialEq, Eq, Structural)]
pub enum CircleAnchor {
    Center,
    Top,
    Bottom,
    Left,
    Right,
    TopLeft,
    TopRight,
    BottomLeft,
    BottomRight,
}

impl Default for CircleAnchor {
    fn default() -> (r: CircleAnchor)
        ensures
            r == CircleAnchor::Center,
    {
        CircleAnchor::Center
    }
}

/// Everything that the configuration file says.
#[derive(Debug)]
pub struct Config {
    pub general: GeneralConfig,
    pub bars: BarConfig,
    pub colors: Vec<(String, ConfigColor)>,
    pub smoothing: SmoothingConfig,
    /// Absent means that nothing is followed.
    pub scheme: Option<SchemeConfig>,
    /// Read in circle mode only; absent means every default.
    pub circle: Option<CircleConfig>,
    /// Read in curve mode only. Keyed by wallpaper content.
    pub curves: Option<Vec<(String, CurveConfig)>>,
}

/// What one wallpaper's curve is drawn from.
#[derive(Debug)]
pub struct CurveConfig {
    /// The single-path shorthand: control points on the image.
    pub points: Option<Vec<Vec<Single>>>,
    pub height: Option<Single>,
    pub width: Option<Single>,
    pub flip: Option<bool>,
    pub upright: Option<bool>,
    /// Several paths; present and not empty, it replaces the shorthand.
    pub path: Option<Vec<PathConfig>>,
    /// How many bars there are in all.
    pub bars: Option<u32>,
    /// The silhouette that bars hide behind.
    pub occlude: Option<Vec<Vec<Single>>>,
    pub fit: Option<FitMode>,
}

/// One stretch of path, with its bars' own geometry.
#[derive(Debug)]
pub struct PathConfig {
    pub points: Vec<Vec<Single>>,
    /// Exactly this many bars, instead of a share by length.
    pub bars: Option<u32>,
    pub height: Option<Single>,
    pub width: Option<Single>,
    pub flip: Option<bool>,
    pub upright: Option<bool>,
}

/// Geometry and shading of the circle, every field optional.
#[derive(Clone, Copy, Debug)]
pub struct CircleConfig {
    pub diameter: Option<u32>,
    pub inner_radius: Option<Single>,
    pub inner_alpha: Option<Single>,
    pub outer_alpha: Option<Single>,
    pub anchor: Option<CircleAnchor>,
    pub bars: Option<u32>,
    pub margin_x: Option<u32>,
    pub margin_y: Option<u32>,
}

/// What one wallpaper sets for itself, in a file of its own.
#[derive(Debug)]
pub struct WallpaperConfig {
    pub mode: Option<Mode>,
    pub bars: Option<BarsOverride>,
    pub circle: Option<CircleConfig>,
    pub curve: Option<CurveConfig>,
}

/// What one wallpaper sets of the `[bars]` section for itself.
#[derive(Clone, Copy, Debug)]
pub struct BarsOverride {
    pub amount: Option<u32>,
    pub gap: Option<Single>,
    pub max_height: Option<Single>,
    pub opacity: Option<Single>,
    pub matte: Option<Single>,
}

/// The `[bars]` section `base` with what `o` sets in place of its own.
pub open spec fn overridden(o: BarsOverride, base: BarConfig) -> BarConfig {
    BarConfig {
        amount: match o.amount {
            Some(n) => n,
            None => base.amount,
        },
        gap: match o.gap {
            Some(g) => g,
            None => base.gap,
        },
        max_height: if o.max_height is Some {
            o.max_height
        } else {
            base.max_height
        },
        opacity: if o.opacity is Some {
            o.opacity
        } else {
            base.opacity
        },
        matte: if o.matte is Some {
            o.matte
        } else {
            base.matte
        },
    }
}

impl BarsOverride {
    /// The `[bars]` section `base` with what is set here in place of its own.
    pub fn apply(&self, base: &BarConfig) -> (r: BarConfig)
        ensures
            r == overridden(*self, *base),
    {
        BarConfig {
            amount: self.amount.unwrap_or(base.amount),
            gap: self.gap.unwrap_or(base.gap),
            max_height: if self.max_height.is_some() {
                self.max_height
            } else {
                base.max_height
            },
            opacity: if self.opacity.is_some() {
                self.opacity
            } else {
                base.opacity
            },
            matte: if self.matte.is_some() {
                self.matte
            } else {
                base.matte
            },
        }
    }
}

/// An override that sets nothing changes nothing.
pub proof fn an_empty_override_changes_nothing(base: BarConfig)
    ensures
        overridden(
            BarsOverride { amount: None, gap: None, max_height: None, opacity: None, matte: None },
            base,
        ) == base,
{
}

/// The settings `w` with this curve.
pub open spec fn curve_added(w: WallpaperConfig, curve: CurveConfig) -> WallpaperConfig {
    WallpaperConfig {
        mode: Some(
            match w.mode {
                Some(m) => m,
                None => Mode::Curve,
            },
        ),
        bars: w.bars,
        circle: w.circle,
        curve: Some(curve),
    }
}

/// Saving a curve changes the curve and nothing else, but for a wallpaper that
/// set no mode, which is drawn as a curve from then on.
pub proof fn saving_a_curve_keeps_the_rest(w: WallpaperConfig, curve: CurveConfig)
    ensures
        curve_added(w, curve).curve == Some(curve),
        curve_added(w, curve).bars == w.bars,
        curve_added(w, curve).circle == w.circle,
        w.mode is Some ==> curve_added(w, curve).mode == w.mode,
        w.mode is None ==> curve_added(w, curve).mode == Some(Mode::Curve),
{
}

impl WallpaperConfig {
    /// The same settings with this curve. A wallpaper that sets no mode is
    /// drawn as a curve from then on.
    pub fn with_curve(self, curve: CurveConfig) -> (r: WallpaperConfig)
        ensures
            r == curve_added(self, curve),
    {
        let mode = match self.mode {
            Some(m) => m,
            None => Mode::Curve,
        };
        WallpaperConfig {
            mode: Some(mode),
            bars: self.bars,
            circle: self.circle,
            curve: Some(curve),
        }
    }
}

/// What is taken from the shell rather than from this file.
#[derive(Clone, Copy, Debug)]
pub struct SchemeConfig {
    pub colors: Option<bool>,
    pub bars: Option<bool>,
}

#[derive(Debug)]
pub struct GeneralConfig {
    pub framerate: u32,
    pub mode: Option<Mode>,
    pub background_color: ConfigColor,
    pub autosens: Option<bool>,
    pub sensitivity: Option<Single>,
    pub preferred_output: Option<String>,
    pub channels: Option<String>,
    pub mono_option: Option<String>,
    pub audio_source: Option<String>,
}

#[derive(Clone, Copy, Debug)]
pub struct BarConfig {
    pub amount: u32,
    pub gap: Single,
    pub max_height: Option<Single>,
    pub opacity: Option<Single>,
    pub matte: Option<Single>,
}

#[derive(Clone, Copy, Debug)]
pub struct SmoothingConfig {
    pub monstercat: Option<Single>,
    pub waves: Option<i32>,
    pub noise_reduction: Option<Single>,
}

/// A colour as the file writes it.
#[derive(Debug)]
pub enum ConfigColor {
    Simple(String),
    Complex(HexColorConfig),
}

#[derive(Debug)]
pub struct HexColorConfig {
    pub hex: String,
    pub alpha: Option<Single>,
    /// The scheme role to take this stop's colour from.
    pub role: Option<String>,
}

/// What the audio analyser is told.
#[derive(Debug)]
pub struct CavaConfig {
    pub general: CavaGeneralConfig,
    pub smoothing: CavaSmoothingConfig,
    pub output: Vec<(String, String)>,
    pub input: Option<Vec<(String, String)>>,
}

#[derive(Clone, Copy, Debug)]
pub struct CavaGeneralConfig {
    pub framerate: u32,
    pub bars: u32,
    pub autosens: Option<bool>,
    pub sensitivity: Option<Single>,
}

#[derive(Clone, Copy, Debug)]
pub struct CavaSmoothingConfig {
    pub monstercat: Option<Single>,
    pub waves: Option<i32>,
    pub noise_reduction: Option<Single>,
}

/// No name occurs twice.
pub open spec fn distinct_names<T>(entries: Seq<(String, T)>) -> bool {
    forall|i: int, j: int|
        0 <= i < j < entries.len() ==> (#[trigger] entries[i]).0@ != (#[trigger] entries[j]).0@
}

/// `at` is where `name` first occurs among `entries`, or `None`.
pub open spec fn found_at<T>(entries: Seq<(String, T)>, name: Seq<char>, at: Option<int>) -> bool {
    match at {
        Some(i) => 0 <= i < entries.len() && entries[i].0@ == name && forall|j: int|
            0 <= j < i ==> (#[trigger] entries[j]).0@ != name,
        None => forall|j: int| 0 <= j < entries.len() ==> (#[trigger] entries[j]).0@ != name,
    }
}

/// Where `name` first occurs among `entries`.
pub fn position_of<T>(entries: &[(String, T)], name: &str) -> (at: Option<usize>)
    ensures
        found_at(
            entries@,
            name@,
            match at {
                Some(i) => Some(i as int),
                None => None,
            },
        ),
{
    for i in 0..entries.len()
        invariant
            forall|j: int| 0 <= j < i ==> (#[trigger] entries@[j]).0@ != name@,
    {
        if same(entries[i].0.as_str(), name) {
            return Some(i);
        }
    }
    None
}

impl Clone for ConfigColor {
    fn clone(&self) -> (r: ConfigColor)
        ensures
            r == *self,
    {
        match self {
            ConfigColor::Simple(hex) => ConfigColor::Simple(hex.clone()),
            ConfigColor::Complex(c) => {
                let role = match &c.role {
                    Some(role) => Some(role.clone()),
                    None => None,
                };
                ConfigColor::Complex(HexColorConfig { hex: c.hex.clone(), alpha: c.alpha, role })
            },
        }
    }
}

/// A list of points, each a list of numbers.
pub open spec fn points_view(points: Seq<Vec<Single>>) -> Seq<Seq<Single>> {
    points.map_values(|p: Vec<Single>| p@)
}

/// What a path says, by value.
pub struct PathView {
    pub points: Seq<Seq<Single>>,
    pub bars: Option<u32>,
    pub height: Option<Single>,
    pub width: Option<Single>,
    pub flip: Option<bool>,
    pub upright: Option<bool>,
}

impl View for PathConfig {
    type V = PathView;

    open spec fn view(&self) -> PathView {
        PathView {
            points: points_view(self.points@),
            bars: self.bars,
            height: self.height,
            width: self.width,
            flip: self.flip,
            upright: self.upright,
        }
    }
}

fn copy_points(points: &Vec<Vec<Single>>) -> (out: Vec<Vec<Single>>)
    ensures
        points_view(out@) == points_view(points@),
{
    let mut out: Vec<Vec<Single>> = Vec::new();
    for i in 0..points.len()
        invariant
            points_view(out@) == points_view(points@).take(i as int),
    {
        let source: &Vec<Single> = &points[i];
        let mut p: Vec<Single> = Vec::new();
        for k in 0..source.len()
            invariant
                p@ == source@.take(k as int),
        {
            p.push(source[k]);
        }
        assert(p@ =~= points@[i as int]@);
        let ghost before = out@;
        out.push(p);
        assert(points_view(out@) =~= points_view(before).push(p@));
        assert(points_view(points@).take(i + 1) =~= points_view(points@).take(i as int).push(
            points@[i as int]@,
        ));
    }
    assert(points_view(points@).take(points@.len() as int) =~= points_view(points@));
    out
}

impl Clone for PathConfig {
    fn clone(&self) -> (r: PathConfig)
        ensures
            r@ == self@,
    {
        PathConfig {
            points: copy_points(&self.points),
            bars: self.bars,
            height: self.height,
            width: self.width,
            flip: self.flip,
            upright: self.upright,
        }
    }
}

/// What several paths say, by value.
pub open spec fn path_views(paths: Seq<PathConfig>) -> Seq<PathView> {
    paths.map_values(|p: PathConfig| p@)
}

/// Every one of the first `n` paths names its count.
pub open spec fn named_up_to(paths: Seq<PathConfig>, n: int) -> bool {
    forall|i: int| 0 <= i < n ==> (#[trigger] paths[i]).bars is Some
}

/// The counts that the first `n` paths name, added up.
pub open spec fn named_total(paths: Seq<PathConfig>, n: int) -> int
    decreases n,
{
    if n <= 0 {
        0
    } else {
        named_total(paths, n - 1) + paths[n - 1].bars->0
    }
}

impl CurveConfig {
    /// How many bars the curve draws in all.
    ///
    /// The curve's own count is the authority. Without one, paths that each
    /// name a count add up to it, unless they add up to nothing.
    pub open spec fn bars_in_all(self) -> Option<int> {
        match (self.bars, self.path) {
            (Some(n), _) => Some(n as int),
            (None, None) => None,
            (None, Some(paths)) => {
                let n = paths@.len() as int;
                if named_up_to(paths@, n) && named_total(paths@, n) > 0 {
                    Some(named_total(paths@, n))
                } else {
                    None
                }
            },
        }
    }

    /// The counts named before the first path that names none can be added up.
    pub open spec fn bars_add_up(self) -> bool {
        self.bars is None && self.path is Some ==> forall|n: int|
            0 <= n <= self.path->0@.len() && #[trigger] named_up_to(self.path->0@, n)
                ==> named_total(self.path->0@, n) <= u32::MAX
    }

    /// Whether the counts that the paths name can be added up.
    pub fn adds_up(&self) -> (r: bool)
        ensures
            r == self.bars_add_up(),
    {
        if self.bars.is_some() {
            return true;
        }
        let paths = match &self.path {
            Some(paths) => paths,
            None => {
                return true;
            },
        };
        let mut sum: u32 = 0;
        for i in 0..paths.len()
            invariant
                self.bars is None,
                self.path == Some(*paths),
                named_up_to(paths@, i as int),
                sum == named_total(paths@, i as int),
                forall|n: int| 0 <= n <= i ==> #[trigger] named_total(paths@, n) <= u32::MAX,
        {
            match paths[i].bars {
                Some(n) => {
                    assert(named_up_to(paths@, i + 1));
                    if n > u32::MAX - sum {
                        proof {
                            let all = self.path->0@;
                            assert(named_up_to(all, i + 1) && named_total(all, i + 1) > u32::MAX);
                        }
                        return false;
                    }
                    sum = sum + n;
                },
                None => {
                    assert forall|n: int|
                        0 <= n <= paths@.len() && #[trigger] named_up_to(
                            paths@,
                            n,
                        ) implies named_total(paths@, n) <= u32::MAX by {
                        if n > i {
                            assert(paths@[i as int].bars is Some);
                        }
                    }
                    return true;
                },
            }
        }
        true
    }

    /// How many bars the curve draws in all.
    pub fn total_bars(&self) -> (r: Option<u32>)
        requires
            self.bars_add_up(),
        ensures
            r is Some == self.bars_in_all() is Some,
            r matches Some(n) ==> self.bars_in_all() == Some(n as int),
    {
        if let Some(n) = self.bars {
            return Some(n);
        }
        let paths = match &self.path {
            Some(paths) => paths,
            None => {
                return None;
            },
        };
        let mut sum: u32 = 0;
        for i in 0..paths.len()
            invariant
                self.bars is None,
                self.path == Some(*paths),
                self.bars_add_up(),
                named_up_to(paths@, i as int),
                sum == named_total(paths@, i as int),
        {
            match paths[i].bars {
                Some(n) => {
                    assert(named_up_to(paths@, i + 1));
                    sum = sum + n;
                },
                None => {
                    assert(paths@[i as int].bars is None);
                    return None;
                },
            }
        }
        if sum > 0 {
            Some(sum)
        } else {
            None
        }
    }

    /// The paths that the curve draws: those of its path blocks, or else the
    /// one that its own fields write.
    pub open spec fn all_paths(self) -> Seq<PathView> {
        if self.path is Some && self.path->0@.len() > 0 {
            path_views(self.path->0@)
        } else {
            seq![
                PathView {
                    points: match self.points {
                        Some(points) => points_view(points@),
                        None => Seq::empty(),
                    },
                    bars: self.bars,
                    height: self.height,
                    width: self.width,
                    flip: self.flip,
                    upright: self.upright,
                },
            ]
        }
    }

    /// The paths to draw, however they were written.
    pub fn paths(&self) -> (r: Cow<'_, [PathConfig]>)
        ensures
            path_views(r@) == self.all_paths(),
    {
        match &self.path {
            Some(paths) if paths.len() > 0 => Cow::Borrowed(paths.as_slice()),
            _ => {
                let points = match &self.points {
                    Some(points) => copy_points(points),
                    None => Vec::new(),
                };
                assert(self.points is None ==> points_view(points@) =~= Seq::empty());
                let mut one: Vec<PathConfig> = Vec::new();
                one.push(
                    PathConfig {
                        points,
                        bars: self.bars,
                        height: self.height,
                        width: self.width,
                        flip: self.flip,
                        upright: self.upright,
                    },
                );
                assert(path_views(one@) =~= self.all_paths());
                Cow::Owned(one)
            },
        }
    }
}

/// A curve's own count is the authority on how many bars it draws.
pub proof fn a_curves_own_count_is_the_authority(c: CurveConfig, n: u32)
    requires
        c.bars == Some(n),
    ensures
        c.bars_in_all() == Some(n as int),
{
}

proof fn named_agree(a: Seq<PathConfig>, b: Seq<PathConfig>, n: int)
    requires
        0 <= n <= a.len(),
        n <= b.len(),
        forall|i: int| 0 <= i < n ==> #[trigger] a[i] == b[i],
    ensures
        named_up_to(a, n) == named_up_to(b, n),
        named_total(a, n) == named_total(b, n),
    decreases n,
{
    if n > 0 {
        named_agree(a, b, n - 1);
        assert(a[n - 1] == b[n - 1]);
    }
    if named_up_to(a, n) {
        assert forall|i: int| 0 <= i < n implies (#[trigger] b[i]).bars is Some by {
            assert(a[i].bars is Some);
        }
    }
    if named_up_to(b, n) {
        assert forall|i: int| 0 <= i < n implies (#[trigger] a[i]).bars is Some by {
            assert(b[i].bars is Some);
        }
    }
}

/// Without a count of its own, a curve draws as many bars as its paths name
/// together: one path draws what it names, a further one adds what it names,
/// and one that names nothing leaves the total open.
pub proof fn named_counts_add_up(c: CurveConfig, more: CurveConfig, p: PathConfig)
    requires
        c.bars is None,
        more.bars is None,
        c.path is Some,
        more.path is Some,
        more.path->0@ == c.path->0@.push(p),
    ensures
        p.bars matches Some(k) && c.bars_in_all() is Some ==> more.bars_in_all() == Some(
            c.bars_in_all()->0 + p.bars->0,
        ),
        p.bars is None ==> more.bars_in_all() is None,
        c.path->0@.len() == 0 && p.bars is Some && p.bars->0 > 0 ==> more.bars_in_all() == Some(
            p.bars->0 as int,
        ),
        c.path->0@.len() > 0 && (exists|i: int|
            0 <= i < c.path->0@.len() && (#[trigger] c.path->0@[i]).bars is None)
            ==> more.bars_in_all() is None,
{
    let (a, b) = (c.path->0@, more.path->0@);
    let n = a.len() as int;
    named_agree(a, b, n);
    assert(b[n] == p);
    if p.bars is Some && named_up_to(a, n) {
        assert forall|i: int| 0 <= i < n + 1 implies (#[trigger] b[i]).bars is Some by {
            if i < n {
                assert(a[i].bars is Some);
            }
        }
    }
    if exists|i: int| 0 <= i < a.len() && (#[trigger] a[i]).bars is None {
        let i = choose|i: int| 0 <= i < a.len() && (#[trigger] a[i]).bars is None;
        assert(b[i].bars is None);
    }
    if p.bars is None {
        assert(b[n].bars is None);
    }
}

/// Path blocks replace the shorthand, each as it is written; without any, the
/// curve's own fields are the one path.
pub proof fn path_blocks_replace_the_shorthand(c: CurveConfig, i: int)
    ensures
        c.path is Some && 0 <= i < c.path->0@.len() ==> c.all_paths().len() == c.path->0@.len() && ({
            let (p, q) = (c.all_paths()[i], c.path->0@[i]);
            &&& p.points.len() == q.points@.len()
            &&& forall|k: int| 0 <= k < p.points.len() ==> #[trigger] p.points[k] == q.points@[k]@
            &&& p.bars == q.bars && p.height == q.height && p.width == q.width
            &&& p.flip == q.flip && p.upright == q.upright
        }),
        c.path is None || c.path->0@.len() == 0 ==> c.all_paths().len() == 1 && ({
            let p = c.all_paths()[0];
            &&& c.points is None ==> p.points.len() == 0
            &&& c.points is Some ==> p.points.len() == c.points->0@.len() && forall|k: int|
                0 <= k < p.points.len() ==> #[trigger] p.points[k] == c.points->0@[k]@
            &&& p.bars == c.bars && p.height == c.height && p.width == c.width
            &&& p.flip == c.flip && p.upright == c.upright
        }),
{
}

/// What an override sets wins, what it leaves out stays the file's, and the
/// last of two overrides has the say.
pub proof fn what_is_set_wins(o: BarsOverride, base: BarConfig, earlier: BarsOverride)
    ensures
        o.amount matches Some(n) ==> overridden(o, base).amount == n,
        o.gap matches Some(g) ==> overridden(o, base).gap == g,
        o.max_height is Some ==> overridden(o, base).max_height == o.max_height,
        o.opacity is Some ==> overridden(o, base).opacity == o.opacity,
        o.matte is Some ==> overridden(o, base).matte == o.matte,
        o.amount is None ==> overridden(o, base).amount == base.amount,
        o.gap is None ==> overridden(o, base).gap == base.gap,
        o.max_height is None ==> overridden(o, base).max_height == base.max_height,
        o.opacity is None ==> overridden(o, base).opacity == base.opacity,
        o.matte is None ==> overridden(o, base).matte == base.matte,
        o.amount is Some ==> overridden(o, overridden(earlier, base)).amount == overridden(
            o,
            base,
        ).amount,
{
}

/// Counts can be added up wherever the curve names its own, and wherever the
/// paths' counts stay within 32 bits together.
pub proof fn small_counts_can_be_added_up(c: CurveConfig)
    ensures
        c.bars is Some || c.path is None ==> c.bars_add_up(),
        c.path is Some && (forall|n: int|
            0 <= n <= c.path->0@.len() ==> #[trigger] named_total(c.path->0@, n) <= 0xffff_ffff)
            ==> c.bars_add_up(),
{
}

} // verus!
