//! What is settled once, before the first frame.
use crate::app_config::{
    found_at, overridden, path_views, position_of, BarConfig, CavaConfig, CavaGeneralConfig,
    CavaSmoothingConfig, CircleConfig, Config, CurveConfig, Mode, PathConfig, PathView,
    WallpaperConfig,
};
use crate::curve::walk::{Control, PathSpec};
use crate::json::pairs;
use crate::editor::config_file;
use crate::scheme::{below, copy_bytes, encoding_of_ascii, join, runtime_file, Environment};
use crate::single::{clamped, floored, zero, Single, ONE};
use crate::text::{
    a_search_finds_the_first_place, chars, copied, find, first_from, index_of, occurs_at, owned,
    stands_at, string_of, text_view,
};
use std::borrow::Cow;
use vstd::prelude::*;
use vstd::utf8::encode_utf8;

verus! {

/// The most bars there can be: already finer than a pixel on any monitor.
pub const MAX_BARS: u32 = 4096;

/// 0.18
pub const DEFAULT_REACH: u32 = 0x3e38_51ec;

/// 0.006
pub const DEFAULT_WIDTH: u32 = 0x3bc4_9ba6;

/// Which configuration file the arguments ask for.
#[derive(Debug)]
pub enum ConfigChoice {
    /// Wherever it is kept.
    Default,
    /// This one.
    Given(Vec<u8>),
    /// None: the arguments make no sense, so say how to use the program.
    Help,
}

/// `r` is what `args` ask for: none of them, or `--config` and a path.
pub open spec fn chosen_by(args: Seq<Vec<u8>>, r: ConfigChoice) -> bool {
    match r {
        ConfigChoice::Default => args.len() == 0,
        ConfigChoice::Given(path) => args.len() == 2 && args[0]@ == encode_utf8("--config"@)
            && path@ == args[1]@,
        ConfigChoice::Help => args.len() != 0 && !(args.len() == 2 && args[0]@ == encode_utf8(
            "--config"@,
        )),
    }
}

/// Which configuration file `args` ask for.
pub fn config_choice(args: &[Vec<u8>]) -> (r: ConfigChoice)
    ensures
        chosen_by(args@, r),
{
    if args.len() == 0 {
        return ConfigChoice::Default;
    }
    if args.len() == 2 && same_bytes(args[0].as_slice(), "--config".as_bytes()) {
        return ConfigChoice::Given(copy_bytes(args[1].as_slice()));
    }
    ConfigChoice::Help
}

fn same_bytes(a: &[u8], b: &[u8]) -> (r: bool)
    ensures
        r == (a@ == b@),
{
    if a.len() != b.len() {
        return false;
    }
    for i in 0..a.len()
        invariant
            a@.len() == b@.len(),
            forall|j: int| 0 <= j < i ==> a@[j] == b@[j],
    {
        if a[i] != b[i] {
            return false;
        }
    }
    assert(a@ =~= b@);
    true
}

/// Where the configuration file is kept.
pub open spec fn own_place(home: Seq<u8>) -> Seq<u8> {
    below(home, encode_utf8(".config/cavawall/config.toml"@))
}

/// Where the configuration file used to be kept.
pub open spec fn inherited_place(home: Seq<u8>) -> Seq<u8> {
    below(home, encode_utf8(".config/wallpaper-cava/config.toml"@))
}

/// Where the configuration file is kept.
pub fn own_config(home: &[u8]) -> (out: Vec<u8>)
    ensures
        out@ == own_place(home@),
{
    join(home, ".config/cavawall/config.toml")
}

/// Where the configuration file used to be kept.
pub fn inherited_config(home: &[u8]) -> (out: Vec<u8>)
    ensures
        out@ == inherited_place(home@),
{
    join(home, ".config/wallpaper-cava/config.toml")
}

/// The configuration file to read where none is given, and whether to ask for
/// it to be moved: its own place first, then where it used to be, then the
/// current directory.
pub open spec fn default_place(
    home: Seq<u8>,
    own_exists: bool,
    inherited_exists: bool,
) -> (Seq<u8>, bool) {
    if own_exists {
        (own_place(home), false)
    } else if inherited_exists {
        (inherited_place(home), true)
    } else {
        (encode_utf8("config.toml"@), false)
    }
}

/// The configuration file to read where none is given, and whether to ask for
/// it to be moved.
pub fn default_config_path(home: &[u8], own_exists: bool, inherited_exists: bool) -> (r: (
    Vec<u8>,
    bool,
))
    ensures
        (r.0@, r.1) == default_place(home@, own_exists, inherited_exists),
{
    if own_exists {
        (own_config(home), false)
    } else if inherited_exists {
        (inherited_config(home), true)
    } else {
        (copy_bytes("config.toml".as_bytes()), false)
    }
}

/// Where the instance lock is.
pub open spec fn lock_file(env: Environment) -> Seq<u8> {
    below(env.runtime_path(), encode_utf8("cavawall.lock"@))
}

/// Where the instance lock is.
pub fn lock_path(env: &Environment) -> (out: Vec<u8>)
    ensures
        out@ == lock_file(*env),
{
    runtime_file(env, "cavawall.lock")
}

/// What became of the instance lock.
#[derive(Clone, Copy, Debug, PartialEq, Eq, Structural)]
pub enum Claim {
    /// This is the one instance.
    Held,
    /// Another one holds it: stand down, quietly.
    StandDown,
    /// It cannot be had.
    Failed,
}

/// What became of the instance lock.
pub open spec fn claimed(locked: bool, would_block: bool) -> Claim {
    if locked {
        Claim::Held
    } else if would_block {
        Claim::StandDown
    } else {
        Claim::Failed
    }
}

/// What became of the instance lock.
pub fn claim(locked: bool, would_block: bool) -> (r: Claim)
    ensures
        r == claimed(locked, would_block),
{
    if locked {
        Claim::Held
    } else if would_block {
        Claim::StandDown
    } else {
        Claim::Failed
    }
}

/// Whether the compositor offers what a wallpaper needs.
#[derive(Clone, Copy, Debug, PartialEq, Eq, Structural)]
pub enum Shell {
    Bound,
    /// It may be starting: ask again.
    Retry,
    NoCompositor,
    NoLayerShell,
}

/// Whether the compositor offers what a wallpaper needs, before its time is up
/// or after.
pub open spec fn bound(compositor: bool, layer_shell: bool, in_time: bool) -> Shell {
    if compositor && layer_shell {
        Shell::Bound
    } else if in_time {
        Shell::Retry
    } else if !compositor {
        Shell::NoCompositor
    } else {
        Shell::NoLayerShell
    }
}

/// Whether the compositor offers what a wallpaper needs.
pub fn bind_shell(compositor: bool, layer_shell: bool, in_time: bool) -> (r: Shell)
    ensures
        r == bound(compositor, layer_shell, in_time),
{
    if compositor && layer_shell {
        Shell::Bound
    } else if in_time {
        Shell::Retry
    } else if !compositor {
        Shell::NoCompositor
    } else {
        Shell::NoLayerShell
    }
}

/// An environment variable switches something on: it is set, and not to `0`.
pub open spec fn switched_on(value: Option<Seq<u8>>) -> bool {
    value is Some && value->0 != encode_utf8("0"@)
}

/// Whether an environment variable switches something on.
pub fn flag_set(value: Option<&[u8]>) -> (r: bool)
    ensures
        r == switched_on(
            match value {
                Some(v) => Some(v@),
                None => None,
            },
        ),
{
    match value {
        Some(v) => !same_bytes(v, "0".as_bytes()),
        None => false,
    }
}

/// The function that swaps buffers with damage, by what the driver says it
/// has; `None` where it has none or damage is switched off.
pub open spec fn swap_name(extensions: Seq<char>, switched_off: bool) -> Option<Seq<char>> {
    if switched_off {
        None
    } else if index_of(extensions, "EGL_KHR_swap_buffers_with_damage"@, 0) is Some {
        Some("eglSwapBuffersWithDamageKHR"@)
    } else if index_of(extensions, "EGL_EXT_swap_buffers_with_damage"@, 0) is Some {
        Some("eglSwapBuffersWithDamageEXT"@)
    } else {
        None
    }
}

/// The function that swaps buffers with damage.
pub fn swap_function(extensions: &str, switched_off: bool) -> (r: Option<&'static str>)
    ensures
        (match r {
            Some(name) => Some(name@),
            None => None,
        }) == swap_name(extensions@, switched_off),
{
    if switched_off {
        return None;
    }
    let cs = chars(extensions);
    let khr = chars("EGL_KHR_swap_buffers_with_damage");
    let ext = chars("EGL_EXT_swap_buffers_with_damage");
    if find(cs.as_slice(), khr.as_slice(), 0).is_some() {
        Some("eglSwapBuffersWithDamageKHR")
    } else if find(cs.as_slice(), ext.as_slice(), 0).is_some() {
        Some("eglSwapBuffersWithDamageEXT")
    } else {
        None
    }
}

/// A buffer can be named in the call: core from version 4.5 on.
pub open spec fn names_buffers(major: i32, minor: i32) -> bool {
    major > 4 || (major == 4 && minor >= 5)
}

/// Whether a buffer can be named in the call.
pub fn direct_state_access(major: i32, minor: i32) -> (r: bool)
    ensures
        r == names_buffers(major, minor),
{
    major > 4 || (major == 4 && minor >= 5)
}

/// The output that is pinned: by the environment unless that is empty, else by
/// the configuration.
pub open spec fn pinned(
    from_env: Option<Seq<char>>,
    preferred: Option<Seq<char>>,
) -> Option<Seq<char>> {
    if from_env is Some && from_env->0.len() > 0 {
        from_env
    } else {
        preferred
    }
}

/// The output that is pinned.
pub fn pinned_output(from_env: Option<String>, preferred: Option<String>) -> (r: Option<String>)
    ensures
        text_view(r) == pinned(text_view(from_env), text_view(preferred)),
{
    if let Some(name) = from_env {
        if chars(name.as_str()).len() > 0 {
            return Some(name);
        }
    }
    preferred
}

/// The key of the wallpaper that a settings file is for, by the file's name:
/// what stands before `.toml`, which must be something.
pub open spec fn key_of_file(name: Seq<char>) -> Option<Seq<char>> {
    if name.len() > 5 && occurs_at(name, ".toml"@, name.len() - 5) {
        Some(name.take(name.len() - 5))
    } else {
        None
    }
}

/// The key of the wallpaper that a settings file is for.
pub fn wallpaper_key(name: &str) -> (r: Option<String>)
    ensures
        text_view(r) == key_of_file(name@),
{
    let cs = chars(name);
    let suffix = chars(".toml");
    let n: usize = cs.len();
    if n > 5 && stands_at(cs.as_slice(), suffix.as_slice(), n - 5) {
        let stem = copied(cs.as_slice(), 0, n - 5);
        assert(stem@ =~= name@.take(name@.len() - 5));
        Some(string_of(stem.as_slice()))
    } else {
        None
    }
}

/// Which curve is drawn.
#[derive(Clone, Copy, Debug, PartialEq, Eq, Structural)]
pub enum ActiveCurve {
    Nothing,
    /// The wallpaper's own.
    Own,
    /// The one that the configuration lists here.
    Listed(usize),
}

/// The mode that is asked for: by the wallpaper, else by the configuration.
pub open spec fn asked_mode(config: Config, own: Option<WallpaperConfig>) -> Mode {
    match own {
        Some(WallpaperConfig { mode: Some(m), .. }) => m,
        _ => match config.general.mode {
            Some(m) => m,
            None => Mode::Bars,
        },
    }
}

/// The circle's settings: the wallpaper's, else the configuration's.
pub open spec fn asked_circle(config: Config, own: Option<WallpaperConfig>) -> Option<
    CircleConfig,
> {
    match own {
        Some(WallpaperConfig { circle: Some(c), .. }) => Some(c),
        _ => config.circle,
    }
}

/// The bars' settings: the configuration's, with what the wallpaper sets in
/// place of them.
pub open spec fn asked_bars(config: Config, own: Option<WallpaperConfig>) -> BarConfig {
    match own {
        Some(WallpaperConfig { bars: Some(o), .. }) => overridden(o, config.bars),
        _ => config.bars,
    }
}

/// `a` is the curve that is drawn for the wallpaper `key`: none but in curve
/// mode, the wallpaper's own before one that is listed under its key.
pub open spec fn active(
    config: Config,
    own: Option<WallpaperConfig>,
    key: Option<Seq<char>>,
    a: ActiveCurve,
) -> bool {
    if asked_mode(config, own) != Mode::Curve || key is None {
        a is Nothing
    } else if own is Some && own->0.curve is Some {
        a is Own
    } else if config.curves is Some {
        match a {
            ActiveCurve::Nothing => found_at(config.curves->0@, key->0, None),
            ActiveCurve::Listed(i) => found_at(config.curves->0@, key->0, Some(i as int)),
            ActiveCurve::Own => false,
        }
    } else {
        a is Nothing
    }
}

/// The curve that `a` stands for.
pub open spec fn curve_of(
    config: Config,
    own: Option<WallpaperConfig>,
    a: ActiveCurve,
) -> Option<CurveConfig> {
    match a {
        ActiveCurve::Nothing => None,
        ActiveCurve::Own => own->0.curve,
        ActiveCurve::Listed(i) => Some(config.curves->0@[i as int].1),
    }
}

/// Bars are counted by the shell.
pub open spec fn follows_bars(config: Config) -> bool {
    config.scheme is Some && config.scheme->0.bars == Some(true)
}

/// Colours are taken from the shell.
pub open spec fn follows_colors(config: Config) -> bool {
    config.scheme is Some && config.scheme->0.colors == Some(true)
}

/// How many bars there are: as many as the mode's own settings say, else as
/// many as the shell says where it is followed, else the amount that is set.
pub open spec fn bars_in(
    config: Config,
    own: Option<WallpaperConfig>,
    a: ActiveCurve,
    shell_bars: Option<u32>,
) -> int {
    let by_mode = match asked_mode(config, own) {
        Mode::Bars => None,
        Mode::Circle => match asked_circle(config, own) {
            Some(CircleConfig { bars: Some(n), .. }) => Some(n as int),
            _ => None,
        },
        Mode::Curve => match curve_of(config, own, a) {
            Some(c) => c.bars_in_all(),
            None => None,
        },
    };
    match by_mode {
        Some(n) => n,
        None => if follows_bars(config) && shell_bars is Some {
            shell_bars->0 as int
        } else {
            asked_bars(config, own).amount as int
        },
    }
}

/// The mode that is drawn: bars where there is no curve to draw.
pub open spec fn drawn_mode(configured: Mode, curve: ActiveCurve) -> Mode {
    if configured == Mode::Curve && curve is Nothing {
        Mode::Bars
    } else {
        configured
    }
}

/// What is drawn, and with how many bars.
#[derive(Clone, Copy, Debug, PartialEq, Eq, Structural)]
pub struct Resolved {
    /// The mode that was asked for.
    pub configured: Mode,
    /// The mode that is drawn: bars where there is no curve to draw.
    pub mode: Mode,
    pub curve: ActiveCurve,
    pub bar_count: u32,
    pub follow_bars: bool,
    pub follow_colors: bool,
    /// Whether a change of wallpaper matters.
    pub follow_wallpaper: bool,
}

fn configured_mode(config: &Config, own: &Option<WallpaperConfig>) -> (m: Mode)
    ensures
        m == asked_mode(*config, *own),
{
    if let Some(w) = own {
        if let Some(m) = w.mode {
            return m;
        }
    }
    match config.general.mode {
        Some(m) => m,
        None => Mode::Bars,
    }
}

/// The circle's settings: the wallpaper's, else the configuration's.
pub fn circle_config(config: &Config, own: &Option<WallpaperConfig>) -> (r: Option<CircleConfig>)
    ensures
        r == asked_circle(*config, *own),
{
    if let Some(w) = own {
        if let Some(c) = w.circle {
            return Some(c);
        }
    }
    config.circle
}

/// The bars' settings: the configuration's, with what the wallpaper sets in
/// place of them.
pub fn bars_config(config: &Config, own: &Option<WallpaperConfig>) -> (r: BarConfig)
    ensures
        r == asked_bars(*config, *own),
{
    if let Some(w) = own {
        if let Some(o) = &w.bars {
            return o.apply(&config.bars);
        }
    }
    config.bars
}

/// Whether colours are taken from the shell.
pub fn follow_colors(config: &Config) -> (r: bool)
    ensures
        r == follows_colors(*config),
{
    match config.scheme {
        Some(s) => s.colors.unwrap_or(false),
        None => false,
    }
}

/// Whether bars are counted by the shell.
pub fn follow_bars(config: &Config) -> (r: bool)
    ensures
        r == follows_bars(*config),
{
    match config.scheme {
        Some(s) => s.bars.unwrap_or(false),
        None => false,
    }
}

/// The curve that is drawn for the wallpaper `key`.
pub fn active_curve(
    config: &Config,
    own: &Option<WallpaperConfig>,
    key: &Option<String>,
) -> (a: ActiveCurve)
    ensures
        active(*config, *own, text_view(*key), a),
{
    if configured_mode(config, own) != Mode::Curve {
        return ActiveCurve::Nothing;
    }
    let k = match key {
        Some(k) => k,
        None => {
            return ActiveCurve::Nothing;
        },
    };
    if let Some(w) = own {
        if w.curve.is_some() {
            return ActiveCurve::Own;
        }
    }
    match &config.curves {
        Some(list) => match position_of(list.as_slice(), k.as_str()) {
            Some(i) => ActiveCurve::Listed(i),
            None => ActiveCurve::Nothing,
        },
        None => ActiveCurve::Nothing,
    }
}

/// Settles what is drawn for the wallpaper `key`, whose own settings are
/// `own`. `shell_bars` is the shell's bar count.
///
/// The error is a bar count that cannot be drawn.
pub fn resolve(
    config: &Config,
    own: &Option<WallpaperConfig>,
    key: &Option<String>,
    shell_bars: Option<u32>,
) -> (r: Result<Resolved, u32>)
    requires
        forall|a: ActiveCurve| #[trigger]
            active(*config, *own, text_view(*key), a) && curve_of(*config, *own, a) is Some
                ==> curve_of(*config, *own, a)->0.bars_add_up(),
    ensures
        match r {
            Ok(s) => {
                &&& active(*config, *own, text_view(*key), s.curve)
                &&& s.bar_count == bars_in(*config, *own, s.curve, shell_bars)
                &&& 1 <= s.bar_count <= MAX_BARS
                &&& s.configured == asked_mode(*config, *own)
                &&& s.mode == drawn_mode(s.configured, s.curve)
                &&& s.follow_bars == follows_bars(*config)
                &&& s.follow_colors == follows_colors(*config)
                &&& s.follow_wallpaper == (s.configured == Mode::Curve)
            },
            Err(n) => {
                &&& !(1 <= n <= MAX_BARS)
                &&& exists|a: ActiveCurve| #[trigger]
                    active(*config, *own, text_view(*key), a) && n == bars_in(
                        *config,
                        *own,
                        a,
                        shell_bars,
                    )
            },
        },
{
    let configured = configured_mode(config, own);
    let circle = circle_config(config, own);
    let curve = active_curve(config, own, key);
    let by_mode: Option<u32> = match configured {
        Mode::Bars => None,
        Mode::Circle => match circle {
            Some(c) => c.bars,
            None => None,
        },
        Mode::Curve => match curve {
            ActiveCurve::Nothing => None,
            ActiveCurve::Own => match own {
                Some(w) => match &w.curve {
                    Some(c) => c.total_bars(),
                    None => None,
                },
                None => None,
            },
            ActiveCurve::Listed(i) => match &config.curves {
                Some(list) => list[i].1.total_bars(),
                None => None,
            },
        },
    };
    let follow_bars = follow_bars(config);
    let follow_colors = follow_colors(config);
    let amount: u32 = bars_config(config, own).amount;
    let bar_count: u32 = match by_mode {
        Some(n) => n,
        None => if follow_bars {
            shell_bars.unwrap_or(amount)
        } else {
            amount
        },
    };
    if bar_count < 1 || bar_count > MAX_BARS {
        return Err(bar_count);
    }
    let mode = if configured == Mode::Curve && curve == ActiveCurve::Nothing {
        Mode::Bars
    } else {
        configured
    };
    Ok(
        Resolved {
            configured,
            mode,
            curve,
            bar_count,
            follow_bars,
            follow_colors,
            follow_wallpaper: configured == Mode::Curve,
        },
    )
}

/// A key has a curve: it is listed in the configuration, or there is a
/// settings file for it.
pub open spec fn known_key(config: Config, files: Seq<String>, key: Seq<char>) -> bool {
    ||| config.curves is Some && exists|i: int|
        0 <= i < config.curves->0@.len() && (#[trigger] config.curves->0@[i]).0@ == key
    ||| exists|i: int| 0 <= i < files.len() && (#[trigger] files[i])@ == key
}

/// Every key that may have a curve. `files` are the keys that have a settings
/// file.
pub fn curve_keys(config: &Config, files: Vec<String>) -> (out: Vec<String>)
    ensures
        forall|key: Seq<char>| #[trigger]
            crate::frame::has_key(out@, Some(key)) == known_key(*config, files@, key),
{
    let mut out = files;
    let ghost start = out@;
    let ghost listed = match &config.curves {
        Some(l) => l@,
        None => Seq::empty(),
    };
    if let Some(list) = &config.curves {
        for i in 0..list.len()
            invariant
                out@.len() == start.len() + i,
                forall|j: int| 0 <= j < start.len() ==> #[trigger] out@[j] == start[j],
                forall|j: int| 0 <= j < i ==> (#[trigger] list@[j]).0@ == out@[start.len() + j]@,
        {
            out.push(owned(list[i].0.as_str()));
        }
        assert(listed == list@);
    }
    proof {
        assert(out@.len() == start.len() + listed.len());
        assert forall|key: Seq<char>| #[trigger]
            crate::frame::has_key(out@, Some(key)) == known_key(*config, files@, key) by {
            if crate::frame::has_key(out@, Some(key)) {
                let i = choose|i: int| 0 <= i < out@.len() && (#[trigger] out@[i])@ == key;
                if i < start.len() {
                    assert(files@[i]@ == key);
                } else {
                    assert(listed[i - start.len()].0@ == key);
                    assert(config.curves->0@[i - start.len()].0@ == key);
                }
            }
            if known_key(*config, files@, key) {
                if exists|i: int| 0 <= i < files@.len() && (#[trigger] files@[i])@ == key {
                    let i = choose|i: int| 0 <= i < files@.len() && (#[trigger] files@[i])@ == key;
                    assert(out@[i]@ == key);
                } else {
                    let i = choose|i: int|
                        0 <= i < config.curves->0@.len() && (#[trigger] config.curves->0@[i]).0@
                            == key;
                    assert(listed[i].0@ == key);
                    assert(out@[start.len() + i]@ == key);
                }
            }
        }
    }
    out
}

/// A pair in a list, where there is one.
pub open spec fn entry(name: Seq<char>, value: Option<Seq<char>>) -> Seq<(Seq<char>, Seq<char>)> {
    match value {
        Some(v) => seq![(name, v)],
        None => Seq::empty(),
    }
}

/// What the audio analyser is told of its output: raw 16-bit samples on its
/// standard output, and how channels are laid out where that is set.
pub open spec fn cava_output(config: Config) -> Seq<(Seq<char>, Seq<char>)> {
    seq![("method"@, "raw"@), ("raw_target"@, "/dev/stdout"@), ("bit_format"@, "16bit"@)] + entry(
        "channels"@,
        text_view(config.general.channels),
    ) + entry("mono_option"@, text_view(config.general.mono_option))
}

/// What the audio analyser is told of its input, where a source is set.
pub open spec fn cava_input(config: Config) -> Option<Seq<(Seq<char>, Seq<char>)>> {
    match config.general.audio_source {
        Some(source) => Some(seq![("method"@, "pulse"@), ("source"@, source@)]),
        None => None,
    }
}

fn push_pair(list: &mut Vec<(String, String)>, name: &str, value: &str)
    ensures
        pairs(final(list)@) == pairs(old(list)@).push((name@, value@)),
{
    list.push((owned(name), owned(value)));
    assert(pairs(list@) =~= pairs(old(list)@).push((name@, value@)));
}

/// What the audio analyser is told in general.
pub open spec fn cava_general(config: Config, bars: u32) -> CavaGeneralConfig {
    CavaGeneralConfig {
        framerate: config.general.framerate,
        bars,
        autosens: config.general.autosens,
        sensitivity: config.general.sensitivity,
    }
}

/// What the audio analyser is told of smoothing.
pub open spec fn cava_smoothing(config: Config) -> CavaSmoothingConfig {
    CavaSmoothingConfig {
        monstercat: config.smoothing.monstercat,
        waves: config.smoothing.waves,
        noise_reduction: config.smoothing.noise_reduction,
    }
}

/// What the audio analyser is told.
pub fn cava_config(config: &Config, bars: u32) -> (r: CavaConfig)
    ensures
        r.general == cava_general(*config, bars),
        r.smoothing == cava_smoothing(*config),
        pairs(r.output@) == cava_output(*config),
        match r.input {
            Some(input) => cava_input(*config) == Some(pairs(input@)),
            None => cava_input(*config) is None,
        },
{
    let mut output: Vec<(String, String)> = Vec::new();
    assert(pairs(output@) =~= Seq::empty());
    push_pair(&mut output, "method", "raw");
    push_pair(&mut output, "raw_target", "/dev/stdout");
    push_pair(&mut output, "bit_format", "16bit");
    if let Some(channels) = &config.general.channels {
        push_pair(&mut output, "channels", channels.as_str());
    }
    if let Some(mono) = &config.general.mono_option {
        push_pair(&mut output, "mono_option", mono.as_str());
    }
    assert(pairs(output@) =~= cava_output(*config));
    let input = match &config.general.audio_source {
        Some(source) => {
            let mut list: Vec<(String, String)> = Vec::new();
            assert(pairs(list@) =~= Seq::empty());
            push_pair(&mut list, "method", "pulse");
            push_pair(&mut list, "source", source.as_str());
            assert(pairs(list@) =~= seq![("method"@, "pulse"@), ("source"@, source@)]);
            Some(list)
        },
        None => None,
    };
    CavaConfig {
        general: CavaGeneralConfig {
            framerate: config.general.framerate,
            bars,
            autosens: config.general.autosens,
            sensitivity: config.general.sensitivity,
        },
        smoothing: CavaSmoothingConfig {
            monstercat: config.smoothing.monstercat,
            waves: config.smoothing.waves,
            noise_reduction: config.smoothing.noise_reduction,
        },
        output,
        input,
    }
}

/// How bars are finished: a matte share and an opacity, both brought into
/// `0..=1`, and how far up the output they reach.
pub open spec fn finished(bars: BarConfig) -> (Single, Single, Single) {
    (
        clamped(
            match bars.matte {
                Some(m) => m,
                None => zero(),
            },
            zero(),
            Single { bits: ONE },
        ),
        clamped(
            match bars.opacity {
                Some(o) => o,
                None => Single { bits: ONE },
            },
            zero(),
            Single { bits: ONE },
        ),
        match bars.max_height {
            Some(h) => h,
            None => Single { bits: ONE },
        },
    )
}

/// How bars are finished: their matte share, their opacity, and their reach.
pub fn finish(bars: &BarConfig) -> (r: (Single, Single, Single))
    ensures
        r == finished(*bars),
{
    let nought = Single { bits: 0 };
    let one = Single { bits: ONE };
    (
        bars.matte.unwrap_or(nought).clamp_to(nought, one),
        bars.opacity.unwrap_or(one).clamp_to(nought, one),
        bars.max_height.unwrap_or(one),
    )
}

/// A control point as a path writes it: its place, then its scale, then its
/// angle. A scale below zero counts as zero.
pub open spec fn control_of(p: Seq<Single>) -> Control {
    Control {
        x: p[0],
        y: p[1],
        scale: floored(
            if p.len() > 2 {
                p[2]
            } else {
                Single { bits: ONE }
            },
        ),
        angle: if p.len() > 3 {
            Some(p[3])
        } else {
            None
        },
    }
}

/// A point of a silhouette, which has a place and nothing else.
pub open spec fn outline_point(p: Seq<Single>) -> Control {
    Control { x: p[0], y: p[1], scale: Single { bits: ONE }, angle: None }
}

/// The control points that the first `n` points write. One without a place is
/// left out.
pub open spec fn controls_in(points: Seq<Seq<Single>>, n: int) -> Seq<Control>
    decreases n,
{
    if n <= 0 {
        Seq::empty()
    } else if points[n - 1].len() >= 2 {
        controls_in(points, n - 1).push(control_of(points[n - 1]))
    } else {
        controls_in(points, n - 1)
    }
}

/// The silhouette that the first `n` points write.
pub open spec fn outline_in(points: Seq<Seq<Single>>, n: int) -> Seq<Control>
    decreases n,
{
    if n <= 0 {
        Seq::empty()
    } else if points[n - 1].len() >= 2 {
        outline_in(points, n - 1).push(outline_point(points[n - 1]))
    } else {
        outline_in(points, n - 1)
    }
}

/// A path's own setting, else the curve's, else `d`.
pub open spec fn setting<T>(path: Option<T>, curve: Option<T>, d: T) -> T {
    match path {
        Some(v) => v,
        None => match curve {
            Some(v) => v,
            None => d,
        },
    }
}

/// `s` is the path `p` of the curve `c`, with every default filled in.
pub open spec fn resolves(s: PathSpec, p: PathView, c: CurveConfig) -> bool {
    &&& s.controls@ == controls_in(p.points, p.points.len() as int)
    &&& s.bars == p.bars
    &&& s.reach == clamped(
        setting(p.height, c.height, Single { bits: DEFAULT_REACH }),
        zero(),
        Single { bits: ONE },
    )
    &&& s.width == clamped(
        setting(p.width, c.width, Single { bits: DEFAULT_WIDTH }),
        zero(),
        Single { bits: ONE },
    )
    &&& s.flip == setting(p.flip, c.flip, false)
    &&& s.upright == setting(p.upright, c.upright, false)
}

fn controls_from(points: &Vec<Vec<Single>>) -> (out: Vec<Control>)
    ensures
        out@ == controls_in(
            crate::app_config::points_view(points@),
            points@.len() as int,
        ),
{
    let mut out: Vec<Control> = Vec::new();
    let ghost view = crate::app_config::points_view(points@);
    for i in 0..points.len()
        invariant
            view == crate::app_config::points_view(points@),
            out@ == controls_in(view, i as int),
    {
        let p: &Vec<Single> = &points[i];
        assert(view[i as int] == p@);
        if p.len() >= 2 {
            let scale = if p.len() > 2 {
                p[2]
            } else {
                Single { bits: ONE }
            };
            let angle = if p.len() > 3 {
                Some(p[3])
            } else {
                None
            };
            out.push(Control { x: p[0], y: p[1], scale: scale.floor_at_zero(), angle });
        }
    }
    out
}

fn path_spec(path: &PathConfig, cfg: &CurveConfig) -> (s: PathSpec)
    ensures
        resolves(s, path@, *cfg),
{
    let nought = Single { bits: 0 };
    let one = Single { bits: ONE };
    let reach = match path.height {
        Some(h) => h,
        None => cfg.height.unwrap_or(Single { bits: DEFAULT_REACH }),
    };
    let width = match path.width {
        Some(w) => w,
        None => cfg.width.unwrap_or(Single { bits: DEFAULT_WIDTH }),
    };
    let flip = match path.flip {
        Some(f) => f,
        None => cfg.flip.unwrap_or(false),
    };
    let upright = match path.upright {
        Some(u) => u,
        None => cfg.upright.unwrap_or(false),
    };
    PathSpec {
        controls: controls_from(&path.points),
        bars: path.bars,
        reach: reach.clamp_to(nought, one),
        width: width.clamp_to(nought, one),
        flip,
        upright,
    }
}

/// The paths of a curve, with every default filled in.
pub fn path_specs(cfg: &CurveConfig) -> (out: Vec<PathSpec>)
    ensures
        out@.len() == cfg.all_paths().len(),
        forall|i: int|
            0 <= i < out@.len() ==> resolves(#[trigger] out@[i], cfg.all_paths()[i], *cfg),
{
    let paths = cfg.paths();
    let list: &[PathConfig] = match &paths {
        Cow::Borrowed(b) => b,
        Cow::Owned(v) => v.as_slice(),
    };
    assert(path_views(list@) == cfg.all_paths());
    let mut out: Vec<PathSpec> = Vec::new();
    for i in 0..list.len()
        invariant
            path_views(list@) == cfg.all_paths(),
            out@.len() == i,
            forall|j: int|
                0 <= j < i ==> resolves(#[trigger] out@[j], cfg.all_paths()[j], *cfg),
    {
        assert(cfg.all_paths()[i as int] == list@[i as int]@);
        out.push(path_spec(&list[i], cfg));
    }
    out
}

/// The silhouette that a curve's bars hide behind.
pub fn silhouette(cfg: &CurveConfig) -> (out: Vec<Control>)
    ensures
        out@ == match cfg.occlude {
            Some(points) => outline_in(
                crate::app_config::points_view(points@),
                points@.len() as int,
            ),
            None => Seq::empty(),
        },
{
    let mut out: Vec<Control> = Vec::new();
    assert(out@ =~= Seq::empty());
    if let Some(points) = &cfg.occlude {
        let ghost view = crate::app_config::points_view(points@);
        for i in 0..points.len()
            invariant
                view == crate::app_config::points_view(points@),
                out@ == outline_in(view, i as int),
        {
            let p: &Vec<Single> = &points[i];
            assert(view[i as int] == p@);
            if p.len() >= 2 {
                out.push(
                    Control { x: p[0], y: p[1], scale: Single { bits: ONE }, angle: None },
                );
            }
        }
    }
    out
}

/// Whatever was asked for, there is something to draw: a curve is drawn only
/// where there is one for this very wallpaper.
pub proof fn a_curve_belongs_to_its_wallpaper(
    config: Config,
    own: Option<WallpaperConfig>,
    key: Option<Seq<char>>,
    a: ActiveCurve,
)
    requires
        active(config, own, key, a),
    ensures
        key is None ==> a is Nothing,
        a matches ActiveCurve::Listed(i) ==> config.curves->0@[i as int].0@ == key->0,
        a is Own ==> own is Some && own->0.curve is Some,
{
}

/// `--config`, byte by byte.
pub open spec fn config_flag() -> Seq<u8> {
    seq![0x2du8, 0x2du8, 0x63u8, 0x6fu8, 0x6eu8, 0x66u8, 0x69u8, 0x67u8]
}

/// The arguments are none, or `--config` and a path, which is then the one that
/// is read; with any others the program says how it is used.
pub proof fn other_arguments_ask_for_help(args: Seq<Vec<u8>>, r: ConfigChoice)
    requires
        chosen_by(args, r),
    ensures
        r is Default <==> args.len() == 0,
        r is Given <==> args.len() == 2 && args[0]@ == config_flag(),
        r matches ConfigChoice::Given(path) ==> path@ == args[1]@,
{
    reveal_strlit("--config");
    encoding_of_ascii("--config"@);
    assert(encode_utf8("--config"@) =~= config_flag());
}

/// The configuration's own place is where the editor looks for it, and comes
/// before the place it used to have, which is asked to be left.
pub proof fn the_own_place_comes_first(env: Environment, inherited_exists: bool)
    requires
        env.config_home is None,
        env.home is Some,
        env.home->0@.len() > 0,
    ensures
        default_place(env.home->0@, true, inherited_exists) == (config_file(env), false),
        default_place(env.home->0@, false, true).1,
        default_place(env.home->0@, false, true).0 != config_file(env),
        !default_place(env.home->0@, false, false).1,
        default_place(env.home->0@, false, false).0 == seq![
            0x63u8, 0x6fu8, 0x6eu8, 0x66u8, 0x69u8, 0x67u8, 0x2eu8, 0x74u8, 0x6fu8, 0x6du8, 0x6cu8,
        ],
{
    let home = env.home->0@;
    reveal_strlit(".config/cavawall/config.toml");
    reveal_strlit(".config/wallpaper-cava/config.toml");
    reveal_strlit(".config");
    reveal_strlit("cavawall/config.toml");
    reveal_strlit("config.toml");
    let (head, tail) = (".config"@, "cavawall/config.toml"@);
    let all = ".config/cavawall/config.toml"@;
    encoding_of_ascii(all);
    encoding_of_ascii(head);
    encoding_of_ascii(tail);
    encoding_of_ascii(".config/wallpaper-cava/config.toml"@);
    encoding_of_ascii("config.toml"@);
    let h = encode_utf8(head);
    assert(h.last() == 0x67);
    assert(below(home, h).last() == 0x67);
    assert(encode_utf8(all) =~= h + seq![0x2fu8] + encode_utf8(tail));
    assert(own_place(home) =~= config_file(env));
    assert(inherited_place(home).len() != own_place(home).len());
    assert(encode_utf8("config.toml"@) =~= seq![
        0x63u8, 0x6fu8, 0x6eu8, 0x66u8, 0x69u8, 0x67u8, 0x2eu8, 0x74u8, 0x6fu8, 0x6du8, 0x6cu8,
    ]);
}

/// The lock is `cavawall.lock` in the session's runtime directory.
pub proof fn the_lock_is_in_the_runtime_directory(env: Environment)
    ensures
        lock_file(env) == below(
            env.runtime_path(),
            seq![
                0x63u8, 0x61u8, 0x76u8, 0x61u8, 0x77u8, 0x61u8, 0x6cu8, 0x6cu8, 0x2eu8, 0x6cu8,
                0x6fu8, 0x63u8, 0x6bu8,
            ],
        ),
{
    reveal_strlit("cavawall.lock");
    encoding_of_ascii("cavawall.lock"@);
    assert(encode_utf8("cavawall.lock"@) =~= seq![
        0x63u8, 0x61u8, 0x76u8, 0x61u8, 0x77u8, 0x61u8, 0x6cu8, 0x6cu8, 0x2eu8, 0x6cu8,
        0x6fu8, 0x63u8, 0x6bu8,
    ]);
}

/// Only the holder of the lock runs; another instance stands down quietly, and
/// only a lock that nobody holds and that cannot be had is a failure.
pub proof fn only_one_instance_runs(locked: bool, would_block: bool)
    ensures
        claimed(locked, would_block) == Claim::Held <==> locked,
        claimed(locked, would_block) == Claim::StandDown <==> !locked && would_block,
        claimed(locked, would_block) == Claim::Failed <==> !locked && !would_block,
{
}

/// A compositor that offers both is taken at once; one that does not is asked
/// again as long as there is time, and what is named after that is missing.
pub proof fn a_compositor_has_time_to_start(compositor: bool, layer_shell: bool, in_time: bool)
    ensures
        bound(true, true, in_time) == Shell::Bound,
        bound(compositor, layer_shell, in_time) == Shell::Bound ==> compositor && layer_shell,
        bound(compositor, layer_shell, in_time) == Shell::Retry <==> in_time && !(compositor
            && layer_shell),
        bound(compositor, layer_shell, in_time) == Shell::NoCompositor ==> !compositor,
        bound(compositor, layer_shell, in_time) == Shell::NoLayerShell ==> compositor
            && !layer_shell,
{
}

/// A variable that is not set switches nothing on, and neither does the single
/// digit nought; anything else does.
pub proof fn only_a_nought_switches_off(value: Seq<u8>)
    ensures
        !switched_on(None),
        switched_on(Some(value)) <==> !(value.len() == 1 && value[0] == 48),
{
    reveal_strlit("0");
    encoding_of_ascii("0"@);
    let z = encode_utf8("0"@);
    assert(z.len() == 1 && z[0] == 48);
    if value.len() == 1 && value[0] == 48 {
        assert(value =~= z);
    }
}

/// Wherever an extension stands in the driver's list, its own function is
/// taken: that of KHR before that of EXT, which differ in the last three
/// letters; none is taken where damage is switched off or neither stands there.
pub proof fn an_extension_brings_its_function(a: Seq<char>, b: Seq<char>, off: bool)
    ensures
        ({
            let khr = "EGL_KHR_swap_buffers_with_damage"@;
            let ext = "EGL_EXT_swap_buffers_with_damage"@;
            let list = a + khr + b;
            let other = a + ext + b;
            &&& !off ==> swap_name(list, off) is Some && swap_name(list, off)->0.skip(24) == seq![
                'K',
                'H',
                'R',
            ]
            &&& !off ==> swap_name(other, off) is Some
            &&& !off && swap_name(other, off)->0.skip(24) != seq!['K', 'H', 'R'] ==> swap_name(
                other,
                off,
            )->0.skip(24) == seq!['E', 'X', 'T']
            &&& off ==> swap_name(list, off) is None && swap_name(other, off) is None
            &&& (forall|j: int| !#[trigger] occurs_at(a, khr, j)) && (forall|j: int|
                !#[trigger] occurs_at(a, ext, j)) ==> swap_name(a, off) is None
        }),
{
    reveal_strlit("EGL_KHR_swap_buffers_with_damage");
    reveal_strlit("EGL_EXT_swap_buffers_with_damage");
    reveal_strlit("eglSwapBuffersWithDamageKHR");
    reveal_strlit("eglSwapBuffersWithDamageEXT");
    let khr = "EGL_KHR_swap_buffers_with_damage"@;
    let ext = "EGL_EXT_swap_buffers_with_damage"@;
    a_search_finds_the_first_place(a + khr + b, khr, 0, a.len() as int);
    a_search_finds_the_first_place(a + ext + b, ext, 0, a.len() as int);
    assert("eglSwapBuffersWithDamageKHR"@.skip(24) =~= seq!['K', 'H', 'R']);
    assert("eglSwapBuffersWithDamageEXT"@.skip(24) =~= seq!['E', 'X', 'T']);
    if index_of(a, khr, 0) is Some {
        assert(first_from(a, khr, 0, Some(index_of(a, khr, 0)->0)));
    }
    if index_of(a, ext, 0) is Some {
        assert(first_from(a, ext, 0, Some(index_of(a, ext, 0)->0)));
    }
}

/// Direct state access comes with version 4.5 and stays with every later one.
pub proof fn later_versions_name_buffers_too(major: i32, minor: i32)
    requires
        0 <= minor < 100,
        0 <= major < 1000,
    ensures
        names_buffers(major, minor) <==> major * 100 + minor >= 405,
{
}

/// A pin in the environment wins, an empty one counts as none, and without one
/// the configuration has the say.
pub proof fn the_environment_pins_first(e: Seq<char>, preferred: Option<Seq<char>>)
    ensures
        e.len() > 0 ==> pinned(Some(e), preferred) == Some(e),
        e.len() == 0 ==> pinned(Some(e), preferred) == preferred,
        pinned(None, preferred) == preferred,
{
}

/// A settings file is named by its wallpaper's key and `.toml`, and by nothing
/// else: the key reads back, and no other name has one.
pub proof fn a_settings_file_is_named_by_its_key(key: Seq<char>)
    ensures
        key.len() > 0 ==> key_of_file(key + seq!['.', 't', 'o', 'm', 'l']) == Some(key),
        key_of_file(key) matches Some(k) ==> k.len() > 0 && key == k + seq![
            '.', 't', 'o', 'm', 'l',
        ],
{
    reveal_strlit(".toml");
    let end = seq!['.', 't', 'o', 'm', 'l'];
    assert(".toml"@ =~= end);
    let name = key + end;
    assert(name.subrange(name.len() - 5, name.len() as int) =~= end);
    assert(name.take(name.len() - 5) =~= key);
    if let Some(k) = key_of_file(key) {
        assert(key =~= k + key.subrange(key.len() - 5, key.len() as int));
    }
}

/// What a wallpaper sets for itself comes before what the file sets, and bars
/// are drawn where neither names a mode.
pub proof fn a_wallpaper_comes_before_the_file(config: Config, w: WallpaperConfig)
    ensures
        w.mode is Some ==> asked_mode(config, Some(w)) == w.mode->0,
        w.mode is None ==> asked_mode(config, Some(w)) == asked_mode(config, None),
        config.general.mode is Some ==> asked_mode(config, None) == config.general.mode->0,
        config.general.mode is None ==> asked_mode(config, None) == Mode::Bars,
        w.circle is Some ==> asked_circle(config, Some(w)) == w.circle,
        w.circle is None ==> asked_circle(config, Some(w)) == config.circle,
        asked_circle(config, None) == config.circle,
        w.bars is Some ==> asked_bars(config, Some(w)) == overridden(w.bars->0, config.bars),
        w.bars is None ==> asked_bars(config, Some(w)) == config.bars,
        asked_bars(config, None) == config.bars,
{
}

/// In curve mode the wallpaper's own curve is drawn, else the one listed first
/// under its key, else none; outside curve mode none is.
pub proof fn a_curve_is_found_by_its_key(
    config: Config,
    own: Option<WallpaperConfig>,
    key: Seq<char>,
    a: ActiveCurve,
    i: int,
)
    requires
        active(config, own, Some(key), a),
    ensures
        asked_mode(config, own) != Mode::Curve ==> a is Nothing,
        asked_mode(config, own) == Mode::Curve && own is Some && own->0.curve is Some ==> a is Own,
        asked_mode(config, own) == Mode::Curve && (own is None || own->0.curve is None)
            && config.curves is Some && 0 <= i < config.curves->0@.len()
            && config.curves->0@[i].0@ == key ==> (a matches ActiveCurve::Listed(k) && k <= i
            && config.curves->0@[k as int].0@ == key),
        a is Listed ==> asked_mode(config, own) == Mode::Curve,
{
}

/// Bars are counted by the circle or the curve where that names a count, then
/// by the shell where it is followed and says one, then by the amount that is
/// set; a plain row never by a circle or a curve.
pub proof fn bars_are_counted_in_turn(
    config: Config,
    own: Option<WallpaperConfig>,
    a: ActiveCurve,
    shell_bars: Option<u32>,
)
    ensures
        ({
            let n = bars_in(config, own, a, shell_bars);
            let mode = asked_mode(config, own);
            let fallback = if follows_bars(config) && shell_bars is Some {
                shell_bars->0
            } else {
                asked_bars(config, own).amount
            };
            let circle = asked_circle(config, own);
            let curve = curve_of(config, own, a);
            &&& mode == Mode::Bars ==> n == fallback
            &&& mode == Mode::Circle && circle is Some && circle->0.bars is Some ==> n
                == circle->0.bars->0
            &&& mode == Mode::Circle && (circle is None || circle->0.bars is None) ==> n == fallback
            &&& mode == Mode::Curve && curve is Some && curve->0.bars is Some ==> n
                == curve->0.bars->0
            &&& mode == Mode::Curve && (curve is None || curve->0.bars_in_all() is None) ==> n
                == fallback
        }),
        follows_bars(config) <==> (config.scheme matches Some(s) && s.bars == Some(true)),
        follows_colors(config) <==> (config.scheme matches Some(s) && s.colors == Some(true)),
{
}

/// The analyser always gives raw samples of 16 bits on its standard output;
/// channels, their mixing and the source are passed on exactly where they are
/// set.
pub proof fn the_analyser_is_told_what_is_set(config: Config)
    ensures
        ({
            let out = cava_output(config);
            &&& out.contains(
                (
                    seq!['m', 'e', 't', 'h', 'o', 'd'],
                    seq!['r', 'a', 'w'],
                ),
            )
            &&& out.contains(
                (
                    seq!['r', 'a', 'w', '_', 't', 'a', 'r', 'g', 'e', 't'],
                    seq!['/', 'd', 'e', 'v', '/', 's', 't', 'd', 'o', 'u', 't'],
                ),
            )
            &&& out.contains(
                (
                    seq!['b', 'i', 't', '_', 'f', 'o', 'r', 'm', 'a', 't'],
                    seq!['1', '6', 'b', 'i', 't'],
                ),
            )
            &&& config.general.channels matches Some(c) ==> out.contains(
                (seq!['c', 'h', 'a', 'n', 'n', 'e', 'l', 's'], c@),
            )
            &&& config.general.mono_option matches Some(m) ==> out.contains(
                (seq!['m', 'o', 'n', 'o', '_', 'o', 'p', 't', 'i', 'o', 'n'], m@),
            )
            &&& out.len() == 3 + (if config.general.channels is Some {
                1int
            } else {
                0
            }) + (if config.general.mono_option is Some {
                1int
            } else {
                0
            })
        }),
        config.general.audio_source is None ==> cava_input(config) is None,
        config.general.audio_source matches Some(source) ==> cava_input(config) is Some
            && cava_input(config)->0.len() == 2 && cava_input(config)->0.contains(
            (seq!['m', 'e', 't', 'h', 'o', 'd'], seq!['p', 'u', 'l', 's', 'e']),
        ) && cava_input(config)->0.contains(
            (seq!['s', 'o', 'u', 'r', 'c', 'e'], source@),
        ),
{
    reveal_strlit("method");
    reveal_strlit("raw");
    reveal_strlit("raw_target");
    reveal_strlit("/dev/stdout");
    reveal_strlit("bit_format");
    reveal_strlit("16bit");
    reveal_strlit("channels");
    reveal_strlit("mono_option");
    reveal_strlit("pulse");
    reveal_strlit("source");
    assert("method"@ =~= seq!['m', 'e', 't', 'h', 'o', 'd']);
    assert("raw"@ =~= seq!['r', 'a', 'w']);
    assert("raw_target"@ =~= seq!['r', 'a', 'w', '_', 't', 'a', 'r', 'g', 'e', 't']);
    assert("/dev/stdout"@ =~= seq!['/', 'd', 'e', 'v', '/', 's', 't', 'd', 'o', 'u', 't']);
    assert("bit_format"@ =~= seq!['b', 'i', 't', '_', 'f', 'o', 'r', 'm', 'a', 't']);
    assert("16bit"@ =~= seq!['1', '6', 'b', 'i', 't']);
    assert("channels"@ =~= seq!['c', 'h', 'a', 'n', 'n', 'e', 'l', 's']);
    assert("mono_option"@ =~= seq!['m', 'o', 'n', 'o', '_', 'o', 'p', 't', 'i', 'o', 'n']);
    assert("pulse"@ =~= seq!['p', 'u', 'l', 's', 'e']);
    assert("source"@ =~= seq!['s', 'o', 'u', 'r', 'c', 'e']);
    let out = cava_output(config);
    assert(out[0] == ("method"@, "raw"@));
    assert(out[1] == ("raw_target"@, "/dev/stdout"@));
    assert(out[2] == ("bit_format"@, "16bit"@));
    if config.general.channels is Some {
        assert(out[3] == ("channels"@, config.general.channels->0@));
    }
    if config.general.mono_option is Some {
        assert(out.last() == ("mono_option"@, config.general.mono_option->0@));
    }
    if config.general.audio_source is Some {
        let input = cava_input(config)->0;
        assert(input[0] == ("method"@, "pulse"@));
        assert(input[1] == ("source"@, config.general.audio_source->0@));
    }
}

/// A finish is kept where it lies between nought and one and brought to the
/// nearer of them where it does not; unset it is no matte and full opacity and
/// height.
pub proof fn a_finish_is_kept_within_bounds(bars: BarConfig)
    ensures
        bars.matte matches Some(m) && m.bits <= 0x3f80_0000 ==> finished(bars).0 == bars.matte->0,
        bars.matte matches Some(m) && 0x3f80_0000 < m.bits <= 0x7f80_0000 ==> finished(bars).0.bits
            == 0x3f80_0000,
        bars.matte matches Some(m) && 0x8000_0000 < m.bits <= 0xff80_0000 ==> finished(bars).0.bits
            == 0,
        bars.matte is None ==> finished(bars).0.bits == 0,
        bars.opacity matches Some(o) && o.bits <= 0x3f80_0000 ==> finished(bars).1
            == bars.opacity->0,
        bars.opacity matches Some(o) && 0x3f80_0000 < o.bits <= 0x7f80_0000 ==> finished(
            bars,
        ).1.bits == 0x3f80_0000,
        bars.opacity matches Some(o) && 0x8000_0000 < o.bits <= 0xff80_0000 ==> finished(
            bars,
        ).1.bits == 0,
        bars.opacity is None ==> finished(bars).1.bits == 0x3f80_0000,
        bars.max_height matches Some(h) ==> finished(bars).2 == h,
        bars.max_height is None ==> finished(bars).2.bits == 0x3f80_0000,
{
}

/// A point's first two numbers are its place, the third its scale, which is one
/// where it is left out and nought where it is below, the fourth its angle.
pub proof fn a_points_numbers_are_read_in_order(p: Seq<Single>)
    requires
        p.len() >= 2,
    ensures
        control_of(p).x == p[0],
        control_of(p).y == p[1],
        p.len() == 2 ==> control_of(p).scale.bits == 0x3f80_0000,
        p.len() > 2 && 1 <= p[2].bits <= 0x7f80_0000 ==> control_of(p).scale == p[2],
        p.len() > 2 && p[2].bits >= 0x8000_0000 ==> control_of(p).scale.bits == 0,
        p.len() <= 3 ==> control_of(p).angle is None,
        p.len() > 3 ==> control_of(p).angle == Some(p[3]),
        outline_point(p).x == p[0] && outline_point(p).y == p[1],
        outline_point(p).scale.bits == 0x3f80_0000 && outline_point(p).angle is None,
{
}

proof fn controls_agree(a: Seq<Seq<Single>>, b: Seq<Seq<Single>>, n: int)
    requires
        0 <= n <= a.len(),
        n <= b.len(),
        forall|i: int| 0 <= i < n ==> #[trigger] a[i] == b[i],
    ensures
        controls_in(a, n) == controls_in(b, n),
        outline_in(a, n) == outline_in(b, n),
    decreases n,
{
    if n > 0 {
        controls_agree(a, b, n - 1);
        assert(a[n - 1] == b[n - 1]);
    }
}

/// Points are taken in order, and one without two numbers is left out.
pub proof fn points_are_taken_in_order(points: Seq<Seq<Single>>, p: Seq<Single>)
    ensures
        ({
            let n = points.len() as int;
            &&& p.len() >= 2 ==> controls_in(points.push(p), n + 1) == controls_in(points, n).push(
                control_of(p),
            )
            &&& p.len() < 2 ==> controls_in(points.push(p), n + 1) == controls_in(points, n)
            &&& p.len() >= 2 ==> outline_in(points.push(p), n + 1) == outline_in(points, n).push(
                outline_point(p),
            )
            &&& p.len() < 2 ==> outline_in(points.push(p), n + 1) == outline_in(points, n)
            &&& controls_in(points, 0).len() == 0 && outline_in(points, 0).len() == 0
        }),
{
    controls_agree(points, points.push(p), points.len() as int);
}

/// A path's own reach, width, flip and lean come before the curve's; unset
/// anywhere, bars reach 0.18 of the output, are 0.006 of it wide, and are
/// neither flipped nor upright. A reach or width up to one is kept.
pub proof fn a_path_comes_before_its_curve(s: PathSpec, p: PathView, c: CurveConfig)
    requires
        resolves(s, p, c),
    ensures
        s.bars == p.bars,
        p.height matches Some(h) && h.bits <= 0x3f80_0000 ==> s.reach == p.height->0,
        p.height matches Some(h) && 0x3f80_0000 < h.bits <= 0x7f80_0000 ==> s.reach.bits
            == 0x3f80_0000,
        p.height is None && c.height is Some && c.height->0.bits <= 0x3f80_0000 ==> s.reach
            == c.height->0,
        p.height is None && c.height is None ==> s.reach.bits == 0x3e38_51ec,
        p.width matches Some(w) && w.bits <= 0x3f80_0000 ==> s.width == p.width->0,
        p.width matches Some(w) && 0x3f80_0000 < w.bits <= 0x7f80_0000 ==> s.width.bits
            == 0x3f80_0000,
        p.width is None && c.width is Some && c.width->0.bits <= 0x3f80_0000 ==> s.width
            == c.width->0,
        p.width is None && c.width is None ==> s.width.bits == 0x3bc4_9ba6,
        p.flip is Some ==> s.flip == p.flip->0,
        p.flip is None ==> s.flip == (c.flip == Some(true)),
        p.upright is Some ==> s.upright == p.upright->0,
        p.upright is None ==> s.upright == (c.upright == Some(true)),
{
}

/// No more than 4096 bars can be drawn.
pub proof fn at_most_4096_bars_are_drawn()
    ensures
        MAX_BARS == 4096,
{
}

/// A curve is drawn only where there is one, bars take its place where there is
/// none, and no other mode changes.
pub proof fn without_a_curve_bars_are_drawn(configured: Mode, curve: ActiveCurve)
    ensures
        drawn_mode(configured, curve) == Mode::Curve ==> !(curve is Nothing),
        configured == Mode::Curve && curve is Nothing ==> drawn_mode(configured, curve)
            == Mode::Bars,
        configured != Mode::Curve || !(curve is Nothing) ==> drawn_mode(configured, curve)
            == configured,
{
}

/// The frame rate, the sensitivity and the smoothing are passed straight
/// through, and the bars are those that are drawn.
pub proof fn smoothing_is_passed_through(config: Config, bars: u32)
    ensures
        cava_general(config, bars).bars == bars,
        cava_general(config, bars).framerate == config.general.framerate,
        cava_general(config, bars).autosens == config.general.autosens,
        cava_general(config, bars).sensitivity == config.general.sensitivity,
        cava_smoothing(config).monstercat == config.smoothing.monstercat,
        cava_smoothing(config).waves == config.smoothing.waves,
        cava_smoothing(config).noise_reduction == config.smoothing.noise_reduction,
{
}

/// A key is known exactly where the configuration lists it or a settings file
/// is named by it.
pub proof fn a_key_is_known_by_list_or_file(config: Config, files: Seq<String>, key: Seq<char>, i: int)
    ensures
        0 <= i < files.len() && files[i]@ == key ==> known_key(config, files, key),
        config.curves is Some && 0 <= i < config.curves->0@.len() && config.curves->0@[i].0@ == key
            ==> known_key(config, files, key),
        config.curves is None && files.len() == 0 ==> !known_key(config, files, key),
{
}

/// The curve that is drawn is the wallpaper's own, or the one that is listed
/// in that place, and its paths' counts are those that are drawn.
pub proof fn the_active_curve_is_the_one_drawn(
    config: Config,
    own: Option<WallpaperConfig>,
    i: usize,
    a: ActiveCurve,
    shell_bars: Option<u32>,
)
    ensures
        curve_of(config, own, ActiveCurve::Nothing) is None,
        own is Some ==> curve_of(config, own, ActiveCurve::Own) == own->0.curve,
        config.curves is Some && i < config.curves->0@.len() ==> curve_of(
            config,
            own,
            ActiveCurve::Listed(i),
        ) == Some(config.curves->0@[i as int].1),
        asked_mode(config, own) == Mode::Curve && curve_of(config, own, a) is Some && curve_of(
            config,
            own,
            a,
        )->0.bars_in_all() is Some ==> bars_in(config, own, a, shell_bars) == curve_of(
            config,
            own,
            a,
        )->0.bars_in_all()->0,
{
}

/// A key that is neither listed nor has a file is not known.
pub proof fn an_unlisted_key_is_not_known(config: Config, files: Seq<String>, key: Seq<char>)
    requires
        forall|i: int| 0 <= i < files.len() ==> (#[trigger] files[i])@ != key,
        config.curves is Some ==> forall|i: int|
            0 <= i < config.curves->0@.len() ==> (#[trigger] config.curves->0@[i]).0@ != key,
    ensures
        !known_key(config, files, key),
{
}

} // verus!
