use cavawall::app_config::{
    BarConfig, BarsOverride, CircleConfig, Config, ConfigColor, CurveConfig, GeneralConfig, Mode, PathConfig,
    SchemeConfig, SmoothingConfig, WallpaperConfig,
};
use cavawall::scheme::Environment;
use cavawall::single::Single;
use cavawall::startup::{
    active_curve, bars_config, bind_shell, cava_config, circle_config, claim, config_choice,
    curve_keys, default_config_path, direct_state_access, finish, flag_set, follow_bars,
    follow_colors, inherited_config, lock_path, own_config, path_specs,
    pinned_output, resolve, silhouette, swap_function, wallpaper_key, ActiveCurve, Claim,
    ConfigChoice, Shell, MAX_BARS,
};

fn single(x: f32) -> Single {
    Single { bits: x.to_bits() }
}

fn text(s: &str) -> Option<String> {
    Some(s.to_string())
}

fn curve(bars: Option<u32>) -> CurveConfig {
    CurveConfig {
        points: None,
        height: None,
        width: None,
        flip: None,
        upright: None,
        path: None,
        bars,
        occlude: None,
        fit: None,
    }
}

fn circle(bars: Option<u32>) -> CircleConfig {
    CircleConfig {
        diameter: None,
        inner_radius: None,
        inner_alpha: None,
        outer_alpha: None,
        anchor: None,
        bars,
        margin_x: None,
        margin_y: None,
    }
}

fn config(mode: Option<Mode>) -> Config {
    Config {
        general: GeneralConfig {
            framerate: 45,
            mode,
            background_color: ConfigColor::Simple("#000000".to_string()),
            autosens: Some(true),
            sensitivity: Some(single(100.0)),
            preferred_output: None,
            channels: None,
            mono_option: None,
            audio_source: None,
        },
        bars: BarConfig {
            amount: 76,
            gap: single(0.1),
            max_height: None,
            opacity: None,
            matte: None,
        },
        colors: Vec::new(),
        smoothing: SmoothingConfig {
            monstercat: Some(single(1.5)),
            waves: Some(0),
            noise_reduction: Some(single(60.0)),
        },
        scheme: None,
        circle: None,
        curves: None,
    }
}

#[test]
fn arguments_choose_the_config() {
    let args = |a: &[&str]| a.iter().map(|s| s.as_bytes().to_vec()).collect::<Vec<_>>();
    assert!(matches!(config_choice(&args(&[])), ConfigChoice::Default));
    assert!(matches!(config_choice(&args(&["--config", "/x"])), ConfigChoice::Given(p) if p == b"/x"));
    for bad in [&["--config"][..], &["-h"], &["--config", "a", "b"], &["--conf", "a"]] {
        assert!(matches!(config_choice(&args(bad)), ConfigChoice::Help), "{bad:?}");
    }
}

#[test]
fn the_config_is_kept_in_its_own_place_first() {
    let own = b"/h/.config/cavawall/config.toml".to_vec();
    let inherited = b"/h/.config/wallpaper-cava/config.toml".to_vec();
    assert_eq!(own_config(b"/h"), own);
    assert_eq!(inherited_config(b"/h"), inherited);
    assert_eq!(default_config_path(b"/h", true, true), (own, false));
    assert_eq!(default_config_path(b"/h", false, true), (inherited, true));
    assert_eq!(default_config_path(b"/h", false, false), (b"config.toml".to_vec(), false));
    let env = Environment { home: None, state_home: None, config_home: None, runtime_dir: None };
    assert_eq!(lock_path(&env), b"/tmp/cavawall.lock".to_vec());
}

#[test]
fn one_instance_runs_and_a_compositor_may_be_late() {
    assert_eq!(claim(true, false), Claim::Held);
    assert_eq!(claim(false, true), Claim::StandDown);
    assert_eq!(claim(false, false), Claim::Failed);
    assert_eq!(bind_shell(true, true, false), Shell::Bound);
    assert_eq!(bind_shell(false, true, true), Shell::Retry);
    assert_eq!(bind_shell(true, false, true), Shell::Retry);
    assert_eq!(bind_shell(false, false, false), Shell::NoCompositor);
    assert_eq!(bind_shell(true, false, false), Shell::NoLayerShell);
}

#[test]
fn a_flag_is_set_unless_it_is_nought() {
    assert!(!flag_set(None));
    assert!(!flag_set(Some(b"0")));
    assert!(flag_set(Some(b"1")) && flag_set(Some(b"")) && flag_set(Some(b"00")));
}

#[test]
fn the_driver_names_its_swap() {
    let (khr, ext) = ("EGL_KHR_swap_buffers_with_damage", "EGL_EXT_swap_buffers_with_damage");
    let both = format!("EGL_A {ext} {khr}");
    assert_eq!(swap_function(&both, false), Some("eglSwapBuffersWithDamageKHR"));
    assert_eq!(swap_function(ext, false), Some("eglSwapBuffersWithDamageEXT"));
    assert_eq!(swap_function("EGL_A", false), None);
    assert_eq!(swap_function(&both, true), None);
    assert!(direct_state_access(4, 5) && direct_state_access(5, 0));
    assert!(!direct_state_access(4, 4) && !direct_state_access(3, 9));
}

#[test]
fn the_environment_pins_before_the_config() {
    assert_eq!(pinned_output(text("DP-1"), text("eDP-1")), text("DP-1"));
    assert_eq!(pinned_output(text(""), text("eDP-1")), text("eDP-1"));
    assert_eq!(pinned_output(None, text("eDP-1")), text("eDP-1"));
    assert_eq!(pinned_output(text(""), None), None);
}

#[test]
fn settings_files_are_named_by_their_wallpaper() {
    assert_eq!(wallpaper_key("abc.toml"), text("abc"));
    assert_eq!(wallpaper_key("a.b.toml"), text("a.b"));
    for none in [".toml", "toml", "abc.tom", "abc.toml.tmp", "abctoml", ""] {
        assert_eq!(wallpaper_key(none), None, "{none}");
    }
}

#[test]
fn the_mode_comes_from_the_wallpaper_first() {
    let own = |mode| Some(WallpaperConfig { mode, bars: None, circle: None, curve: None });
    let mode = |c: &Config, w: &Option<WallpaperConfig>| resolve(c, w, &None, None).unwrap().mode;
    assert_eq!(mode(&config(None), &None), Mode::Bars);
    assert_eq!(mode(&config(Some(Mode::Circle)), &None), Mode::Circle);
    assert_eq!(mode(&config(Some(Mode::Circle)), &own(None)), Mode::Circle);
    assert_eq!(mode(&config(None), &own(Some(Mode::Circle))), Mode::Circle);
    // A curve that is not there is drawn as bars, and still watched for
    let r = resolve(&config(Some(Mode::Curve)), &None, &text("abc"), None).unwrap();
    assert_eq!((r.configured, r.mode, r.curve), (Mode::Curve, Mode::Bars, ActiveCurve::Nothing));
    assert!(r.follow_wallpaper);
}

#[test]
fn a_curve_is_drawn_for_its_own_wallpaper() {
    let mut c = config(Some(Mode::Curve));
    c.curves = Some(vec![("x".to_string(), curve(Some(5))), ("abc".to_string(), curve(Some(27)))]);
    let r = resolve(&c, &None, &text("abc"), None).unwrap();
    assert_eq!((r.mode, r.curve, r.bar_count), (Mode::Curve, ActiveCurve::Listed(1), 27));
    let r = resolve(&c, &None, &text("other"), None).unwrap();
    assert_eq!((r.mode, r.curve, r.bar_count), (Mode::Bars, ActiveCurve::Nothing, 76));
    let r = resolve(&c, &None, &None, None).unwrap();
    assert_eq!(r.curve, ActiveCurve::Nothing);
    let own = Some(WallpaperConfig { mode: None, bars: None, circle: None, curve: Some(curve(Some(9))) });
    let r = resolve(&c, &own, &text("abc"), None).unwrap();
    assert_eq!((r.curve, r.bar_count), (ActiveCurve::Own, 9));
    // No curve outside curve mode
    let mut c = config(None);
    c.curves = Some(vec![("abc".to_string(), curve(Some(27)))]);
    let r = resolve(&c, &own, &text("abc"), None).unwrap();
    assert_eq!((r.curve, r.bar_count), (ActiveCurve::Nothing, 76));
}

#[test]
fn bars_are_counted_by_mode_then_shell_then_config() {
    let mut c = config(Some(Mode::Circle));
    c.circle = Some(circle(Some(120)));
    c.scheme = Some(SchemeConfig { colors: None, bars: Some(true) });
    let count = |c: &Config, shell| resolve(c, &None, &None, shell).map(|r| r.bar_count);
    assert_eq!(count(&c, Some(30)), Ok(120));
    c.circle = Some(circle(None));
    assert_eq!(count(&c, Some(30)), Ok(30));
    assert_eq!(count(&c, None), Ok(76));
    c.scheme = Some(SchemeConfig { colors: Some(true), bars: None });
    assert_eq!(count(&c, Some(30)), Ok(76));
    let r = resolve(&c, &None, &None, None).unwrap();
    assert!(r.follow_colors && !r.follow_bars && !r.follow_wallpaper);
    c.bars.amount = 0;
    assert_eq!(count(&c, None), Err(0));
    c.bars.amount = MAX_BARS;
    assert_eq!(count(&c, None), Ok(4096));
    c.bars.amount = MAX_BARS + 1;
    assert_eq!(count(&c, None), Err(4097));
}

#[test]
fn a_wallpaper_sets_its_own_bars() {
    let mut c = config(None);
    let bars = BarsOverride {
        amount: Some(33),
        gap: Some(single(0.5)),
        max_height: None,
        opacity: None,
        matte: None,
    };
    let own =
        Some(WallpaperConfig { mode: None, bars: Some(bars), circle: None, curve: None });
    assert_eq!(resolve(&c, &own, &None, None).map(|r| r.bar_count), Ok(33));
    let set = bars_config(&c, &own);
    assert_eq!((set.amount, set.gap, set.max_height), (33, single(0.5), None));
    assert_eq!(bars_config(&c, &None).amount, 76);
    // The shell still counts first where it is followed
    c.scheme = Some(SchemeConfig { colors: None, bars: Some(true) });
    assert_eq!(resolve(&c, &own, &None, Some(30)).map(|r| r.bar_count), Ok(30));
    assert!(follow_bars(&c) && !follow_colors(&c));
}

#[test]
fn a_wallpaper_sets_its_own_circle() {
    let mut c = config(Some(Mode::Circle));
    c.circle = Some(circle(Some(120)));
    let own = |circle| Some(WallpaperConfig { mode: None, bars: None, circle, curve: None });
    assert_eq!(circle_config(&c, &own(Some(circle(Some(60))))).unwrap().bars, Some(60));
    assert_eq!(circle_config(&c, &own(None)).unwrap().bars, Some(120));
    assert!(circle_config(&config(None), &None).is_none());
    assert_eq!(active_curve(&c, &own(None), &text("abc")), ActiveCurve::Nothing);
}

#[test]
fn every_key_with_a_curve_is_known() {
    let mut c = config(None);
    assert_eq!(curve_keys(&c, vec!["f".to_string()]), vec!["f"]);
    c.curves = Some(vec![("a".to_string(), curve(None)), ("f".to_string(), curve(None))]);
    let keys = curve_keys(&c, vec!["f".to_string()]);
    for k in ["a", "f"] {
        assert!(keys.iter().any(|x| x == k));
    }
    assert!(keys.iter().all(|x| x == "a" || x == "f"));
}

fn pair(k: &str, v: &str) -> (String, String) {
    (k.to_string(), v.to_string())
}

#[test]
fn the_analyser_is_told_only_what_is_set() {
    let mut c = config(None);
    let plain = cava_config(&c, 40);
    let base =
        vec![pair("method", "raw"), pair("raw_target", "/dev/stdout"), pair("bit_format", "16bit")];
    assert_eq!(plain.output, base);
    assert_eq!(plain.input, None);
    assert_eq!((plain.general.framerate, plain.general.bars), (45, 40));
    assert_eq!(plain.general.autosens, Some(true));
    assert_eq!(plain.general.sensitivity, Some(single(100.0)));
    assert_eq!(plain.smoothing.monstercat, Some(single(1.5)));
    assert_eq!(plain.smoothing.waves, Some(0));
    assert_eq!(plain.smoothing.noise_reduction, Some(single(60.0)));
    c.general.channels = text("mono");
    c.general.mono_option = text("average");
    c.general.audio_source = text("auto");
    let full = cava_config(&c, 40);
    let mut want = base;
    want.push(pair("channels", "mono"));
    want.push(pair("mono_option", "average"));
    assert_eq!(full.output, want);
    assert_eq!(full.input, Some(vec![pair("method", "pulse"), pair("source", "auto")]));
}

#[test]
fn the_finish_is_brought_into_range() {
    let mut b = config(None).bars;
    assert_eq!(finish(&b), (single(0.0), single(1.0), single(1.0)));
    b.matte = Some(single(1.5));
    b.opacity = Some(single(-1.0));
    b.max_height = Some(single(0.65));
    assert_eq!(finish(&b), (single(1.0), single(0.0), single(0.65)));
}

#[test]
fn paths_are_filled_in_from_their_curve() {
    let point = |p: &[f32]| p.iter().map(|x| single(*x)).collect::<Vec<_>>();
    let mut c = curve(None);
    c.height = Some(single(0.3));
    c.flip = Some(true);
    c.occlude = Some(vec![point(&[0.1, 0.2, 0.9]), point(&[0.5]), point(&[0.7, 0.8])]);
    c.path = Some(vec![
        PathConfig {
            points: vec![
                point(&[0.1, 0.2]),
                point(&[0.3]),
                point(&[0.4, 0.5, -2.0]),
                point(&[0.6, 0.7, 0.5, 90.0]),
            ],
            bars: Some(4),
            height: None,
            width: Some(single(3.0)),
            flip: None,
            upright: Some(true),
        },
        PathConfig {
            points: vec![],
            bars: None,
            height: Some(single(0.1)),
            width: None,
            flip: Some(false),
            upright: None,
        },
    ]);
    let specs = path_specs(&c);
    assert_eq!(specs.len(), 2);
    let got: Vec<(Single, Single, Single, Option<Single>)> =
        specs[0].controls.iter().map(|k| (k.x, k.y, k.scale, k.angle)).collect();
    assert_eq!(
        got,
        vec![
            (single(0.1), single(0.2), single(1.0), None),
            (single(0.4), single(0.5), single(0.0), None),
            (single(0.6), single(0.7), single(0.5), Some(single(90.0))),
        ]
    );
    let s = &specs[0];
    assert_eq!((s.bars, s.reach, s.width), (Some(4), single(0.3), single(1.0)));
    assert_eq!((s.flip, s.upright), (true, true));
    let s = &specs[1];
    assert_eq!((s.bars, s.reach, s.width), (None, single(0.1), single(0.006)));
    assert_eq!((s.flip, s.upright), (false, false));
    let outline: Vec<(Single, Single, Single)> =
        silhouette(&c).iter().map(|k| (k.x, k.y, k.scale)).collect();
    assert_eq!(
        outline,
        vec![(single(0.1), single(0.2), single(1.0)), (single(0.7), single(0.8), single(1.0))]
    );
    assert_eq!(path_specs(&curve(None))[0].reach, single(0.18));
    assert!(silhouette(&curve(None)).is_empty());
}
