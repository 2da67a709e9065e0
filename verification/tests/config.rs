use cavawall::app_config::{
    array_from_config_color, color_from_hex, gradient_buffer, ordered_stops, resolve_stops,
    try_color_from_hex, uploaded_stops, BarConfig, BarsOverride, CircleAnchor, Colour, ConfigColor, CurveConfig, FitMode,
    HexColorConfig, Mode, PathConfig, WallpaperConfig,
};
use cavawall::palette::{first_unreadable, reload_colors, reread_colors, Reload};
use cavawall::single::Single;

fn single(x: f32) -> Single {
    Single { bits: x.to_bits() }
}

fn rgba(c: &Colour) -> [f32; 4] {
    [
        f32::from(c.red) / 255.0,
        f32::from(c.green) / 255.0,
        f32::from(c.blue) / 255.0,
        f32::from_bits(c.alpha.bits),
    ]
}

fn quads(stops: &[[f32; 4]]) -> Vec<[Single; 4]> {
    stops.iter().map(|s| [single(s[0]), single(s[1]), single(s[2]), single(s[3])]).collect()
}

fn stop(hex: &str) -> ConfigColor {
    ConfigColor::Simple(hex.to_string())
}

fn roled(hex: &str, role: &str) -> ConfigColor {
    ConfigColor::Complex(HexColorConfig {
        hex: hex.to_string(),
        alpha: Some(single(0.5)),
        role: Some(role.to_string()),
    })
}

fn resolved(stops: &[ConfigColor], scheme: Option<&Vec<(String, String)>>) -> Vec<[f32; 4]> {
    assert_eq!(first_unreadable(stops, scheme), None);
    resolve_stops(stops, scheme).iter().map(rgba).collect()
}

/// A map hands back its keys in an arbitrary order, so what is checked is that
/// the ORDER IS RECOVERED rather than that some iteration happens to come out
/// right
#[test]
fn stops_sort_by_trailing_number_not_string() {
    let mut colors: Vec<(String, ConfigColor)> =
        (1..=12).map(|i| (format!("c{i}"), stop(&format!("#{:02x}0000", i)))).collect();
    colors.rotate_left(5);
    colors.reverse();
    let got: Vec<[f32; 4]> = resolved(&ordered_stops(&colors), None);
    let reds: Vec<u8> = got.iter().map(|c| (c[0] * 255.0).round() as u8).collect();
    // A plain string sort would give 1, 10, 11, 12, 2, 3, ...
    assert_eq!(reds, (1..=12).collect::<Vec<u8>>());
}

#[test]
fn upstream_naming_also_orders() {
    let mut colors: Vec<(String, ConfigColor)> = (1..=8)
        .map(|i| (format!("gradient_color_{i}"), stop(&format!("#{:02x}0000", i))))
        .collect();
    colors.rotate_left(3);
    let reds: Vec<u8> = resolved(&ordered_stops(&colors), None)
        .iter()
        .map(|c| (c[0] * 255.0).round() as u8)
        .collect();
    assert_eq!(reds, (1..=8).collect::<Vec<u8>>());
}

#[test]
fn role_resolves_from_scheme_and_keeps_alpha() {
    let stops = vec![roled("#000000", "mauve")];
    let scheme = vec![("mauve".to_string(), "ff8000".to_string())];
    let got = resolved(&stops, Some(&scheme));
    assert_eq!(got[0][0], 1.0);
    assert!((got[0][1] - 0.5019608).abs() < 1e-6);
    assert_eq!(got[0][2], 0.0);
    assert_eq!(got[0][3], 0.5, "alpha must come from the config, not the scheme");
}

/// Every one of these must land on the static hex rather than on a hole: a
/// machine with no scheme source, a stop with no role, a role the scheme does
/// not carry, and a value that will not parse
#[test]
fn every_miss_falls_back_to_static_hex() {
    let empty: Vec<(String, String)> = Vec::new();
    let junk = vec![("mauve".to_string(), "not-a-colour".to_string())];
    for scheme in [None, Some(&empty), Some(&junk)] {
        let got = resolved(&[roled("#00ff00", "mauve")], scheme);
        assert_eq!(got[0], [0.0, 1.0, 0.0, 0.5]);
    }
    // No role at all
    assert_eq!(resolved(&[stop("#0000ff")], Some(&junk))[0], [0.0, 0.0, 1.0, 1.0]);
}

#[test]
fn hex_accepts_both_spellings_and_rejects_junk() {
    let white = Some([1.0, 1.0, 1.0, 1.0]);
    assert_eq!(try_color_from_hex("#ffffff", single(1.0)).as_ref().map(rgba), white);
    assert_eq!(try_color_from_hex("ffffff", single(1.0)).as_ref().map(rgba), white);
    for bad in ["", "#fff", "#gggggg", "#12345", "#1234567"] {
        assert!(try_color_from_hex(bad, single(1.0)).is_none(), "{bad} should not parse");
    }
}

#[test]
fn a_colour_is_read_digit_by_digit() {
    let c = color_from_hex("#0aF19c", single(0.25));
    assert_eq!((c.red, c.green, c.blue), (0x0a, 0xf1, 0x9c));
    assert_eq!(c.alpha, single(0.25));
    let plain = array_from_config_color(&stop("010203"));
    assert_eq!((plain.red, plain.green, plain.blue, plain.alpha), (1, 2, 3, single(1.0)));
    // A hash twice over is no spelling, nor is a wide character
    assert!(try_color_from_hex("##ffffff", single(1.0)).is_none());
    assert!(try_color_from_hex("ffff\u{e9}", single(1.0)).is_none());
}

#[test]
fn the_first_stop_without_a_colour_is_told() {
    let stops = vec![stop("#112233"), roled("junk", "mauve"), stop("more junk")];
    assert_eq!(first_unreadable(&stops, None), Some(1));
    let scheme = vec![("mauve".to_string(), "ff8000".to_string())];
    assert_eq!(first_unreadable(&stops, Some(&scheme)), Some(2));
}

/// A one-colour `[colors]` must still give the shader two stops to mix
/// between, or its unconditional `size - 2` index goes negative
#[test]
fn a_lone_stop_is_uploaded_twice() {
    let buf = gradient_buffer(&quads(&[[0.25, 0.5, 0.75, 1.0]]));
    assert_eq!(&buf[0..4], &2i32.to_le_bytes(), "count reported to the shader");
    assert_eq!(buf.len(), 16 + 2 * 16);
    assert_eq!(&buf[16..32], &buf[32..48], "both stops identical");
    assert_eq!(uploaded_stops(1), 2);
    assert_eq!(uploaded_stops(8), 8);
}

#[test]
fn gradient_buffer_matches_std430_layout() {
    let buf = gradient_buffer(&quads(&[[1.0, 0.0, 0.0, 1.0], [0.0, 1.0, 0.0, 1.0]]));
    assert_eq!(&buf[0..4], &2i32.to_le_bytes());
    assert_eq!(&buf[4..16], &[0u8; 12], "vec4 alignment padding");
    assert_eq!(buf.len(), 16 + 2 * 16);
    assert_eq!(&buf[16..20], &1.0f32.to_le_bytes());
}

fn numbers(v: &toml::Value) -> Vec<Single> {
    v.as_array().unwrap().iter().map(|n| single(n.as_float().unwrap() as f32)).collect()
}

fn points(t: &toml::Table, name: &str) -> Option<Vec<Vec<Single>>> {
    t.get(name).map(|v| v.as_array().unwrap().iter().map(numbers).collect())
}

fn number(t: &toml::Table, name: &str) -> Option<Single> {
    t.get(name).map(|v| single(v.as_float().unwrap() as f32))
}

fn flag(t: &toml::Table, name: &str) -> Option<bool> {
    t.get(name).map(|v| v.as_bool().unwrap())
}

fn count(t: &toml::Table, name: &str) -> Option<u32> {
    t.get(name).map(|v| v.as_integer().unwrap() as u32)
}

fn curve(text: &str) -> CurveConfig {
    let all: toml::Table = toml::from_str(text).expect("the text parses");
    let t = all["abc"].as_table().unwrap();
    CurveConfig {
        points: points(t, "points"),
        height: number(t, "height"),
        width: number(t, "width"),
        flip: flag(t, "flip"),
        upright: flag(t, "upright"),
        path: t.get("path").map(|v| {
            v.as_array()
                .unwrap()
                .iter()
                .map(|p| {
                    let p = p.as_table().unwrap();
                    PathConfig {
                        points: points(p, "points").unwrap(),
                        bars: count(p, "bars"),
                        height: number(p, "height"),
                        width: number(p, "width"),
                        flip: flag(p, "flip"),
                        upright: flag(p, "upright"),
                    }
                })
                .collect()
        }),
        bars: count(t, "bars"),
        occlude: points(t, "occlude"),
        fit: None,
    }
}

/// Both spellings have to parse, and mean what they say: the shorthand is
/// what every existing config is written in, and dropping it would break
/// every curve anyone has already authored
#[test]
fn a_curve_reads_as_one_path_or_many() {
    let curve_1 = curve(
        r#"
        [abc]
        bars = 27
        height = 0.10
        upright = true
        points = [[0.1, 0.2], [0.3, 0.4]]
        "#,
    );
    let paths = curve_1.paths();
    assert_eq!(paths.len(), 1, "the top level is the one path");
    assert_eq!(paths[0].points.len(), 2);
    assert_eq!(paths[0].height, Some(single(0.10)));
    assert_eq!(paths[0].upright, Some(true));
    assert_eq!(curve_1.bars, Some(27));

    let curve_2 = curve(
        r#"
        [abc]
        bars = 40
        occlude = [[0.0, 0.5], [1.0, 0.5]]

        [[abc.path]]
        height = 0.20
        points = [[0.1, 0.2], [0.3, 0.4]]

        [[abc.path]]
        height = 0.05
        flip = true
        points = [[0.6, 0.3], [0.9, 0.3]]
        "#,
    );
    let paths = curve_2.paths();
    assert_eq!(paths.len(), 2);
    // Each path keeps its own geometry; the silhouette stays shared
    assert_eq!(paths[0].height, Some(single(0.20)));
    assert_eq!(paths[1].height, Some(single(0.05)));
    assert_eq!(paths[1].flip, Some(true));
    assert_eq!(paths[0].flip, None);
    assert_eq!(curve_2.occlude.as_ref().unwrap().len(), 2);
    assert!(curve_2.points.is_none(), "path blocks replace the shorthand");
}

#[test]
fn bars_are_counted_over_the_paths() {
    let text = |a: &str, b: &str, own: &str| {
        format!(
            "[abc]\n{own}\n[[abc.path]]\n{a}\npoints = [[0.1, 0.2]]\n[[abc.path]]\n{b}\npoints = []\n"
        )
    };
    assert_eq!(curve(&text("bars = 6", "bars = 7", "bars = 40")).total_bars(), Some(40));
    assert_eq!(curve(&text("bars = 6", "bars = 7", "")).total_bars(), Some(13));
    assert_eq!(curve(&text("bars = 6", "", "")).total_bars(), None);
    assert_eq!(curve(&text("bars = 0", "bars = 0", "")).total_bars(), None);
    assert_eq!(curve("[abc]\npoints = [[0.1, 0.2]]\n").total_bars(), None);
    // An empty list of paths falls back to the shorthand
    assert_eq!(curve("[abc]\npath = []\npoints = [[0.1, 0.2]]\n").paths()[0].points.len(), 1);
}

#[test]
fn counts_that_cannot_be_added_up_are_told() {
    let named = |n: Option<u32>| PathConfig {
        points: Vec::new(),
        bars: n,
        height: None,
        width: None,
        flip: None,
        upright: None,
    };
    let mut c = curve("[abc]\npoints = [[0.1, 0.2]]\n");
    assert!(c.adds_up());
    c.path = Some(vec![named(Some(u32::MAX)), named(Some(1))]);
    assert!(!c.adds_up());
    c.bars = Some(4);
    assert!(c.adds_up());
    c.bars = None;
    c.path = Some(vec![named(Some(u32::MAX)), named(None), named(Some(1))]);
    assert!(c.adds_up());
}

#[test]
fn defaults_are_the_plain_choices() {
    assert_eq!(Mode::default(), Mode::Bars);
    assert_eq!(FitMode::default(), FitMode::Cover);
    assert_eq!(CircleAnchor::default(), CircleAnchor::Center);
}

#[test]
fn saving_a_curve_keeps_a_mode_that_was_set() {
    let none = WallpaperConfig { mode: None, bars: None, circle: None, curve: None };
    let saved = none.with_curve(curve("[abc]\nbars = 3\n"));
    assert_eq!(saved.mode, Some(Mode::Curve));
    assert_eq!(saved.curve.as_ref().unwrap().bars, Some(3));
    let set = WallpaperConfig { mode: Some(Mode::Circle), bars: None, circle: None, curve: None };
    assert_eq!(set.with_curve(curve("[abc]\nbars = 3\n")).mode, Some(Mode::Circle));
}

#[test]
fn what_a_wallpaper_sets_wins_over_the_file() {
    let base = BarConfig {
        amount: 76,
        gap: single(0.1),
        max_height: Some(single(0.65)),
        opacity: None,
        matte: Some(single(0.2)),
    };
    let none =
        BarsOverride { amount: None, gap: None, max_height: None, opacity: None, matte: None };
    let told = |b: BarConfig| (b.amount, b.gap, b.max_height, b.opacity, b.matte);
    assert_eq!(told(none.apply(&base)), told(base));
    let some = BarsOverride { amount: Some(40), opacity: Some(single(0.5)), ..none };
    assert_eq!(
        told(some.apply(&base)),
        (40, single(0.1), Some(single(0.65)), Some(single(0.5)), Some(single(0.2)))
    );
    let rest = BarsOverride {
        gap: Some(single(0.3)),
        max_height: Some(single(1.0)),
        matte: Some(single(0.0)),
        ..none
    };
    assert_eq!(
        told(rest.apply(&base)),
        (76, single(0.3), Some(single(1.0)), None, Some(single(0.0)))
    );
}

#[test]
fn order_does_not_hang_on_the_listing() {
    let stop_list = |names: &[&str]| -> Vec<(String, ConfigColor)> {
        names.iter().enumerate().map(|(i, n)| (n.to_string(), stop(&format!("0000{:02x}", i)))).collect()
    };
    // By number, then by name; a name without a number comes last
    let blues: Vec<u8> = ordered_stops(&stop_list(&["b2", "plain", "a10", "a2"]))
        .iter()
        .map(|c| array_from_config_color(c).blue)
        .collect();
    let mut other = stop_list(&["b2", "plain", "a10", "a2"]);
    other.reverse();
    let again: Vec<u8> =
        ordered_stops(&other).iter().map(|c| array_from_config_color(c).blue).collect();
    assert_eq!(blues, again);
    assert_eq!(blues, vec![3, 0, 2, 1]);
}

#[test]
fn a_number_counts_only_at_the_end_of_a_name() {
    let colors = |names: &[(&str, &str)]| -> Vec<(String, ConfigColor)> {
        names.iter().map(|(n, hex)| (n.to_string(), stop(hex))).collect()
    };
    let reds = |names: &[(&str, &str)]| -> Vec<u8> {
        ordered_stops(&colors(names)).iter().map(|c| array_from_config_color(c).red).collect()
    };
    assert_eq!(reds(&[("a1x", "#010000"), ("c2", "#020000")]), vec![2, 1]);
    assert_eq!(reds(&[("z1", "#010000"), ("7", "#020000"), ("b", "#030000")]), vec![1, 2, 3]);
    // More digits than a number has room for count as none
    assert_eq!(reds(&[("a99999999999999999999", "#010000"), ("c2", "#020000")]), vec![2, 1]);
}

#[test]
fn stops_read_anew_are_shown_with_or_without_a_scheme() {
    let stops = vec![roled("#010203", "mauve"), stop("#040506")];
    let shown = |r: Reload| match r {
        Reload::Show(c) => c.iter().map(|c| (c.red, c.green, c.blue)).collect::<Vec<_>>(),
        other => panic!("nothing shown: {other:?}"),
    };
    let raw = r#"{"colours":{"mauve":"ff8000"}}"#;
    assert_eq!(shown(reread_colors(&stops, Some(raw))), vec![(255, 128, 0), (4, 5, 6)]);
    assert_eq!(shown(reread_colors(&stops, Some("{"))), vec![(1, 2, 3), (4, 5, 6)]);
    assert_eq!(shown(reread_colors(&stops, None)), vec![(1, 2, 3), (4, 5, 6)]);
    assert!(matches!(reread_colors(&[], Some(raw)), Reload::Keep));
    let bad = vec![stop("#040506"), roled("?", "teal"), stop("?")];
    assert!(matches!(reread_colors(&bad, Some(raw)), Reload::Unreadable(1)));
}

#[test]
fn a_reload_shows_the_scheme_or_keeps_what_is_shown() {
    let stops = vec![roled("#010203", "mauve"), stop("#040506")];
    let shown = |r: Reload| match r {
        Reload::Show(c) => c.iter().map(|c| (c.red, c.green, c.blue)).collect::<Vec<_>>(),
        _ => panic!("nothing shown"),
    };
    let raw = r##"{"colours":{"mauve":"ff8000","count":3}}"##;
    assert_eq!(shown(reload_colors(&stops, Some(raw))), vec![(255, 128, 0), (4, 5, 6)]);
    assert_eq!(
        shown(reload_colors(&stops, Some(r#"{"colours":{}}"#))),
        vec![(1, 2, 3), (4, 5, 6)]
    );
    assert!(matches!(reload_colors(&stops, None), Reload::Keep));
    assert!(matches!(reload_colors(&stops, Some(r#"{"colours":{"mau"#)), Reload::Keep));
    let bad = vec![stop("#040506"), roled("?", "teal")];
    assert!(matches!(reload_colors(&bad, Some(raw)), Reload::Unreadable(1)));
}
