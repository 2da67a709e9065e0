use cavawall::scheme::{
    bar_count, colours, scheme_dir, shell_dir, wallpaper_dir, Changed, Environment, Services,
    Shell, ShellDirs, Watch,
};
use cavawall::single::Single;

fn env(home: Option<&str>, state: Option<&str>, config: Option<&str>) -> Environment {
    let bytes = |s: Option<&str>| s.map(|s| s.as_bytes().to_vec());
    Environment {
        home: bytes(home),
        state_home: bytes(state),
        config_home: bytes(config),
        runtime_dir: None,
    }
}

#[test]
fn directories_follow_the_environment() {
    let e = env(Some("/home/u"), None, None);
    assert_eq!(scheme_dir(&e), b"/home/u/.local/state/caelestia".to_vec());
    assert_eq!(wallpaper_dir(&e), b"/home/u/.local/state/caelestia/wallpaper".to_vec());
    assert_eq!(shell_dir(&e), b"/home/u/.config/caelestia".to_vec());
    let e = env(Some("/home/u"), Some("/s"), Some("/c/"));
    assert_eq!(scheme_dir(&e), b"/s/caelestia".to_vec());
    assert_eq!(wallpaper_dir(&e), [scheme_dir(&e), b"/wallpaper".to_vec()].concat());
    assert_eq!(shell_dir(&e), b"/c/caelestia".to_vec());
    let e = env(None, None, None);
    assert_eq!(scheme_dir(&e), b"/root/.local/state/caelestia".to_vec());
}

#[test]
fn a_directory_is_resolved_once_and_kept() {
    let (first, later) = (env(Some("/a"), None, None), env(Some("/b"), Some("/s"), Some("/c")));
    let mut dirs = ShellDirs::new();
    assert_eq!(dirs.scheme_dir(&first), scheme_dir(&first));
    assert_eq!(dirs.scheme_dir(&later), b"/a/.local/state/caelestia".to_vec());
    // Each by the environment of its own first call
    assert_eq!(dirs.shell_dir(&later), b"/c/caelestia".to_vec());
    assert_eq!(dirs.shell_dir(&first), b"/c/caelestia".to_vec());
    assert_eq!(dirs.wallpaper_dir(&later), b"/s/caelestia/wallpaper".to_vec());
    assert_eq!(dirs.wallpaper_dir(&first), b"/s/caelestia/wallpaper".to_vec());
}

fn pair(k: &str, v: &str) -> (String, String) {
    (k.to_string(), v.to_string())
}

#[test]
fn colours_are_the_text_members() {
    let raw = r##"{"name":"x","colours":{"a":"ff8000","n":3,"o":{"b":"1"},"z":"A\""}}"##;
    assert_eq!(colours(raw), Some(vec![pair("a", "ff8000"), pair("z", "A\"")]));
    assert_eq!(colours(r#"{"colours":{}}"#), Some(vec![]));
    for none in ["", "[]", "3", "\"colours\"", "{}", r#"{"colours":3}"#, r#"{"colours":[]}"#, "{"] {
        assert_eq!(colours(none), None, "{none}");
    }
}

#[test]
fn a_bar_count_is_clamped_where_there_is_one() {
    let asks = |n: Option<u64>| bar_count(Some(Shell { services: Services { visualiser_bars: n } }));
    assert_eq!(asks(Some(40)), Some(40));
    assert_eq!(asks(Some(0)), Some(1), "clamped");
    assert_eq!(asks(Some(1)), Some(1));
    assert_eq!(asks(Some(512)), Some(512));
    assert_eq!(asks(Some(513)), Some(512), "clamped");
    assert_eq!(asks(Some(u64::MAX)), Some(512));
    assert_eq!(asks(None), None);
    assert_eq!(bar_count(Some(Shell { services: Services::default() })), None);
    assert_eq!(bar_count(None), None);
}

fn record(wd: i32, name: &str, pad: usize) -> Vec<u8> {
    let mut b = wd.to_le_bytes().to_vec();
    b.extend_from_slice(&[9; 8]);
    b.extend_from_slice(&((name.len() + pad) as u32).to_le_bytes());
    b.extend_from_slice(name.as_bytes());
    b.extend(std::iter::repeat(0u8).take(pad));
    b
}

fn changed(scheme: bool, shell: bool, wallpaper: bool) -> Changed {
    Changed { scheme, shell, wallpaper }
}

#[test]
fn a_watch_needs_something_to_follow() {
    assert_eq!(Watch::new(None, None, None, false), None);
    assert_eq!(Watch::new(Some(-1), None, Some(-7), false), None);
    let w = Watch::new(Some(-1), Some(4), None, false).unwrap();
    assert_eq!((w.scheme_wd, w.shell_wd, w.wallpaper_wd), (-1, 4, -1));
}

#[test]
fn events_tell_which_files_changed() {
    let w = Watch::new(Some(1), Some(2), Some(3), false).unwrap();
    assert_eq!(w.take(&[]), changed(false, false, false));
    let mut b = record(1, "scheme.json", 5);
    assert_eq!(w.take(&b), changed(true, false, false));
    b.extend(record(3, "path.txt", 8));
    b.extend(record(1, "scheme.json", 5));
    assert_eq!(w.take(&b), changed(true, false, true));
    b.extend(record(2, "shell.json", 0));
    assert_eq!(w.take(&b), changed(true, true, true));
    // An event without a name, and a name that is longer
    assert_eq!(w.take(&record(1, "", 0)), changed(false, false, false));
    assert_eq!(w.take(&record(1, "scheme.json.tmp", 1)), changed(false, false, false));
    // A record that was cut short counts for what is there of it
    let cut = record(1, "scheme.json", 5);
    assert_eq!(w.take(&cut[..20]), changed(false, false, false));
    assert_eq!(w.take(&cut[..27]), changed(true, false, false));
    assert_eq!(w.take(&cut[..15]), changed(false, false, false));
}

#[test]
fn a_stray_name_under_another_directory_does_not_count() {
    let w = Watch::new(Some(1), Some(2), None, false).unwrap();
    assert_eq!(w.take(&record(1, "shell.json", 6)), changed(false, false, false));
    assert_eq!(w.take(&record(2, "scheme.json", 5)), changed(false, false, false));
    assert_eq!(w.take(&record(2, "path.txt", 8)), changed(false, false, false));
}

#[test]
fn header_fields_are_read_in_either_order() {
    let w = Watch::new(Some(1), None, None, true).unwrap();
    let mut b = 1i32.to_be_bytes().to_vec();
    b.extend_from_slice(&[0; 8]);
    b.extend_from_slice(&16u32.to_be_bytes());
    b.extend_from_slice(b"scheme.json\0\0\0\0\0");
    assert_eq!(w.take(&b), changed(true, false, false));
    assert_eq!(w.take(&record(1, "scheme.json", 5)), changed(false, false, false));
}

#[test]
fn draining_in_two_reads_says_what_one_read_says() {
    let w = Watch::new(Some(1), Some(2), Some(3), false).unwrap();
    let (a, b) = (record(1, "scheme.json", 5), record(2, "shell.json", 6));
    let both = [a.clone(), b.clone()].concat();
    assert_eq!(w.take(&a).or(w.take(&b)), w.take(&both));
    assert_eq!(Changed::default(), changed(false, false, false));
}

#[test]
fn numbers_compare_by_value_and_clamp() {
    let s = |x: f32| Single { bits: x.to_bits() };
    assert!(s(-2.0).lt(s(-1.0)) && s(-1.0).lt(s(0.0)) && s(0.5).lt(s(1.0)));
    assert!(!s(0.0).lt(s(-0.0)) && !s(-0.0).lt(s(0.0)));
    assert!(!s(f32::NAN).lt(s(1.0)) && !s(1.0).lt(s(f32::NAN)));
    assert!(s(f32::NEG_INFINITY).lt(s(f32::MIN)) && s(f32::MAX).lt(s(f32::INFINITY)));
    assert!(s(-0.0).order() < s(0.0).order());
    assert!(s(f32::INFINITY).order() < s(f32::NAN).order());
    assert_eq!(s(2.0).clamp_to(s(0.0), s(1.0)), s(1.0));
    assert_eq!(s(-2.0).clamp_to(s(0.0), s(1.0)), s(0.0));
    assert_eq!(s(0.25).clamp_to(s(0.0), s(1.0)), s(0.25));
    assert_eq!(s(f32::NAN).floor_at_zero(), s(0.0));
    assert_eq!(s(3.5).floor_at_zero(), s(3.5));
}
