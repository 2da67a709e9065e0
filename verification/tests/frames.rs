use cavawall::app_config::Mode;
use cavawall::frame::{
    after_read, backlog, fans, restart, tick, AfterRead, Backlog, Configured, External, Followed,
    Frames, Program, Read, Tick, MAX_SKIPPED, SILENT_GRACE_FRAMES,
};
use cavawall::render::Rect;
use cavawall::scheme::Changed;

const QUIET: [u8; 4] = [0; 4];
const LOUD: [u8; 4] = [0, 0, 0xff, 0xff];

fn running() -> Frames {
    Frames { idle: false, silent_frames: 0, force_full_damage: false }
}

#[test]
fn silence_parks_after_its_grace_and_sound_wakes() {
    let mut f = running();
    for i in 0..SILENT_GRACE_FRAMES {
        assert!(f.heard(&QUIET), "frame {i}");
    }
    assert!(!f.idle);
    assert!(!f.heard(&QUIET));
    assert!(f.idle);
    assert!(!f.woken(&QUIET));
    assert!(f.idle);
    assert!(f.woken(&LOUD));
    assert_eq!(f, Frames { idle: false, silent_frames: 0, force_full_damage: true });
    f.silent_frames = 20;
    assert!(f.heard(&LOUD));
    assert_eq!(f.silent_frames, 0);
    f.silent_frames = u32::MAX;
    assert!(!f.heard(&QUIET));
    assert_eq!(f.silent_frames, u32::MAX);
}

#[test]
fn a_frame_declares_damage_only_for_a_row_of_bars() {
    let part = || vec![Rect { x: 1, y: 2, width: 3, height: 4 }];
    let whole = vec![Rect { x: 0, y: 0, width: 1920, height: 703 }];
    let mut f = running();
    assert_eq!(f.present(true, Mode::Bars, part(), 1920, 703), part());
    assert_eq!(f.present(false, Mode::Bars, part(), 1920, 703), whole);
    assert_eq!(f.present(true, Mode::Circle, part(), 1920, 703), whole);
    assert_eq!(f.present(true, Mode::Curve, part(), 1920, 703), whole);
    f.repaint();
    assert!(!f.damaged(true, Mode::Bars));
    assert_eq!(f.present(true, Mode::Bars, part(), 1920, 703), whole);
    assert!(f.damaged(true, Mode::Bars));
    assert_eq!(f.present(true, Mode::Bars, vec![], 1920, 703), vec![]);
}

#[test]
fn a_fresh_surface_is_neither_parked_nor_drawn_early() {
    let mut f = Frames { idle: true, silent_frames: 99, force_full_damage: false };
    f.placed();
    assert_eq!(f, running());
    assert_eq!(f.configure(false, Mode::Bars, false, true), None);
    assert_eq!(f, running());
    assert_eq!(
        f.configure(true, Mode::Curve, true, false),
        Some(Configured { upload_curve: true, map_output: true, scale_gradient: false, draw: false })
    );
    assert!(f.force_full_damage);
    assert_eq!(
        f.configure(true, Mode::Bars, true, true),
        Some(Configured { upload_curve: false, map_output: false, scale_gradient: true, draw: true })
    );
    assert_eq!(
        f.configure(true, Mode::Circle, false, true),
        Some(Configured {
            upload_curve: false,
            map_output: false,
            scale_gradient: false,
            draw: true
        })
    );
}

#[test]
fn a_read_ends_as_it_should() {
    assert_eq!(after_read(Read::Frame, false), AfterRead::Go);
    assert_eq!(after_read(Read::Interrupted, false), AfterRead::Skip);
    assert_eq!(after_read(Read::Ended, false), AfterRead::SourceGone);
    assert_eq!(after_read(Read::Failed, false), AfterRead::GiveUp);
    for read in [Read::Frame, Read::Interrupted, Read::Ended, Read::Failed] {
        assert_eq!(after_read(read, true), AfterRead::Exit);
    }
    assert_eq!(backlog(0, 24, 24), Backlog::Ready);
    assert_eq!(backlog(0, 23, 24), Backlog::Ask);
    assert_eq!(backlog(MAX_SKIPPED - 1, 24, 24), Backlog::Ready);
    assert_eq!(backlog(MAX_SKIPPED, 24, 24), Backlog::Enough);
    assert_eq!(tick(true, false), Tick::Exit);
    assert_eq!(tick(false, false), Tick::Wait);
    assert_eq!(tick(false, true), Tick::Look);
}

fn followed(key: Option<&str>) -> Followed {
    Followed {
        bar_count: 40,
        curve_key: key.map(|k| k.to_string()),
        curve_keys: vec!["ridge".to_string(), "dune".to_string()],
    }
}

fn changed(scheme: bool, shell: bool, wallpaper: bool) -> Changed {
    Changed { scheme, shell, wallpaper }
}

fn calls(bars: bool, wallpaper: bool, colors: bool) -> External {
    External { restart_for_bars: bars, restart_for_wallpaper: wallpaper, reload_colors: colors }
}

#[test]
fn only_a_new_count_restarts_for_bars() {
    let mut f = followed(None);
    assert_eq!(f.poll_external(true, changed(true, true, false), Some(41), None), calls(true, false, true));
    assert_eq!(f.poll_external(true, changed(false, true, false), Some(40), None), calls(false, false, false));
    assert_eq!(f.poll_external(true, changed(false, true, false), None, None), calls(false, false, false));
    assert_eq!(f.poll_external(true, changed(false, false, false), Some(41), None), calls(false, false, false));
    assert_eq!(f.poll_external(false, changed(true, true, true), Some(41), None), calls(false, false, false));
}

#[test]
fn a_wallpaper_without_a_curve_restarts_nothing() {
    let key = |k: &str| Some(k.to_string());
    let now = changed(false, false, true);
    let mut f = followed(Some("lake"));
    assert!(!f.poll_external(true, now, None, key("sea")).restart_for_wallpaper);
    assert_eq!(f.curve_key.as_deref(), Some("sea"));
    assert!(!f.poll_external(true, now, None, None).restart_for_wallpaper);
    assert!(f.poll_external(true, now, None, key("dune")).restart_for_wallpaper);
    assert!(!f.poll_external(true, now, None, key("dune")).restart_for_wallpaper);
    assert!(f.poll_external(true, now, None, key("ridge")).restart_for_wallpaper);
    assert!(f.poll_external(true, now, None, None).restart_for_wallpaper);
    // Nothing on screen: the change waits
    assert!(!f.poll_external(false, now, None, key("dune")).restart_for_wallpaper);
    assert_eq!(f.curve_key, None);
}

#[test]
fn outlines_share_one_list() {
    assert_eq!(fans(&[4, 0, 3]), vec![(0, 4), (4, 0), (4, 3)]);
    assert!(fans(&[]).is_empty());
    let huge = i32::MAX as usize + 1;
    assert_eq!(fans(&[huge, 2]), vec![(0, 0), (0, 2)]);
}

fn program(path: &str, exists: bool) -> Option<Program> {
    Some(Program { path: path.as_bytes().to_vec(), exists })
}

#[test]
fn starting_over_takes_a_program_that_is_there() {
    let args = || vec![b"cavawall".to_vec(), b"a\0b".to_vec(), b"x".to_vec()];
    let kept = vec![b"cavawall".to_vec(), b"x".to_vec()];
    let run = |a, b| restart(a, b, args());
    assert_eq!(
        run(program("/bin/c", true), program("/proc/c", true)),
        Some((b"/bin/c".to_vec(), kept.clone()))
    );
    assert_eq!(
        run(program("/bin/c", false), program("/proc/c", true)),
        Some((b"/proc/c".to_vec(), kept.clone()))
    );
    assert_eq!(
        run(program("c", true), program("/proc/c", true)),
        Some((b"/proc/c".to_vec(), kept.clone()))
    );
    assert_eq!(run(program("c", true), program("/proc/c", false)), None);
    assert_eq!(run(None, None), None);
    assert_eq!(run(program("/bin\0/c", true), None), None);
}
