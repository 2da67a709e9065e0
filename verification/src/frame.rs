//! The frame loop: when to draw, when to park, when to start over.
//!
//! Reading, drawing and committing are the caller's. What comes back from
//! them is handed in here, and what to do next comes out.
use crate::app_config::Mode;
use crate::placement::{as_signed, signed_pixels};
use crate::render::{sample, Rect};
use crate::scheme::copy_bytes;
use crate::text::{same, text_view};
use crate::watch::Changed;
use vstd::prelude::*;

verus! {

/// A raw sample at or below this counts as silence: 0.005 of full scale.
pub const SILENCE_RAW: u16 = 327;

/// Frames of continuous silence before parking.
pub const SILENT_GRACE_FRAMES: u32 = 23;

/// Stale frames dropped in one go, at most.
pub const MAX_SKIPPED: u32 = 512;

/// Every sample of the frame is silence. An odd byte at the end is no sample.
pub open spec fn silent(frame: Seq<u8>) -> bool {
    forall|i: int| 0 <= i < frame.len() as int / 2 ==> #[trigger] sample(frame, i) <= SILENCE_RAW
}

/// Whether a raw frame is silence.
pub fn is_silent(frame: &[u8]) -> (r: bool)
    ensures
        r == silent(frame@),
{
    for i in 0..frame.len() / 2
        invariant
            frame@.len() <= usize::MAX,
            forall|j: int| 0 <= j < i ==> #[trigger] sample(frame@, j) <= SILENCE_RAW,
    {
        let s: u16 = frame[2 * i] as u16 + 256 * frame[2 * i + 1] as u16;
        assert(s == sample(frame@, i as int));
        if s > SILENCE_RAW {
            return false;
        }
    }
    true
}

/// What the loop remembers from one frame to the next.
#[derive(Clone, Copy, Debug, PartialEq, Eq, Structural)]
pub struct Frames {
    /// Parked: silent, committing nothing, waiting for audio.
    pub idle: bool,
    /// Silent frames in a row.
    pub silent_frames: u32,
    /// The next frame is to declare all of the surface.
    pub force_full_damage: bool,
}

/// The count of silent frames in a row after one more frame.
pub open spec fn counted(count: u32, frame: Seq<u8>) -> u32 {
    if !silent(frame) {
        0
    } else if count == u32::MAX {
        u32::MAX
    } else {
        (count + 1) as u32
    }
}

/// `f` on a fresh surface.
pub open spec fn placed_anew(f: Frames) -> Frames {
    Frames { idle: false, silent_frames: 0, force_full_damage: f.force_full_damage }
}

/// `f` with a whole frame due.
pub open spec fn repainted(f: Frames) -> Frames {
    Frames { idle: f.idle, silent_frames: f.silent_frames, force_full_damage: true }
}

/// `f` with a frame presented.
pub open spec fn presented(f: Frames) -> Frames {
    Frames { idle: f.idle, silent_frames: f.silent_frames, force_full_damage: false }
}

/// What a frame read while running makes of `f`, and whether it is drawn.
pub open spec fn heard_in(f: Frames, frame: Seq<u8>) -> (Frames, bool) {
    let count = counted(f.silent_frames, frame);
    let draw = count <= SILENT_GRACE_FRAMES;
    (
        Frames {
            idle: f.idle || !draw,
            silent_frames: count,
            force_full_damage: f.force_full_damage,
        },
        draw,
    )
}

/// What a frame read while parked makes of `f`, and whether it wakes the loop.
pub open spec fn woken_in(f: Frames, frame: Seq<u8>) -> (Frames, bool) {
    if silent(frame) {
        (f, false)
    } else {
        (Frames { idle: false, silent_frames: 0, force_full_damage: true }, true)
    }
}

impl Frames {
    /// A frame has been read while running. Parks after too much silence.
    ///
    /// Gives whether to draw it.
    pub fn heard(&mut self, frame: &[u8]) -> (draw: bool)
        ensures
            (*final(self), draw) == heard_in(*old(self), frame@),
    {
        if is_silent(frame) {
            self.silent_frames = self.silent_frames.saturating_add(1);
        } else {
            self.silent_frames = 0;
        }
        if self.silent_frames > SILENT_GRACE_FRAMES {
            self.idle = true;
            return false;
        }
        true
    }

    /// A frame has been read while parked. Unparks where it is not silence.
    ///
    /// Gives whether to restart the loop, with a whole frame to declare.
    pub fn woken(&mut self, frame: &[u8]) -> (wake: bool)
        ensures
            (*final(self), wake) == woken_in(*old(self), frame@),
    {
        if is_silent(frame) {
            return false;
        }
        self.idle = false;
        self.silent_frames = 0;
        self.force_full_damage = true;
        true
    }

    /// A fresh surface has been placed: nothing about it is parked.
    pub fn placed(&mut self)
        ensures
            *final(self) == placed_anew(*old(self)),
    {
        self.idle = false;
        self.silent_frames = 0;
    }

    /// Everything on the surface changed for a reason bar heights do not show.
    pub fn repaint(&mut self)
        ensures
            *final(self) == repainted(*old(self)),
    {
        self.force_full_damage = true;
    }

    /// What a frame declares: the damage that `rects` holds, where the driver
    /// takes damage, bars stand in a row and nothing forces a whole frame;
    /// else all of the surface.
    pub fn present(
        &mut self,
        takes_damage: bool,
        mode: Mode,
        rects: Vec<Rect>,
        width: u32,
        height: u32,
    ) -> (out: Vec<Rect>)
        ensures
            *final(self) == presented(*old(self)),
            out@ == declared(*old(self), takes_damage, mode, rects@, width, height),
    {
        let part = self.damaged(takes_damage, mode);
        self.force_full_damage = false;
        if part {
            rects
        } else {
            let mut out: Vec<Rect> = Vec::new();
            out.push(
                Rect {
                    x: 0,
                    y: 0,
                    width: signed_pixels(width) as i32,
                    height: signed_pixels(height) as i32,
                },
            );
            assert(out@ =~= seq![whole(width, height)]);
            out
        }
    }

    /// Whether the next frame declares damage rather than all of the surface.
    pub fn damaged(&self, takes_damage: bool, mode: Mode) -> (r: bool)
        ensures
            r == declares_damage(*self, takes_damage, mode),
    {
        takes_damage && !self.force_full_damage && mode == Mode::Bars
    }
}

/// The next frame declares what moved rather than all of the surface.
pub open spec fn declares_damage(f: Frames, takes_damage: bool, mode: Mode) -> bool {
    takes_damage && !f.force_full_damage && mode == Mode::Bars
}

/// What the next frame declares.
pub open spec fn declared(
    f: Frames,
    takes_damage: bool,
    mode: Mode,
    rects: Seq<Rect>,
    width: u32,
    height: u32,
) -> Seq<Rect> {
    if declares_damage(f, takes_damage, mode) {
        rects
    } else {
        seq![whole(width, height)]
    }
}

/// All of a surface.
pub open spec fn whole(width: u32, height: u32) -> Rect {
    Rect { x: 0, y: 0, width: as_signed(width), height: as_signed(height) }
}

/// How reading a frame ended.
#[derive(Clone, Copy, Debug, PartialEq, Eq, Structural)]
pub enum Read {
    Frame,
    /// A signal came in between.
    Interrupted,
    /// The other end is gone.
    Ended,
    Failed,
}

/// What to do after a read.
#[derive(Clone, Copy, Debug, PartialEq, Eq, Structural)]
pub enum AfterRead {
    /// Go on with the frame.
    Go,
    /// Leave this frame out.
    Skip,
    /// Clear the surface and exit.
    Exit,
    /// As `Exit`, saying that the audio source is gone.
    SourceGone,
    /// Give up at once.
    GiveUp,
}

/// What to do after a read. A request to exit is honoured first.
pub open spec fn step_after(read: Read, exiting: bool) -> AfterRead {
    if exiting {
        AfterRead::Exit
    } else {
        match read {
            Read::Frame => AfterRead::Go,
            Read::Interrupted => AfterRead::Skip,
            Read::Ended => AfterRead::SourceGone,
            Read::Failed => AfterRead::GiveUp,
        }
    }
}

/// What to do after a read.
pub fn after_read(read: Read, exiting: bool) -> (r: AfterRead)
    ensures
        r == step_after(read, exiting),
{
    if exiting {
        return AfterRead::Exit;
    }
    match read {
        Read::Frame => AfterRead::Go,
        Read::Interrupted => AfterRead::Skip,
        Read::Ended => AfterRead::SourceGone,
        Read::Failed => AfterRead::GiveUp,
    }
}

/// How to find out whether a newer frame is waiting.
#[derive(Clone, Copy, Debug, PartialEq, Eq, Structural)]
pub enum Backlog {
    /// Enough has been dropped: draw what there is.
    Enough,
    /// A whole frame is buffered already.
    Ready,
    /// Ask the pipe.
    Ask,
}

/// How to find out whether a newer frame is waiting after `skipped` were
/// dropped. What is buffered is invisible to the pipe, so it counts first.
pub open spec fn waiting(skipped: u32, buffered: usize, frame_len: usize) -> Backlog {
    if skipped >= MAX_SKIPPED {
        Backlog::Enough
    } else if buffered >= frame_len {
        Backlog::Ready
    } else {
        Backlog::Ask
    }
}

/// How to find out whether a newer frame is waiting.
pub fn backlog(skipped: u32, buffered: usize, frame_len: usize) -> (r: Backlog)
    ensures
        r == waiting(skipped, buffered, frame_len),
{
    if skipped >= MAX_SKIPPED {
        Backlog::Enough
    } else if buffered >= frame_len {
        Backlog::Ready
    } else {
        Backlog::Ask
    }
}

/// What the timer's tick does.
#[derive(Clone, Copy, Debug, PartialEq, Eq, Structural)]
pub enum Tick {
    /// Clear the surface and exit.
    Exit,
    /// Nothing is on screen: do nothing.
    Wait,
    /// Look for outside changes, then listen for audio where parked.
    Look,
}

/// What the timer's tick does.
pub open spec fn ticked(exiting: bool, placed: bool) -> Tick {
    if exiting {
        Tick::Exit
    } else if !placed {
        Tick::Wait
    } else {
        Tick::Look
    }
}

/// What the timer's tick does.
pub fn tick(exiting: bool, placed: bool) -> (r: Tick)
    ensures
        r == ticked(exiting, placed),
{
    if exiting {
        Tick::Exit
    } else if !placed {
        Tick::Wait
    } else {
        Tick::Look
    }
}

/// What running was started for: the bar count, the wallpaper's key, and the
/// keys that have a curve.
#[derive(Debug)]
pub struct Followed {
    pub bar_count: u32,
    pub curve_key: Option<String>,
    pub curve_keys: Vec<String>,
}

/// What outside changes call for, in this order.
#[derive(Clone, Copy, Debug, PartialEq, Eq, Structural)]
pub struct External {
    /// Start over for a new bar count.
    pub restart_for_bars: bool,
    /// Start over for a new wallpaper.
    pub restart_for_wallpaper: bool,
    /// Resolve the palette again.
    pub reload_colors: bool,
}

/// `keys` holds `key`.
pub open spec fn has_key(keys: Seq<String>, key: Option<Seq<char>>) -> bool {
    key is Some && exists|i: int| 0 <= i < keys.len() && (#[trigger] keys[i])@ == key->0
}

/// A wallpaper change from the key `was` to `now` is worth starting over for:
/// the two differ and one of them has a curve.
pub open spec fn redraws(
    keys: Seq<String>,
    was: Option<Seq<char>>,
    now: Option<Seq<char>>,
) -> bool {
    was != now && (has_key(keys, was) || has_key(keys, now))
}

/// What the changes call for.
pub open spec fn external(
    f: Followed,
    placed: bool,
    changed: Changed,
    shell_bars: Option<u32>,
    key: Option<Seq<char>>,
) -> External {
    External {
        restart_for_bars: placed && changed.shell && shell_bars is Some && shell_bars->0
            != f.bar_count,
        restart_for_wallpaper: placed && changed.wallpaper && redraws(
            f.curve_keys@,
            text_view(f.curve_key),
            key,
        ),
        reload_colors: placed && changed.scheme,
    }
}

/// The wallpaper's key once changes have been acted on.
pub open spec fn key_after(
    f: Followed,
    placed: bool,
    changed: Changed,
    key: Option<Seq<char>>,
) -> Option<Seq<char>> {
    if placed && changed.wallpaper {
        key
    } else {
        text_view(f.curve_key)
    }
}

fn key_in(keys: &[String], key: &Option<String>) -> (r: bool)
    ensures
        r == has_key(keys@, text_view(*key)),
{
    if let Some(k) = key {
        for i in 0..keys.len()
            invariant
                text_view(*key) == Some(k@),
                forall|j: int| 0 <= j < i ==> (#[trigger] keys@[j])@ != k@,
        {
            if same(keys[i].as_str(), k.as_str()) {
                return true;
            }
        }
    }
    false
}

fn same_key(a: &Option<String>, b: &Option<String>) -> (r: bool)
    ensures
        r == (text_view(*a) == text_view(*b)),
{
    match (a, b) {
        (Some(x), Some(y)) => same(x.as_str(), y.as_str()),
        (None, None) => true,
        _ => false,
    }
}

impl Followed {
    /// Acts on what changed outside. `shell_bars` is the shell's bar count and
    /// `key` the current wallpaper's key, each read where its file changed.
    ///
    /// A change that comes while nothing is placed is left alone.
    pub fn poll_external(
        &mut self,
        placed: bool,
        changed: Changed,
        shell_bars: Option<u32>,
        key: Option<String>,
    ) -> (r: External)
        ensures
            r == external(*old(self), placed, changed, shell_bars, text_view(key)),
            final(self).bar_count == old(self).bar_count,
            final(self).curve_keys@ == old(self).curve_keys@,
            text_view(final(self).curve_key) == key_after(
                *old(self),
                placed,
                changed,
                text_view(key),
            ),
    {
        let mut r = External {
            restart_for_bars: false,
            restart_for_wallpaper: false,
            reload_colors: false,
        };
        if !placed {
            return r;
        }
        if changed.shell {
            if let Some(n) = shell_bars {
                r.restart_for_bars = n != self.bar_count;
            }
        }
        if changed.wallpaper {
            let drawn = key_in(self.curve_keys.as_slice(), &self.curve_key);
            let wanted = key_in(self.curve_keys.as_slice(), &key);
            r.restart_for_wallpaper = !same_key(&self.curve_key, &key) && (drawn || wanted);
            self.curve_key = key;
        }
        r.reload_colors = changed.scheme;
        r
    }
}

/// What a configured surface needs before it is drawn.
#[derive(Clone, Copy, Debug, PartialEq, Eq, Structural)]
pub struct Configured {
    /// Upload the curve's bars and silhouettes.
    pub upload_curve: bool,
    /// Set up how the output maps into the surface.
    pub map_output: bool,
    /// Set up the gradient's scale.
    pub scale_gradient: bool,
    /// Draw at once.
    pub draw: bool,
}

/// What a configured surface needs; `None` for a surface that has been
/// replaced.
pub open spec fn configured_as(
    ours: bool,
    mode: Mode,
    has_curve: bool,
    placed: bool,
) -> Option<Configured> {
    if ours {
        Some(
            Configured {
                upload_curve: mode == Mode::Curve && has_curve,
                map_output: mode == Mode::Curve,
                scale_gradient: mode == Mode::Bars,
                draw: placed,
            },
        )
    } else {
        None
    }
}

impl Frames {
    /// The compositor has given the surface a size. A configure for a surface
    /// that has been replaced meanwhile is ignored.
    ///
    /// Nothing is drawn before an output has been chosen: drawing is what puts
    /// a surface on screen.
    pub fn configure(
        &mut self,
        ours: bool,
        mode: Mode,
        has_curve: bool,
        placed: bool,
    ) -> (r: Option<Configured>)
        ensures
            r == configured_as(ours, mode, has_curve, placed),
            *final(self) == if ours {
                repainted(*old(self))
            } else {
                *old(self)
            },
    {
        if !ours {
            return None;
        }
        self.force_full_damage = true;
        Some(
            Configured {
                upload_curve: mode == Mode::Curve && has_curve,
                map_output: mode == Mode::Curve,
                scale_gradient: mode == Mode::Bars,
                draw: placed,
            },
        )
    }
}

/// The sum of the first `n` lengths.
pub open spec fn sum_to(lengths: Seq<usize>, n: int) -> int
    decreases n,
{
    if n <= 0 {
        0
    } else {
        sum_to(lengths, n - 1) + lengths[n - 1]
    }
}

/// A count in 32 bits with a sign, or zero where it does not fit.
pub open spec fn fitted(n: int) -> int {
    if n <= i32::MAX {
        n
    } else {
        0
    }
}

fn fit(n: usize) -> (r: i32)
    ensures
        r == fitted(n as int),
{
    if n <= 0x7fff_ffff {
        n as i32
    } else {
        0
    }
}

/// Where each outline starts in the one list that holds them all, and how
/// many points it has.
pub fn fans(lengths: &[usize]) -> (out: Vec<(i32, i32)>)
    requires
        forall|n: int|
            0 <= n <= lengths@.len() ==> #[trigger] sum_to(lengths@, n) <= usize::MAX,
    ensures
        out@.len() == lengths@.len(),
        forall|i: int|
            0 <= i < lengths@.len() ==> (#[trigger] out@[i]).0 == fitted(sum_to(lengths@, i))
                && out@[i].1 == fitted(lengths@[i] as int),
{
    let mut out: Vec<(i32, i32)> = Vec::new();
    let mut first: usize = 0;
    for i in 0..lengths.len()
        invariant
            forall|n: int|
                0 <= n <= lengths@.len() ==> #[trigger] sum_to(lengths@, n) <= usize::MAX,
            first == sum_to(lengths@, i as int),
            out@.len() == i,
            forall|j: int|
                0 <= j < i ==> (#[trigger] out@[j]).0 == fitted(sum_to(lengths@, j)) && out@[j].1
                    == fitted(lengths@[j] as int),
    {
        out.push((fit(first), fit(lengths[i])));
        assert(sum_to(lengths@, i + 1) <= usize::MAX);
        first = first + lengths[i];
    }
    out
}

/// The path of an executable, and whether there is a file at it.
#[derive(Debug)]
pub struct Program {
    pub path: Vec<u8>,
    pub exists: bool,
}

/// A program to start over as: the name this one was started by, where that is
/// an absolute path to a file, else the running executable, where it still is
/// one.
pub open spec fn restart_program(argv0: Option<Program>, running: Option<Program>) -> Option<
    Seq<u8>,
> {
    if argv0 is Some && argv0->0.path@.len() > 0 && argv0->0.path@[0] == 0x2f && argv0->0.exists {
        Some(argv0->0.path@)
    } else if running is Some && running->0.exists {
        Some(running->0.path@)
    } else {
        None
    }
}

/// Bytes by value.
pub open spec fn bytes_view(b: Option<Vec<u8>>) -> Option<Seq<u8>> {
    match b {
        Some(v) => Some(v@),
        None => None,
    }
}

fn program_to_run(argv0: Option<Program>, running: Option<Program>) -> (r: Option<Vec<u8>>)
    ensures
        bytes_view(r) == restart_program(argv0, running),
{
    if let Some(p) = argv0 {
        if p.path.len() > 0 && p.path[0] == 0x2f && p.exists {
            return Some(p.path);
        }
    }
    if let Some(p) = running {
        if p.exists {
            return Some(p.path);
        }
    }
    None
}

/// Lists of bytes, by value.
pub open spec fn byte_views(args: Seq<Vec<u8>>) -> Seq<Seq<u8>> {
    args.map_values(|a: Vec<u8>| a@)
}

/// Those of `args` that hold no zero byte: the rest cannot be passed on.
pub open spec fn passable(args: Seq<Seq<u8>>) -> Seq<Seq<u8>>
    decreases args.len(),
{
    if args.len() == 0 {
        Seq::empty()
    } else if args.last().contains(0) {
        passable(args.drop_last())
    } else {
        passable(args.drop_last()).push(args.last())
    }
}

fn has_nul(b: &[u8]) -> (r: bool)
    ensures
        r == b@.contains(0),
{
    for i in 0..b.len()
        invariant
            forall|j: int| 0 <= j < i ==> b@[j] != 0,
    {
        if b[i] == 0 {
            return true;
        }
    }
    false
}

/// What to start over as: the program, and the arguments that this one was
/// started with. `None` where there is no program to be had.
pub fn restart(argv0: Option<Program>, running: Option<Program>, args: Vec<Vec<u8>>) -> (r: Option<
    (Vec<u8>, Vec<Vec<u8>>),
>)
    ensures
        match r {
            Some((program, rest)) => {
                &&& restart_program(argv0, running) == Some(program@)
                &&& !program@.contains(0)
                &&& byte_views(rest@) == passable(byte_views(args@))
            },
            None => restart_program(argv0, running) is None || restart_program(
                argv0,
                running,
            )->0.contains(0),
        },
{
    let program = match program_to_run(argv0, running) {
        Some(p) => p,
        None => {
            return None;
        },
    };
    if has_nul(program.as_slice()) {
        return None;
    }
    let mut rest: Vec<Vec<u8>> = Vec::new();
    let ghost all = byte_views(args@);
    assert(byte_views(rest@) =~= Seq::empty());
    for i in 0..args.len()
        invariant
            all == byte_views(args@),
            byte_views(rest@) == passable(all.take(i as int)),
    {
        let ghost earlier = rest@;
        assert(all.take(i + 1).drop_last() =~= all.take(i as int));
        assert(all.take(i + 1).last() == args@[i as int]@);
        if !has_nul(args[i].as_slice()) {
            rest.push(copy_bytes(args[i].as_slice()));
            assert(byte_views(rest@) =~= byte_views(earlier).push(args@[i as int]@));
        }
    }
    assert(all.take(all.len() as int) =~= all);
    Some((program, rest))
}

/// The count of silent frames in a row after all of `frames`, from `count` on.
pub open spec fn count_after(count: u32, frames: Seq<Seq<u8>>) -> u32
    decreases frames.len(),
{
    if frames.len() == 0 {
        count
    } else {
        counted(count_after(count, frames.drop_last()), frames.last())
    }
}

/// How many silent frames `frames` ends in.
pub open spec fn silent_run(frames: Seq<Seq<u8>>) -> nat
    decreases frames.len(),
{
    if frames.len() == 0 || !silent(frames.last()) {
        0
    } else {
        1 + silent_run(frames.drop_last())
    }
}

/// Silence parks the loop after its grace and not before: fresh from zero, the
/// count exceeds the grace exactly where more silent frames than that came in
/// a row.
pub proof fn parking_waits_for_its_grace(frames: Seq<Seq<u8>>)
    ensures
        count_after(0, frames) > SILENT_GRACE_FRAMES <==> silent_run(frames) > SILENT_GRACE_FRAMES,
        count_after(0, frames) == if silent_run(frames) < u32::MAX {
            silent_run(frames) as int
        } else {
            u32::MAX as int
        },
    decreases frames.len(),
{
    if frames.len() > 0 {
        parking_waits_for_its_grace(frames.drop_last());
    }
}

/// Parking and unparking are two halves of one decision: no frame both counts
/// toward parking and wakes a parked loop, and each does one of the two.
pub proof fn parking_and_waking_agree(frame: Seq<u8>, count: u32)
    ensures
        silent(frame) <==> counted(count, frame) > 0,
        !silent(frame) ==> counted(count, frame) == 0,
{
}

/// One loud bar keeps the visualiser awake.
pub proof fn a_loud_bar_is_not_silence(frame: Seq<u8>, i: int)
    requires
        0 <= i < frame.len() as int / 2,
        sample(frame, i) > SILENCE_RAW,
    ensures
        !silent(frame),
{
}

/// An unrelated change of the shell's settings restarts nothing, and neither
/// does a change between two wallpapers without a curve.
pub proof fn no_needless_restart(
    f: Followed,
    placed: bool,
    changed: Changed,
    shell_bars: Option<u32>,
    key: Option<Seq<char>>,
)
    ensures
        shell_bars is None || shell_bars->0 == f.bar_count ==> !external(
            f,
            placed,
            changed,
            shell_bars,
            key,
        ).restart_for_bars,
        !has_key(f.curve_keys@, text_view(f.curve_key)) && !has_key(f.curve_keys@, key)
            ==> !external(f, placed, changed, shell_bars, key).restart_for_wallpaper,
        text_view(f.curve_key) == key ==> !external(
            f,
            placed,
            changed,
            shell_bars,
            key,
        ).restart_for_wallpaper,
{
}

/// Silence is every sample at or below 327, its low byte first; a byte too few
/// for a sample does not count.
pub proof fn silence_is_327_or_less(frame: Seq<u8>)
    ensures
        silent(frame) <==> forall|i: int|
            0 <= i && 2 * i + 1 < frame.len() ==> frame[2 * i] + 256 * #[trigger] frame[2 * i + 1]
                <= 327,
{
    if silent(frame) {
        assert forall|i: int| 0 <= i && 2 * i + 1 < frame.len() implies frame[2 * i] + 256
            * #[trigger] frame[2 * i + 1] <= 327 by {
            assert(sample(frame, i) <= 327);
        }
    } else {
        let i = choose|i: int|
            0 <= i < frame.len() as int / 2 && !(#[trigger] sample(frame, i) <= SILENCE_RAW);
        assert(frame[2 * i] + 256 * frame[2 * i + 1] > 327);
    }
}

/// Twenty-three silent frames in a row are drawn, and the next one parks; a
/// loud one is always drawn and starts the count anew. Nothing but silence
/// parks, and hearing never forgets that a whole frame is due.
pub proof fn the_twenty_fourth_silent_frame_parks(f: Frames, frame: Seq<u8>)
    ensures
        silent(frame) && f.silent_frames < 23 ==> heard_in(f, frame).1 && heard_in(
            f,
            frame,
        ).0.silent_frames == f.silent_frames + 1,
        silent(frame) && f.silent_frames >= 23 ==> !heard_in(f, frame).1 && heard_in(
            f,
            frame,
        ).0.idle,
        !silent(frame) ==> heard_in(f, frame).1 && heard_in(f, frame).0.silent_frames == 0,
        heard_in(f, frame).1 ==> heard_in(f, frame).0.idle == f.idle,
        heard_in(f, frame).0.force_full_damage == f.force_full_damage,
        heard_in(f, frame).0.silent_frames <= f.silent_frames + 1,
{
}

/// Fresh from zero, the loop parks exactly where the last twenty-four frames
/// were all silent.
pub proof fn parking_takes_twenty_four_silent_frames(frames: Seq<Seq<u8>>)
    ensures
        count_after(0, frames) > 23 <==> frames.len() >= 24 && forall|i: int|
            frames.len() - 24 <= i < frames.len() ==> silent(#[trigger] frames[i]),
{
    parking_waits_for_its_grace(frames);
    silent_run_counts(frames, 24);
}

proof fn silent_run_counts(frames: Seq<Seq<u8>>, k: nat)
    ensures
        silent_run(frames) >= k <==> frames.len() >= k && forall|i: int|
            frames.len() - k <= i < frames.len() ==> silent(#[trigger] frames[i]),
    decreases frames.len(),
{
    if frames.len() > 0 && k > 0 {
        let t = frames.drop_last();
        silent_run_counts(t, (k - 1) as nat);
        assert forall|i: int| 0 <= i < t.len() implies t[i] == #[trigger] frames[i] by {}
        if silent_run(frames) >= k {
            assert forall|i: int| frames.len() - k <= i < frames.len() implies silent(
                #[trigger] frames[i],
            ) by {
                if i < t.len() {
                    assert(silent(t[i]));
                }
            }
        }
        if frames.len() >= k && forall|i: int|
            frames.len() - k <= i < frames.len() ==> silent(#[trigger] frames[i]) {
            assert(silent(frames[frames.len() - 1]));
            assert forall|i: int| t.len() - (k - 1) <= i < t.len() implies silent(
                #[trigger] t[i],
            ) by {
                assert(silent(frames[i]));
            }
        }
    }
}

/// A parked loop wakes on the first frame that is not silent, with nothing
/// counted and a whole frame due, and stays as it is on any other.
pub proof fn only_sound_wakes(f: Frames, frame: Seq<u8>)
    ensures
        woken_in(f, frame).1 == !silent(frame),
        woken_in(f, frame).1 ==> !woken_in(f, frame).0.idle && woken_in(f, frame).0.silent_frames
            == 0 && woken_in(f, frame).0.force_full_damage,
        !woken_in(f, frame).1 ==> woken_in(f, frame).0 == f,
{
}

/// Damage is declared only for bars in a row, by a driver that takes it, and
/// where no whole frame is due; any other frame declares one rectangle, which
/// is all of the surface.
pub proof fn other_frames_declare_the_whole_surface(
    f: Frames,
    takes_damage: bool,
    mode: Mode,
    rects: Seq<Rect>,
    width: u32,
    height: u32,
)
    requires
        width <= i32::MAX,
        height <= i32::MAX,
    ensures
        ({
            let d = declared(f, takes_damage, mode, rects, width, height);
            if takes_damage && !f.force_full_damage && mode == Mode::Bars {
                d == rects
            } else {
                &&& d.len() == 1
                &&& d[0].x == 0 && d[0].y == 0
                &&& d[0].width == width && d[0].height == height
            }
        }),
{
}

/// A request to exit comes before everything; after that a frame goes on, an
/// interruption is skipped, a source that has ended is told apart from one that
/// failed.
pub proof fn a_read_is_told_by_its_end(read: Read)
    ensures
        step_after(read, true) == AfterRead::Exit,
        step_after(read, false) != AfterRead::Exit,
        step_after(read, false) == AfterRead::Go <==> read == Read::Frame,
        step_after(read, false) == AfterRead::Skip <==> read == Read::Interrupted,
        step_after(read, false) == AfterRead::SourceGone <==> read == Read::Ended,
        step_after(read, false) == AfterRead::GiveUp <==> read == Read::Failed,
{
}

/// At most 512 frames are dropped; below that, a whole frame in the buffer is
/// taken without asking the pipe, and less than one is not.
pub proof fn at_most_512_frames_are_dropped(skipped: u32, buffered: usize, frame_len: usize)
    ensures
        waiting(skipped, buffered, frame_len) == Backlog::Enough <==> skipped > 511,
        skipped < 512 ==> (waiting(skipped, buffered, frame_len) == Backlog::Ready <==> frame_len
            <= buffered),
        skipped < 512 ==> (waiting(skipped, buffered, frame_len) == Backlog::Ask <==> buffered
            < frame_len),
{
}

/// A request to exit is honoured while parked and while unplaced; otherwise
/// nothing is looked at without an output.
pub proof fn a_tick_needs_an_output(placed: bool)
    ensures
        ticked(true, placed) == Tick::Exit,
        ticked(false, placed) == Tick::Look <==> placed,
        ticked(false, placed) == Tick::Wait <==> !placed,
{
}

/// While something is placed, a change is acted on: a new count of bars, a
/// wallpaper that a curve is drawn for or was drawn for, a new scheme. While
/// nothing is, none is.
pub proof fn changes_are_acted_on_while_placed(
    f: Followed,
    changed: Changed,
    shell_bars: Option<u32>,
    key: Option<Seq<char>>,
    i: int,
)
    ensures
        changed.scheme ==> external(f, true, changed, shell_bars, key).reload_colors,
        !changed.scheme ==> !external(f, true, changed, shell_bars, key).reload_colors,
        changed.shell && shell_bars is Some && shell_bars->0 != f.bar_count ==> external(
            f,
            true,
            changed,
            shell_bars,
            key,
        ).restart_for_bars,
        !changed.shell ==> !external(f, true, changed, shell_bars, key).restart_for_bars,
        changed.wallpaper && 0 <= i < f.curve_keys@.len() && key == Some(f.curve_keys@[i]@)
            && text_view(f.curve_key) != key ==> external(
            f,
            true,
            changed,
            shell_bars,
            key,
        ).restart_for_wallpaper,
        changed.wallpaper && 0 <= i < f.curve_keys@.len() && text_view(f.curve_key) == Some(
            f.curve_keys@[i]@,
        ) && text_view(f.curve_key) != key ==> external(
            f,
            true,
            changed,
            shell_bars,
            key,
        ).restart_for_wallpaper,
        !changed.wallpaper ==> !external(f, true, changed, shell_bars, key).restart_for_wallpaper,
        external(f, false, changed, shell_bars, key) == (External {
            restart_for_bars: false,
            restart_for_wallpaper: false,
            reload_colors: false,
        }),
{
}

/// A configured surface is drawn only where an output has been chosen; a curve
/// is uploaded and mapped in curve mode alone, a gradient scaled for bars
/// alone; a surface that has been replaced gets nothing.
pub proof fn a_surface_is_drawn_once_it_is_placed(mode: Mode, has_curve: bool, placed: bool)
    ensures
        configured_as(false, mode, has_curve, placed) is None,
        configured_as(true, mode, has_curve, placed) matches Some(c) && c.draw == placed
            && c.upload_curve == (mode is Curve && has_curve) && c.map_output == (mode is Curve)
            && c.scale_gradient == (mode is Bars),
{
}

/// Each outline starts where the one before it ends, the first at nought; a
/// place or a length that 32 bits with a sign cannot hold counts as nought.
pub proof fn outlines_follow_one_another(lengths: Seq<usize>, i: int)
    requires
        0 <= i < lengths.len(),
    ensures
        sum_to(lengths, 0) == 0,
        sum_to(lengths, i + 1) == sum_to(lengths, i) + lengths[i],
        lengths[i] <= 2147483647 ==> fitted(lengths[i] as int) == lengths[i],
        lengths[i] > 2147483647 ==> fitted(lengths[i] as int) == 0,
{
}

/// Starting over takes the name the program was started by where that is an
/// absolute path to a file, else the running executable where that is a file,
/// and nothing that is not there.
pub proof fn a_restart_needs_a_file(argv0: Option<Program>, running: Option<Program>)
    ensures
        argv0 matches Some(p) && p.exists && p.path@.len() > 0 && p.path@[0] == 0x2f
            ==> restart_program(argv0, running) == Some(argv0->0.path@),
        (argv0 is None || !argv0->0.exists || argv0->0.path@.len() == 0 || argv0->0.path@[0]
            != 0x2f) && running is Some && running->0.exists ==> restart_program(argv0, running)
            == Some(running->0.path@),
        (argv0 is None || !argv0->0.exists) && (running is None || !running->0.exists)
            ==> restart_program(argv0, running) is None,
        restart_program(argv0, running) matches Some(p) && (running is None || p
            != running->0.path@) ==> restart_program(argv0, running)->0[0] == 0x2f,
{
}

/// Arguments are passed on in order; one is left out exactly where it holds a
/// zero byte.
pub proof fn arguments_are_passed_on_in_order(args: Seq<Seq<u8>>, a: Seq<u8>)
    ensures
        passable(Seq::<Seq<u8>>::empty()) == Seq::<Seq<u8>>::empty(),
        (forall|i: int| 0 <= i < a.len() ==> a[i] != 0) ==> passable(args.push(a)) == passable(
            args,
        ).push(a),
        (exists|i: int| 0 <= i < a.len() && a[i] == 0) ==> passable(args.push(a)) == passable(args),
{
    assert(args.push(a).drop_last() =~= args);
}

/// A fresh surface is not parked and has heard no silence; a repaint makes a
/// whole frame due and a presented frame settles that; none of them touches
/// anything else.
pub proof fn each_step_changes_its_own(f: Frames)
    ensures
        !placed_anew(f).idle && placed_anew(f).silent_frames == 0,
        placed_anew(f).force_full_damage == f.force_full_damage,
        repainted(f).force_full_damage && !presented(f).force_full_damage,
        repainted(f).idle == f.idle && repainted(f).silent_frames == f.silent_frames,
        presented(f).idle == f.idle && presented(f).silent_frames == f.silent_frames,
        presented(repainted(f)) == presented(f),
        declares_damage(presented(f), true, Mode::Bars),
        !declares_damage(repainted(f), true, Mode::Bars),
{
}

/// The wallpaper's key is remembered, so that the same change is not acted on
/// twice; a change that comes while nothing is placed is not forgotten.
pub proof fn a_wallpaper_is_acted_on_once(
    f: Followed,
    next: Followed,
    changed: Changed,
    bars: Option<u32>,
    key: Option<Seq<char>>,
)
    requires
        changed.wallpaper,
        text_view(next.curve_key) == key_after(f, true, changed, key),
    ensures
        text_view(next.curve_key) == key,
        !external(next, true, changed, bars, key).restart_for_wallpaper,
        key_after(f, false, changed, key) == text_view(f.curve_key),
{
}

/// A key is among the known ones exactly where one of them spells it.
pub proof fn a_key_is_among_its_equals(keys: Seq<String>, key: Seq<char>, i: int)
    ensures
        0 <= i < keys.len() && keys[i]@ == key ==> has_key(keys, Some(key)),
        (forall|k: int| 0 <= k < keys.len() ==> (#[trigger] keys[k])@ != key) ==> !has_key(
            keys,
            Some(key),
        ),
        !has_key(keys, None),
{
}

} // verus!
