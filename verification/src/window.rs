//! The window: keys, fullscreen and cursor, edges, and where things are drawn.

use crate::player::ChannelViewMode;
use crate::single::Single;
use crate::text::{contains, push_decimal, to_chars, to_lower};
use vstd::prelude::*;

verus! {

// ---------------------------------------------------------------------------------------------
// Keys.
// ---------------------------------------------------------------------------------------------

/// The keys that were pressed, and the modifiers that are held.
#[derive(Debug, Clone, Copy, PartialEq, Eq, Structural)]
pub struct Keys {
    pub command: bool,
    pub shift: bool,
    pub o: bool,
    pub e: bool,
    pub b: bool,
    pub t: bool,
    pub d: bool,
    pub w: bool,
    pub f1: bool,
    pub i: bool,
    pub f11: bool,
    pub escape: bool,
    pub space: bool,
    pub left: bool,
    pub right: bool,
    pub home: bool,
    pub end: bool,
    pub l: bool,
    pub one: bool,
    pub two: bool,
    pub three: bool,
}

/// Frames to go on or back.
#[derive(Debug, Clone, Copy, PartialEq, Eq, Structural)]
pub struct StepKey {
    pub back: bool,
    pub frames: usize,
}

/// What the keys ask for.
#[derive(Debug, Clone, Copy, PartialEq, Eq)]
pub struct Commands {
    pub open_file: bool,
    pub open_folder: bool,
    pub toggle_transcode: bool,
    pub toggle_benchmark: bool,
    pub toggle_audit: bool,
    pub toggle_diagnostics: bool,
    pub close_media: bool,
    pub toggle_shortcuts: bool,
    pub toggle_hud: bool,
    pub toggle_fullscreen: bool,
    pub toggle_play: bool,
    pub step: Option<StepKey>,
    pub seek: Option<usize>,
    pub toggle_loop: bool,
    pub channel: Option<ChannelViewMode>,
}

/// Keys that play, step and choose a view; where text is typed they do not count.
pub open spec fn step_asked(k: Keys) -> Option<StepKey> {
    let frames: usize = if k.shift {
        10
    } else {
        1
    };
    if k.right {
        Some(StepKey { back: false, frames })
    } else if k.left {
        Some(StepKey { back: true, frames })
    } else {
        None
    }
}

/// The view that is asked for.
pub open spec fn channel_asked(k: Keys) -> Option<ChannelViewMode> {
    if k.three {
        Some(ChannelViewMode::AlphaMatte)
    } else if k.two {
        Some(ChannelViewMode::RgbOpaque)
    } else if k.one {
        Some(ChannelViewMode::Rgba)
    } else {
        None
    }
}

/// The frame that is asked for; the end is past every frame.
pub open spec fn frame_asked(k: Keys) -> Option<usize> {
    if k.end {
        Some(usize::MAX)
    } else if k.home {
        Some(0)
    } else {
        None
    }
}

/// What the keys ask for, while text is typed or not, and in fullscreen or not.
pub open spec fn asked(k: Keys, typing: bool, fullscreen: bool) -> Commands {
    Commands {
        open_file: k.command && k.o && !k.shift,
        open_folder: k.command && k.o && k.shift,
        toggle_transcode: k.command && k.e,
        toggle_benchmark: k.command && k.b,
        toggle_audit: k.command && k.t,
        toggle_diagnostics: k.command && k.d,
        close_media: k.command && k.w,
        toggle_shortcuts: k.f1,
        toggle_hud: k.i,
        toggle_fullscreen: k.f11 || (k.escape && fullscreen),
        toggle_play: !typing && k.space,
        step: if typing {
            None
        } else {
            step_asked(k)
        },
        seek: if typing {
            None
        } else {
            frame_asked(k)
        },
        toggle_loop: !typing && k.l,
        channel: if typing {
            None
        } else {
            channel_asked(k)
        },
    }
}

/// What the keys ask for.
pub fn commands(k: Keys, typing: bool, fullscreen: bool) -> (r: Commands)
    ensures
        r == asked(k, typing, fullscreen),
{
    let frames: usize = if k.shift {
        10
    } else {
        1
    };
    let step = if typing {
        None
    } else if k.right {
        Some(StepKey { back: false, frames })
    } else if k.left {
        Some(StepKey { back: true, frames })
    } else {
        None
    };
    let seek: Option<usize> = if typing {
        None
    } else if k.end {
        Some(usize::MAX)
    } else if k.home {
        Some(0)
    } else {
        None
    };
    let channel = if typing {
        None
    } else if k.three {
        Some(ChannelViewMode::AlphaMatte)
    } else if k.two {
        Some(ChannelViewMode::RgbOpaque)
    } else if k.one {
        Some(ChannelViewMode::Rgba)
    } else {
        None
    };
    Commands {
        open_file: k.command && k.o && !k.shift,
        open_folder: k.command && k.o && k.shift,
        toggle_transcode: k.command && k.e,
        toggle_benchmark: k.command && k.b,
        toggle_audit: k.command && k.t,
        toggle_diagnostics: k.command && k.d,
        close_media: k.command && k.w,
        toggle_shortcuts: k.f1,
        toggle_hud: k.i,
        toggle_fullscreen: k.f11 || (k.escape && fullscreen),
        toggle_play: !typing && k.space,
        step,
        seek,
        toggle_loop: !typing && k.l,
        channel,
    }
}

/// While text is typed, no key plays, steps, seeks or changes the view.
pub proof fn law_typing_is_undisturbed(k: Keys, fullscreen: bool)
    ensures
        ({
            let c = asked(k, true, fullscreen);
            !c.toggle_play && c.step is None && c.seek is None && !c.toggle_loop && c.channel is None
        }),
{
}

// ---------------------------------------------------------------------------------------------
// Fullscreen and cursor.
// ---------------------------------------------------------------------------------------------

/// Whether the window fills the screen, and whether the cursor is hidden.
#[derive(Debug, Clone, Copy, PartialEq, Eq, Structural)]
pub struct ScreenMode {
    pub fullscreen: bool,
    pub cursor_hidden: bool,
}

/// Changes to the window.
#[derive(Debug, Clone, Copy, PartialEq, Eq)]
pub struct ScreenChange {
    /// Whether the window is to fill the screen.
    pub fullscreen: Option<bool>,
    /// Whether the cursor is to be seen.
    pub cursor_visible: Option<bool>,
}

/// No change.
pub open spec fn unchanged() -> ScreenChange {
    ScreenChange { fullscreen: None, cursor_visible: None }
}

impl ScreenMode {
    /// Switches between window and fullscreen, but not again within 350 milliseconds. A window
    /// shows the cursor.
    pub fn toggle_fullscreen(&mut self, since_last_ms: u128) -> (r: ScreenChange)
        ensures
            if since_last_ms < 350 {
                *final(self) == *old(self) && r == unchanged()
            } else {
                let full = !old(self).fullscreen;
                let shows = !full && old(self).cursor_hidden;
                &&& *final(self) == (ScreenMode {
                    fullscreen: full,
                    cursor_hidden: old(self).cursor_hidden && full,
                })
                &&& r == (ScreenChange {
                    fullscreen: Some(full),
                    cursor_visible: if shows {
                        Some(true)
                    } else {
                        None
                    },
                })
            },
    {
        if since_last_ms < 350 {
            return ScreenChange { fullscreen: None, cursor_visible: None };
        }
        self.fullscreen = !self.fullscreen;
        let mut cursor_visible: Option<bool> = None;
        if !self.fullscreen && self.cursor_hidden {
            self.cursor_hidden = false;
            cursor_visible = Some(true);
        }
        ScreenChange { fullscreen: Some(self.fullscreen), cursor_visible }
    }

    /// Shows the cursor when it is used, hides it in fullscreen after a rest, and shows it in a
    /// window. `resting` is whether the cursor has not been used for a while.
    pub fn watch_cursor(&mut self, used: bool, resting: bool) -> (r: ScreenChange)
        ensures
            ({
                let awake = old(self).cursor_hidden && !(used && old(self).fullscreen);
                let hides = old(self).fullscreen && resting;
                let hidden = if old(self).fullscreen {
                    awake || hides
                } else {
                    false
                };
                &&& *final(self) == (ScreenMode {
                    fullscreen: old(self).fullscreen,
                    cursor_hidden: hidden,
                })
                &&& r == (ScreenChange {
                    fullscreen: None,
                    cursor_visible: if hidden && !awake {
                        Some(false)
                    } else if old(self).cursor_hidden && !hidden {
                        Some(true)
                    } else {
                        None
                    },
                })
            }),
    {
        let mut cursor_visible: Option<bool> = None;
        if used && self.fullscreen && self.cursor_hidden {
            self.cursor_hidden = false;
            cursor_visible = Some(true);
        }
        if self.fullscreen {
            if resting && !self.cursor_hidden {
                self.cursor_hidden = true;
                cursor_visible = Some(false);
            }
        } else if self.cursor_hidden {
            self.cursor_hidden = false;
            cursor_visible = Some(true);
        }
        ScreenChange { fullscreen: None, cursor_visible }
    }
}

/// How long the controls stay in fullscreen after the cursor was used, in seconds.
pub open spec fn rest_time() -> Single {
    crate::single::ratio(5, 2)
}

/// Whether the controls are seen: always in a window, in fullscreen for a while after the cursor
/// was used.
pub fn controls_visible(fullscreen: bool, idle_seconds: Single) -> (r: bool)
    requires
        idle_seconds.wf(),
    ensures
        r == (!fullscreen || crate::single::less(idle_seconds, rest_time())),
{
    !fullscreen || idle_seconds.lt(Single::from_ratio(5, 2))
}

/// The milliseconds that a frame is shown; 33.33 if the rate is not known.
pub open spec fn frame_budget(fps: Single) -> Single {
    if crate::single::less(crate::single::whole_number(0), fps) {
        crate::single::quotient(crate::single::whole_number(1000), fps)
    } else {
        crate::single::ratio(3333, 100)
    }
}

/// Whether decoding a frame took longer than the frame is shown.
pub fn is_too_slow(decode_ms: Single, fps: Single) -> (r: bool)
    requires
        decode_ms.wf(),
        fps.wf(),
    ensures
        r == crate::single::less(frame_budget(fps), decode_ms),
{
    let budget = if Single::from_u32(0).lt(fps) {
        Single::from_u32(1000).over(fps)
    } else {
        Single::from_ratio(3333, 100)
    };
    budget.lt(decode_ms)
}

// ---------------------------------------------------------------------------------------------
// Edges.
// ---------------------------------------------------------------------------------------------

/// A direction in which the window is resized.
#[derive(Debug, Clone, Copy, PartialEq, Eq, Structural)]
pub enum Edge {
    NorthWest,
    NorthEast,
    SouthWest,
    SouthEast,
    West,
    East,
    North,
    South,
}

/// The direction for a pointer at the edges of the window; corners come first.
pub open spec fn edge_at(left: bool, right: bool, top: bool, bottom: bool) -> Option<Edge> {
    if left && top {
        Some(Edge::NorthWest)
    } else if right && top {
        Some(Edge::NorthEast)
    } else if left && bottom {
        Some(Edge::SouthWest)
    } else if right && bottom {
        Some(Edge::SouthEast)
    } else if left {
        Some(Edge::West)
    } else if right {
        Some(Edge::East)
    } else if top {
        Some(Edge::North)
    } else if bottom {
        Some(Edge::South)
    } else {
        None
    }
}

/// The direction in which the window is resized; a window that fills the screen is not.
pub fn resize_edge(fills_screen: bool, left: bool, right: bool, top: bool, bottom: bool) -> (r: Option<
    Edge,
>)
    ensures
        r == if fills_screen {
            None
        } else {
            edge_at(left, right, top, bottom)
        },
{
    if fills_screen {
        return None;
    }
    match (left, right, top, bottom) {
        (true, _, true, _) => Some(Edge::NorthWest),
        (_, true, true, _) => Some(Edge::NorthEast),
        (true, _, _, true) => Some(Edge::SouthWest),
        (_, true, _, true) => Some(Edge::SouthEast),
        (true, _, _, _) => Some(Edge::West),
        (_, true, _, _) => Some(Edge::East),
        (_, _, true, _) => Some(Edge::North),
        (_, _, _, true) => Some(Edge::South),
        _ => None,
    }
}

// ---------------------------------------------------------------------------------------------
// Where things are drawn.
// ---------------------------------------------------------------------------------------------

/// One value is at most the other.
pub open spec fn at_most(a: Single, b: Single) -> bool {
    a !is Nan && b !is Nan && !crate::single::less(b, a)
}

/// The aspect ratio of a picture: that of its texture, if there is one that is not flat, else that
/// of the content; at least a hundredth.
pub open spec fn aspect_of(texture: Option<(Single, Single)>, content: (Single, Single)) -> Single {
    let own = crate::single::quotient(
        content.0,
        crate::single::maximum(content.1, crate::single::whole_number(1)),
    );
    crate::single::maximum(
        match texture {
            Some((w, h)) => if crate::single::less(crate::single::whole_number(0), h) {
                crate::single::quotient(w, h)
            } else {
                own
            },
            None => own,
        },
        crate::single::ratio(1, 100),
    )
}

/// The aspect ratio of a picture.
pub fn picture_aspect(texture: Option<(Single, Single)>, content: (Single, Single)) -> (r: Single)
    requires
        texture matches Some(t) ==> t.0.wf() && t.1.wf(),
        content.0.wf(),
        content.1.wf(),
    ensures
        r == aspect_of(texture, content),
        r.wf(),
{
    let ratio = match texture {
        Some((w, h)) => if Single::from_u32(0).lt(h) {
            w.over(h)
        } else {
            content.0.over(content.1.max(Single::from_u32(1)))
        },
        None => content.0.over(content.1.max(Single::from_u32(1))),
    };
    ratio.max(Single::from_ratio(1, 100))
}

/// Where a picture is drawn in a space: its size, and its distance from the left and the top.
#[derive(Debug, Clone, Copy)]
pub struct PicturePlace {
    pub width: Single,
    pub height: Single,
    pub left: Single,
    pub top: Single,
}

/// The size of a picture of some aspect ratio in a space: as wide as the space, or where that is
/// too tall, as tall as the space.
pub open spec fn fitted(width: Single, height: Single, aspect: Single) -> (Single, Single) {
    let tall = crate::single::quotient(width, aspect);
    if at_most(tall, height) {
        (width, tall)
    } else {
        (crate::single::product(height, aspect), height)
    }
}

/// Half of what is left over, if anything is.
pub open spec fn margin(space: Single, used: Single) -> Single {
    crate::single::maximum(
        crate::single::product(crate::single::difference(space, used), crate::single::ratio(1, 2)),
        crate::single::whole_number(0),
    )
}

fn half_of_rest(space: Single, used: Single) -> (r: Single)
    requires
        space.wf(),
        used.wf(),
    ensures
        r == margin(space, used),
        r.wf(),
{
    space.minus(used).times(Single::from_ratio(1, 2)).max(Single::from_u32(0))
}

/// Fits a picture into a space, in its middle.
pub fn fit_picture(width: Single, height: Single, aspect: Single) -> (r: PicturePlace)
    requires
        width.wf(),
        height.wf(),
        aspect.wf(),
    ensures
        ({
            let size = fitted(width, height, aspect);
            r == (PicturePlace {
                width: size.0,
                height: size.1,
                left: margin(width, size.0),
                top: margin(height, size.1),
            })
        }),
{
    let tall = width.over(aspect);
    let nan: bool = matches!(tall, Single::Nan) || matches!(height, Single::Nan);
    let (w, h) = if !nan && !height.lt(tall) {
        (width, tall)
    } else {
        (height.times(aspect), height)
    };
    PicturePlace { width: w, height: h, left: half_of_rest(width, w), top: half_of_rest(height, h) }
}

/// How far along the track a point is, between 0 and 1.
pub open spec fn track_share(x: Single, start: Single, length: Single) -> Single {
    crate::single::clamped(
        crate::single::quotient(crate::single::difference(x, start), length),
        crate::single::whole_number(0),
        crate::single::whole_number(1),
    )
}

/// The frame that a point of the track stands for.
pub open spec fn track_frame(x: Single, start: Single, length: Single, count: int) -> int {
    crate::single::nearest_within(
        crate::single::product(
            track_share(x, start, length),
            crate::single::whole_number(count - 1),
        ),
        0,
        u64::MAX as int,
    )
}

/// The frame that a point of the track stands for.
pub fn scrub_frame(x: Single, start: Single, length: Single, count: usize) -> (r: u64)
    requires
        x.wf(),
        start.wf(),
        length.wf(),
        count > 0,
    ensures
        r == track_frame(x, start, length, count as int),
{
    let share = x.minus(start).over(length).clamp(Single::from_u32(0), Single::from_u32(1));
    share.times(Single::from_u64((count - 1) as u64)).round_u64()
}

/// How far a frame is along the track, between 0 and 1.
pub open spec fn frame_share(frame: int, count: int) -> Single {
    if count > 1 {
        crate::single::clamped(
            crate::single::quotient(
                crate::single::whole_number(frame),
                crate::single::whole_number(count - 1),
            ),
            crate::single::whole_number(0),
            crate::single::whole_number(1),
        )
    } else {
        crate::single::whole_number(0)
    }
}

/// How far a frame is along the track, between 0 and 1.
pub fn progress(frame: usize, count: usize) -> (r: Single)
    ensures
        r == frame_share(frame as int, count as int),
        r.wf(),
{
    if count > 1 {
        Single::from_u64(frame as u64).over(Single::from_u64((count - 1) as u64)).clamp(
            Single::from_u32(0),
            Single::from_u32(1),
        )
    } else {
        Single::from_u32(0)
    }
}

// ---------------------------------------------------------------------------------------------
// Texts.
// ---------------------------------------------------------------------------------------------

/// The dimensions as text, with the name of the aspect ratio if it has one.
pub open spec fn size_words(width: int, height: int, aspect: Seq<char>) -> Seq<char> {
    let plain = crate::text::decimal(width) + "x"@ + crate::text::decimal(height);
    if aspect.len() == 0 {
        plain
    } else {
        plain + " ("@ + aspect + ")"@
    }
}

/// The dimensions as text, with the name of the aspect ratio if it has one.
pub fn resolution_text(width: usize, height: usize) -> (r: String)
    ensures
        r@ == size_words(
            width as int,
            height as int,
            crate::display::aspect_name(width as int, height as int),
        ),
{
    let aspect = crate::display::format_aspect_ratio(width, height);
    let mut out: String = String::new();
    push_decimal(&mut out, width as u64);
    assert(out@ =~= crate::text::decimal(width as int));
    out.append("x");
    push_decimal(&mut out, height as u64);
    if to_chars(aspect).len() > 0 {
        out.append(" (");
        out.append(aspect);
        out.append(")");
    }
    out
}

/// Whether a line of the log is shown: the search text occurs in it, capital letters or not.
pub fn log_line_matches(line: &str, search: &str) -> (r: bool)
    ensures
        r == (crate::text::lowercase(search@).len() == 0 || crate::text::occurs(
            crate::text::lowercase(search@),
            crate::text::lowercase(line@),
        )),
        vstd::utf8::is_ascii_chars(search@) && vstd::utf8::is_ascii_chars(line@) ==> r == (
        search@.len() == 0 || crate::text::occurs(
            crate::text::ascii_lower(search@),
            crate::text::ascii_lower(line@),
        )),
{
    let needle = to_chars(to_lower(search).as_str());
    if needle.len() == 0 {
        return true;
    }
    let text = to_chars(to_lower(line).as_str());
    contains(text.as_slice(), needle.as_slice())
}

// ---------------------------------------------------------------------------------------------
// Laws.
// ---------------------------------------------------------------------------------------------


/// The letters that open, close and switch panels count with the command key only, and each asks for
/// one thing. Shift chooses a folder over a file, and steps of ten frames over steps of one. The
/// arrow to the right goes on, the one to the left back; home is the first frame, end a frame past
/// all. Escape leaves fullscreen and does not enter it. What was not pressed is not asked for.
pub proof fn law_keys(k: Keys, fullscreen: bool)
    ensures
        ({
            let c = asked(k, false, fullscreen);
            let none = Keys {
                o: false,
                e: false,
                b: false,
                t: false,
                d: false,
                w: false,
                ..k
            };
            let quiet = asked(none, false, fullscreen);
            &&& !k.command ==> !c.open_file && !c.open_folder && !c.toggle_transcode
                && !c.toggle_benchmark && !c.toggle_audit && !c.toggle_diagnostics
                && !c.close_media
            &&& !quiet.open_file && !quiet.open_folder && !quiet.toggle_transcode
                && !quiet.toggle_benchmark && !quiet.toggle_audit && !quiet.toggle_diagnostics
                && !quiet.close_media
            &&& k.command && k.o ==> c.open_folder == k.shift && c.open_file != k.shift
            &&& k.command ==> c.toggle_transcode == k.e && c.toggle_benchmark == k.b
                && c.toggle_audit == k.t && c.toggle_diagnostics == k.d && c.close_media == k.w
            &&& c.toggle_shortcuts == k.f1 && c.toggle_hud == k.i && c.toggle_play == k.space
                && c.toggle_loop == k.l
            &&& k.f11 ==> c.toggle_fullscreen
            &&& !k.f11 ==> c.toggle_fullscreen == (fullscreen && k.escape)
            &&& c.step is None <==> !k.left && !k.right
            &&& (c.step matches Some(s) ==> s.back == !k.right && s.frames == if k.shift {
                10int
            } else {
                1
            })
            &&& c.seek is None <==> !k.home && !k.end
            &&& k.home && !k.end ==> c.seek == Some(0usize)
            &&& k.end ==> c.seek == Some(usize::MAX)
            &&& c.channel is None <==> !k.one && !k.two && !k.three
            &&& k.one && !k.two && !k.three ==> c.channel == Some(ChannelViewMode::Rgba)
            &&& k.two && !k.three ==> c.channel == Some(ChannelViewMode::RgbOpaque)
            &&& k.three ==> c.channel == Some(ChannelViewMode::AlphaMatte)
        }),
{
}

/// The edge that is held says which sides move: each side that the pointer is at, but that of two
/// opposite sides the left one and the upper one count.
pub proof fn law_edges(left: bool, right: bool, top: bool, bottom: bool)
    ensures
        ({
            let e = edge_at(left, right, top, bottom);
            let west = e == Some(Edge::West) || e == Some(Edge::NorthWest) || e == Some(
                Edge::SouthWest,
            );
            let east = e == Some(Edge::East) || e == Some(Edge::NorthEast) || e == Some(
                Edge::SouthEast,
            );
            let north = e == Some(Edge::North) || e == Some(Edge::NorthWest) || e == Some(
                Edge::NorthEast,
            );
            let south = e == Some(Edge::South) || e == Some(Edge::SouthWest) || e == Some(
                Edge::SouthEast,
            );
            &&& !(left && right) && !(top && bottom) ==> west == left && east == right && north
                == top && south == bottom
            &&& e is None <==> !left && !right && !top && !bottom
            &&& left && right ==> !east
            &&& top && bottom && (left || right) ==> !south
            &&& west ==> left
            &&& east ==> right
            &&& north ==> top
            &&& south ==> bottom
        }),
{
}

/// The first frame is at the start of the track and the last one at its end.
pub proof fn law_progress_ends(count: int)
    requires
        1 <= count <= 0x100_0000,
    ensures
        crate::single::is_zero(frame_share(0, count)),
        count > 1 ==> frame_share(count - 1, count) == crate::single::whole_number(1),
        count == 1 ==> frame_share(0, count) == crate::single::whole_number(0),
{
    vstd::arithmetic::power2::lemma2_to64();
    let zero = crate::single::whole_number(0);
    let one = crate::single::whole_number(1);
    crate::single::lemma_whole_number(0, 0);
    assert(1 * crate::single::pow2(0) == 1);
    crate::single::lemma_whole_number(1, 0);
    crate::single::lemma_zero(zero);
    if count > 1 {
        let n = count - 1;
        let last = crate::single::whole_number(n);
        assert(n * crate::single::pow2(0) == n) by (nonlinear_arith)
            requires
                crate::single::pow2(0) == 1,
        ;
        crate::single::lemma_whole_number(n, 0);
        assert(1 * n == n);
        crate::single::lemma_exact_quotient(1, n);
        crate::single::lemma_less_units(zero, 0, one, 1, 0);
        crate::single::lemma_less_units(one, 1, one, 1, 0);
        crate::single::lemma_less_units(one, 1, zero, 0, 0);
        crate::single::lemma_less_units(zero, 0, last, n, 0);
        crate::single::lemma_zero(last);
        crate::single::lemma_zero_arithmetic(zero, last);
        let q = crate::single::quotient(zero, last);
        crate::single::lemma_less_units(q, 0, zero, 0, 0);
        crate::single::lemma_less_units(one, 1, q, 0, 0);
    }
}

/// A frame is shown for a thousand milliseconds divided by the rate, exactly where that goes into a
/// thousand; without a positive rate it is 33.33.
pub proof fn law_frame_budget(rate: int, ms: int)
    requires
        1 <= rate,
        1 <= ms,
        ms * rate == 1000,
    ensures
        frame_budget(crate::single::whole_number(rate)) == crate::single::whole_number(ms),
        frame_budget(crate::single::whole_number(0)) == crate::single::ratio(3333, 100),
{
    assert(rate <= ms * rate) by (nonlinear_arith)
        requires
            1 <= rate,
            1 <= ms,
    ;
    crate::single::lemma_exact_quotient(ms, rate);
    lemma_positive(rate);
}

proof fn lemma_positive(n: int)
    requires
        0 < n < 0x100_0000,
    ensures
        crate::single::less(crate::single::whole_number(0), crate::single::whole_number(n)),
        !crate::single::less(crate::single::whole_number(0), crate::single::whole_number(0)),
{
    vstd::arithmetic::power2::lemma2_to64();
    let zero = crate::single::whole_number(0);
    assert(n * crate::single::pow2(0) == n) by (nonlinear_arith)
        requires
            crate::single::pow2(0) == 1,
    ;
    crate::single::lemma_whole_number(0, 0);
    crate::single::lemma_whole_number(n, 0);
    crate::single::lemma_less_units(zero, 0, crate::single::whole_number(n), n, 0);
    crate::single::lemma_less_units(zero, 0, zero, 0, 0);
}

/// A picture fills the width of the space, and its height is the width divided by the aspect ratio;
/// where that is more than the space has, it fills the height, and its width is the height times the
/// aspect ratio. It keeps its aspect ratio and lies within the space either way.
pub proof fn law_fitted(aspect: int, tall: int, height: int)
    requires
        1 <= aspect,
        1 <= tall,
        1 <= height,
        aspect * tall < 0x100_0000,
        aspect * height < 0x100_0000,
    ensures
        ({
            let wide = aspect * tall;
            let (w, h) = fitted(
                crate::single::whole_number(wide),
                crate::single::whole_number(height),
                crate::single::whole_number(aspect),
            );
            &&& tall <= height ==> w == crate::single::whole_number(wide) && h
                == crate::single::whole_number(tall)
            &&& tall > height ==> w == crate::single::whole_number(aspect * height) && h
                == crate::single::whole_number(height)
        }),
{
    assert(aspect <= aspect * tall && tall <= aspect * tall && height <= aspect * height && tall
        * aspect == aspect * tall && height * aspect == aspect * height) by (nonlinear_arith)
        requires
            1 <= aspect,
            1 <= tall,
            1 <= height,
    ;
    vstd::arithmetic::power2::lemma2_to64();
    let a = crate::single::whole_number(tall);
    let b = crate::single::whole_number(height);
    assert(tall * crate::single::pow2(0) == tall && height * crate::single::pow2(0) == height)
        by (nonlinear_arith)
        requires
            crate::single::pow2(0) == 1,
    ;
    crate::single::lemma_exact_quotient(tall, aspect);
    crate::single::lemma_whole_product(height, aspect);
    crate::single::lemma_whole_number(tall, 0);
    crate::single::lemma_whole_number(height, 0);
    crate::single::lemma_less_units(b, height, a, tall, 0);
}

/// The aspect ratio of a picture is the width of its texture divided by the height; a flat texture
/// does not count, and without one the content does. It is never less than a hundredth.
pub proof fn law_aspect(ratio: int, height: int, content: (Single, Single))
    requires
        1 <= ratio,
        1 <= height,
        ratio * height < 0x100_0000,
        !crate::single::less(crate::single::whole_number(ratio), crate::single::ratio(1, 100)),
        crate::single::whole_number(ratio) !is Nan,
        !crate::single::less(crate::single::whole_number(height), crate::single::whole_number(1)),
    ensures
        ({
            let w = crate::single::whole_number(ratio * height);
            let h = crate::single::whole_number(height);
            let zero = crate::single::whole_number(0);
            &&& aspect_of(Some((w, h)), content) == crate::single::whole_number(ratio)
            &&& aspect_of(None, (w, h)) == crate::single::whole_number(ratio)
            &&& aspect_of(Some((w, zero)), content) == aspect_of(None, content)
        }),
{
    assert(ratio <= ratio * height && height <= ratio * height) by (nonlinear_arith)
        requires
            1 <= ratio,
            1 <= height,
    ;
    vstd::arithmetic::power2::lemma2_to64();
    assert(height * crate::single::pow2(0) == height) by (nonlinear_arith)
        requires
            crate::single::pow2(0) == 1,
    ;
    crate::single::lemma_exact_quotient(ratio, height);
    crate::single::lemma_whole_number(height, 0);
    lemma_positive(height);
}

} // verus!
