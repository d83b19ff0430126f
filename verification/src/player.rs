//! The state of the player: what is loaded, which frame is shown, and what happens next.
//!
//! The player decides; starting, stopping and drawing are left to the caller, who is told what to
//! do by a `Reaction`.

use crate::presets::InputFacts;
use crate::single::Single;
use vstd::prelude::*;

verus! {

/// A video that can be played.
#[derive(Debug, Clone, Copy, PartialEq, Eq, Structural)]
pub struct Clip {
    pub total: usize,
    pub width: usize,
    pub height: usize,
}

/// What is loaded: a HAP movie, a stream of another decoder, a still image, or something that only
/// can be encoded.
#[derive(Debug, Clone, Copy, PartialEq, Eq)]
pub struct Media {
    pub movie: Option<Clip>,
    pub stream: Option<Clip>,
    pub still: Option<(usize, usize)>,
    pub found: InputFacts,
}

impl Media {
    /// The number of frames.
    pub open spec fn frames(self) -> int {
        match (self.movie, self.stream, self.still) {
            (Some(c), _, _) => c.total as int,
            (_, Some(c), _) => c.total as int,
            (_, _, Some(_)) => 1,
            _ => self.found.frames as int,
        }
    }

    /// The dimensions of what is shown.
    pub open spec fn size(self) -> (int, int) {
        match (self.movie, self.stream, self.still) {
            (Some(c), _, _) => (c.width as int, c.height as int),
            (_, Some(c), _) => (c.width as int, c.height as int),
            (_, _, Some(s)) => (s.0 as int, s.1 as int),
            _ => (self.found.width as int, self.found.height as int),
        }
    }

    /// A video is loaded.
    pub open spec fn playable(self) -> bool {
        self.movie is Some || self.stream is Some
    }

    /// Whether a video is loaded.
    pub fn has_video_loaded(&self) -> (r: bool)
        ensures
            r == self.playable(),
    {
        self.movie.is_some() || self.stream.is_some()
    }

    /// The number of frames.
    pub fn video_total_frames(&self) -> (r: usize)
        ensures
            r == self.frames(),
    {
        if let Some(c) = self.movie {
            c.total
        } else if let Some(c) = self.stream {
            c.total
        } else if self.still.is_some() {
            1
        } else {
            self.found.frames
        }
    }

    /// The width of what is shown.
    pub fn video_width(&self) -> (r: usize)
        ensures
            r == self.size().0,
    {
        if let Some(c) = self.movie {
            c.width
        } else if let Some(c) = self.stream {
            c.width
        } else if let Some((w, _)) = self.still {
            w
        } else {
            self.found.width as usize
        }
    }

    /// The height of what is shown.
    pub fn video_height(&self) -> (r: usize)
        ensures
            r == self.size().1,
    {
        if let Some(c) = self.movie {
            c.height
        } else if let Some(c) = self.stream {
            c.height
        } else if let Some((_, h)) = self.still {
            h
        } else {
            self.found.height as usize
        }
    }

    /// The rate of what is shown, given those of the movie and of the stream and the one chosen
    /// for encoding. What plays has at least one frame per second.
    pub open spec fn rate(self, movie: Single, stream: Single, chosen: Single) -> Single {
        let one = crate::single::whole_number(1);
        if self.movie is Some {
            crate::single::maximum(movie, one)
        } else if self.stream is Some {
            crate::single::maximum(stream, one)
        } else if crate::single::less(crate::single::whole_number(0), chosen) {
            chosen
        } else {
            crate::single::whole_number(30)
        }
    }

    /// The rate of what is shown.
    pub fn video_fps(&self, movie: Single, stream: Single, chosen: Single) -> (r: Single)
        requires
            movie.wf(),
            stream.wf(),
            chosen.wf(),
        ensures
            r == self.rate(movie, stream, chosen),
            r.wf(),
    {
        if self.movie.is_some() {
            movie.max(Single::from_u32(1))
        } else if self.stream.is_some() {
            stream.max(Single::from_u32(1))
        } else if Single::from_u32(0).lt(chosen) {
            chosen
        } else {
            Single::from_u32(30)
        }
    }
}

/// What the decoder of a stream is to do.
#[derive(Debug, Clone, Copy, PartialEq, Eq, Structural)]
pub enum StreamCommand {
    /// Nothing new.
    Leave,
    /// Deliver frames from this one on.
    Start(usize),
    /// Deliver no more frames.
    Stop,
    /// Deliver this one frame.
    Fetch(usize),
}

/// What the caller is to do.
#[derive(Debug, Clone, Copy, PartialEq, Eq, Structural)]
pub struct Reaction {
    pub stream: StreamCommand,
    /// Measure the time of playback from now on.
    pub restart_clock: bool,
    /// Measure the frames per second from now on.
    pub restart_meter: bool,
    /// Decode and show the current frame of the movie.
    pub show_current: bool,
}

/// Nothing is to be done.
pub open spec fn calm() -> Reaction {
    Reaction {
        stream: StreamCommand::Leave,
        restart_clock: false,
        restart_meter: false,
        show_current: false,
    }
}

fn nothing() -> (r: Reaction)
    ensures
        r == calm(),
{
    Reaction {
        stream: StreamCommand::Leave,
        restart_clock: false,
        restart_meter: false,
        show_current: false,
    }
}

/// The state of the player.
#[derive(Debug, Clone, Copy, PartialEq, Eq)]
pub struct Player {
    pub media: Media,
    pub current_frame: usize,
    pub is_playing: bool,
    pub loop_playback: bool,
    /// The clock runs from the moment at which the start frame was shown.
    pub clock_synced: bool,
    /// The frame that was shown when the clock started.
    pub start_frame: usize,
    /// Playback goes on when the scrubber is let go.
    pub resume_after_scrub: bool,
    /// A single frame is being fetched from the stream.
    pub seeking: bool,
    /// The frame to fetch after that.
    pub pending_seek: Option<usize>,
}

/// Stops the stream, if there is one.
pub open spec fn stop_stream(m: Media) -> StreamCommand {
    if m.stream is Some {
        StreamCommand::Stop
    } else {
        StreamCommand::Leave
    }
}

/// Playing or pausing. From the last frame playback starts over.
pub open spec fn toggled(p: Player) -> (Player, Reaction) {
    if p.is_playing {
        (
            Player { is_playing: false, ..p },
            Reaction { stream: stop_stream(p.media), ..calm() },
        )
    } else if p.media.frames() > 0 {
        let at: usize = if p.current_frame + 1 >= p.media.frames() {
            0
        } else {
            p.current_frame
        };
        (
            Player {
                current_frame: at,
                is_playing: true,
                clock_synced: false,
                start_frame: at,
                ..p
            },
            Reaction {
                stream: if p.media.stream is Some {
                    StreamCommand::Start(at)
                } else {
                    StreamCommand::Leave
                },
                restart_clock: true,
                restart_meter: true,
                show_current: p.media.stream is None && p.media.movie is Some,
            },
        )
    } else {
        (p, calm())
    }
}

/// The frame nearest to the one asked for.
pub open spec fn reachable(frame: int, total: int) -> int {
    if total <= 0 {
        0
    } else if frame < total {
        frame
    } else {
        total - 1
    }
}

/// Going to a frame. Of a stream that does not play one frame is fetched at a time; a target that
/// comes in the meantime waits, and takes the place of one that waited before.
pub open spec fn sought(p: Player, frame: int) -> (Player, Reaction) {
    let at = reachable(frame, p.media.frames()) as usize;
    let q = Player { current_frame: at, ..p };
    if p.media.stream is Some {
        if p.is_playing {
            (
                Player { clock_synced: false, start_frame: at, ..q },
                Reaction { stream: StreamCommand::Start(at), restart_clock: true, ..calm() },
            )
        } else if p.seeking {
            (Player { pending_seek: Some(at), ..q }, calm())
        } else {
            (
                Player { seeking: true, ..q },
                Reaction { stream: StreamCommand::Fetch(at), ..calm() },
            )
        }
    } else if p.media.movie is Some {
        (
            Player { clock_synced: false, start_frame: at, ..q },
            Reaction { restart_clock: true, show_current: true, ..calm() },
        )
    } else {
        (q, calm())
    }
}

/// A number of frames on or back from the current one.
pub open spec fn stepped(p: Player, back: bool, n: int) -> int {
    if back {
        if p.current_frame < n {
            0
        } else {
            p.current_frame - n
        }
    } else {
        p.current_frame + n
    }
}

/// The frame that the clock is at.
pub open spec fn clock_frame(p: Player, elapsed: int) -> int {
    let at = if p.clock_synced {
        p.start_frame + elapsed
    } else {
        p.start_frame as int
    };
    if at > usize::MAX {
        usize::MAX as int
    } else {
        at
    }
}

/// A moment of playing a movie, `elapsed` frames after the clock was started. At the end playback
/// starts over, or stops on the last frame.
pub open spec fn movie_ticked(p: Player, elapsed: int) -> (Player, Reaction) {
    let total = p.media.frames();
    let at = clock_frame(p, elapsed);
    let ended = total > 0 && at >= total;
    let q = if ended && p.loop_playback {
        Player { clock_synced: false, start_frame: 0, current_frame: 0, ..p }
    } else if ended {
        Player { clock_synced: true, is_playing: false, current_frame: (total - 1) as usize, ..p }
    } else {
        Player { clock_synced: true, current_frame: at as usize, ..p }
    };
    (
        q,
        Reaction {
            restart_clock: !p.clock_synced || (ended && p.loop_playback),
            show_current: q.current_frame != p.current_frame,
            ..calm()
        },
    )
}

/// A moment of playing a stream, and the frame that is due then.
pub open spec fn stream_ticked(p: Player, elapsed: int) -> (Player, Reaction, int) {
    let total = p.media.frames();
    let at = clock_frame(p, elapsed);
    if total > 0 && at >= total {
        if p.loop_playback {
            let (q, r) = started_over(p);
            (q, r, 0)
        } else {
            (
                Player { is_playing: false, ..p },
                Reaction { stream: StreamCommand::Stop, ..calm() },
                total - 1,
            )
        }
    } else {
        (p, calm(), at)
    }
}

/// The stream from its start.
pub open spec fn started_over(p: Player) -> (Player, Reaction) {
    (
        Player { clock_synced: false, start_frame: 0, current_frame: 0, ..p },
        Reaction { stream: StreamCommand::Start(0), restart_clock: true, ..calm() },
    )
}

/// What becomes of a frame that the stream has delivered.
#[derive(Debug, Clone, Copy, PartialEq, Eq, Structural)]
pub struct Arrival {
    /// The frame is due and is shown; else it is kept for later.
    pub due: bool,
    /// The frame that is due now.
    pub target: usize,
    pub restart_clock: bool,
}

/// A frame of the stream arrives while `target` is due. The first one starts the clock.
pub open spec fn arrived(p: Player, target: usize, index: usize) -> (Player, Arrival) {
    if p.clock_synced {
        (p, Arrival { due: index <= target, target, restart_clock: false })
    } else {
        (
            Player { clock_synced: true, start_frame: index, ..p },
            Arrival { due: true, target: index, restart_clock: true },
        )
    }
}

/// The stream has no more frames.
pub open spec fn ran_dry(p: Player) -> (Player, Reaction) {
    if p.loop_playback && p.media.frames() > 0 {
        started_over(p)
    } else {
        (
            Player { is_playing: false, ..p },
            Reaction { stream: StreamCommand::Stop, ..calm() },
        )
    }
}

/// The frame that was fetched is there, or does not come.
pub open spec fn fetched(p: Player) -> (Player, Reaction) {
    let q = Player { seeking: false, pending_seek: None, ..p };
    match p.pending_seek {
        Some(f) => sought(q, f as int),
        None => (q, calm()),
    }
}

/// The scrubber is taken: playback waits.
pub open spec fn scrub_begun(p: Player) -> (Player, Reaction) {
    if p.is_playing {
        (
            Player { resume_after_scrub: true, is_playing: false, ..p },
            Reaction { stream: stop_stream(p.media), ..calm() },
        )
    } else {
        (p, calm())
    }
}

/// The scrubber is let go: playback goes on, or the frame is shown.
pub open spec fn scrub_ended(p: Player) -> (Player, Reaction) {
    if p.resume_after_scrub {
        (
            Player {
                resume_after_scrub: false,
                is_playing: true,
                clock_synced: false,
                start_frame: p.current_frame,
                ..p
            },
            Reaction {
                stream: if p.media.stream is Some {
                    StreamCommand::Start(p.current_frame)
                } else {
                    StreamCommand::Leave
                },
                restart_clock: true,
                restart_meter: true,
                show_current: false,
            },
        )
    } else {
        sought(p, p.current_frame as int)
    }
}

impl Player {
    /// A player with nothing loaded.
    pub fn new() -> (r: Self)
        ensures
            r == (Player {
                media: Media {
                    movie: None,
                    stream: None,
                    still: None,
                    found: InputFacts { frames: 0, width: 0, height: 0 },
                },
                current_frame: 0,
                is_playing: false,
                loop_playback: true,
                clock_synced: false,
                start_frame: 0,
                resume_after_scrub: false,
                seeking: false,
                pending_seek: None,
            }),
    {
        Player {
            media: Media {
                movie: None,
                stream: None,
                still: None,
                found: InputFacts { frames: 0, width: 0, height: 0 },
            },
            current_frame: 0,
            is_playing: false,
            loop_playback: true,
            clock_synced: false,
            start_frame: 0,
            resume_after_scrub: false,
            seeking: false,
            pending_seek: None,
        }
    }

    fn stop_command(&self) -> (r: StreamCommand)
        ensures
            r == stop_stream(self.media),
    {
        if self.media.stream.is_some() {
            StreamCommand::Stop
        } else {
            StreamCommand::Leave
        }
    }

    /// Plays or pauses.
    pub fn toggle_playback(&mut self) -> (r: Reaction)
        ensures
            (*final(self), r) == toggled(*old(self)),
    {
        if self.is_playing {
            self.is_playing = false;
            return Reaction { stream: self.stop_command(), ..nothing() };
        }
        let total: usize = self.media.video_total_frames();
        if total == 0 {
            return nothing();
        }
        if self.current_frame >= total - 1 {
            self.current_frame = 0;
        }
        self.is_playing = true;
        self.clock_synced = false;
        self.start_frame = self.current_frame;
        Reaction {
            stream: if self.media.stream.is_some() {
                StreamCommand::Start(self.current_frame)
            } else {
                StreamCommand::Leave
            },
            restart_clock: true,
            restart_meter: true,
            show_current: self.media.stream.is_none() && self.media.movie.is_some(),
        }
    }

    /// Goes to a frame, or to the last one if there is none of that number.
    pub fn seek_to_frame(&mut self, frame: usize) -> (r: Reaction)
        ensures
            (*final(self), r) == sought(*old(self), frame as int),
    {
        let total: usize = self.media.video_total_frames();
        let target: usize = if total == 0 {
            0
        } else if frame < total {
            frame
        } else {
            total - 1
        };
        self.current_frame = target;
        if self.media.stream.is_some() {
            if self.is_playing {
                self.clock_synced = false;
                self.start_frame = target;
                Reaction { stream: StreamCommand::Start(target), restart_clock: true, ..nothing() }
            } else if self.seeking {
                self.pending_seek = Some(target);
                nothing()
            } else {
                self.seeking = true;
                Reaction { stream: StreamCommand::Fetch(target), ..nothing() }
            }
        } else if self.media.movie.is_some() {
            self.clock_synced = false;
            self.start_frame = target;
            Reaction { restart_clock: true, show_current: true, ..nothing() }
        } else {
            nothing()
        }
    }

    /// Goes `n` frames on or back, if a video with frames is loaded.
    pub fn step(&mut self, back: bool, n: usize) -> (r: Reaction)
        ensures
            (*final(self), r) == if old(self).media.playable() && old(self).media.frames() > 0 {
                sought(*old(self), stepped(*old(self), back, n as int))
            } else {
                (*old(self), calm())
            },
    {
        let total: usize = self.media.video_total_frames();
        if !self.media.has_video_loaded() || total == 0 {
            return nothing();
        }
        let target: usize = if back {
            self.current_frame.saturating_sub(n)
        } else {
            self.current_frame.saturating_add(n)
        };
        self.seek_to_frame(target)
    }

    /// A moment of playing a movie, `elapsed` frames after the clock was started.
    pub fn tick_movie(&mut self, elapsed: usize) -> (r: Reaction)
        ensures
            (*final(self), r) == movie_ticked(*old(self), elapsed as int),
    {
        let total: usize = self.media.video_total_frames();
        let before: usize = self.current_frame;
        let was_synced: bool = self.clock_synced;
        let target: usize = self.due_frame(elapsed);
        let ended: bool = total > 0 && target >= total;
        self.clock_synced = true;
        if ended && self.loop_playback {
            self.clock_synced = false;
            self.start_frame = 0;
            self.current_frame = 0;
        } else if ended {
            self.is_playing = false;
            self.current_frame = total - 1;
        } else {
            self.current_frame = target;
        }
        Reaction {
            restart_clock: !was_synced || (ended && self.loop_playback),
            show_current: self.current_frame != before,
            ..nothing()
        }
    }

    /// The frame that the clock is at.
    fn due_frame(&self, elapsed: usize) -> (r: usize)
        ensures
            r == clock_frame(*self, elapsed as int),
    {
        if self.clock_synced {
            self.start_frame.saturating_add(elapsed)
        } else {
            self.start_frame
        }
    }

    fn start_over(&mut self) -> (r: Reaction)
        ensures
            (*final(self), r) == started_over(*old(self)),
    {
        self.clock_synced = false;
        self.start_frame = 0;
        self.current_frame = 0;
        Reaction { stream: StreamCommand::Start(0), restart_clock: true, ..nothing() }
    }

    /// A moment of playing a stream, `elapsed` frames after the clock was started: what to do, and
    /// the frame that is due.
    pub fn tick_stream(&mut self, elapsed: usize) -> (r: (Reaction, usize))
        ensures
            (*final(self), r.0, r.1 as int) == stream_ticked(*old(self), elapsed as int),
    {
        let total: usize = self.media.video_total_frames();
        let target: usize = self.due_frame(elapsed);
        if total > 0 && target >= total {
            if self.loop_playback {
                (self.start_over(), 0)
            } else {
                self.is_playing = false;
                (Reaction { stream: StreamCommand::Stop, ..nothing() }, total - 1)
            }
        } else {
            (nothing(), target)
        }
    }

    /// A frame of the stream arrives while `target` is due.
    pub fn frame_arrived(&mut self, target: usize, index: usize) -> (r: Arrival)
        ensures
            (*final(self), r) == arrived(*old(self), target, index),
    {
        if self.clock_synced {
            Arrival { due: index <= target, target, restart_clock: false }
        } else {
            self.clock_synced = true;
            self.start_frame = index;
            Arrival { due: true, target: index, restart_clock: true }
        }
    }

    /// The last of the frames that were due is shown.
    pub fn frame_shown(&mut self, index: usize)
        ensures
            *final(self) == (Player { current_frame: index, ..*old(self) }),
    {
        self.current_frame = index;
    }

    /// The stream has no more frames.
    pub fn stream_ended(&mut self) -> (r: Reaction)
        ensures
            (*final(self), r) == ran_dry(*old(self)),
    {
        if self.loop_playback && self.media.video_total_frames() > 0 {
            self.start_over()
        } else {
            self.is_playing = false;
            Reaction { stream: StreamCommand::Stop, ..nothing() }
        }
    }

    /// The frame that was fetched is there, or does not come.
    pub fn fetch_ended(&mut self) -> (r: Reaction)
        ensures
            (*final(self), r) == fetched(*old(self)),
    {
        let pending = self.pending_seek;
        self.seeking = false;
        self.pending_seek = None;
        match pending {
            Some(f) => self.seek_to_frame(f),
            None => nothing(),
        }
    }

    /// The scrubber is taken.
    pub fn scrub_start(&mut self) -> (r: Reaction)
        ensures
            (*final(self), r) == scrub_begun(*old(self)),
    {
        if self.is_playing {
            self.resume_after_scrub = true;
            self.is_playing = false;
            Reaction { stream: self.stop_command(), ..nothing() }
        } else {
            nothing()
        }
    }

    /// The scrubber is moved to a frame.
    pub fn scrub_to(&mut self, target: usize) -> (r: Reaction)
        ensures
            (*final(self), r) == if target == old(self).current_frame {
                (*old(self), calm())
            } else {
                sought(*old(self), target as int)
            },
    {
        if target == self.current_frame {
            nothing()
        } else {
            self.seek_to_frame(target)
        }
    }

    /// The scrubber is let go.
    pub fn scrub_stop(&mut self) -> (r: Reaction)
        ensures
            (*final(self), r) == scrub_ended(*old(self)),
    {
        if self.resume_after_scrub {
            self.resume_after_scrub = false;
            self.is_playing = true;
            self.clock_synced = false;
            self.start_frame = self.current_frame;
            Reaction {
                stream: if self.media.stream.is_some() {
                    StreamCommand::Start(self.current_frame)
                } else {
                    StreamCommand::Leave
                },
                restart_clock: true,
                restart_meter: true,
                show_current: false,
            }
        } else {
            self.seek_to_frame(self.current_frame)
        }
    }

    /// A HAP movie was opened: it plays from its first frame.
    pub fn movie_loaded(&mut self, clip: Clip) -> (r: Reaction)
        ensures
            *final(self) == (Player {
                media: Media {
                    movie: Some(clip),
                    stream: None,
                    still: None,
                    found: old(self).media.found,
                },
                current_frame: 0,
                is_playing: true,
                ..*old(self)
            }),
            r == (Reaction {
                stream: stop_stream(old(self).media),
                restart_meter: true,
                ..calm()
            }),
    {
        let stream = self.stop_command();
        self.media = Media { movie: Some(clip), stream: None, still: None, found: self.media.found };
        self.current_frame = 0;
        self.is_playing = true;
        Reaction { stream, restart_meter: true, ..nothing() }
    }

    /// A still image was opened.
    pub fn still_loaded(&mut self, width: usize, height: usize) -> (r: Reaction)
        ensures
            *final(self) == (Player {
                media: Media {
                    movie: None,
                    stream: None,
                    still: Some((width, height)),
                    found: old(self).media.found,
                },
                current_frame: 0,
                is_playing: false,
                ..*old(self)
            }),
            r == (Reaction { stream: stop_stream(old(self).media), ..calm() }),
    {
        let stream = self.stop_command();
        self.media = Media {
            movie: None,
            stream: None,
            still: Some((width, height)),
            found: self.media.found,
        };
        self.current_frame = 0;
        self.is_playing = false;
        Reaction { stream, ..nothing() }
    }

    /// A video was opened: its stream plays from the first frame.
    pub fn stream_loaded(&mut self, clip: Clip, found: InputFacts) -> (r: Reaction)
        ensures
            *final(self) == (Player {
                media: Media { movie: None, stream: Some(clip), still: None, found },
                current_frame: 0,
                is_playing: true,
                clock_synced: false,
                start_frame: 0,
                ..*old(self)
            }),
            r == (Reaction {
                stream: StreamCommand::Start(0),
                restart_clock: true,
                restart_meter: true,
                show_current: false,
            }),
    {
        self.media = Media { movie: None, stream: Some(clip), still: None, found };
        self.current_frame = 0;
        self.is_playing = true;
        self.clock_synced = false;
        self.start_frame = 0;
        Reaction {
            stream: StreamCommand::Start(0),
            restart_clock: true,
            restart_meter: true,
            show_current: false,
        }
    }

    /// A sequence of images was found.
    pub fn sequence_loaded(&mut self, found: InputFacts) -> (r: Reaction)
        ensures
            *final(self) == (Player {
                media: Media { movie: None, stream: None, still: None, found },
                ..*old(self)
            }),
            r == (Reaction { stream: stop_stream(old(self).media), ..calm() }),
    {
        let stream = self.stop_command();
        self.media = Media { movie: None, stream: None, still: None, found };
        Reaction { stream, ..nothing() }
    }

    /// What was loaded is closed.
    pub fn close_media(&mut self) -> (r: Reaction)
        ensures
            *final(self) == (Player {
                media: Media {
                    movie: None,
                    stream: None,
                    still: None,
                    found: InputFacts { frames: 0, width: 0, height: 0 },
                },
                current_frame: 0,
                is_playing: false,
                resume_after_scrub: false,
                seeking: false,
                pending_seek: None,
                ..*old(self)
            }),
            r == (Reaction { stream: stop_stream(old(self).media), ..calm() }),
    {
        let stream = self.stop_command();
        self.media = Media {
            movie: None,
            stream: None,
            still: None,
            found: InputFacts { frames: 0, width: 0, height: 0 },
        };
        self.current_frame = 0;
        self.is_playing = false;
        self.resume_after_scrub = false;
        self.seeking = false;
        self.pending_seek = None;
        Reaction { stream, ..nothing() }
    }
}

// ---------------------------------------------------------------------------------------------
// The speed of playback.
// ---------------------------------------------------------------------------------------------

/// Counts the frames that are shown. The speed is measured anew every half second.
#[derive(Debug, Clone, Copy, PartialEq, Eq, Structural)]
pub struct FrameMeter {
    /// The frames since the last measurement.
    pub frames: usize,
}

/// Half a second or more has passed.
pub open spec fn is_measured(seconds: Single) -> bool {
    seconds !is Nan && !crate::single::less(seconds, crate::single::ratio(1, 2))
}

/// The frames that are counted with some more, as far as they can be counted.
pub open spec fn counted(frames: int, more: int) -> int {
    if frames + more > usize::MAX {
        usize::MAX as int
    } else {
        frames + more
    }
}

impl FrameMeter {
    /// Counts frames, some seconds after the last measurement. If it is time for one, the result is
    /// the speed in frames per second, and counting starts over.
    pub fn count(&mut self, more: usize, seconds: Single) -> (r: Option<Single>)
        requires
            seconds.wf(),
        ensures
            ({
                let total = counted(old(self).frames as int, more as int);
                if is_measured(seconds) {
                    &&& r == Some(
                        crate::single::quotient(crate::single::whole_number(total), seconds),
                    )
                    &&& final(self).frames == 0
                } else {
                    &&& r is None
                    &&& final(self).frames == total
                }
            }),
    {
        let total: usize = self.frames.saturating_add(more);
        let measured: bool = match seconds {
            Single::Nan => false,
            _ => !seconds.lt(Single::from_ratio(1, 2)),
        };
        if measured {
            self.frames = 0;
            Some(Single::from_u64(total as u64).over(seconds))
        } else {
            self.frames = total;
            None
        }
    }
}

// ---------------------------------------------------------------------------------------------
// Laws.
// ---------------------------------------------------------------------------------------------

/// Wherever a seek was meant to go, the current frame is one of the video.
pub proof fn law_seek_stays_inside(p: Player, frame: int)
    requires
        0 <= frame,
        p.media.frames() > 0,
    ensures
        sought(p, frame).0.current_frame < p.media.frames(),
        frame < p.media.frames() ==> sought(p, frame).0.current_frame == frame,
{
}

/// While a movie plays, the current frame is one of the movie; playback that does not loop ends on
/// the last frame, playback that loops goes on from the first.
pub proof fn law_playback_stays_inside(p: Player, elapsed: int)
    requires
        0 <= elapsed,
        p.is_playing,
        p.media.frames() > 0,
    ensures
        ({
            let q = movie_ticked(p, elapsed).0;
            &&& q.current_frame < p.media.frames()
            &&& p.loop_playback ==> q.is_playing
            &&& !q.is_playing ==> q.current_frame == p.media.frames() - 1
            &&& clock_frame(p, elapsed) < p.media.frames() ==> q.current_frame == clock_frame(
                p,
                elapsed,
            )
        }),
{
}

/// Pausing and playing again goes on from the same frame, unless it is the last.
pub proof fn law_pause_and_play(p: Player)
    requires
        p.is_playing,
        p.media.frames() > 0,
    ensures
        ({
            let q = toggled(toggled(p).0).0;
            &&& !toggled(p).0.is_playing
            &&& q.is_playing
            &&& p.current_frame + 1 < p.media.frames() ==> q.current_frame == p.current_frame
                && q.start_frame == p.current_frame
        }),
{
}

/// While a frame is fetched from a stream no other is: of all the targets that come meanwhile the
/// last one is fetched next.
pub proof fn law_one_fetch_at_a_time(p: Player, first: int, second: int)
    requires
        p.media.stream is Some,
        p.media.frames() > 0,
        !p.is_playing,
        p.seeking,
        0 <= first,
        0 <= second < p.media.frames(),
    ensures
        ({
            let q = sought(sought(p, first).0, second).0;
            &&& sought(p, first).1.stream == StreamCommand::Leave
            &&& sought(sought(p, first).0, second).1.stream == StreamCommand::Leave
            &&& fetched(q).1.stream == StreamCommand::Fetch(second as usize)
            &&& fetched(q).0.seeking
            &&& fetched(q).0.pending_seek is None
        }),
{
}

/// Taking the scrubber and letting it go leaves playback as it was.
pub proof fn law_scrub_resumes(p: Player)
    requires
        !p.resume_after_scrub,
    ensures
        !scrub_begun(p).0.is_playing,
        scrub_ended(scrub_begun(p).0).0.is_playing == p.is_playing,
        !scrub_ended(scrub_begun(p).0).0.resume_after_scrub,
{
}

/// No frame of a stream is shown before it is due, and the first one that arrives is due.
pub proof fn law_frames_in_time(p: Player, target: usize, index: usize)
    ensures
        ({
            let (q, a) = arrived(p, target, index);
            &&& q.clock_synced
            &&& a.due == (index <= a.target)
            &&& !p.clock_synced ==> a.due && q.start_frame == index
            &&& p.clock_synced ==> a.target == target
        }),
{
}

// ---------------------------------------------------------------------------------------------
// Channels.
// ---------------------------------------------------------------------------------------------

/// Which channels are shown.
#[derive(Debug, Clone, Copy, PartialEq, Eq, Structural)]
pub enum ChannelViewMode {
    Rgba,
    AlphaMatte,
    RgbOpaque,
}

/// What is shown behind transparent pixels.
#[derive(Debug, Clone, Copy, PartialEq, Eq, Structural)]
pub enum BackgroundViewMode {
    Checkerboard,
    Dark,
    Light,
}

/// The pixels as they are shown: all channels, the colours without transparency, or the alpha
/// channel as grey. Bytes after the last whole pixel stay as they are.
pub open spec fn shown(mode: ChannelViewMode, rgba: Seq<u8>) -> Seq<u8> {
    Seq::new(
        rgba.len(),
        |i: int|
            if i >= rgba.len() / 4 * 4 || mode == ChannelViewMode::Rgba {
                rgba[i]
            } else if i % 4 == 3 {
                255
            } else if mode == ChannelViewMode::AlphaMatte {
                rgba[i / 4 * 4 + 3]
            } else {
                rgba[i]
            },
    )
}

/// Changes pixels to how they are shown.
pub fn show_channels(mode: ChannelViewMode, rgba: &mut [u8])
    ensures
        final(rgba)@ == shown(mode, old(rgba)@),
{
    let ghost before = rgba@;
    if mode == ChannelViewMode::Rgba {
        assert(rgba@ =~= shown(mode, before));
        return;
    }
    assert(rgba@.len() == rgba.len());
    let whole: usize = rgba.len() / 4;
    let mut p: usize = 0;
    while p < whole
        invariant
            p <= whole,
            whole == before.len() / 4,
            before.len() <= usize::MAX,
            rgba@.len() == before.len(),
            mode != ChannelViewMode::Rgba,
            forall|i: int| 0 <= i < 4 * p ==> rgba@[i] == shown(mode, before)[i],
            forall|i: int| 4 * p <= i < before.len() ==> rgba@[i] == before[i],
        decreases whole - p,
    {
        let at: usize = 4 * p;
        if mode == ChannelViewMode::AlphaMatte {
            let a: u8 = rgba[at + 3];
            rgba[at] = a;
            rgba[at + 1] = a;
            rgba[at + 2] = a;
        }
        rgba[at + 3] = 255;
        p = p + 1;
    }
    assert(rgba@ =~= shown(mode, before));
}

/// Showing the colours without transparency changes no colour, and showing them so twice changes
/// nothing more.
pub proof fn law_opaque_view(rgba: Seq<u8>, i: int)
    requires
        0 <= i < rgba.len(),
    ensures
        i % 4 != 3 ==> shown(ChannelViewMode::RgbOpaque, rgba)[i] == rgba[i],
        shown(ChannelViewMode::RgbOpaque, shown(ChannelViewMode::RgbOpaque, rgba)) == shown(
            ChannelViewMode::RgbOpaque,
            rgba,
        ),
{
    let once = shown(ChannelViewMode::RgbOpaque, rgba);
    assert(shown(ChannelViewMode::RgbOpaque, once) =~= once);
}

// ---------------------------------------------------------------------------------------------
// What the transitions keep and what they ask for.
// ---------------------------------------------------------------------------------------------

/// What is loaded stays loaded, and only playing on from the end, a seek and the clock move the
/// frame. Pausing stops the stream, if there is one, and leaves all else. Playing starts the clock
/// and the meter at the frame that is shown: the one before, or the first after the last. A stream
/// delivers from that frame on, and of a movie it is decoded. Without frames nothing happens.
pub proof fn law_toggle(p: Player)
    ensures
        ({
            let (q, r) = toggled(p);
            &&& q.media == p.media && q.loop_playback == p.loop_playback && q.seeking == p.seeking
                && q.pending_seek == p.pending_seek && q.resume_after_scrub
                == p.resume_after_scrub
            &&& p.is_playing || p.media.frames() > 0 ==> q.is_playing != p.is_playing
            &&& !p.is_playing && p.media.frames() == 0 ==> q == p && r == calm()
            &&& p.is_playing ==> {
                &&& q.current_frame == p.current_frame && q.start_frame == p.start_frame
                    && q.clock_synced == p.clock_synced
                &&& !r.restart_clock && !r.restart_meter && !r.show_current
                &&& r.stream == StreamCommand::Stop <==> p.media.stream is Some
                &&& r.stream == StreamCommand::Leave <==> p.media.stream is None
            }
            &&& q.is_playing && !p.is_playing ==> {
                &&& q.start_frame == q.current_frame && !q.clock_synced
                &&& r.restart_clock && r.restart_meter
                &&& p.current_frame < p.media.frames() - 1 ==> q.current_frame == p.current_frame
                &&& p.current_frame >= p.media.frames() - 1 ==> q.current_frame == 0
                &&& p.media.stream is Some ==> r.stream == StreamCommand::Start(q.current_frame)
                    && !r.show_current
                &&& p.media.stream is None ==> r.stream == StreamCommand::Leave && r.show_current
                    == (p.media.movie is Some)
            }
        }),
{
}

/// A seek goes to the frame, or to the last one if it is past it, and neither starts nor stops
/// playback. A stream that plays goes on from there; one that does not fetches the frame, unless it
/// is fetching one, and the new frame waits. Of a movie the frame is decoded. The clock runs from
/// the frame anew where something plays or a movie is loaded.
pub proof fn law_seek(p: Player, frame: int)
    requires
        0 <= frame,
    ensures
        ({
            let (q, r) = sought(p, frame);
            let n = p.media.frames();
            let at = q.current_frame;
            let timed = p.media.stream is None && p.media.movie is Some || p.media.stream is Some
                && p.is_playing;
            &&& q.media == p.media && q.loop_playback == p.loop_playback && q.is_playing
                == p.is_playing && q.resume_after_scrub == p.resume_after_scrub
            &&& n == 0 ==> at == 0
            &&& n > 0 && frame <= n - 1 ==> at == frame
            &&& n > 0 && frame >= n - 1 ==> at == n - 1
            &&& r.restart_clock == timed && !r.restart_meter
            &&& r.show_current == (p.media.stream is None && p.media.movie is Some)
            &&& timed ==> q.start_frame == at && !q.clock_synced
            &&& !timed ==> q.start_frame == p.start_frame && q.clock_synced == p.clock_synced
            &&& p.media.stream is None ==> r.stream == StreamCommand::Leave && q.seeking
                == p.seeking && q.pending_seek == p.pending_seek
            &&& p.media.stream is Some && p.is_playing ==> r.stream == StreamCommand::Start(at)
                && q.seeking == p.seeking && q.pending_seek == p.pending_seek
            &&& p.media.stream is Some && !p.is_playing && p.seeking ==> r.stream
                == StreamCommand::Leave && q.seeking && q.pending_seek == Some(at)
            &&& p.media.stream is Some && !p.is_playing && !p.seeking ==> r.stream
                == StreamCommand::Fetch(at) && q.seeking && q.pending_seek == p.pending_seek
        }),
{
}

/// Steps on and back by the same number meet; no step goes back past the first frame, and one
/// towards it goes back by its number where there are as many frames.
pub proof fn law_steps(p: Player, n: int, m: int)
    requires
        0 <= n,
        0 <= m,
    ensures
        stepped(p, false, n) - p.current_frame == n,
        stepped(p, true, n) >= 0,
        n <= p.current_frame ==> p.current_frame - stepped(p, true, n) == n,
        n >= p.current_frame ==> stepped(p, true, n) == 0,
        n <= m ==> stepped(p, false, n) <= stepped(p, false, m) && stepped(p, true, m) <= stepped(
            p,
            true,
            n,
        ),
{
}

/// The clock counts frames from the start frame on: the first moment of playback shows it and
/// starts the clock, and a moment `elapsed` frames later shows the frame so many on.
pub proof fn law_clock(p: Player, any: int, elapsed: int)
    requires
        0 <= elapsed,
        !p.clock_synced,
        p.media.frames() > 0,
        p.start_frame < p.media.frames(),
    ensures
        ({
            let (q, r) = movie_ticked(p, any);
            let (s, t) = movie_ticked(q, elapsed);
            let due = p.start_frame + elapsed;
            let n = p.media.frames();
            &&& q.clock_synced && q.current_frame == p.start_frame && q.start_frame
                == p.start_frame
            &&& q.is_playing == p.is_playing && r.restart_clock
            &&& s.media == p.media && s.loop_playback == p.loop_playback
            &&& due < n ==> s.current_frame == due && s.is_playing == p.is_playing && s.start_frame
                == p.start_frame && s.clock_synced && !t.restart_clock
            &&& due >= n && p.loop_playback ==> s.current_frame == 0 && s.start_frame == 0
                && !s.clock_synced && t.restart_clock && s.is_playing == p.is_playing
            &&& due >= n && !p.loop_playback ==> s.current_frame == n - 1 && !s.is_playing
                && !t.restart_clock
            &&& r.show_current == (q.current_frame != p.current_frame)
            &&& t.show_current == (s.current_frame != q.current_frame)
            &&& r.stream == StreamCommand::Leave && t.stream == StreamCommand::Leave
            &&& !r.restart_meter && !t.restart_meter
        }),
{
}

/// While a stream plays, the frame that is due is the one that the clock counts to. At the end
/// playback that loops starts the stream over, with a clock that waits for its first frame;
/// playback that does not loop stops, and the last frame is due. The same happens when the stream
/// ends by itself.
pub proof fn law_stream_clock(p: Player, elapsed: int)
    requires
        0 <= elapsed,
        p.clock_synced,
        p.media.frames() > 0,
        p.start_frame + elapsed <= usize::MAX,
    ensures
        ({
            let (q, r, target) = stream_ticked(p, elapsed);
            let due = p.start_frame + elapsed;
            let n = p.media.frames();
            &&& due < n ==> target == due && q == p && r == calm()
            &&& due >= n ==> {
                &&& q == ran_dry(p).0 && r == ran_dry(p).1
                &&& target == if p.loop_playback {
                    0
                } else {
                    n - 1
                }
            }
        }),
        ({
            let (q, r) = ran_dry(p);
            &&& q.media == p.media && q.loop_playback == p.loop_playback && q.seeking == p.seeking
                && q.pending_seek == p.pending_seek
            &&& !r.restart_meter && !r.show_current && r.restart_clock == p.loop_playback
            &&& p.loop_playback ==> q.is_playing == p.is_playing && q.current_frame == 0
                && q.start_frame == 0 && !q.clock_synced && r.stream == StreamCommand::Start(0)
            &&& !p.loop_playback ==> !q.is_playing && q.current_frame == p.current_frame && r.stream
                == StreamCommand::Stop
        }),
{
}

/// When a fetched frame is there, the one that waits is fetched, or none is. What was waiting goes
/// where a seek to it would.
pub proof fn law_fetch_done(p: Player)
    ensures
        ({
            let (q, r) = fetched(p);
            &&& p.pending_seek is None ==> r == calm() && !q.seeking && q.current_frame
                == p.current_frame
            &&& q.pending_seek is None
            &&& q.is_playing == p.is_playing && q.media == p.media
            &&& (p.pending_seek matches Some(f) && f < p.media.frames()) ==> q.current_frame
                == p.pending_seek->0
            &&& p.pending_seek is Some && p.media.stream is Some && !p.is_playing ==> q.seeking
                && r.stream == StreamCommand::Fetch(q.current_frame)
        }),
{
}

/// While the scrubber is held nothing plays, and what played before plays on, from the frame that
/// it was let go at. If nothing played, that frame is shown as a seek shows it.
pub proof fn law_scrub(p: Player)
    ensures
        ({
            let (q, r) = scrub_begun(p);
            &&& !q.is_playing && q.current_frame == p.current_frame && q.media == p.media
            &&& q.resume_after_scrub == (p.is_playing || p.resume_after_scrub)
            &&& r.stream == if p.is_playing && p.media.stream is Some {
                StreamCommand::Stop
            } else {
                StreamCommand::Leave
            }
            &&& !r.restart_clock && !r.restart_meter && !r.show_current
        }),
        ({
            let (q, r) = scrub_ended(p);
            &&& !q.resume_after_scrub && q.media == p.media
            &&& p.resume_after_scrub ==> {
                &&& q.is_playing && q.current_frame == p.current_frame && q.start_frame
                    == p.current_frame && !q.clock_synced
                &&& r.restart_clock && r.restart_meter && !r.show_current
                &&& p.media.stream is Some ==> r.stream == StreamCommand::Start(p.current_frame)
                &&& p.media.stream is None ==> r.stream == StreamCommand::Leave
            }
            &&& !p.resume_after_scrub ==> q == sought(p, p.current_frame as int).0 && r == sought(
                p,
                p.current_frame as int,
            ).1
        }),
{
}

/// A movie comes before a stream, a stream before a still image, and that before what was found of
/// the input: what comes later does not change the frames, the dimensions or the rate. A still
/// image is one frame.
pub proof fn law_media_order(
    clip: Clip,
    stream: Option<Clip>,
    still: (usize, usize),
    found: InputFacts,
    m: Single,
    s: Single,
    chosen: Single,
)
    ensures
        ({
            let a = Media { movie: Some(clip), stream, still: Some(still), found };
            let b = Media { movie: None, stream: Some(clip), still: Some(still), found };
            let c = Media { movie: None, stream: None, still: Some(still), found };
            let d = Media { movie: None, stream: None, still: None, found };
            &&& a.frames() == clip.total && a.size() == (clip.width as int, clip.height as int)
            &&& b.frames() == clip.total && b.size() == (clip.width as int, clip.height as int)
            &&& c.frames() == 1 && c.size() == (still.0 as int, still.1 as int)
            &&& d.frames() == found.frames && d.size() == (found.width as int, found.height as int)
            &&& a.playable() && b.playable() && !c.playable() && !d.playable()
            &&& crate::single::less(m, crate::single::whole_number(1)) ==> a.rate(m, s, chosen)
                == crate::single::whole_number(1)
            &&& crate::single::less(s, crate::single::whole_number(1)) ==> b.rate(m, s, chosen)
                == crate::single::whole_number(1)
            &&& crate::single::less(crate::single::whole_number(1), m) ==> a.rate(m, s, chosen)
                == m
            &&& crate::single::less(crate::single::whole_number(1), s) ==> b.rate(m, s, chosen)
                == s
            &&& c.rate(m, s, chosen) == d.rate(m, s, chosen)
            &&& crate::single::less(crate::single::whole_number(0), chosen) ==> c.rate(m, s, chosen)
                == chosen
            &&& !crate::single::less(crate::single::whole_number(0), chosen) ==> c.rate(
                m,
                s,
                chosen,
            ) == crate::single::whole_number(30)
        }),
{
    reveal(crate::single::less);
}

/// The alpha view is grey: every channel of a whole pixel is its alpha, and it is opaque. The plain
/// view changes nothing, and the opaque one has alpha 255. Bytes after the last whole pixel stay.
pub proof fn law_channel_views(rgba: Seq<u8>, p: int, c: int)
    requires
        0 <= c < 4,
        0 <= p,
        4 * p + 4 <= rgba.len(),
    ensures
        shown(ChannelViewMode::Rgba, rgba) == rgba,
        c < 3 ==> shown(ChannelViewMode::AlphaMatte, rgba)[4 * p + c] == rgba[4 * p + 3],
        shown(ChannelViewMode::AlphaMatte, rgba)[4 * p + 3] == 255,
        shown(ChannelViewMode::RgbOpaque, rgba)[4 * p + 3] == 255,
        forall|mode: ChannelViewMode, i: int|
            rgba.len() - rgba.len() % 4 <= i < rgba.len() ==> #[trigger] shown(mode, rgba)[i]
                == rgba[i],
        forall|mode: ChannelViewMode| (#[trigger] shown(mode, rgba)).len() == rgba.len(),
{
    assert(shown(ChannelViewMode::Rgba, rgba) =~= rgba);
}

/// Frames are counted up to the most that can be counted.
pub proof fn law_counted(frames: int, more: int)
    requires
        0 <= frames <= usize::MAX,
        0 <= more <= usize::MAX,
    ensures
        frames + more <= usize::MAX ==> counted(frames, more) - more == frames,
        frames + more > usize::MAX ==> counted(frames, more) == usize::MAX,
        frames <= counted(frames, more),
{
}

} // verus!
