//! Jobs: turning frames into a movie, and a movie into files.

use crate::color::EncodeOptions;
use crate::encoder::{
    encode_frame_with_options, pack_single_texture_frame, EncodeError, EncodeFault,
};
use crate::mov::writer::{MovWriterError, MovWriterFault, MovieTail, QtHapWriter, VideoConfig};
use crate::single::Single;
use crate::text::push_padded;
use vstd::prelude::*;

verus! {

/// Errors of an encoding job.
#[derive(Debug)]
pub enum JobError {
    /// The dimensions are not multiples of 4.
    Dimensions { width: usize, height: usize },
    /// A frame could not be encoded.
    Encoding(EncodeError),
    /// The movie could not be written.
    Movie(MovWriterError),
    /// The movie has more bytes than a file can have.
    TooLarge,
}

/// The error of a job, without the words of its parts.
pub enum JobFault {
    Dimensions { width: int, height: int },
    Encoding(EncodeFault),
    Movie(MovWriterFault),
    TooLarge,
}

impl View for JobError {
    type V = JobFault;

    open spec fn view(&self) -> JobFault {
        match *self {
            JobError::Dimensions { width, height } => JobFault::Dimensions {
                width: width as int,
                height: height as int,
            },
            JobError::Encoding(e) => JobFault::Encoding(e@),
            JobError::Movie(e) => JobFault::Movie(e@),
            JobError::TooLarge => JobFault::TooLarge,
        }
    }
}

/// A movie that is being made of frames.
pub struct EncodeJob {
    options: EncodeOptions,
    width: usize,
    height: usize,
    total: usize,
    done: usize,
    bytes: u64,
    writer: QtHapWriter,
}

/// The track of a movie.
pub open spec fn job_config(width: int, height: int, fps: Single, options: EncodeOptions) -> VideoConfig {
    VideoConfig {
        width: (width % 0x1_0000_0000) as u32,
        height: (height % 0x1_0000_0000) as u32,
        fps,
        format: options.format,
        timescale: crate::mov::writer::timescale_for(fps) as u32,
    }
}

/// Why a job cannot be started.
pub open spec fn job_fault(width: int, height: int, fps: Single, options: EncodeOptions) -> Option<
    JobFault,
> {
    if !crate::dxt::whole_blocks(width, height) {
        Some(JobFault::Dimensions { width, height })
    } else {
        match crate::mov::writer::config_fault(job_config(width, height, fps, options)) {
            Some(m) => Some(JobFault::Movie(MovWriterFault::InvalidConfig(m))),
            None => None,
        }
    }
}

impl EncodeJob {
    /// The options of every frame.
    pub closed spec fn settings(self) -> EncodeOptions {
        self.options
    }

    /// The dimensions of every frame.
    pub closed spec fn size(self) -> (int, int) {
        (self.width as int, self.height as int)
    }

    /// The track of the movie.
    pub closed spec fn track(self) -> VideoConfig {
        self.writer.settings()
    }

    /// The frames written so far.
    pub closed spec fn packets(self) -> Seq<Seq<u8>> {
        self.writer.written()
    }

    /// The number of frames that are expected.
    pub closed spec fn expected(self) -> int {
        self.total as int
    }

    /// The counts are those of the frames.
    pub closed spec fn wf(self) -> bool {
        &&& self.writer.wf()
        &&& !self.writer.complete()
        &&& crate::dxt::whole_blocks(self.width as int, self.height as int)
        &&& self.width * self.height * 4 <= usize::MAX
        &&& self.bytes == 36 + crate::snappy::joined(self.writer.written()).len()
        &&& self.done == self.writer.written().len()
    }

    /// Starts a movie. The bytes begin its file.
    pub fn start(
        options: EncodeOptions,
        fps: Single,
        width: usize,
        height: usize,
        total: usize,
    ) -> (r: Result<(Self, Vec<u8>), JobError>)
        requires
            fps.wf(),
            crate::dxt::addressable(width as int, height as int),
        ensures
            match r {
                Ok((job, head)) => {
                    &&& job_fault(width as int, height as int, fps, options) is None
                    &&& job.wf()
                    &&& job.settings() == options
                    &&& job.size() == (width as int, height as int)
                    &&& job.track() == job_config(width as int, height as int, fps, options)
                    &&& job.packets() == Seq::<Seq<u8>>::empty()
                    &&& job.expected() == total
                    &&& head@ == crate::mov::writer::unfinished(Seq::empty())
                },
                Err(e) => job_fault(width as int, height as int, fps, options) == Some(e@),
            },
    {
        if width % 4 != 0 || height % 4 != 0 {
            return Err(JobError::Dimensions { width, height });
        }
        let config = VideoConfig::new(
            (width as u64 % 0x1_0000_0000) as u32,
            (height as u64 % 0x1_0000_0000) as u32,
            fps,
            options.format,
        );
        assert(config == job_config(width as int, height as int, fps, options));
        match QtHapWriter::create(config) {
            Ok((writer, head)) => {
                assert(crate::snappy::joined(Seq::<Seq<u8>>::empty()).len() == 0);
                Ok((EncodeJob { options, width, height, total, done: 0, bytes: 36, writer }, head))
            },
            Err(e) => Err(JobError::Movie(e)),
        }
    }

    /// Adds a packet to the movie.
    fn append(&mut self, packet: &Vec<u8>) -> (fits: bool)
        requires
            old(self).wf(),
        ensures
            final(self).wf(),
            final(self).settings() == old(self).settings(),
            final(self).size() == old(self).size(),
            final(self).track() == old(self).track(),
            final(self).expected() == old(self).expected(),
            fits == movie_fits(old(self).packets(), packet@),
            final(self).packets() == if fits {
                old(self).packets().push(packet@)
            } else {
                old(self).packets()
            },
    {
        assert(packet@.len() == packet.len());
        let bytes: u64 = match self.bytes.checked_add(packet.len() as u64) {
            Some(b) => b,
            None => return false,
        };
        if self.done == usize::MAX {
            return false;
        }
        proof {
            let before = self.writer.written();
            assert(before.push(packet@).drop_last() =~= before);
        }
        match self.writer.write_frame(packet.as_slice()) {
            Ok(_) => {
                self.bytes = bytes;
                self.done = self.done + 1;
                true
            },
            Err(_) => false,
        }
    }

    /// Encodes an image as the next frame. The bytes are to be appended to the file.
    pub fn frame(&mut self, rgba: &[u8]) -> (r: Result<Vec<u8>, JobError>)
        requires
            old(self).wf(),
        ensures
            final(self).wf(),
            final(self).settings() == old(self).settings(),
            final(self).size() == old(self).size(),
            final(self).track() == old(self).track(),
            final(self).expected() == old(self).expected(),
            added(
                r,
                crate::encoder::encoded(
                    rgba@,
                    old(self).size().0,
                    old(self).size().1,
                    old(self).settings(),
                ),
                old(self).packets(),
                final(self).packets(),
            ),
            r matches Ok(v) ==> {
                let (w, h) = old(self).size();
                let o = old(self).settings();
                let t = crate::encoder::image_texture(rgba@, w, h, o);
                crate::encoder::texture_payload(t, o.chunk_count as int, o.use_snappy).len()
                    <= u32::MAX ==> crate::encoder::decodes_to(v@, t, w, h)
            },
    {
        let packet = match encode_frame_with_options(rgba, self.width, self.height, &self.options) {
            Ok(p) => p,
            Err(e) => return Err(JobError::Encoding(e)),
        };
        if self.append(&packet) {
            Ok(packet)
        } else {
            Err(JobError::TooLarge)
        }
    }

    /// Packs a texture that was compressed elsewhere as the next frame. The bytes are to be
    /// appended to the file.
    pub fn texture_frame(&mut self, blocks: &[u8]) -> (r: Result<Vec<u8>, JobError>)
        requires
            old(self).wf(),
        ensures
            final(self).wf(),
            final(self).settings() == old(self).settings(),
            final(self).size() == old(self).size(),
            final(self).track() == old(self).track(),
            final(self).expected() == old(self).expected(),
            added(
                r,
                packed(blocks@, old(self).settings()),
                old(self).packets(),
                final(self).packets(),
            ),
    {
        let packet = match pack_single_texture_frame(
            blocks,
            self.options.format,
            self.options.chunk_count,
            self.options.use_snappy,
        ) {
            Ok(p) => p,
            Err(e) => return Err(JobError::Encoding(e)),
        };
        if self.append(&packet) {
            Ok(packet)
        } else {
            Err(JobError::TooLarge)
        }
    }

    /// The number of frames written so far.
    pub fn done(&self) -> (r: usize)
        requires
            self.wf(),
        ensures
            r == self.packets().len(),
    {
        self.done
    }

    /// How much of the job is done, in percent.
    pub fn percent(&self) -> (r: Single)
        requires
            self.wf(),
        ensures
            r == percentage(self.packets().len() as int, self.expected()),
            r.wf(),
    {
        percent_of(self.done, self.total)
    }

    /// How much of a job is done whose number of frames is an estimate: at most 99.9 percent.
    pub fn live_percent(&self) -> (r: Single)
        requires
            self.wf(),
        ensures
            r == if self.expected() > 0 {
                crate::single::minimum(
                    percentage(self.packets().len() as int, self.expected()),
                    crate::single::ratio(999, 10),
                )
            } else {
                crate::single::whole_number(0)
            },
            r.wf(),
    {
        if self.total > 0 {
            percent_of(self.done, self.total).min(Single::from_ratio(999, 10))
        } else {
            Single::from_u32(0)
        }
    }

    /// Finishes the movie. With the tail in its places the file is the movie of all frames.
    pub fn finish(self) -> (r: Result<MovieTail, JobError>)
        requires
            self.wf(),
        ensures
            match r {
                Ok(tail) => {
                    &&& self.packets().len() > 0
                    &&& crate::mov::writer::finished(
                        crate::mov::writer::unfinished(self.packets()),
                        tail,
                    ) == crate::mov::writer::movie(self.track(), self.packets())
                    &&& tail.size_position == 28
                    &&& tail.size_field@.len() == 8
                },
                Err(e) => {
                    &&& self.packets().len() == 0
                    &&& e@ == JobFault::Movie(MovWriterFault::NoFramesWritten)
                },
            },
    {
        match self.writer.finalize() {
            Ok(tail) => Ok(tail),
            Err(e) => Err(JobError::Movie(e)),
        }
    }
}

/// A frame that decodes to a texture still does so when it is read from the finished movie.
pub proof fn law_movie_plays(
    config: VideoConfig,
    packets: Seq<Seq<u8>>,
    i: int,
    t: crate::decoder::Texture,
    width: int,
    height: int,
)
    requires
        crate::mov::round_trip::describable(config, packets),
        0 <= i < packets.len(),
        crate::encoder::decodes_to(packets[i], t, width, height),
    ensures
        ({
            let file = crate::mov::writer::movie(config, packets);
            let reading = crate::mov::reader::file_reading(file);
            &&& reading is Ok
            &&& crate::mov::reader::packet_of(reading->Ok_0, file, i) is Ok
            &&& crate::decoder::rgba_of(
                crate::mov::reader::packet_of(reading->Ok_0, file, i)->Ok_0,
                width,
                height,
            ) == crate::encoder::texture_pixels(t, width, height)
        }),
{
    crate::mov::round_trip::law_movie_round_trip(config, packets);
    crate::mov::round_trip::law_frames_round_trip(config, packets, i);
}

/// All frames of a movie that was written can be read.
proof fn lemma_all_readable(config: VideoConfig, packets: Seq<Seq<u8>>, n: int)
    requires
        crate::mov::round_trip::describable(config, packets),
        0 <= n <= packets.len(),
    ensures
        crate::inspector::readable(
            crate::mov::round_trip::written_reading(config, packets),
            crate::mov::writer::movie(config, packets),
            n,
        ) == packets.subrange(0, n),
    decreases n,
{
    if n > 0 {
        lemma_all_readable(config, packets, n - 1);
        crate::mov::round_trip::law_frames_round_trip(config, packets, n - 1);
        assert(packets.subrange(0, n - 1).push(packets[n - 1]) =~= packets.subrange(0, n));
    } else {
        assert(packets.subrange(0, 0) =~= Seq::<Seq<u8>>::empty());
    }
}

/// A packet that holds a texture has nothing wrong with it.
proof fn lemma_packet_sound(packet: Seq<u8>)
    requires
        crate::decoder::texture_of(packet) is Ok,
    ensures
        !crate::inspector::is_undecodable(packet),
        !crate::inspector::is_misaligned(packet),
{
}

/// Every packet holds a texture.
#[verifier::opaque]
pub open spec fn all_textures(packets: Seq<Seq<u8>>) -> bool {
    forall|i: int|
        0 <= i < packets.len() ==> crate::decoder::texture_of(#[trigger] packets[i]) is Ok
}

/// All frames of a file, as the audit sees them.
pub open spec fn audit_of(reading: crate::mov::reader::Reading, file: Seq<u8>) -> crate::inspector::AuditSubject {
    let n = reading.samples.len() as int;
    crate::inspector::AuditSubject {
        width: reading.width,
        height: reading.height,
        format: reading.format,
        frame_count: n,
        limit: n,
        packets: crate::inspector::readable(reading, file, n),
        failure: None,
    }
}

/// A movie of these dimensions is below 4K, or there are packets and all are cut into chunks.
#[verifier::opaque]
pub open spec fn brisk(width: int, height: int, packets: Seq<Seq<u8>>) -> bool {
    ||| width < 3840 && height < 2160
    ||| packets.len() > 0 && forall|i: int|
        0 <= i < packets.len() ==> !crate::inspector::is_whole(#[trigger] packets[i])
}

/// What holds of dimensions holds of their low halves.
proof fn lemma_brisk(width: int, height: int, packets: Seq<Seq<u8>>)
    requires
        width >= 0,
        height >= 0,
        brisk(width, height, packets),
    ensures
        brisk(width % 0x1_0000, height % 0x1_0000, packets),
{
    reveal(brisk);
}

proof fn lemma_subject_sound(a: crate::inspector::AuditSubject)
    requires
        crate::dxt::whole_blocks(a.width, a.height),
        brisk(a.width, a.height, a.packets),
        a.frame_count == a.packets.len(),
        a.format != crate::format::HapFormat::HapH,
        a.failure is None,
        all_textures(a.packets),
    ensures
        crate::inspector::is_sound(a),
{
    reveal(all_textures);
    assert forall|i: int| 0 <= i < a.packets.len() implies !crate::inspector::is_undecodable(
        #[trigger] a.packets[i],
    ) && !crate::inspector::is_misaligned(a.packets[i]) by {
        lemma_packet_sound(a.packets[i]);
    }
    assert(!crate::inspector::is_sluggish(a)) by {
        reveal(brisk);
        if a.width >= 3840 || a.height >= 2160 {
            crate::inspector::lemma_all_cut(a.packets);
        }
    }
}

/// What the audit sees of a movie that was written.
proof fn lemma_audit_of_written(config: VideoConfig, packets: Seq<Seq<u8>>)
    requires
        crate::mov::round_trip::describable(config, packets),
    ensures
        audit_of(
            crate::mov::round_trip::written_reading(config, packets),
            crate::mov::writer::movie(config, packets),
        ) == written_subject(config, packets),
{
    reveal(written_subject);
    lemma_all_readable(config, packets, packets.len() as int);
    assert(packets.subrange(0, packets.len() as int) =~= packets);
}

/// A movie that was written, as the audit sees it.
#[verifier::opaque]
pub open spec fn written_subject(
    config: VideoConfig,
    packets: Seq<Seq<u8>>,
) -> crate::inspector::AuditSubject {
    crate::inspector::AuditSubject {
        width: config.width as int % 0x1_0000,
        height: config.height as int % 0x1_0000,
        format: config.format,
        frame_count: packets.len() as int,
        limit: packets.len() as int,
        packets,
        failure: None,
    }
}

/// What the audit sees of a movie is sound.
proof fn lemma_written_sound(config: VideoConfig, packets: Seq<Seq<u8>>)
    requires
        crate::dxt::whole_blocks(config.width as int, config.height as int),
        brisk(config.width as int, config.height as int, packets),
        config.format != crate::format::HapFormat::HapH,
        all_textures(packets),
    ensures
        written_subject(config, packets).packets == packets,
        crate::inspector::is_sound(written_subject(config, packets)),
{
    reveal(written_subject);
    lemma_brisk(config.width as int, config.height as int, packets);
    lemma_subject_sound(written_subject(config, packets));
}

/// A file can be read, holds these packets, and passes the audit of all its frames.
#[verifier::opaque]
pub open spec fn passes_audit(file: Seq<u8>, packets: Seq<Seq<u8>>) -> bool {
    match crate::mov::reader::file_reading(file) {
        Ok(reading) => {
            &&& audit_of(reading, file).packets == packets
            &&& crate::inspector::is_sound(audit_of(reading, file))
        },
        Err(_) => false,
    }
}

proof fn lemma_passes(file: Seq<u8>, packets: Seq<Seq<u8>>, reading: crate::mov::reader::Reading)
    requires
        crate::mov::reader::file_reading(file) == Ok::<
            crate::mov::reader::Reading,
            crate::mov::reader::MovReaderFault,
        >(reading),
        audit_of(reading, file).packets == packets,
        crate::inspector::is_sound(audit_of(reading, file)),
    ensures
        passes_audit(file, packets),
{
    reveal(passes_audit);
}

/// A movie of whole blocks whose frames hold textures passes the audit of all its frames, if it is
/// below 4K or its frames are cut into chunks.
pub proof fn law_movie_passes_audit(config: VideoConfig, packets: Seq<Seq<u8>>)
    requires
        crate::mov::round_trip::describable(config, packets),
        crate::dxt::whole_blocks(config.width as int, config.height as int),
        brisk(config.width as int, config.height as int, packets),
        config.format != crate::format::HapFormat::HapH,
        all_textures(packets),
    ensures
        passes_audit(crate::mov::writer::movie(config, packets), packets),
{
    crate::mov::round_trip::law_movie_round_trip(config, packets);
    lemma_audit_of_written(config, packets);
    lemma_written_sound(config, packets);
    lemma_passes(
        crate::mov::writer::movie(config, packets),
        packets,
        crate::mov::round_trip::written_reading(config, packets),
    );
}

/// The movie with one more packet has no more bytes than a file can have.
pub open spec fn movie_fits(packets: Seq<Seq<u8>>, packet: Seq<u8>) -> bool {
    &&& 36 + crate::snappy::joined(packets).len() + packet.len() <= u64::MAX
    &&& packets.len() < usize::MAX
}

/// What packing a texture gives.
pub open spec fn packed(blocks: Seq<u8>, o: EncodeOptions) -> Result<Seq<u8>, EncodeFault> {
    if crate::encoder::packable(blocks.len() as int, o.chunk_count as int, o.use_snappy) {
        Ok(crate::encoder::frame_of(blocks, o.format, o.chunk_count as int, o.use_snappy))
    } else {
        Err(EncodeFault::Snappy(crate::snappy::SnappyFault::Codec))
    }
}

/// The packet was added and handed out, or nothing has changed.
pub open spec fn added(
    r: Result<Vec<u8>, JobError>,
    packet: Result<Seq<u8>, EncodeFault>,
    before: Seq<Seq<u8>>,
    after: Seq<Seq<u8>>,
) -> bool {
    match packet {
        Err(fault) => r matches Err(e) && e@ == JobFault::Encoding(fault) && after == before,
        Ok(p) => if movie_fits(before, p) {
            r matches Ok(v) && v@ == p && after == before.push(p)
        } else {
            r matches Err(e) && e@ == JobFault::TooLarge && after == before
        },
    }
}

/// A share in percent.
pub open spec fn percentage(done: int, total: int) -> Single {
    crate::single::product(
        crate::single::quotient(
            crate::single::whole_number(done),
            crate::single::whole_number(total),
        ),
        crate::single::whole_number(100),
    )
}

/// A share in percent.
pub fn percent_of(done: usize, total: usize) -> (r: Single)
    ensures
        r == percentage(done as int, total as int),
        r.wf(),
{
    Single::from_u64(done as u64).over(Single::from_u64(total as u64)).times(Single::from_u32(100))
}

/// Frames per second. Less than a millisecond counts as one.
pub open spec fn frames_per_second(done: int, seconds: Single) -> Single {
    crate::single::quotient(
        crate::single::whole_number(done),
        crate::single::maximum(seconds, crate::single::ratio(1, 1000)),
    )
}

/// The speed of a job, in frames per second.
pub fn speed(done: usize, seconds: Single) -> (r: Single)
    requires
        seconds.wf(),
    ensures
        r == frames_per_second(done as int, seconds),
        r.wf(),
{
    Single::from_u64(done as u64).over(seconds.max(Single::from_ratio(1, 1000)))
}

/// Whether progress is reported: at every `step` frames, and at the last one.
pub fn is_milestone(done: usize, step: usize, total: usize) -> (r: bool)
    requires
        step > 0,
    ensures
        r == (done as int % step as int == 0 || done == total),
{
    done % step == 0 || done == total
}

/// The frame rate of a job: as asked for if that is positive, else that of the input.
pub open spec fn chosen(asked: Single, found: Single) -> Single {
    if crate::single::less(crate::single::whole_number(0), asked) {
        asked
    } else {
        found
    }
}

/// The frame rate of a job.
pub fn chosen_rate(asked: Single, found: Single) -> (r: Single)
    requires
        asked.wf(),
    ensures
        r == chosen(asked, found),
{
    if Single::from_u32(0).lt(asked) {
        asked
    } else {
        found
    }
}

/// The frames that are decoded, from the first to the last, both included.
#[derive(Debug, Clone, Copy, PartialEq, Eq, Structural)]
pub struct FrameRange {
    pub first: usize,
    pub last: usize,
}

/// The last frame of a movie; 0 for one without frames.
pub open spec fn last_frame(total: int) -> int {
    if total > 0 {
        total - 1
    } else {
        0
    }
}

/// A frame that is asked for, moved into the movie; the default if none is.
pub open spec fn asked_frame(asked: Option<usize>, default: int, total: int) -> int {
    let frame = match asked {
        Some(f) => f as int,
        None => default,
    };
    if frame < last_frame(total) {
        frame
    } else {
        last_frame(total)
    }
}

/// The frames to decode of a movie of `total` frames.
pub fn decode_range(start: Option<usize>, end: Option<usize>, total: usize) -> (r: FrameRange)
    ensures
        r.first == asked_frame(start, 0, total as int),
        r.last == asked_frame(end, last_frame(total as int), total as int),
{
    let last: usize = if total > 0 {
        total - 1
    } else {
        0
    };
    let first: usize = match start {
        Some(f) => if f < last {
            f
        } else {
            last
        },
        None => 0,
    };
    let end: usize = match end {
        Some(f) => if f < last {
            f
        } else {
            last
        },
        None => last,
    };
    FrameRange { first, last: end }
}

/// The frames to decode are frames of the movie; without limits they are all of them.
pub proof fn law_range_in_movie(start: Option<usize>, end: Option<usize>, total: int)
    requires
        total > 0,
    ensures
        0 <= asked_frame(start, 0, total) < total,
        0 <= asked_frame(end, last_frame(total), total) < total,
        asked_frame(None, 0, total) == 0,
        asked_frame(None, last_frame(total), total) == total - 1,
{
}

/// The name of the file of a frame.
pub open spec fn frame_name(index: int, format: Seq<char>) -> Seq<char> {
    "frame_"@ + crate::text::padded(index, 6) + "."@ + format
}

/// The name of the file of a frame.
pub fn frame_file_name(index: usize, format: &str) -> (r: String)
    ensures
        r@ == frame_name(index as int, format@),
{
    let mut out: String = "frame_".to_owned();
    push_padded(&mut out, index as u64, 6);
    out.append(".");
    out.append(format);
    out
}

/// When a job can be started, and what its track is: dimensions that are not multiples of 4 come
/// first, then those that are 0 and a rate that is not positive. The track has the dimensions, the
/// rate and the format that were asked for.
pub proof fn law_job_start(width: int, height: int, fps: Single, options: EncodeOptions)
    requires
        0 <= width <= u32::MAX,
        0 <= height <= u32::MAX,
    ensures
        ({
            let c = job_config(width, height, fps, options);
            let fault = job_fault(width, height, fps, options);
            let whole = width % 4 == 0 && height % 4 == 0;
            let slow = crate::single::less(fps, crate::single::whole_number(0))
                || crate::single::is_zero(fps);
            &&& c.width == width && c.height == height && c.fps == fps && c.format
                == options.format
            &&& fault == Some(JobFault::Dimensions { width, height }) <==> !whole
            &&& whole && (width == 0 || height == 0 || slow) ==> fault is Some
            &&& fault is None <==> whole && width > 0 && height > 0 && !slow
        }),
{
}

/// All frames are 100 percent, and as many times more frames as many times more; none is nothing.
pub proof fn law_percentage(total: int, times: int)
    requires
        1 <= times <= 10000,
        1 <= total,
        total * times < 0x100_0000,
    ensures
        percentage(times * total, total) == crate::single::whole_number(100 * times),
        crate::single::is_zero(percentage(0, total)),
{
    assert(total <= total * times && times * total == total * times) by (nonlinear_arith)
        requires
            1 <= times,
            1 <= total,
    ;
    vstd::arithmetic::power2::lemma2_to64();
    crate::single::lemma_exact_quotient(times, total);
    crate::single::lemma_whole_product(times, 100);
    let zero = crate::single::whole_number(0);
    let all = crate::single::whole_number(total);
    let hundred = crate::single::whole_number(100);
    assert(total * crate::single::pow2(0) == total) by (nonlinear_arith)
        requires
            crate::single::pow2(0) == 1,
    ;
    assert(100 * crate::single::pow2(0) == 100);
    crate::single::lemma_whole_number(0, 0);
    crate::single::lemma_whole_number(total, 0);
    crate::single::lemma_whole_number(100, 0);
    crate::single::lemma_zero(zero);
    crate::single::lemma_less_units(zero, 0, all, total, 0);
    crate::single::lemma_zero(all);
    crate::single::lemma_zero_arithmetic(zero, all);
    crate::single::lemma_zero_arithmetic(crate::single::quotient(zero, all), hundred);
}

/// The speed is the frames divided by the seconds; less than a millisecond counts as one.
pub proof fn law_speed(rate: int, seconds: int, short: Single)
    requires
        1 <= rate,
        1 <= seconds,
        rate * seconds < 0x100_0000,
        !crate::single::less(crate::single::whole_number(seconds), crate::single::ratio(1, 1000)),
        crate::single::less(short, crate::single::ratio(1, 1000)),
    ensures
        frames_per_second(rate * seconds, crate::single::whole_number(seconds))
            == crate::single::whole_number(rate),
        frames_per_second(rate, short) == frames_per_second(rate, crate::single::ratio(1, 1000)),
{
    assert(seconds <= rate * seconds) by (nonlinear_arith)
        requires
            1 <= rate,
            1 <= seconds,
    ;
    vstd::arithmetic::power2::lemma2_to64();
    crate::single::lemma_exact_quotient(rate, seconds);
    assert(seconds * crate::single::pow2(0) == seconds) by (nonlinear_arith)
        requires
            crate::single::pow2(0) == 1,
    ;
    crate::single::lemma_whole_number(seconds, 0);
    reveal(crate::single::less);
}

/// A frame that is asked for is decoded, if the movie has it; a number past the last frame is the
/// last one. A rate that is asked for is taken if it is positive.
pub proof fn law_asked_frames(frame: usize, default: int, total: int, asked: Single, found: Single)
    requires
        total > 0,
    ensures
        frame < total ==> asked_frame(Some(frame), default, total) == frame,
        frame >= total ==> asked_frame(Some(frame), default, total) == total - 1,
        crate::single::less(crate::single::whole_number(0), asked) ==> chosen(asked, found)
            == asked,
        !crate::single::less(crate::single::whole_number(0), asked) ==> chosen(asked, found)
            == found,
{
}

/// The frame files are named by six digits, or more where the number has more, and sort by their
/// numbers: the digits are the number.
pub proof fn law_frame_names(index: int, format: Seq<char>)
    requires
        0 <= index,
    ensures
        ({
            let name = frame_name(index, format);
            let digits = name.subrange(6, name.len() - format.len() - 1);
            &&& digits.len() >= 6
            &&& crate::text::all_digits(digits)
            &&& crate::text::digits_value(digits) == index
            &&& name.subrange(0, 6) == seq!['f', 'r', 'a', 'm', 'e', '_']
            &&& name[name.len() - format.len() - 1] == '.'
            &&& name.subrange(name.len() - format.len(), name.len() as int) == format
        }),
{
    reveal_strlit("frame_");
    reveal_strlit(".");
    crate::text::law_padded_read(index, 6);
    let name = frame_name(index, format);
    assert(name.subrange(6, name.len() - format.len() - 1) =~= crate::text::padded(index, 6));
    assert(name.subrange(0, 6) =~= seq!['f', 'r', 'a', 'm', 'e', '_']);
    assert(name.subrange(name.len() - format.len(), name.len() as int) =~= format);
}

} // verus!
