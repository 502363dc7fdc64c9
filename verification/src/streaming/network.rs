//! The network side: makes a video of the pictures, and sends it.
use crate::avcc;
use crate::camera::JpegFrame;
use crate::clock::{Clock, Moment, LONGEST_NANOS};
use crate::codec::{self, Exchange, VideoEncoder};
use crate::jpeg;
use crate::mkv::{self, Cursor, CursorView, FrameView, MkvError, SegmentFrame, SegmentView};
use crate::uid;
use super::wire::{self, ResponseError};
use super::StreamControl;
use vstd::prelude::*;

pub mod history;
pub mod playback;

verus! {

/// A cluster is sent when it holds more frames than this.
pub const MAX_BUFFERED_FRAMES: usize = 60;

/// Why a picture could not be added to the video.
#[derive(Clone, Copy, Debug, PartialEq, Eq, Structural)]
pub enum EncodeError {
    /// The encoder could not be started.
    Initialise,
    /// The picture is no JPEG that can be decoded.
    Jpeg,
    /// The picture has more lines or columns than the decoder can count.
    TooLarge,
    /// The picture does not have the size that its dimensions say, or has odd dimensions.
    Shape,
    /// The picture was taken at a time that the encoder cannot be told of.
    ClockRange,
    /// The cluster has been open for so long that the time of the picture does not fit a block.
    ClusterTimestamp,
    /// The video has been going on for so long that the time does not fit.
    SegmentTimestamp,
    /// The encoder did not take the picture.
    Encoder,
    /// The container did not take the encoded picture.
    Container(MkvError),
}

/// Makes a video of pictures.
pub struct NetworkedVideoEncoder {
    /// The clock that the pictures' times are from.
    clock: Clock,
    /// When the first picture was taken.
    segment_start: Option<Moment>,
    /// When the first picture of the open cluster was taken.
    current_cluster_start: Option<Moment>,
    /// How many pictures the open cluster holds.
    written_frames: usize,
    /// The video encoder.
    encoder: VideoEncoder,
    /// The container.
    mkv_cursor: Cursor,
}

/// A [`NetworkedVideoEncoder`], over mathematical values.
#[verifier::ext_equal]
pub struct EncoderView {
    pub segment_start: Option<Moment>,
    pub cluster_start: Option<Moment>,
    pub written_frames: nat,
    pub exchanges: Seq<Exchange>,
    pub cursor: CursorView,
}

impl View for NetworkedVideoEncoder {
    type V = EncoderView;

    closed spec fn view(&self) -> EncoderView {
        EncoderView {
            segment_start: self.segment_start,
            cluster_start: self.current_cluster_start,
            written_frames: self.written_frames as nat,
            exchanges: self.encoder@,
            cursor: self.mkv_cursor@,
        }
    }
}

/// What comes of an encoded frame.
pub enum Stored {
    /// It came too long after the first one.
    Overflow,
    /// The container refused it.
    Refused,
    /// The open cluster holds it.
    Kept(EncoderView),
    /// It was the last one of its cluster, which has been handed out.
    Flushed(EncoderView, Seq<u8>),
    /// It was the last one of its cluster, which could not be closed.
    Stuck(EncoderView),
}

impl EncoderView {
    /// A new one, for a segment with the identifier `uid`.
    pub open spec fn fresh(uid: Seq<u8>) -> EncoderView {
        EncoderView {
            segment_start: None,
            cluster_start: None,
            written_frames: 0,
            exchanges: seq![],
            cursor: CursorView::fresh(seq![]).started(uid),
        }
    }

    /// Holds of every encoder: it agrees with its container on when the video began, and, unless the
    /// track could not be described, on how many frames the open cluster holds.
    pub open spec fn wf(self) -> bool {
        &&& self.cursor.wf()
        &&& self.segment_start == self.cursor.segment_start
        &&& self.written_frames <= self.cursor.frame_index
        &&& self.cursor.tracks_end is Some || self.segment_start is None ==> self.written_frames
            == self.cursor.frame_index
    }

    /// How many milliseconds after the start of the cluster something happens.
    pub open spec fn cluster_millis(self, at: Moment) -> nat {
        match self.cluster_start {
            Some(start) => at.millis_after(start),
            None => 0,
        }
    }

    /// How many milliseconds after the start of the video something happens.
    pub open spec fn segment_millis(self, at: Moment) -> nat {
        match self.segment_start {
            Some(start) => at.millis_after(start),
            None => 0,
        }
    }

    /// When a frame from `at` has been encoded: the video, and the cluster, begin with it if they have
    /// not begun before.
    pub open spec fn marked(self, at: Moment) -> EncoderView {
        EncoderView {
            segment_start: match self.segment_start {
                Some(start) => Some(start),
                None => Some(at),
            },
            cluster_start: match self.cluster_start {
                Some(start) => Some(start),
                None => Some(at),
            },
            ..self
        }
    }

    /// What comes of an encoded frame. `name` is the identifier that the track is named by, if this is
    /// the first frame.
    pub open spec fn stored(self, frame: SegmentView, name: Seq<u8>) -> Stored {
        let marked = self.marked(frame.timestamp);
        if self.cursor.cluster_timestamp(frame.timestamp) > u64::MAX {
            Stored::Overflow
        } else {
            match self.cursor.added(mkv::segment_view(self.cursor, frame, name)) {
                None => Stored::Refused,
                Some(full) => {
                    let count = self.written_frames + 1;
                    if count <= MAX_BUFFERED_FRAMES {
                        Stored::Kept(EncoderView { written_frames: count, cursor: full, ..marked })
                    } else if full.can_dump() {
                        Stored::Flushed(
                            EncoderView {
                                cluster_start: None,
                                written_frames: 0,
                                cursor: full.dumped(),
                                ..marked
                            },
                            full.dumped_bytes(),
                        )
                    } else {
                        Stored::Stuck(
                            EncoderView {
                                cluster_start: None,
                                written_frames: count,
                                cursor: full,
                                ..marked
                            },
                        )
                    }
                },
            }
        }
    }

    /// Is `after` the encoder, and `written` the destination, when an encoded frame has come to `result`?
    pub open spec fn stores(
        self,
        frame: SegmentView,
        name: Seq<u8>,
        destination: Seq<u8>,
        result: Result<(), EncodeError>,
        after: EncoderView,
        written: Seq<u8>,
    ) -> bool {
        match self.stored(frame, name) {
            Stored::Overflow => {
                &&& result == Err::<(), EncodeError>(EncodeError::Container(MkvError::TimestampOverflow))
                &&& after == self.marked(frame.timestamp)
                &&& written == destination
            },
            Stored::Refused => {
                let prepared = mkv::segment_view(self.cursor, frame, name);
                &&& result == Err::<(), EncodeError>(EncodeError::Container(MkvError::Refused))
                &&& self.cursor.writer.stops_into(self.cursor.segment_tags(prepared), after.cursor.writer)
                &&& after == (EncoderView {
                    cursor: self.cursor.reached(prepared, after.cursor.writer),
                    ..self.marked(frame.timestamp)
                })
                &&& written == destination
            },
            Stored::Kept(kept) => {
                &&& result == Ok::<(), EncodeError>(())
                &&& after == kept
                &&& written == destination
            },
            Stored::Flushed(flushed, bytes) => {
                &&& result == Ok::<(), EncodeError>(())
                &&& after == flushed
                &&& written == destination + bytes
            },
            Stored::Stuck(stuck) => {
                &&& result == Err::<(), EncodeError>(EncodeError::Container(MkvError::Refused))
                &&& stuck.cursor.writer.refused_into(after.cursor.writer)
                &&& after == (EncoderView {
                    cursor: CursorView { writer: after.cursor.writer, ..stuck.cursor },
                    ..stuck
                })
                &&& written == destination
            },
        }
    }

    /// Can the encoder be told of a picture that was taken at `at`, at the time `now`?
    pub open spec fn in_range(self, at: Moment, now: Moment) -> bool {
        &&& self.cluster_millis(at) <= u64::MAX
        &&& self.segment_millis(now) <= i64::MAX || self.segment_millis(now) > u64::MAX
    }

    /// Is `after` the encoder, and `written` the destination, when a picture with these pixels, taken at
    /// `at`, has come to `result` at the time `now`?
    ///
    /// The picture goes through the encoder once, unless a time does not fit, and nothing else changes
    /// unless it comes out encoded.
    pub open spec fn encodes(
        self,
        at: Moment,
        dimensions: (u16, u16),
        pixels: Seq<u8>,
        now: Moment,
        destination: Seq<u8>,
        result: Result<(), EncodeError>,
        after: EncoderView,
        written: Seq<u8>,
    ) -> bool {
        if self.cluster_millis(at) > i16::MAX {
            &&& result == Err::<(), EncodeError>(EncodeError::ClusterTimestamp)
            &&& after == self
            &&& written == destination
        } else if self.segment_millis(now) > u64::MAX {
            &&& result == Err::<(), EncodeError>(EncodeError::SegmentTimestamp)
            &&& after == self
            &&& written == destination
        } else {
            let millis = self.segment_millis(now) as u64;
            &&& after.exchanges.len() == self.exchanges.len() + 1
            &&& after.exchanges.drop_last() == self.exchanges
            &&& after.exchanges.last().pixels == pixels
            &&& after.exchanges.last().dimensions == dimensions
            &&& after.exchanges.last().millis == millis
            &&& codec::encoder_replies(pixels, dimensions, millis, after.exchanges.last().reply)
            &&& match after.exchanges.last().reply {
                None => {
                    &&& result == Err::<(), EncodeError>(EncodeError::Encoder)
                    &&& after == (EncoderView { exchanges: after.exchanges, ..self })
                    &&& written == destination
                },
                Some(bitstream) => exists|name: Seq<u8>|
                    uid::is_random(name) && #[trigger] (EncoderView {
                        exchanges: after.exchanges,
                        ..self
                    }).stores(
                        SegmentView {
                            bitstream,
                            cluster_timestamp: self.cluster_millis(at) as i16,
                            timestamp: at,
                            dimensions,
                        },
                        name,
                        destination,
                        result,
                        after,
                        written,
                    ),
            }
        }
    }
}

/// What a picture was decoded to, if it was decoded.
pub open spec fn decoded_view(decoded: Option<&[u8]>) -> Option<Seq<u8>> {
    match decoded {
        Some(pixels) => Some(pixels@),
        None => None,
    }
}

impl EncoderView {
    /// Is `after` the encoder, and `written` the destination, when a picture that was decoded, or could not
    /// be, has come to `result` at the time `now`?
    ///
    /// Where it could not be decoded, or has the wrong size, or the encoder cannot be told of the time, nothing
    /// changes; else [`EncoderView::encodes`] says what happens with its pixels.
    pub open spec fn encodes_decoded(
        self,
        at: Moment,
        dimensions: (u16, u16),
        decoded: Option<Seq<u8>>,
        now: Moment,
        destination: Seq<u8>,
        result: Result<(), EncodeError>,
        after: EncoderView,
        written: Seq<u8>,
    ) -> bool {
        match decoded {
            None => {
                &&& result == Err::<(), EncodeError>(EncodeError::Jpeg)
                &&& after == self
                &&& written == destination
            },
            Some(pixels) => if !codec::well_shaped(pixels.len(), dimensions) {
                &&& result == Err::<(), EncodeError>(EncodeError::Shape)
                &&& after == self
                &&& written == destination
            } else if !self.in_range(at, now) {
                &&& result == Err::<(), EncodeError>(EncodeError::ClockRange)
                &&& after == self
                &&& written == destination
            } else {
                self.encodes(at, dimensions, pixels, now, destination, result, after, written)
            },
        }
    }

    /// Is `after` the encoder, and `written` the destination, when a picture has come to `result`?
    ///
    /// A picture in which the decoder can count too far changes nothing. Any other is decoded, and
    /// [`EncoderView::encodes_decoded`] says what comes of that.
    pub open spec fn takes(
        self,
        frame: JpegFrame,
        destination: Seq<u8>,
        result: Result<(), EncodeError>,
        after: EncoderView,
        written: Seq<u8>,
    ) -> bool {
        if jpeg::overcounts(jpeg::jpeg_header(frame.data@), frame.data@) {
            &&& result == Err::<(), EncodeError>(EncodeError::TooLarge)
            &&& after == self
            &&& written == destination
        } else {
            exists|decoded: Option<Seq<u8>>, now: Moment|
                {
                    &&& now.nanos <= LONGEST_NANOS
                    &&& jpeg::jpeg_decodes_to(frame.data@, decoded)
                    &&& #[trigger] self.encodes_decoded(
                        frame.timestamp,
                        frame.dimensions,
                        decoded,
                        now,
                        destination,
                        result,
                        after,
                        written,
                    )
                }
        }
    }
}

impl NetworkedVideoEncoder {
    /// The clock that the pictures' times are from.
    pub closed spec fn clock(self) -> Clock {
        self.clock
    }

    /// The encoder that the pictures go through.
    pub closed spec fn encoder(self) -> VideoEncoder {
        self.encoder
    }
}

impl NetworkedVideoEncoder {
    /// Starts the encoder and the container. The pictures' times have to be from `clock`.
    pub fn new(clock: Clock) -> (made: Result<NetworkedVideoEncoder, EncodeError>)
        ensures
            match made {
                Ok(encoder) => {
                    &&& encoder@.wf()
                    &&& encoder.clock() == clock
                    &&& exists|uid: Seq<u8>| uid::is_random(uid) && encoder@ == #[trigger] EncoderView::fresh(uid)
                },
                Err(error) => error == EncodeError::Initialise,
            },
    {
        match VideoEncoder::new() {
            Some(encoder) => {
                let segment_uid = uid::draw_uid();
                let made = NetworkedVideoEncoder::with_encoder(clock, encoder, &segment_uid);
                assert(made->Ok_0@ == EncoderView::fresh(segment_uid@));
                made
            },
            None => Err(EncodeError::Initialise),
        }
    }

    /// Starts the container, for a segment with the given identifier, around an encoder.
    pub fn with_encoder(clock: Clock, encoder: VideoEncoder, segment_uid: &[u8; 16]) -> (made: Result<
        NetworkedVideoEncoder,
        EncodeError,
    >)
        ensures
            made is Ok,
            made->Ok_0@.wf(),
            made->Ok_0.clock() == clock,
            made->Ok_0.encoder() == encoder,
            made->Ok_0@ == (EncoderView { exchanges: encoder@, ..EncoderView::fresh(segment_uid@) }),
    {
        let mut mkv_cursor = Cursor::default();
        match mkv_cursor.start_as(segment_uid) {
            Ok(()) => Ok(
                NetworkedVideoEncoder {
                    clock,
                    segment_start: None,
                    current_cluster_start: None,
                    written_frames: 0,
                    encoder,
                    mkv_cursor,
                },
            ),
            Err(error) => Err(EncodeError::Container(error)),
        }
    }

    /// How many frames there have been in all.
    pub fn frames_seen(&self) -> (frames: usize)
        ensures
            frames == self@.cursor.frames_seen,
    {
        self.mkv_cursor.frames_seen()
    }

    /// Adds an encoded frame to the video. Where that makes the open cluster full, the cluster is appended
    /// to `destination`. `name` is the identifier that the track is named by, if this is the first frame.
    pub fn store(&mut self, frame: &SegmentFrame, name: &[u8; 16], destination: &mut Vec<u8>) -> (result: Result<
        (),
        EncodeError,
    >)
        requires
            old(self)@.wf(),
            old(self)@.cursor.frames_seen < usize::MAX,
        ensures
            final(self)@.wf(),
            final(self).clock() == old(self).clock(),
            old(self)@.stores(
                frame@,
                name@,
                old(destination)@,
                result,
                final(self)@,
                final(destination)@,
            ),
    {
        if self.segment_start.is_none() {
            self.segment_start = Some(frame.timestamp);
        }
        if self.current_cluster_start.is_none() {
            self.current_cluster_start = Some(frame.timestamp);
        }
        if let Err(error) = self.mkv_cursor.add_segment_as(frame, name) {
            return Err(EncodeError::Container(error));
        }
        self.written_frames = self.written_frames + 1;
        if self.written_frames > MAX_BUFFERED_FRAMES {
            self.current_cluster_start = None;
            if let Err(error) = self.mkv_cursor.dump_to(destination) {
                return Err(EncodeError::Container(error));
            }
            self.written_frames = 0;
        }
        Ok(())
    }

    /// Adds a picture that has been decoded to the video, at the time `now`. Where that makes the open
    /// cluster full, the cluster is appended to `destination`.
    pub fn encode_pixels_to(
        &mut self,
        frame: &JpegFrame,
        pixels: &[u8],
        now: Moment,
        destination: &mut Vec<u8>,
    ) -> (result: Result<(), EncodeError>)
        requires
            old(self)@.wf(),
            old(self)@.cursor.frames_seen < usize::MAX,
            codec::well_shaped(pixels@.len(), frame.dimensions),
            old(self)@.in_range(frame.timestamp, now),
        ensures
            final(self)@.wf(),
            final(self).clock() == old(self).clock(),
            old(self)@.encodes(
                frame.timestamp,
                frame.dimensions,
                pixels@,
                now,
                old(destination)@,
                result,
                final(self)@,
                final(destination)@,
            ),
    {
        let cluster_millis: u128 = match self.current_cluster_start {
            None => 0,
            Some(start) => frame.timestamp.millis_since(start),
        };
        if cluster_millis > 0x7fff {
            return Err(EncodeError::ClusterTimestamp);
        }
        let segment_millis: u128 = match self.segment_start {
            None => 0,
            Some(start) => now.millis_since(start),
        };
        if segment_millis > 0xffff_ffff_ffff_ffff {
            return Err(EncodeError::SegmentTimestamp);
        }
        let encoded = self.encoder.encode(pixels, frame.dimensions, segment_millis as u64);
        assert(self@.exchanges.drop_last() =~= old(self)@.exchanges);
        match encoded {
            None => Err(EncodeError::Encoder),
            Some(bitstream) => {
                let name = uid::draw_uid();
                let segment = SegmentFrame {
                    bitstream: bitstream.as_slice(),
                    cluster_timestamp: cluster_millis as i16,
                    timestamp: frame.timestamp,
                    dimensions: frame.dimensions,
                };
                let ghost before = self@;
                let ghost view = segment@;
                let result = self.store(&segment, &name, destination);
                assert(self@.exchanges == before.exchanges);
                assert(before == (EncoderView { exchanges: self@.exchanges, ..old(self)@ }));
                assert(before.stores(view, name@, old(destination)@, result, self@, destination@));
                result
            },
        }
    }

    /// Adds a picture to the video, at the time `now`. `decoded` is what the picture was decoded to, if it was
    /// decoded. Where that makes the open cluster full, the cluster is appended to `destination`.
    pub fn encode_decoded_to(
        &mut self,
        frame: &JpegFrame,
        decoded: Option<&[u8]>,
        now: Moment,
        destination: &mut Vec<u8>,
    ) -> (result: Result<(), EncodeError>)
        requires
            old(self)@.wf(),
            old(self)@.cursor.frames_seen < usize::MAX,
        ensures
            final(self)@.wf(),
            final(self).clock() == old(self).clock(),
            old(self)@.encodes_decoded(
                frame.timestamp,
                frame.dimensions,
                decoded_view(decoded),
                now,
                old(destination)@,
                result,
                final(self)@,
                final(destination)@,
            ),
    {
        let pixels = match decoded {
            Some(pixels) => pixels,
            None => {
                return Err(EncodeError::Jpeg);
            },
        };
        if !codec::is_well_shaped(pixels.len(), frame.dimensions) {
            return Err(EncodeError::Shape);
        }
        if !self.is_in_range(frame.timestamp, now) {
            return Err(EncodeError::ClockRange);
        }
        self.encode_pixels_to(frame, pixels, now, destination)
    }

    /// Adds a picture to the video. Where that makes the open cluster full, the cluster is appended to
    /// `destination`.
    pub fn encode_to(&mut self, frame: &JpegFrame, destination: &mut Vec<u8>) -> (result: Result<(), EncodeError>)
        requires
            old(self)@.wf(),
            old(self)@.cursor.frames_seen < usize::MAX,
        ensures
            final(self)@.wf(),
            final(self).clock() == old(self).clock(),
            old(self)@.takes(
                *frame,
                old(destination)@,
                result,
                final(self)@,
                final(destination)@,
            ),
    {
        let data = frame.data.as_slice();
        if jpeg::does_overcount(jpeg::read_header(data), data) {
            return Err(EncodeError::TooLarge);
        }
        let decoded = jpeg::decode_jpeg(data);
        let now = self.clock.now();
        match decoded {
            Ok(pixels) => self.encode_decoded_to(frame, Some(pixels.as_slice()), now, destination),
            Err(_) => self.encode_decoded_to(frame, None, now, destination),
        }
    }

    /// Can the encoder be told of a picture that was taken at `at`, at the time `now`?
    pub fn is_in_range(&self, at: Moment, now: Moment) -> (fits: bool)
        ensures
            fits == self@.in_range(at, now),
    {
        let cluster_fits = match self.current_cluster_start {
            None => true,
            Some(start) => at.millis_since(start) <= 0xffff_ffff_ffff_ffff,
        };
        let segment_fits = match self.segment_start {
            None => true,
            Some(start) => {
                let millis: u128 = now.millis_since(start);
                millis <= 0x7fff_ffff_ffff_ffff || millis > 0xffff_ffff_ffff_ffff
            },
        };
        cluster_fits && segment_fits
    }
}

/// What the network side has learned.
#[derive(Debug)]
pub enum NetworkEvent {
    /// A message from the camera.
    Command(StreamControl),
    /// Some bytes came over the connection; none where it is closed.
    Read(Vec<u8>),
    /// There will be no more messages, or the connection cannot be read.
    Lost,
}

/// What the network side does next.
#[derive(Debug)]
pub enum NetworkAction {
    /// Waits for a message from the camera, or for bytes, whichever comes first.
    Wait,
    /// Sends these bytes, and then waits.
    Send(Vec<u8>),
    /// Makes sure that this is a proper payload, and then waits.
    Check(Vec<u8>),
    /// Ends.
    Finish,
    /// Tells the camera to terminate, and ends.
    Abandon,
    /// Ends with an error.
    Fail(NetworkError),
}

/// Why the network side cannot go on.
#[derive(Clone, Copy, Debug, PartialEq, Eq, Structural)]
pub enum NetworkError {
    /// A picture could not be added to the video.
    Encode(EncodeError),
    /// A message from the service was not understood.
    Response(ResponseError),
}

/// What comes after a picture: the part of the video that it completes, if any, is sent as a chunk.
pub open spec fn follows_picture(result: Result<(), EncodeError>, video: Seq<u8>, action: NetworkAction) -> bool {
    match result {
        Err(error) => action == NetworkAction::Fail(NetworkError::Encode(error)),
        Ok(()) => if video.len() == 0 {
            action is Wait
        } else {
            action matches NetworkAction::Send(bytes) && bytes@ == wire::chunk_bytes(video)
        },
    }
}

/// What comes after some bytes were read: an empty read means that the connection is closed, and anything
/// else has to be a message.
pub open spec fn follows_read(bytes: Seq<u8>, action: NetworkAction) -> bool {
    if bytes.len() == 0 {
        action is Abandon
    } else {
        match wire::response_outcome(bytes) {
            Ok(payload) => action matches NetworkAction::Check(checked) && checked@ == payload,
            Err(error) => action == NetworkAction::Fail(NetworkError::Response(error)),
        }
    }
}

/// What comes after a picture, which has come to `result` and completed some `video`.
pub fn after_picture(result: Result<(), EncodeError>, video: &Vec<u8>) -> (action: NetworkAction)
    ensures
        follows_picture(result, video@, action),
{
    match result {
        Err(error) => NetworkAction::Fail(NetworkError::Encode(error)),
        Ok(()) => match wire::frame_chunk(video.as_slice()) {
            Some(chunk) => NetworkAction::Send(chunk),
            None => NetworkAction::Wait,
        },
    }
}

/// What comes after some bytes were read.
pub fn after_read(bytes: &Vec<u8>) -> (action: NetworkAction)
    ensures
        follows_read(bytes@, action),
{
    if bytes.len() == 0 {
        return NetworkAction::Abandon;
    }
    match wire::read_response(bytes.as_slice()) {
        Ok(payload) => NetworkAction::Check(payload),
        Err(error) => NetworkAction::Fail(NetworkError::Response(error)),
    }
}

impl NetworkedVideoEncoder {
    /// What the network side does after `event`. The video only changes with a picture.
    pub fn next_action(&mut self, event: &NetworkEvent) -> (action: NetworkAction)
        requires
            old(self)@.wf(),
            old(self)@.cursor.frames_seen < usize::MAX,
        ensures
            final(self)@.wf(),
            final(self).clock() == old(self).clock(),
            match *event {
                NetworkEvent::Command(StreamControl::Terminate) => action is Finish && final(self)@ == old(
                    self,
                )@,
                NetworkEvent::Command(StreamControl::DataAvailable(frame)) => exists|
                    result: Result<(), EncodeError>,
                    video: Seq<u8>,
                |
                    follows_picture(result, video, action) && #[trigger] old(self)@.takes(
                        frame,
                        seq![],
                        result,
                        final(self)@,
                        video,
                    ),
                NetworkEvent::Read(bytes) => follows_read(bytes@, action) && final(self)@ == old(self)@,
                NetworkEvent::Lost => action is Abandon && final(self)@ == old(self)@,
            },
    {
        match event {
            NetworkEvent::Command(StreamControl::Terminate) => NetworkAction::Finish,
            NetworkEvent::Command(StreamControl::DataAvailable(frame)) => {
                let mut video: Vec<u8> = Vec::new();
                let result = self.encode_to(frame, &mut video);
                let action = after_picture(result, &video);
                proof {
                    assert(old(self)@.takes(*frame, seq![], result, self@, video@));
                }
                action
            },
            NetworkEvent::Read(bytes) => after_read(bytes),
            NetworkEvent::Lost => NetworkAction::Abandon,
        }
    }
}

/// How many frames make up a cluster.
pub open spec fn cluster_size() -> int {
    MAX_BUFFERED_FRAMES + 1
}

/// The frames that the container is given, where some encoded frames, each with a name for the track, are
/// added to it in turn.
pub open spec fn prepared_all(cursor: CursorView, frames: Seq<(SegmentView, Seq<u8>)>) -> Seq<FrameView> {
    Seq::new(
        frames.len(),
        |i: int|
            mkv::segment_view(
                if i == 0 {
                    cursor
                } else {
                    CursorView { segment_start: Some(frames[0].0.timestamp), ..cursor }
                },
                frames[i].0,
                frames[i].1,
            ),
    )
}

/// Some frames, divided into `count` clusters.
pub open spec fn in_clusters(frames: Seq<FrameView>, count: nat) -> Seq<Seq<FrameView>> {
    Seq::new(count, |i: int| frames.subrange(cluster_size() * i, cluster_size() * i + cluster_size()))
}

impl EncoderView {
    /// The encoder after some encoded frames in turn, and all that was handed out. `None` where a frame
    /// does not make it into the video.
    pub open spec fn stored_all(self, frames: Seq<(SegmentView, Seq<u8>)>) -> Option<(EncoderView, Seq<u8>)>
        decreases frames.len(),
    {
        if frames.len() == 0 {
            Some((self, seq![]))
        } else {
            match self.stored_all(frames.drop_last()) {
                Some((before, bytes)) => match before.stored(frames.last().0, frames.last().1) {
                    Stored::Kept(after) => Some((after, bytes)),
                    Stored::Flushed(after, more) => Some((after, bytes + more)),
                    _ => None,
                },
                None => None,
            }
        }
    }
}

/// The time of a cluster and the time of a block in it, added up, give the time since the start of the
/// video at which the frame was taken, in milliseconds; where both were rounded down, one millisecond can
/// be missing.
pub proof fn law_block_time(start: Moment, cluster: Moment, frame: Moment)
    requires
        start.nanos <= cluster.nanos <= frame.nanos,
    ensures
        frame.millis_after(start) - 1 <= cluster.millis_after(start) + frame.millis_after(cluster)
            <= frame.millis_after(start),
{
}

/// Storing some frames and then some more is storing them all.
proof fn lemma_stored_concat(
    before: EncoderView,
    first: Seq<(SegmentView, Seq<u8>)>,
    second: Seq<(SegmentView, Seq<u8>)>,
)
    ensures
        before.stored_all(first + second) == match before.stored_all(first) {
            Some((middle, bytes)) => match middle.stored_all(second) {
                Some((after, more)) => Some((after, bytes + more)),
                None => None,
            },
            None => None,
        },
    decreases second.len(),
{
    if second.len() == 0 {
        assert(first + second =~= first);
        if let Some((middle, bytes)) = before.stored_all(first) {
            assert(bytes + Seq::<u8>::empty() =~= bytes);
        }
    } else {
        assert((first + second).drop_last() =~= first + second.drop_last());
        lemma_stored_concat(before, first, second.drop_last());
        if let Some((middle, bytes)) = before.stored_all(first) {
            if let Some((partly, more)) = middle.stored_all(second.drop_last()) {
                if let Stored::Flushed(after, last) = partly.stored(second.last().0, second.last().1) {
                    assert(bytes + more + last =~= bytes + (more + last));
                }
            }
        }
    }
}

/// Nothing is handed out until a cluster is full; then all of it is.
#[verifier::spinoff_prover]
pub proof fn law_cluster_fills(
    before: EncoderView,
    frames: Seq<(SegmentView, Seq<u8>)>,
    full: CursorView,
)
    requires
        before.written_frames == 0,
        0 < frames.len() <= cluster_size(),
        before.cursor.added_all(prepared_all(before.cursor, frames)) == Some(full),
        frames.len() == cluster_size() ==> full.can_dump(),
    ensures
        before.stored_all(frames) == Some(
            if frames.len() < cluster_size() {
                (
                    EncoderView {
                        written_frames: frames.len(),
                        cursor: full,
                        ..before.marked(frames[0].0.timestamp)
                    },
                    Seq::<u8>::empty(),
                )
            } else {
                (
                    EncoderView {
                        cluster_start: None,
                        written_frames: 0,
                        cursor: full.dumped(),
                        ..before.marked(frames[0].0.timestamp)
                    },
                    full.dumped_bytes(),
                )
            },
        ),
        full.segment_start == before.cursor.segment_start || before.cursor.segment_start is None,
        full.segment_start is Some,
        before.cursor.segment_start is None ==> full.segment_start == Some(frames[0].0.timestamp),
    decreases frames.len(),
{
    let rest = frames.drop_last();
    let prepared = prepared_all(before.cursor, frames);
    assert(prepared.drop_last() =~= prepared_all(before.cursor, rest));
    let last = frames.last();
    if frames.len() == 1 {
        assert(rest =~= seq![]);
        assert(prepared.drop_last() =~= seq![]);
        assert(before.cursor.added_all(seq![]) == Some(before.cursor));
        assert(before.stored_all(rest) == Some((before, Seq::<u8>::empty())));
        assert(prepared.last() == mkv::segment_view(before.cursor, last.0, last.1));
    } else {
        let partly = before.cursor.added_all(prepared.drop_last())->0;
        law_cluster_fills(before, rest, partly);
        assert(rest[0] == frames[0]);
        let (kept, _) = before.stored_all(rest)->0;
        assert(prepared.last() == mkv::segment_view(partly, last.0, last.1));
        assert(kept.marked(last.0.timestamp) == kept);
    }
    if frames.len() == cluster_size() {
        assert(seq![] + full.dumped_bytes() =~= full.dumped_bytes());
    }
}

/// The frames of the last of some clusters, as the container is given them.
#[verifier::spinoff_prover]
proof fn lemma_last_cluster(
    start: CursorView,
    cursor: CursorView,
    frames: Seq<(SegmentView, Seq<u8>)>,
    count: nat,
)
    requires
        count > 0,
        cluster_size() * count <= frames.len(),
        start.segment_start is None,
        count == 1 ==> cursor == start,
        count > 1 ==> cursor.segment_start is Some,
    ensures
        ({
            let clusters = in_clusters(prepared_all(start, frames), count);
            let next = frames.subrange(cluster_size() * (count - 1), cluster_size() * count);
            clusters.last() == prepared_all(cursor, next)
        }),
{
    let done = count - 1;
    assert(cluster_size() == 61);
    let clusters = in_clusters(prepared_all(start, frames), count);
    let next = frames.subrange(cluster_size() * done, cluster_size() * count);
    assert(clusters.last() =~= prepared_all(cursor, next));
}

/// Clusters are filled one after the other.
#[verifier::spinoff_prover]
proof fn lemma_clusters(uid: Seq<u8>, frames: Seq<(SegmentView, Seq<u8>)>, count: nat)
    requires
        cluster_size() * count <= frames.len(),
        ({
            let cursor = EncoderView::fresh(uid).cursor;
            cursor.streamed(in_clusters(prepared_all(cursor, frames), count)) is Some
        }),
    ensures
        ({
            let cursor = EncoderView::fresh(uid).cursor;
            let streamed = cursor.streamed(in_clusters(prepared_all(cursor, frames), count))->0;
            &&& EncoderView::fresh(uid).stored_all(frames.take(cluster_size() * count)) is Some
            &&& EncoderView::fresh(uid).stored_all(frames.take(cluster_size() * count))->0 == (
                EncoderView {
                    segment_start: streamed.0.segment_start,
                    cursor: streamed.0,
                    ..EncoderView::fresh(uid)
                },
                streamed.1,
            )
            &&& count > 0 ==> streamed.0.segment_start is Some
        }),
    decreases count,
{
    let start = EncoderView::fresh(uid);
    let prepared = prepared_all(start.cursor, frames);
    let clusters = in_clusters(prepared, count);
    if count == 0 {
        assert(frames.take(0) =~= seq![]);
        assert(clusters =~= seq![]);
    } else {
        let done = (count - 1) as nat;
        assert(clusters.drop_last() =~= in_clusters(prepared, done));
        assert(cluster_size() * count == cluster_size() * done + cluster_size()) by (nonlinear_arith)
            requires
                count == done + 1,
        ;
        lemma_clusters(uid, frames, done);
        let (cursor, bytes) = start.cursor.streamed(clusters.drop_last())->0;
        let before = EncoderView { segment_start: cursor.segment_start, cursor, ..start };
        let first = frames.take(cluster_size() * done);
        let next = frames.subrange(cluster_size() * done, cluster_size() * count);
        assert(frames.take(cluster_size() * count) =~= first + next);
        lemma_stored_concat(start, first, next);
        lemma_last_cluster(start.cursor, cursor, frames, count);
        let full = cursor.added_all(clusters.last())->0;
        law_cluster_fills(before, next, full);
        assert(full.dumped().segment_start == full.segment_start);
    }
}

/// All that is ever handed out, put together, is one video: the start of the container, the description of
/// the track, and the frames in clusters of [`cluster_size`], every one of them once and in turn.
#[verifier::spinoff_prover]
pub proof fn law_video(uid: Seq<u8>, frames: Seq<(SegmentView, Seq<u8>)>, count: nat)
    requires
        uid.len() == 16,
        count > 0,
        frames.len() == cluster_size() * count,
        frames[0].1.len() == 16,
        ({
            let cursor = EncoderView::fresh(uid).cursor;
            let clusters = in_clusters(prepared_all(cursor, frames), count);
            &&& cursor.fits_cluster(clusters[0])
            &&& forall|i: int|
                0 < i < count ==> (CursorView {
                    segment_start: Some(frames[0].0.timestamp),
                    ..CursorView::fresh(seq![])
                }).fits_cluster(#[trigger] clusters[i])
        }),
    ensures
        ({
            let prepared = prepared_all(EncoderView::fresh(uid).cursor, frames);
            let first = prepared[0];
            EncoderView::fresh(uid).stored_all(frames) matches Some((after, bytes)) && {
                &&& bytes == mkv::start_bytes(uid) + mkv::track_bytes(
                    first.dimensions,
                    first.private,
                    first.name,
                ) + mkv::clusters_bytes(first.timestamp, in_clusters(prepared, count))
                &&& after.written_frames == 0
                &&& after.cursor.frame_index == 0
            }
        }),
{
    let cursor = EncoderView::fresh(uid).cursor;
    let prepared = prepared_all(cursor, frames);
    let clusters = in_clusters(prepared, count);
    assert(cluster_size() * count >= cluster_size()) by (nonlinear_arith)
        requires
            count > 0,
            cluster_size() == 61,
    ;
    assert(clusters[0][0] == prepared[0]);
    avcc::lemma_record_len(avcc::found_sets(frames[0].0.bitstream));
    mkv::law_stream(seq![], uid, clusters);
    lemma_clusters(uid, frames, count);
    assert(frames.take(cluster_size() * count) =~= frames);
    assert(Seq::<u8>::empty() + mkv::start_bytes(uid) =~= mkv::start_bytes(uid));
}

} // verus!
