//! What comes of pictures, in the bytes that are handed out and in the time between moments.
use super::history::{encoded_as, encoded_frame, law_pictures, sent_with, took_all};
use super::{
    after_picture, after_read, cluster_size, prepared_all, EncodeError, EncoderView, NetworkAction, NetworkError,
    NetworkEvent, NetworkedVideoEncoder,
};
use crate::avcc;
use crate::camera::JpegFrame;
use crate::clock::{Clock, Moment, LONGEST_NANOS};
use crate::codec::{self, VideoEncoder};
use crate::jpeg;
use crate::mkv::bytes::{
    description_bytes, is_cluster, is_made_of, lemma_head, lemma_is_cluster, lemma_is_made_of, millis_between,
    opening_bytes, payloads, says_block,
};
use crate::mkv::{self, FrameView, MkvError, SegmentFrame, SegmentView};
use crate::streaming::wire::{self, ResponseError};
use crate::streaming::StreamControl;
use crate::uid;
use vstd::prelude::*;

verus! {

/// A moment, or another one where there is none.
pub open spec fn or_else(moment: Option<Moment>, other: Moment) -> Option<Moment> {
    match moment {
        Some(moment) => Some(moment),
        None => Some(other),
    }
}

/// The whole milliseconds since a moment; none where there is no such moment.
pub open spec fn millis_since_start(start: Option<Moment>, now: Moment) -> int {
    match start {
        Some(start) => millis_between(start, now),
        None => 0,
    }
}

/// Is this what comes of a frame that was taken at a moment, and has been made into `view`? The video and the cluster
/// begin with it, if they have not begun before. It is added to the container, and, if it is the 61st one of its
/// cluster, the cluster is closed and handed out behind what is in the destination.
pub open spec fn keeps_frame(
    before: EncoderView,
    view: FrameView,
    destination: Seq<u8>,
    result: Result<(), EncodeError>,
    after: EncoderView,
    written: Seq<u8>,
) -> bool {
    let at = view.timestamp;
    let late = millis_since_start(before.cursor.segment_start, at) > 0xffff_ffff_ffff_ffff;
    &&& after.exchanges == before.exchanges
    &&& after.segment_start == or_else(before.segment_start, at)
    &&& late ==> {
        &&& result == Err::<(), EncodeError>(EncodeError::Container(MkvError::TimestampOverflow))
        &&& after.cluster_start == or_else(before.cluster_start, at)
        &&& after.written_frames == before.written_frames
        &&& after.cursor == before.cursor
        &&& written == destination
    }
    &&& !late ==> match before.cursor.added(view) {
        None => {
            &&& result == Err::<(), EncodeError>(EncodeError::Container(MkvError::Refused))
            &&& after.cluster_start == or_else(before.cluster_start, at)
            &&& after.written_frames == before.written_frames
            &&& after.cursor.frames_seen == before.cursor.frames_seen + 1
            &&& after.cursor.frame_index == before.cursor.frame_index
            &&& after.cursor.segment_start == or_else(before.cursor.segment_start, at)
            &&& written == destination
        },
        Some(full) => {
            if before.written_frames + 1 < 61 {
                &&& result == Ok::<(), EncodeError>(())
                &&& after.cluster_start == or_else(before.cluster_start, at)
                &&& after.written_frames == before.written_frames + 1
                &&& after.cursor == full
                &&& written == destination
            } else if full.can_dump() {
                &&& result == Ok::<(), EncodeError>(())
                &&& after.cluster_start is None
                &&& after.written_frames == 0
                &&& after.cursor == full.dumped()
                &&& written == destination + full.dumped_bytes()
            } else {
                &&& result == Err::<(), EncodeError>(EncodeError::Container(MkvError::Refused))
                &&& after.cluster_start is None
                &&& after.written_frames == before.written_frames + 1
                &&& after.cursor.frames_seen == full.frames_seen
                &&& after.cursor.frame_index == full.frame_index
                &&& after.cursor.writer.flushed == full.writer.flushed
                &&& written == destination
            }
        },
    }
}

/// What is stored is kept.
proof fn lemma_keeps(
    before: EncoderView,
    frame: SegmentView,
    name: Seq<u8>,
    destination: Seq<u8>,
    result: Result<(), EncodeError>,
    after: EncoderView,
    written: Seq<u8>,
)
    requires
        before.stores(frame, name, destination, result, after, written),
    ensures
        keeps_frame(
            before,
            mkv::segment_view(before.cursor, frame, name),
            destination,
            result,
            after,
            written,
        ),
{
}

/// An encoded frame is kept as what it is made into.
pub proof fn law_store(
    before: NetworkedVideoEncoder,
    frame: SegmentFrame,
    name: [u8; 16],
    destination: Vec<u8>,
    result: Result<(), EncodeError>,
    after: NetworkedVideoEncoder,
    written: Vec<u8>,
)
    requires
        exists|encoder: &mut NetworkedVideoEncoder, output: &mut Vec<u8>|
            *encoder == before && *final(encoder) == after && *output == destination && *final(output) == written
                && #[trigger] call_ensures(NetworkedVideoEncoder::store, (encoder, &frame, &name, output), result),
    ensures
        exists|view: FrameView|
            {
                &&& #[trigger] is_made_of(view, before@.cursor, frame, name@)
                &&& view.timestamp == frame.timestamp
                &&& keeps_frame(before@, view, destination@, result, after@, written@)
            },
        after.clock() == before.clock(),
{
    let view = mkv::segment_view(before@.cursor, frame@, name@);
    lemma_is_made_of(before@.cursor, frame, name@);
    lemma_keeps(before@, frame@, name@, destination@, result, after@, written@);
    assert(is_made_of(view, before@.cursor, frame, name@));
}

/// Is this a frame, ready to be added, that was taken at a moment so many milliseconds after the start of its
/// cluster, and was encoded as `stream`?
pub open spec fn is_frame_of(
    view: FrameView,
    before: EncoderView,
    at: Moment,
    dimensions: (u16, u16),
    time: int,
    stream: Seq<u8>,
) -> bool {
    &&& view.timestamp == at
    &&& view.dimensions == dimensions
    &&& view.name.len() == 16
    &&& says_block(view.payload, time, stream)
    &&& before.cursor.segment_start is Some ==> view.private is None
    &&& before.cursor.segment_start is None ==> match avcc::found_sets(stream).record() {
        Ok(record) => view.private == Some(record),
        Err(_) => view.private is None,
    }
}

/// Is this what comes of the pixels of a picture that was taken at `at`, at the time `now`? A picture that was taken
/// more than 32767 milliseconds after the first one of its cluster is refused. Any other goes through the video
/// encoder, once, with its pixels, its dimensions, and the milliseconds since the first picture of all. What
/// comes out is kept, with the milliseconds since the first picture of its cluster.
pub open spec fn plays_pixels(
    before: EncoderView,
    at: Moment,
    dimensions: (u16, u16),
    pixels: Seq<u8>,
    now: Moment,
    destination: Seq<u8>,
    result: Result<(), EncodeError>,
    after: EncoderView,
    written: Seq<u8>,
) -> bool {
    let time = millis_since_start(before.cluster_start, at);
    let total = millis_since_start(before.segment_start, now);
    if time > 32767 {
        &&& result == Err::<(), EncodeError>(EncodeError::ClusterTimestamp)
        &&& after == before
        &&& written == destination
    } else if total > 0xffff_ffff_ffff_ffff {
        &&& result == Err::<(), EncodeError>(EncodeError::SegmentTimestamp)
        &&& after == before
        &&& written == destination
    } else {
        let last = after.exchanges.last();
        let told = EncoderView { exchanges: after.exchanges, ..before };
        &&& after.exchanges.len() == before.exchanges.len() + 1
        &&& forall|i: int| 0 <= i < before.exchanges.len() ==> #[trigger] after.exchanges[i] == before.exchanges[i]
        &&& last.pixels == pixels
        &&& last.dimensions == dimensions
        &&& last.millis == total
        &&& codec::encoder_replies(pixels, dimensions, last.millis, last.reply)
        &&& match last.reply {
            None => {
                &&& result == Err::<(), EncodeError>(EncodeError::Encoder)
                &&& after == told
                &&& written == destination
            },
            Some(stream) => exists|view: FrameView|
                {
                    &&& #[trigger] is_frame_of(view, before, at, dimensions, time, stream)
                    &&& keeps_frame(told, view, destination, result, after, written)
                },
        }
    }
}

/// Pixels that are encoded are played.
proof fn lemma_plays(
    before: EncoderView,
    at: Moment,
    dimensions: (u16, u16),
    pixels: Seq<u8>,
    now: Moment,
    destination: Seq<u8>,
    result: Result<(), EncodeError>,
    after: EncoderView,
    written: Seq<u8>,
)
    requires
        before.encodes(at, dimensions, pixels, now, destination, result, after, written),
    ensures
        plays_pixels(before, at, dimensions, pixels, now, destination, result, after, written),
{
    let time = millis_since_start(before.cluster_start, at);
    let total = millis_since_start(before.segment_start, now);
    assert(before.cluster_millis(at) == time);
    assert(before.segment_millis(now) == total);
    if time <= 32767 && total <= 0xffff_ffff_ffff_ffff {
        let told = EncoderView { exchanges: after.exchanges, ..before };
        assert forall|i: int| 0 <= i < before.exchanges.len() implies #[trigger] after.exchanges[i]
            == before.exchanges[i] by {
            assert(after.exchanges.drop_last()[i] == after.exchanges[i]);
        }
        if let Some(stream) = after.exchanges.last().reply {
            let frame = SegmentView {
                bitstream: stream,
                cluster_timestamp: time as i16,
                timestamp: at,
                dimensions,
            };
            let name = choose|name: Seq<u8>|
                uid::is_random(name) && #[trigger] told.stores(frame, name, destination, result, after, written);
            lemma_keeps(told, frame, name, destination, result, after, written);
            let view = mkv::segment_view(told.cursor, frame, name);
            mkv::lemma_block(time as i16, crate::annexb::reset_reports(stream));
            assert(is_frame_of(view, before, at, dimensions, time, stream));
        }
    }
}

/// A picture that has been decoded is played.
pub proof fn law_pixels(
    before: NetworkedVideoEncoder,
    frame: JpegFrame,
    pixels: &[u8],
    now: Moment,
    destination: Vec<u8>,
    result: Result<(), EncodeError>,
    after: NetworkedVideoEncoder,
    written: Vec<u8>,
)
    requires
        exists|encoder: &mut NetworkedVideoEncoder, output: &mut Vec<u8>|
            *encoder == before && *final(encoder) == after && *output == destination && *final(output) == written
                && #[trigger] call_ensures(
                NetworkedVideoEncoder::encode_pixels_to,
                (encoder, &frame, pixels, now, output),
                result,
            ),
    ensures
        plays_pixels(
            before@,
            frame.timestamp,
            frame.dimensions,
            pixels@,
            now,
            destination@,
            result,
            after@,
            written@,
        ),
        after.clock() == before.clock(),
{
    lemma_plays(before@, frame.timestamp, frame.dimensions, pixels@, now, destination@, result, after@, written@);
}

/// Can the video encoder be told of the times of a picture that was taken at `at`, at the time `now`?
pub open spec fn tellable(before: EncoderView, at: Moment, now: Moment) -> bool {
    let total = millis_since_start(before.segment_start, now);
    &&& millis_since_start(before.cluster_start, at) < 0x1_0000_0000_0000_0000
    &&& total < 0x8000_0000_0000_0000 || total >= 0x1_0000_0000_0000_0000
}

/// Is this what comes of a picture that was decoded to some pixels, or could not be? One that could not be decoded is
/// refused; so is one that does not have three bytes for each pixel of its dimensions, or an odd width or height;
/// and so is one with times that the video encoder cannot be told of. Any other is played.
pub open spec fn plays_decoded(
    before: EncoderView,
    at: Moment,
    dimensions: (u16, u16),
    decoded: Option<Seq<u8>>,
    now: Moment,
    destination: Seq<u8>,
    result: Result<(), EncodeError>,
    after: EncoderView,
    written: Seq<u8>,
) -> bool {
    let (width, height) = dimensions;
    let refused = result is Err && after == before && written == destination;
    match decoded {
        None => refused && result->Err_0 is Jpeg,
        Some(pixels) => if pixels.len() != width * height * 3 || width % 2 != 0 || height % 2 != 0 {
            refused && result->Err_0 is Shape
        } else if !tellable(before, at, now) {
            refused && result->Err_0 is ClockRange
        } else {
            plays_pixels(before, at, dimensions, pixels, now, destination, result, after, written)
        },
    }
}

/// Pictures that are encoded, where they could be decoded, are played.
proof fn lemma_plays_decoded(
    before: EncoderView,
    at: Moment,
    dimensions: (u16, u16),
    decoded: Option<Seq<u8>>,
    now: Moment,
    destination: Seq<u8>,
    result: Result<(), EncodeError>,
    after: EncoderView,
    written: Seq<u8>,
)
    requires
        before.encodes_decoded(at, dimensions, decoded, now, destination, result, after, written),
    ensures
        plays_decoded(before, at, dimensions, decoded, now, destination, result, after, written),
{
    let (width, height) = dimensions;
    assert(3 * (width * height) == width * height * 3) by (nonlinear_arith);
    if let Some(pixels) = decoded {
        assert(before.in_range(at, now) == tellable(before, at, now));
        if codec::well_shaped(pixels.len(), dimensions) && before.in_range(at, now) {
            lemma_plays(before, at, dimensions, pixels, now, destination, result, after, written);
        }
    }
}

/// A picture, with what it was decoded to, is refused or played.
pub proof fn law_decoded(
    before: NetworkedVideoEncoder,
    frame: JpegFrame,
    decoded: Option<&[u8]>,
    now: Moment,
    destination: Vec<u8>,
    result: Result<(), EncodeError>,
    after: NetworkedVideoEncoder,
    written: Vec<u8>,
)
    requires
        exists|encoder: &mut NetworkedVideoEncoder, output: &mut Vec<u8>|
            *encoder == before && *final(encoder) == after && *output == destination && *final(output) == written
                && #[trigger] call_ensures(
                NetworkedVideoEncoder::encode_decoded_to,
                (encoder, &frame, decoded, now, output),
                result,
            ),
    ensures
        plays_decoded(
            before@,
            frame.timestamp,
            frame.dimensions,
            match decoded {
                Some(pixels) => Some(pixels@),
                None => None,
            },
            now,
            destination@,
            result,
            after@,
            written@,
        ),
        after.clock() == before.clock(),
{
    let pixels = match decoded {
        Some(pixels) => Some(pixels@),
        None => None,
    };
    lemma_plays_decoded(
        before@,
        frame.timestamp,
        frame.dimensions,
        pixels,
        now,
        destination@,
        result,
        after@,
        written@,
    );
}

/// Is this what comes of a picture? One in which the decoder would count too far is refused. Any other is decoded to
/// something that the decoder can give for its data, and refused or played at some time.
pub open spec fn plays(
    before: EncoderView,
    frame: JpegFrame,
    destination: Seq<u8>,
    result: Result<(), EncodeError>,
    after: EncoderView,
    written: Seq<u8>,
) -> bool {
    if jpeg::overcounts(jpeg::jpeg_header(frame.data@), frame.data@) {
        result is Err && result->Err_0 is TooLarge && after == before && written == destination
    } else {
        exists|decoded: Option<Seq<u8>>, now: Moment|
            {
                &&& jpeg::jpeg_decodes_to(frame.data@, decoded)
                &&& #[trigger] plays_decoded(
                    before,
                    frame.timestamp,
                    frame.dimensions,
                    decoded,
                    now,
                    destination,
                    result,
                    after,
                    written,
                )
            }
    }
}

/// Pictures that are taken are played.
proof fn lemma_plays_picture(
    before: EncoderView,
    frame: JpegFrame,
    destination: Seq<u8>,
    result: Result<(), EncodeError>,
    after: EncoderView,
    written: Seq<u8>,
)
    requires
        before.takes(frame, destination, result, after, written),
    ensures
        plays(before, frame, destination, result, after, written),
{
    if !jpeg::overcounts(jpeg::jpeg_header(frame.data@), frame.data@) {
        let (decoded, now) = choose|decoded: Option<Seq<u8>>, now: Moment|
            {
                &&& now.nanos <= LONGEST_NANOS
                &&& jpeg::jpeg_decodes_to(frame.data@, decoded)
                &&& #[trigger] before.encodes_decoded(
                    frame.timestamp,
                    frame.dimensions,
                    decoded,
                    now,
                    destination,
                    result,
                    after,
                    written,
                )
            };
        lemma_plays_decoded(
            before,
            frame.timestamp,
            frame.dimensions,
            decoded,
            now,
            destination,
            result,
            after,
            written,
        );
    }
}

/// A picture is refused or played.
pub proof fn law_picture(
    before: NetworkedVideoEncoder,
    frame: JpegFrame,
    destination: Vec<u8>,
    result: Result<(), EncodeError>,
    after: NetworkedVideoEncoder,
    written: Vec<u8>,
)
    requires
        exists|encoder: &mut NetworkedVideoEncoder, output: &mut Vec<u8>|
            *encoder == before && *final(encoder) == after && *output == destination && *final(output) == written
                && #[trigger] call_ensures(NetworkedVideoEncoder::encode_to, (encoder, &frame, output), result),
    ensures
        plays(before@, frame, destination@, result, after@, written@),
        after.clock() == before.clock(),
{
    lemma_plays_picture(before@, frame, destination@, result, after@, written@);
}

/// When the cluster began that a picture belongs to, if it is not the first one of its cluster: with the picture that
/// makes up a whole number of clusters with those in front of it.
pub open spec fn cluster_began(frames: Seq<JpegFrame>, k: int) -> Option<Moment> {
    if k % 61 == 0 {
        None
    } else {
        Some(frames[k - k % 61].timestamp)
    }
}

/// A picture that is played, and not refused, leaves these traces.
proof fn lemma_one_played(before: EncoderView, frame: JpegFrame, after: EncoderView, out: Seq<u8>)
    requires
        before.takes(frame, seq![], Ok::<(), EncodeError>(()), after, out),
    ensures
        before.cluster_millis(frame.timestamp) == millis_since_start(before.cluster_start, frame.timestamp),
        millis_since_start(before.cluster_start, frame.timestamp) <= 32767,
        millis_since_start(before.cursor.segment_start, frame.timestamp) <= 0xffff_ffff_ffff_ffff,
        after.cursor.segment_start == or_else(before.cursor.segment_start, frame.timestamp),
        after.cluster_start == if before.written_frames + 1 < 61 {
            or_else(before.cluster_start, frame.timestamp)
        } else {
            None
        },
        after.exchanges.last().reply is Some,
{
    let result = Ok::<(), EncodeError>(());
    lemma_plays_picture(before, frame, seq![], result, after, out);
    let (decoded, now) = choose|decoded: Option<Seq<u8>>, now: Moment|
        {
            &&& jpeg::jpeg_decodes_to(frame.data@, decoded)
            &&& #[trigger] plays_decoded(
                before,
                frame.timestamp,
                frame.dimensions,
                decoded,
                now,
                seq![],
                result,
                after,
                out,
            )
        };
    let time = millis_since_start(before.cluster_start, frame.timestamp);
    let stream = after.exchanges.last().reply->0;
    let told = EncoderView { exchanges: after.exchanges, ..before };
    let view = choose|view: FrameView|
        {
            &&& #[trigger] is_frame_of(view, before, frame.timestamp, frame.dimensions, time, stream)
            &&& keeps_frame(told, view, seq![], result, after, out)
        };
    let full = before.cursor.added(view)->0;
    assert(full.segment_start == or_else(before.cursor.segment_start, frame.timestamp));
    assert(full.dumped().segment_start == full.segment_start);
}

/// When the open cluster began, and the video, after some pictures.
proof fn lemma_began(uid: Seq<u8>, states: Seq<EncoderView>, frames: Seq<JpegFrame>, outs: Seq<Seq<u8>>, k: int)
    requires
        uid.len() == 16,
        took_all(states, frames, outs),
        states[0] == EncoderView::fresh(uid),
        0 <= k <= frames.len(),
    ensures
        states[k].cluster_start == cluster_began(frames, k),
        states[k].cursor.segment_start == if k == 0 {
            None
        } else {
            Some(frames[0].timestamp)
        },
    decreases k,
{
    if k > 0 {
        lemma_began(uid, states, frames, outs, k - 1);
        law_pictures(uid, states, frames, outs);
        assert(cluster_size() == 61);
        let before = states[k - 1];
        assert(before.written_frames == (k - 1) % 61);
        let frame = frames[k - 1];
        assert(before.takes(frame, seq![], Ok::<(), EncodeError>(()), states[k], outs[k - 1]));
        lemma_one_played(before, frame, states[k], outs[k - 1]);
    }
}

/// The stream that the video encoder made of a picture.
pub open spec fn stream_of_picture(states: Seq<EncoderView>, k: int) -> Seq<u8> {
    states[k + 1].exchanges.last().reply->0
}

/// Is this what the picture `i`, which makes a cluster full, hands out? In front of the first cluster stand the opening
/// and the description of the track. The time of the cluster is that of its first picture, in whole milliseconds
/// after the first picture of all; the time in each block is that of its picture, in whole milliseconds after the
/// first one of the cluster; and the two together are the time of the picture after the first one of all, to the
/// millisecond.
pub open spec fn shows(
    uid: Seq<u8>,
    states: Seq<EncoderView>,
    frames: Seq<JpegFrame>,
    i: int,
    out: Seq<u8>,
    cluster: Seq<u8>,
    blocks: Seq<Seq<u8>>,
    name: Seq<u8>,
) -> bool {
    let first = i - 60;
    let time = millis_between(frames[0].timestamp, frames[first].timestamp);
    let private = match avcc::found_sets(stream_of_picture(states, 0)).record() {
        Ok(record) => Some(record),
        Err(_) => None,
    };
    &&& is_cluster(cluster, time, blocks)
    &&& uid::is_random(name)
    &&& out == if i == 60 {
        opening_bytes(uid) + description_bytes(frames[0].dimensions, private, name) + cluster
    } else {
        cluster
    }
    &&& blocks.len() == 61
    &&& forall|m: int| 0 <= m < 61 ==> shows_at(states, frames, first, m, #[trigger] blocks[m])
}

/// Does a block show the picture that is `m` pictures behind the first one of its cluster, at its time?
pub open spec fn shows_at(states: Seq<EncoderView>, frames: Seq<JpegFrame>, first: int, m: int, block: Seq<u8>) -> bool {
    let at = frames[first + m].timestamp;
    let time = millis_between(frames[0].timestamp, frames[first].timestamp);
    &&& says_block(block, millis_between(frames[first].timestamp, at), stream_of_picture(states, first + m))
    &&& frames[0].timestamp.nanos <= frames[first].timestamp.nanos <= at.nanos ==> {
        let whole = millis_between(frames[0].timestamp, at);
        whole - 1 <= time + mkv::block_time(block[1], block[2]) <= whole
    }
}

/// However many pictures are given to a new encoder, and none of them refused, each 61st one hands out a cluster,
/// which says, byte by byte, when to show each of the last 61 pictures, and what to show.
pub proof fn law_played(
    uid: Seq<u8>,
    states: Seq<EncoderView>,
    frames: Seq<JpegFrame>,
    outs: Seq<Seq<u8>>,
    i: int,
)
    requires
        uid.len() == 16,
        took_all(states, frames, outs),
        states[0] == EncoderView::fresh(uid),
        0 <= i < frames.len(),
        (i + 1) % 61 == 0,
    ensures
        exists|cluster: Seq<u8>, blocks: Seq<Seq<u8>>, name: Seq<u8>|
            #[trigger] shows(uid, states, frames, i, outs[i], cluster, blocks, name),
{
    let encoded = lemma_encoded(uid, states, frames, outs, i);
    lemma_cluster_times(uid, states, frames, outs, i);
    let (cluster, blocks) = lemma_shows(uid, states, frames, encoded, i);
    assert(shows(uid, states, frames, i, outs[i], cluster, blocks, encoded[0].1));
}

/// The frames that some pictures are stored as.
#[verifier::spinoff_prover]
proof fn lemma_encoded(
    uid: Seq<u8>,
    states: Seq<EncoderView>,
    frames: Seq<JpegFrame>,
    outs: Seq<Seq<u8>>,
    i: int,
) -> (encoded: Seq<(SegmentView, Seq<u8>)>)
    requires
        uid.len() == 16,
        took_all(states, frames, outs),
        states[0] == EncoderView::fresh(uid),
        0 <= i < frames.len(),
    ensures
        encoded_as(encoded, states, frames),
        outs[i] == sent_with(uid, encoded.take(i + 1)),
{
    law_pictures(uid, states, frames, outs);
    let encoded = choose|encoded: Seq<(SegmentView, Seq<u8>)>|
        {
            &&& #[trigger] encoded_as(encoded, states, frames)
            &&& forall|i: int| 0 <= i < frames.len() ==> #[trigger] outs[i] == sent_with(uid, encoded.take(i + 1))
        };
    assert(outs[i] == sent_with(uid, encoded.take(i + 1)));
    encoded
}

/// The times of the pictures of one cluster.
#[verifier::spinoff_prover]
proof fn lemma_cluster_times(
    uid: Seq<u8>,
    states: Seq<EncoderView>,
    frames: Seq<JpegFrame>,
    outs: Seq<Seq<u8>>,
    i: int,
)
    requires
        uid.len() == 16,
        took_all(states, frames, outs),
        states[0] == EncoderView::fresh(uid),
        0 <= i < frames.len(),
        (i + 1) % 61 == 0,
    ensures
        millis_between(frames[0].timestamp, frames[i - 60].timestamp) <= 0xffff_ffff_ffff_ffff,
        forall|k: int|
            i - 60 <= k <= i ==> #[trigger] in_time(states, frames, i - 60, k),
{
    assert((i - 60) % 61 == 0);
    lemma_times(uid, states, frames, outs, i - 60, i - 60);
    assert forall|k: int| i - 60 <= k <= i implies #[trigger] in_time(states, frames, i - 60, k) by {
        lemma_times(uid, states, frames, outs, i - 60, k);
    }
}

/// Is a picture of a cluster taken as soon after the first one as a block can say?
#[verifier::opaque]
spec fn in_time(states: Seq<EncoderView>, frames: Seq<JpegFrame>, first: int, k: int) -> bool {
    &&& states[k].cluster_millis(frames[k].timestamp) == millis_between(frames[first].timestamp, frames[k].timestamp)
    &&& states[k].cluster_millis(frames[k].timestamp) <= 32767
}

/// The times of one picture.
#[verifier::spinoff_prover]
proof fn lemma_times(
    uid: Seq<u8>,
    states: Seq<EncoderView>,
    frames: Seq<JpegFrame>,
    outs: Seq<Seq<u8>>,
    first: int,
    k: int,
)
    requires
        uid.len() == 16,
        took_all(states, frames, outs),
        states[0] == EncoderView::fresh(uid),
        0 <= first <= k < first + 61,
        k < frames.len(),
        first % 61 == 0,
    ensures
        in_time(states, frames, first, k),
        millis_between(frames[0].timestamp, frames[k].timestamp) <= 0xffff_ffff_ffff_ffff,
{
    assert(k - k % 61 == first);
    lemma_began(uid, states, frames, outs, k);
    assert(states[k].takes(frames[k], seq![], Ok::<(), EncodeError>(()), states[k + 1], outs[k]));
    lemma_one_played(states[k], frames[k], states[k + 1], outs[k]);
    reveal(in_time);
}

/// The block of one picture.
#[verifier::spinoff_prover]
proof fn lemma_block_played(
    states: Seq<EncoderView>,
    frames: Seq<JpegFrame>,
    encoded: Seq<(SegmentView, Seq<u8>)>,
    first: int,
    m: int,
)
    requires
        encoded[first + m].0 == encoded_frame(states[first + m], frames[first + m], states[first + m + 1]),
        in_time(states, frames, first, first + m),
    ensures
        shows_at(
            states,
            frames,
            first,
            m,
            mkv::frame_payload(
                encoded[first + m].0.cluster_timestamp,
                crate::annexb::reset_reports(encoded[first + m].0.bitstream),
            ),
        ),
{
    let k = first + m;
    reveal(in_time);
    mkv::lemma_block(
        encoded[k].0.cluster_timestamp,
        crate::annexb::reset_reports(encoded[k].0.bitstream),
    );
    let at = frames[k].timestamp;
    if frames[0].timestamp.nanos <= frames[first].timestamp.nanos <= at.nanos {
        super::law_block_time(frames[0].timestamp, frames[first].timestamp, at);
    }
}

/// The first frame of all, as the container is given it, and the frames of a cluster.
#[verifier::spinoff_prover]
proof fn lemma_prepared(
    uid: Seq<u8>,
    states: Seq<EncoderView>,
    frames: Seq<JpegFrame>,
    encoded: Seq<(SegmentView, Seq<u8>)>,
    i: int,
)
    requires
        encoded_as(encoded, states, frames),
        0 <= i < frames.len(),
        (i + 1) % 61 == 0,
    ensures
        ({
            let prepared = prepared_all(EncoderView::fresh(uid).cursor, encoded.take(i + 1));
            let first = i - 60;
            &&& prepared.len() == i + 1
            &&& prepared[0].timestamp == frames[0].timestamp
            &&& prepared[0].dimensions == frames[0].dimensions
            &&& prepared[0].name == encoded[0].1
            &&& uid::is_random(encoded[0].1)
            &&& prepared[0].private == match avcc::found_sets(stream_of_picture(states, 0)).record() {
                Ok(record) => Some(record),
                Err(_) => None,
            }
            &&& prepared[first].timestamp == frames[first].timestamp
            &&& forall|m: int|
                0 <= m < 61 ==> (#[trigger] prepared.skip(first)[m]).payload == mkv::frame_payload(
                    encoded[first + m].0.cluster_timestamp,
                    crate::annexb::reset_reports(encoded[first + m].0.bitstream),
                )
        }),
{
    let first = i - 60;
    assert(encoded[0].0 == encoded_frame(states[0], frames[0], states[1]));
    assert(encoded[first].0 == encoded_frame(states[first], frames[first], states[first + 1]));
}

/// The blocks of one cluster.
#[verifier::spinoff_prover]
proof fn lemma_blocks_played(
    states: Seq<EncoderView>,
    frames: Seq<JpegFrame>,
    encoded: Seq<(SegmentView, Seq<u8>)>,
    prepared: Seq<FrameView>,
    first: int,
)
    requires
        0 <= first,
        first + 61 <= frames.len(),
        prepared.len() == first + 61,
        encoded_as(encoded, states, frames),
        forall|m: int|
            0 <= m < 61 ==> (#[trigger] prepared.skip(first)[m]).payload == mkv::frame_payload(
                encoded[first + m].0.cluster_timestamp,
                crate::annexb::reset_reports(encoded[first + m].0.bitstream),
            ),
        forall|k: int| first <= k < first + 61 ==> #[trigger] in_time(states, frames, first, k),
    ensures
        payloads(prepared.skip(first)).len() == 61,
        forall|m: int|
            0 <= m < 61 ==> shows_at(states, frames, first, m, #[trigger] payloads(prepared.skip(first))[m]),
{
    let chosen = prepared.skip(first);
    let blocks = payloads(chosen);
    assert forall|m: int| 0 <= m < 61 implies shows_at(states, frames, first, m, #[trigger] blocks[m]) by {
        assert(encoded[first + m].0 == encoded_frame(states[first + m], frames[first + m], states[first + m + 1]));
        assert(in_time(states, frames, first, first + m));
        lemma_block_played(states, frames, encoded, first, m);
        assert(blocks[m] == chosen[m].payload);
    }
}

/// The bytes that are handed out with a cluster.
#[verifier::spinoff_prover]
proof fn lemma_sent_bytes(uid: Seq<u8>, sent: Seq<(SegmentView, Seq<u8>)>, first: FrameView, time: nat)
    requires
        sent.len() > 0,
        sent.len() as int % 61 == 0,
        ({
            let prepared = prepared_all(EncoderView::fresh(uid).cursor, sent);
            &&& first == prepared[0]
            &&& time == prepared[sent.len() - 61].timestamp.millis_after(first.timestamp)
        }),
    ensures
        ({
            let chosen = prepared_all(EncoderView::fresh(uid).cursor, sent).skip(sent.len() - 61);
            let cluster = mkv::cluster_bytes(time, chosen);
            sent_with(uid, sent) == if sent.len() == 61 {
                opening_bytes(uid) + description_bytes(first.dimensions, first.private, first.name) + cluster
            } else {
                cluster
            }
        }),
{
    assert(cluster_size() == 61);
    let prepared = prepared_all(EncoderView::fresh(uid).cursor, sent);
    let chosen = prepared.skip(sent.len() - 61);
    assert(chosen[0] == prepared[sent.len() - 61]);
    lemma_head(uid, first.dimensions, first.private, first.name);
}

/// What a cluster that is handed out says.
#[verifier::spinoff_prover]
proof fn lemma_shows(
    uid: Seq<u8>,
    states: Seq<EncoderView>,
    frames: Seq<JpegFrame>,
    encoded: Seq<(SegmentView, Seq<u8>)>,
    i: int,
) -> (shown: (Seq<u8>, Seq<Seq<u8>>))
    requires
        encoded_as(encoded, states, frames),
        0 <= i < frames.len(),
        (i + 1) % 61 == 0,
        millis_between(frames[0].timestamp, frames[i - 60].timestamp) <= 0xffff_ffff_ffff_ffff,
        forall|k: int| i - 60 <= k <= i ==> #[trigger] in_time(states, frames, i - 60, k),
    ensures
        shows(
            uid,
            states,
            frames,
            i,
            sent_with(uid, encoded.take(i + 1)),
            shown.0,
            shown.1,
            encoded[0].1,
        ),
{
    let first = i - 60;
    let sent = encoded.take(i + 1);
    let prepared = prepared_all(EncoderView::fresh(uid).cursor, sent);
    let time = millis_between(frames[0].timestamp, frames[first].timestamp) as nat;
    lemma_prepared(uid, states, frames, encoded, i);
    lemma_sent_bytes(uid, sent, prepared[0], time);
    lemma_is_cluster(time, prepared.skip(first));
    lemma_blocks_played(states, frames, encoded, prepared, first);
    (mkv::cluster_bytes(time, prepared.skip(first)), payloads(prepared.skip(first)))
}

/// The times of a picture can be told to the video encoder just where they fit.
pub proof fn law_tellable(encoder: NetworkedVideoEncoder, at: Moment, now: Moment, fits: bool)
    requires
        call_ensures(NetworkedVideoEncoder::is_in_range, (&encoder, at, now), fits),
    ensures
        fits == tellable(encoder@, at, now),
{
}

/// A new encoder has seen nothing, has a container that is just opened, and keeps the clock and the video encoder that
/// it was given.
pub proof fn law_with_encoder(
    clock: Clock,
    encoder: VideoEncoder,
    segment_uid: [u8; 16],
    made: Result<NetworkedVideoEncoder, EncodeError>,
)
    requires
        call_ensures(NetworkedVideoEncoder::with_encoder, (clock, encoder, &segment_uid), made),
    ensures
        made matches Ok(made) && {
            &&& made.clock() == clock
            &&& made.encoder() == encoder
            &&& begins(made@, segment_uid@)
            &&& made@.exchanges == encoder@
        },
{
    lemma_begins(segment_uid@);
}

/// Has nothing been seen yet, and is the container just opened, for a segment with the identifier `uid`?
pub open spec fn begins(encoder: EncoderView, uid: Seq<u8>) -> bool {
    &&& encoder.segment_start is None
    &&& encoder.cluster_start is None
    &&& encoder.written_frames == 0
    &&& encoder.cursor.frames_seen == 0
    &&& encoder.cursor.frame_index == 0
    &&& encoder.cursor.position == 0
    &&& encoder.cursor.segment_start is None
    &&& encoder.cursor.tracks_end is None
    &&& encoder.cursor.codec_private is None
    &&& encoder.cursor.writer.flushed == opening_bytes(uid)
    &&& encoder.cursor.writer.pending.len() == 0
    &&& encoder.cursor.writer.open == seq![(0x18538067u64, None::<nat>)]
}

/// What is fresh begins.
proof fn lemma_begins(uid: Seq<u8>)
    ensures
        begins(EncoderView::fresh(uid), uid),
{
    let fresh = EncoderView::fresh(uid);
    mkv::bytes::lemma_opening(uid);
    assert(fresh.cursor.writer.flushed =~= opening_bytes(uid));
}

/// A new encoder around a new video encoder has nothing behind it. The one thing that can go wrong is that the video
/// encoder cannot be started.
pub proof fn law_new_encoder(clock: Clock, made: Result<NetworkedVideoEncoder, EncodeError>)
    requires
        call_ensures(NetworkedVideoEncoder::new, (clock,), made),
    ensures
        match made {
            Ok(made) => {
                &&& made.clock() == clock
                &&& made@.exchanges.len() == 0
                &&& exists|uid: Seq<u8>| uid::is_random(uid) && #[trigger] begins(made@, uid)
            },
            Err(error) => error is Initialise,
        },
{
    if let Ok(made) = made {
        let uid = choose|uid: Seq<u8>| uid::is_random(uid) && made@ == #[trigger] EncoderView::fresh(uid);
        lemma_begins(uid);
        assert(begins(made@, uid));
    }
}

/// How many frames there have been is what the container counts.
pub proof fn law_frames_seen(encoder: NetworkedVideoEncoder, frames: usize)
    requires
        call_ensures(NetworkedVideoEncoder::frames_seen, (&encoder,), frames),
    ensures
        frames == encoder@.cursor.frames_seen,
{
}

/// Is this what comes after a picture? An error ends everything. Where the picture has completed some video, just
/// that is sent, in a chunk from which a receiver reads it; else nothing is.
pub open spec fn sends_video(result: Result<(), EncodeError>, video: Seq<u8>, action: NetworkAction) -> bool {
    match result {
        Err(error) => action matches NetworkAction::Fail(NetworkError::Encode(reason)) && reason == error,
        Ok(()) => if video.len() == 0 {
            action is Wait
        } else {
            action matches NetworkAction::Send(bytes) && bytes@.len() > 0 && wire::dechunked(bytes@) == Some(video)
        },
    }
}

/// Chunks are what is sent.
proof fn lemma_sends_video(result: Result<(), EncodeError>, video: Seq<u8>, action: NetworkAction)
    requires
        super::follows_picture(result, video, action),
    ensures
        sends_video(result, video, action),
{
    if result is Ok && video.len() > 0 {
        let pieces = seq![video];
        wire::law_chunks_carry_the_data(pieces);
        assert(pieces.drop_first() =~= seq![]);
        assert(wire::chunks_bytes(seq![]) =~= seq![]);
        assert(wire::joined(seq![]) =~= seq![]);
        assert(wire::chunks_bytes(pieces) =~= wire::chunk_bytes(video));
        assert(wire::joined(pieces) =~= video);
        wire::law_hex(video.len());
    }
}

/// What a picture completes is sent.
pub proof fn law_after_picture(result: Result<(), EncodeError>, video: Vec<u8>, action: NetworkAction)
    requires
        call_ensures(after_picture, (result, &video), action),
    ensures
        sends_video(result, video@, action),
{
    lemma_sends_video(result, video@, action);
}

/// Is this what comes after some bytes were read? None at all mean that the connection is closed. Else they have to be
/// a message, of which the second line is checked.
pub open spec fn heeds(bytes: Seq<u8>, action: NetworkAction) -> bool {
    if bytes.len() == 0 {
        action is Abandon
    } else {
        match wire::response_outcome(bytes) {
            Ok(payload) => action matches NetworkAction::Check(checked) && checked@ == payload,
            Err(error) => action matches NetworkAction::Fail(NetworkError::Response(reason)) && reason == error,
        }
    }
}

/// Bytes that were read are heeded.
pub proof fn law_after_read(
    bytes: Vec<u8>,
    action: NetworkAction,
    message: &[u8],
    payload: Result<Vec<u8>, ResponseError>,
)
    requires
        call_ensures(after_read, (&bytes,), action),
        message@ == bytes@,
        call_ensures(wire::read_response, (message,), payload),
    ensures
        bytes@.len() == 0 ==> action is Abandon,
        bytes@.len() > 0 ==> match payload {
            Ok(payload) => action matches NetworkAction::Check(checked) && checked@ == payload@,
            Err(error) => action matches NetworkAction::Fail(NetworkError::Response(reason)) && reason == error,
        },
{
}

/// A message to terminate ends the network side. A picture is refused or played, and what it completes is sent. Bytes
/// that were read are heeded. Where nothing more can come, the network side gives up. The video changes with a
/// picture and with nothing else.
pub proof fn law_network(
    before: NetworkedVideoEncoder,
    event: NetworkEvent,
    action: NetworkAction,
    after: NetworkedVideoEncoder,
)
    requires
        exists|encoder: &mut NetworkedVideoEncoder|
            *encoder == before && *final(encoder) == after && #[trigger] call_ensures(
                NetworkedVideoEncoder::next_action,
                (encoder, &event),
                action,
            ),
    ensures
        after.clock() == before.clock(),
        match event {
            NetworkEvent::Command(StreamControl::Terminate) => action is Finish && after@ == before@,
            NetworkEvent::Command(StreamControl::DataAvailable(frame)) => exists|
                result: Result<(), EncodeError>,
                video: Seq<u8>,
            |
                sends_video(result, video, action) && #[trigger] plays(
                    before@,
                    frame,
                    seq![],
                    result,
                    after@,
                    video,
                ),
            NetworkEvent::Read(bytes) => heeds(bytes@, action) && after@ == before@,
            NetworkEvent::Lost => action is Abandon && after@ == before@,
        },
{
    if let NetworkEvent::Command(StreamControl::DataAvailable(frame)) = event {
        let (result, video) = choose|result: Result<(), EncodeError>, video: Seq<u8>|
            super::follows_picture(result, video, action) && #[trigger] before@.takes(
                frame,
                seq![],
                result,
                after@,
                video,
            );
        lemma_sends_video(result, video, action);
        lemma_plays_picture(before@, frame, seq![], result, after@, video);
    }
}

} // verus!
