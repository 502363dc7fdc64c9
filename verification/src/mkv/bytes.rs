//! What the bytes of a container say, element by element.
use super::history::law_rounds;
use super::{
    block_tags, cluster_bytes, describes_track, entry_leaves, header_leaves, info_leaves, segment_view, start_bytes, track_bytes, video_leaves, Cursor, CursorView, FrameView, MkvError,
    PreparedFrame, SegmentFrame,
};
use crate::annexb;
use crate::avcc;
use crate::clock::Moment;
use crate::ebml::{self, element, TagView};
use crate::uid;
use vstd::prelude::*;
use vstd::utf8::encode_utf8;

verus! {

/// The bytes of a number that sixteen bits can hold, without a zero in front.
pub open spec fn short_bytes(value: u16) -> Seq<u8> {
    if value < 0x100 {
        seq![value as u8]
    } else {
        seq![(value / 0x100) as u8, (value % 0x100) as u8]
    }
}

/// What stands in front of everything else, for a segment with the identifier `uid`: the header, which says that
/// this is Matroska of version 4, the start of a segment that goes on to the end, and what is said of it. Times
/// are in milliseconds.
pub open spec fn opening_bytes(uid: Seq<u8>) -> Seq<u8> {
    element(0x1a45dfa3, element(0x4282, encode_utf8("matroska"@)) + element(0x4287, seq![4u8])) + ebml::unsized_start(
        0x18538067,
    ) + element(
        0x1549a966,
        element(0x73a4, uid) + element(0x7ba9, encode_utf8(uid::uid_text(uid))) + element(
            0x2ad7b1,
            seq![0u8, 0x0f, 0x42, 0x40],
        ) + element(0x5741, encode_utf8("rs-kvs-streamer"@)) + element(0x4d80, encode_utf8("rs-kvs-streamer"@)),
    )
}

/// What is said of a video: how wide and how high it is and is to be shown, and that it is not interlaced.
pub open spec fn picture_bytes(dimensions: (u16, u16)) -> Seq<u8> {
    element(0xb0, short_bytes(dimensions.0)) + element(0xba, short_bytes(dimensions.1)) + element(0x9a, seq![2u8])
        + element(0x54b2, seq![4u8]) + element(0x54b0, short_bytes(dimensions.0)) + element(
        0x54ba,
        short_bytes(dimensions.1),
    )
}

/// What is said of the one track: that it is the first, that it is a video, that its times are as they are, its
/// number, its name, and how it is coded.
pub open spec fn entry_bytes(name: Seq<u8>) -> Seq<u8> {
    element(0xd7, seq![1u8]) + element(0x83, seq![1u8]) + element(0x23314f, seq![0x3fu8, 0xf0, 0, 0, 0, 0, 0, 0])
        + element(0x73c5, seq![0x55u8]) + element(0x536e, encode_utf8(uid::uid_text(name))) + element(
        0x86,
        encode_utf8("V_MPEG4/ISO/AVC"@),
    ) + element(0x258688, encode_utf8("AVC/H.264"@))
}

/// The description of the one track: what is said of it, what the codec needs to know, if that is known, and the
/// shape of the picture.
pub open spec fn description_bytes(dimensions: (u16, u16), private: Option<Seq<u8>>, name: Seq<u8>) -> Seq<u8> {
    element(
        0x1654ae6b,
        element(
            0xae,
            entry_bytes(name) + (match private {
                Some(record) => element(0x63a2, record),
                None => seq![],
            }) + element(0xe0, picture_bytes(dimensions)),
        ),
    )
}

/// Some blocks, one behind the other.
pub open spec fn blocks_bytes(blocks: Seq<Seq<u8>>) -> Seq<u8>
    decreases blocks.len(),
{
    if blocks.len() == 0 {
        seq![]
    } else {
        blocks_bytes(blocks.drop_last()) + element(0xa3, blocks.last())
    }
}

/// The number that some bytes stand for, the first one the most significant.
pub open spec fn big_endian(bytes: Seq<u8>) -> int
    decreases bytes.len(),
{
    if bytes.len() == 0 {
        0
    } else {
        big_endian(bytes.drop_last()) * 256 + bytes.last()
    }
}

/// Is this a cluster that began at a time, with some blocks?
pub open spec fn is_cluster(bytes: Seq<u8>, time: int, blocks: Seq<Seq<u8>>) -> bool {
    exists|number: Seq<u8>|
        {
            &&& #[trigger] big_endian(number) == time
            &&& bytes == element(0x1f43b675, element(0xe7, number) + blocks_bytes(blocks))
        }
}

/// The whole milliseconds from one moment to another; none where the other one is not later.
pub open spec fn millis_between(from: Moment, to: Moment) -> int {
    if to.nanos >= from.nanos {
        (to.nanos - from.nanos) / 1_000_000
    } else {
        0
    }
}

/// Numbers that sixteen bits can hold.
proof fn lemma_short(value: u16)
    ensures
        ebml::unsigned_payload(value as u64) == short_bytes(value),
{
    reveal_with_fuel(ebml::be_bytes, 3);
    assert(ebml::unsigned_payload(value as u64) =~= short_bytes(value));
}

/// The bytes of a number stand for the number.
proof fn lemma_big_endian(value: nat, width: nat)
    ensures
        ebml::be_bytes(value, width).len() == width,
        width == 1 && value < 0x100 ==> big_endian(ebml::be_bytes(value, width)) == value,
        width == 2 && value < 0x1_0000 ==> big_endian(ebml::be_bytes(value, width)) == value,
        width == 4 && value < 0x1_0000_0000 ==> big_endian(ebml::be_bytes(value, width)) == value,
        width == 8 && value < 0x1_0000_0000_0000_0000 ==> big_endian(ebml::be_bytes(value, width)) == value,
{
    ebml::lemma_be_bytes_len(value, width);
    lemma_big_endian_step(value, width);
    let a = value / 256;
    let b = a / 256;
    let c = b / 256;
    let d = c / 256;
    let e = d / 256;
    let f = e / 256;
    let g = f / 256;
    if width >= 1 {
        lemma_big_endian_step(a, (width - 1) as nat);
    }
    if width >= 2 {
        lemma_big_endian_step(b, (width - 2) as nat);
    }
    if width >= 3 {
        lemma_big_endian_step(c, (width - 3) as nat);
    }
    if width >= 4 {
        lemma_big_endian_step(d, (width - 4) as nat);
    }
    if width >= 5 {
        lemma_big_endian_step(e, (width - 5) as nat);
    }
    if width >= 6 {
        lemma_big_endian_step(f, (width - 6) as nat);
    }
    if width >= 7 {
        lemma_big_endian_step(g, (width - 7) as nat);
    }
}

/// One byte more.
proof fn lemma_big_endian_step(value: nat, width: nat)
    ensures
        width == 0 ==> big_endian(ebml::be_bytes(value, width)) == 0,
        width > 0 ==> big_endian(ebml::be_bytes(value, width)) == big_endian(
            ebml::be_bytes(value / 256, (width - 1) as nat),
        ) * 256 + value % 256,
{
    let bytes = ebml::be_bytes(value, width);
    if width > 0 {
        assert(bytes.drop_last() =~= ebml::be_bytes(value / 256, (width - 1) as nat));
        assert(bytes.last() == value % 256);
    }
}

/// Elements one behind the other: one more.
proof fn lemma_more(leaves: Seq<TagView>, leaf: TagView)
    ensures
        ebml::leaf_bytes(leaves.push(leaf)) == ebml::leaf_bytes(leaves) + element(leaf.id(), leaf.payload()),
{
    assert(leaves.push(leaf).drop_last() =~= leaves);
}

/// The start of a container, element by element.
pub(crate) proof fn lemma_opening(uid: Seq<u8>)
    ensures
        start_bytes(uid) == opening_bytes(uid),
{
    let none: Seq<TagView> = seq![];
    let header = header_leaves();
    let one = none.push(header[0]);
    assert(header =~= one.push(header[1]));
    lemma_more(none, header[0]);
    lemma_more(one, header[1]);
    lemma_short(4);
    let first = element(0x4282, encode_utf8("matroska"@));
    assert(ebml::leaf_bytes(none) + first =~= first);
    let info = info_leaves(uid);
    let a = none.push(info[0]);
    let b = a.push(info[1]);
    let c = b.push(info[2]);
    let d = c.push(info[3]);
    assert(info =~= d.push(info[4]));
    lemma_more(none, info[0]);
    lemma_more(a, info[1]);
    lemma_more(b, info[2]);
    lemma_more(c, info[3]);
    lemma_more(d, info[4]);
    ebml::lemma_be_bytes_4(1_000_000);
    assert(ebml::unsigned_payload(1_000_000) =~= seq![0u8, 0x0f, 0x42, 0x40]);
    assert(ebml::leaf_bytes(none) + element(0x73a4, uid) =~= element(0x73a4, uid));
}

/// What is said of the video, element by element.
proof fn lemma_picture(dimensions: (u16, u16))
    ensures
        ebml::leaf_bytes(video_leaves(dimensions)) == picture_bytes(dimensions),
{
    let none: Seq<TagView> = seq![];
    let video = video_leaves(dimensions);
    let a = none.push(video[0]);
    let b = a.push(video[1]);
    let c = b.push(video[2]);
    let d = c.push(video[3]);
    let e = d.push(video[4]);
    assert(video =~= e.push(video[5]));
    lemma_more(none, video[0]);
    lemma_more(a, video[1]);
    lemma_more(b, video[2]);
    lemma_more(c, video[3]);
    lemma_more(d, video[4]);
    lemma_more(e, video[5]);
    lemma_short(dimensions.0);
    lemma_short(dimensions.1);
    lemma_short(2);
    lemma_short(4);
    let first = element(0xb0, short_bytes(dimensions.0));
    assert(ebml::leaf_bytes(none) + first =~= first);
}

/// What is said of the track, element by element.
proof fn lemma_entry(name: Seq<u8>)
    ensures
        ebml::leaf_bytes(entry_leaves(None, name)) == entry_bytes(name),
{
    let none: Seq<TagView> = seq![];
    let entry = entry_leaves(None, name);
    let a = none.push(entry[0]);
    let b = a.push(entry[1]);
    let c = b.push(entry[2]);
    let d = c.push(entry[3]);
    let e = d.push(entry[4]);
    let f = e.push(entry[5]);
    assert(entry =~= f.push(entry[6]));
    lemma_more(none, entry[0]);
    lemma_more(a, entry[1]);
    lemma_more(b, entry[2]);
    lemma_more(c, entry[3]);
    lemma_more(d, entry[4]);
    lemma_more(e, entry[5]);
    lemma_more(f, entry[6]);
    lemma_short(1);
    lemma_short(0x55);
    let first = element(0xd7, seq![1u8]);
    assert(ebml::leaf_bytes(none) + first =~= first);
}

/// The description of the track, element by element.
proof fn lemma_description(dimensions: (u16, u16), private: Option<Seq<u8>>, name: Seq<u8>)
    ensures
        track_bytes(dimensions, private, name) == description_bytes(dimensions, private, name),
{
    let plain = entry_leaves(None, name);
    let entry = entry_leaves(private, name);
    lemma_entry(name);
    lemma_picture(dimensions);
    match private {
        Some(record) => {
            let leaf = TagView::Binary(ebml::CODEC_PRIVATE, record);
            assert(entry =~= plain.push(leaf));
            lemma_more(plain, leaf);
        },
        None => {
            assert(ebml::leaf_bytes(plain) + Seq::<u8>::empty() =~= ebml::leaf_bytes(plain));
        },
    }
}

/// The payloads of some frames.
pub open spec fn payloads(frames: Seq<FrameView>) -> Seq<Seq<u8>> {
    Seq::new(frames.len(), |i: int| frames[i].payload)
}

/// Blocks one behind the other.
proof fn lemma_blocks(frames: Seq<FrameView>)
    ensures
        ebml::leaf_bytes(block_tags(frames)) == blocks_bytes(payloads(frames)),
    decreases frames.len(),
{
    if frames.len() > 0 {
        lemma_blocks(frames.drop_last());
        assert(block_tags(frames).drop_last() =~= block_tags(frames.drop_last()));
        assert(payloads(frames).drop_last() =~= payloads(frames.drop_last()));
    }
}

/// A cluster, element by element.
pub(crate) proof fn lemma_is_cluster(time: nat, frames: Seq<FrameView>)
    requires
        time <= u64::MAX,
    ensures
        is_cluster(cluster_bytes(time, frames), time as int, payloads(frames)),
{
    let number = ebml::unsigned_payload(time as u64);
    lemma_big_endian(time, 1);
    lemma_big_endian(time, 2);
    lemma_big_endian(time, 4);
    lemma_big_endian(time, 8);
    assert(big_endian(number) == time);
    lemma_blocks(frames);
}

/// The start of a container and the description of its track, element by element.
pub(crate) proof fn lemma_head(uid: Seq<u8>, dimensions: (u16, u16), private: Option<Seq<u8>>, name: Seq<u8>)
    ensures
        start_bytes(uid) + track_bytes(dimensions, private, name) == opening_bytes(uid) + description_bytes(
            dimensions,
            private,
            name,
        ),
{
    lemma_opening(uid);
    lemma_description(dimensions, private, name);
}

/// A new container holds nothing but what was in its buffer, and counts from nothing.
pub proof fn law_new(buffer: Vec<u8>, cursor: Cursor, frames: usize, data: Option<&avcc::PrivateData>)
    requires
        call_ensures(Cursor::new, (buffer,), cursor),
        call_ensures(Cursor::frames_seen, (&cursor,), frames),
        call_ensures(Cursor::codec_private, (&cursor,), data),
    ensures
        cursor@.writer.flushed == buffer@,
        cursor@.writer.pending.len() == 0,
        cursor@.writer.open.len() == 0,
        cursor@.tracks_end is None,
        cursor@.segment_start is None,
        cursor@.frame_index == 0,
        cursor@.position == 0,
        frames == 0,
        data is None,
{
}

/// Starting a container appends the opening of a segment with the given identifier to its buffer, and leaves
/// nothing but that segment open. It fails just where something was open already.
pub proof fn law_start(before: Cursor, segment_uid: [u8; 16], result: Result<(), MkvError>, after: Cursor)
    requires
        exists|cursor: &mut Cursor|
            *cursor == before && *final(cursor) == after && #[trigger] call_ensures(
                Cursor::start_as,
                (cursor, &segment_uid),
                result,
            ),
    ensures
        result is Ok <==> before@.writer.open.len() == 0,
        result is Err ==> result == Err::<(), MkvError>(MkvError::Refused) && after@.writer.flushed
            == before@.writer.flushed,
        result is Ok ==> {
            &&& after@.writer.flushed == before@.writer.flushed + before@.writer.pending + opening_bytes(
                segment_uid@,
            )
            &&& after@.writer.pending.len() == 0
            &&& after@.writer.open.len() == 1
            &&& after@.writer.open[0].0 == 0x18538067
            &&& after@.writer.open[0].1 is None
        },
        after@.frames_seen == before@.frames_seen,
        after@.frame_index == before@.frame_index,
        after@.position == before@.position,
        after@.segment_start == before@.segment_start,
        after@.tracks_end == before@.tracks_end,
        after@.codec_private == before@.codec_private,
{
    lemma_opening(segment_uid@);
}

/// Starting a container with an identifier drawn at random does the same, with some such identifier.
pub proof fn law_start_random(before: Cursor, result: Result<(), MkvError>, after: Cursor)
    requires
        exists|cursor: &mut Cursor|
            *cursor == before && *final(cursor) == after && #[trigger] call_ensures(Cursor::start, (cursor,), result),
    ensures
        result is Ok <==> before@.writer.open.len() == 0,
        result is Ok ==> exists|segment_uid: Seq<u8>|
            {
                &&& segment_uid.len() == 16
                &&& segment_uid[6] / 16 == 4
                &&& segment_uid[8] / 64 == 2
                &&& after@.writer.flushed == before@.writer.flushed + before@.writer.pending
                    + #[trigger] opening_bytes(segment_uid)
            },
        after@.frames_seen == before@.frames_seen,
        after@.frame_index == before@.frame_index,
{
    if result is Ok {
        let segment_uid = choose|segment_uid: Seq<u8>|
            uid::is_random(segment_uid) && after@ == #[trigger] before@.started(segment_uid);
        lemma_opening(segment_uid);
    }
}

/// A frame is added as it is: with its payload, its time, and, if it is the first one, its dimensions, private data
/// and name. It comes too late just where more than 2^64 - 1 milliseconds have gone by since the first one.
pub proof fn law_add(before: Cursor, frame: PreparedFrame, result: Result<(), MkvError>, after: Cursor)
    requires
        exists|cursor: &mut Cursor|
            *cursor == before && *final(cursor) == after && #[trigger] call_ensures(
                Cursor::add_prepared,
                (cursor, frame),
                result,
            ),
    ensures
        ({
            let view = FrameView {
                payload: frame.payload@,
                timestamp: frame.timestamp,
                dimensions: frame.dimensions,
                private: match frame.private {
                    Some(data) => Some(data.record@),
                    None => None,
                },
                name: frame.name@,
            };
            let late = before@.segment_start matches Some(start) && millis_between(start, frame.timestamp)
                > 0xffff_ffff_ffff_ffff;
            &&& result == Err::<(), MkvError>(MkvError::TimestampOverflow) <==> late
            &&& late ==> after@ == before@
            &&& result is Ok ==> before@.added(view) == Some(after@)
            &&& result is Ok ==> after@.frames_seen == before@.frames_seen + 1
            &&& result is Ok ==> after@.frame_index == before@.frame_index + 1
            &&& result is Ok ==> (after@.segment_start matches Some(start) && start.nanos
                == match before@.segment_start {
                Some(start) => start.nanos,
                None => frame.timestamp.nanos,
            })
            &&& before@.added(view) is Some ==> result is Ok
        }),
{
}

/// What a frame is made into before it is added: a block from which a receiver reads the time of the frame and its
/// units; and, if it is the first one, the private data of the codec, if the frame has any.
pub open spec fn is_made_of(view: FrameView, cursor: CursorView, block: SegmentFrame, name: Seq<u8>) -> bool {
    &&& view.timestamp.nanos == block.timestamp.nanos
    &&& view.dimensions == block.dimensions
    &&& view.name == name
    &&& says_block(view.payload, block.cluster_timestamp as int, block.bitstream@)
    &&& cursor.segment_start is Some ==> view.private is None
    &&& cursor.segment_start is None ==> match avcc::found_sets(block.bitstream@).record() {
        Ok(record) => view.private == Some(record),
        Err(_) => view.private is None,
    }
}

/// Does a block say that its frame comes so many milliseconds after the start of the cluster, and does a receiver
/// read the units of this stream from it?
pub open spec fn says_block(block: Seq<u8>, time: int, stream: Seq<u8>) -> bool {
    &&& block.len() >= 4
    &&& block[0] == 0x81
    &&& super::block_time(block[1], block[2]) == time
    &&& block[3] == 0
    &&& annexb::read_units(block.skip(4)) == Some(annexb::sent_units(annexb::reset_reports(stream)))
}

/// What a frame is made into is made of the frame.
pub(crate) proof fn lemma_is_made_of(cursor: CursorView, block: SegmentFrame, name: Seq<u8>)
    ensures
        is_made_of(segment_view(cursor, block@, name), cursor, block, name),
{
    super::lemma_block(block.cluster_timestamp, annexb::reset_reports(block.bitstream@));
}

/// An encoded frame is added as what it is made into.
pub proof fn law_add_segment(
    before: Cursor,
    block: SegmentFrame,
    name: [u8; 16],
    result: Result<(), MkvError>,
    after: Cursor,
)
    requires
        exists|cursor: &mut Cursor|
            *cursor == before && *final(cursor) == after && #[trigger] call_ensures(
                Cursor::add_segment_as,
                (cursor, &block, &name),
                result,
            ),
    ensures
        ({
            let late = before@.segment_start matches Some(start) && millis_between(start, block.timestamp)
                > 0xffff_ffff_ffff_ffff;
            &&& result == Err::<(), MkvError>(MkvError::TimestampOverflow) <==> late
            &&& late ==> after@ == before@
            &&& exists|view: FrameView|
                {
                    &&& #[trigger] is_made_of(view, before@, block, name@)
                    &&& result is Ok ==> before@.added(view) == Some(after@)
                    &&& !late && before@.added(view) is Some ==> result is Ok
                }
        }),
{
    let view = segment_view(before@, block@, name@);
    lemma_is_made_of(before@, block, name@);
    assert(view.timestamp == block.timestamp);
}

/// The same holds of a track that is named at random, with some such name.
pub proof fn law_add_segment_random(before: Cursor, block: SegmentFrame, result: Result<(), MkvError>, after: Cursor)
    requires
        exists|cursor: &mut Cursor|
            *cursor == before && *final(cursor) == after && #[trigger] call_ensures(
                Cursor::add_segment,
                (cursor, &block),
                result,
            ),
    ensures
        ({
            let late = before@.segment_start matches Some(start) && millis_between(start, block.timestamp)
                > 0xffff_ffff_ffff_ffff;
            &&& result == Err::<(), MkvError>(MkvError::TimestampOverflow) <==> late
            &&& late ==> after@ == before@
            &&& !late ==> exists|view: FrameView, name: Seq<u8>|
                {
                    &&& #[trigger] is_made_of(view, before@, block, name)
                    &&& name.len() == 16
                    &&& result is Ok ==> before@.added(view) == Some(after@)
                    &&& before@.added(view) is Some ==> result is Ok
                }
        }),
{
    if result != Err::<(), MkvError>(MkvError::TimestampOverflow) {
        let name = choose|name: Seq<u8>|
            {
                let frame = #[trigger] segment_view(before@, block@, name);
                &&& uid::is_random(name)
                &&& result == (if before@.added(frame) is None {
                    Err::<(), MkvError>(MkvError::Refused)
                } else {
                    Ok::<(), MkvError>(())
                })
                &&& result is Ok ==> after@ == before@.added(frame)->0
                &&& result is Err ==> {
                    &&& before@.writer.stops_into(before@.segment_tags(frame), after@.writer)
                    &&& after@ == before@.reached(frame, after@.writer)
                }
            };
        lemma_is_made_of(before@, block, name);
        assert(is_made_of(segment_view(before@, block@, name), before@, block, name));
    }
}

/// Handing out appends to the destination and changes nothing that is there; where it fails, it appends nothing.
/// What is appended, and what is kept, is what closing the cluster makes of the container.
pub proof fn law_dump(
    before: Cursor,
    destination: Vec<u8>,
    result: Result<(), MkvError>,
    after: Cursor,
    written: Vec<u8>,
)
    requires
        exists|cursor: &mut Cursor, output: &mut Vec<u8>|
            *cursor == before && *final(cursor) == after && *output == destination && *final(output) == written
                && #[trigger] call_ensures(Cursor::dump_to, (cursor, output), result),
    ensures
        result is Ok <==> before@.can_dump(),
        result is Err ==> written@ == destination@ && after@.writer.flushed == before@.writer.flushed
            && after@.frame_index == before@.frame_index,
        result is Ok ==> written@ == destination@ + before@.dumped_bytes() && after@ == before@.dumped(),
        after@.frames_seen == before@.frames_seen,
        after@.segment_start == before@.segment_start,
        after@.tracks_end == before@.tracks_end,
        result is Ok && before@.tracks_end is Some ==> after@.frame_index == 0,
{
}

/// Whenever frames are added and handed out, cluster by cluster, and nothing fails, what is handed out is, element
/// by element: the opening and the description of the track, once, and then each cluster, with its time in whole
/// milliseconds after the first frame, and a block for each of its frames, with its payload.
#[verifier::spinoff_prover]
pub proof fn law_container(buffer: Seq<u8>, uid: Seq<u8>, clusters: Seq<Seq<FrameView>>, i: int)
    requires
        uid.len() == 16,
        clusters.len() > 0,
        clusters[0].len() > 0,
        describes_track(clusters[0][0]),
        CursorView::fresh(buffer).started(uid).streamed(clusters) is Some,
        0 <= i < clusters.len(),
    ensures
        ({
            let first = clusters[0][0];
            let round = CursorView::fresh(buffer).started(uid).rounds(clusters)[i];
            let head = if i == 0 {
                buffer + (opening_bytes(uid) + description_bytes(first.dimensions, first.private, first.name))
            } else {
                seq![]
            };
            &&& round.len() >= head.len()
            &&& round.take(head.len() as int) == head
            &&& is_cluster(
                round.skip(head.len() as int),
                millis_between(first.timestamp, clusters[i][0].timestamp),
                Seq::new(clusters[i].len(), |m: int| clusters[i][m].payload),
            )
        }),
{
    law_rounds(buffer, uid, clusters);
    let first = clusters[0][0];
    let round = CursorView::fresh(buffer).started(uid).rounds(clusters)[i];
    let time = clusters[i][0].timestamp.millis_after(first.timestamp);
    let kept = buffer + start_bytes(uid) + track_bytes(first.dimensions, first.private, first.name);
    assert(time == millis_between(first.timestamp, clusters[i][0].timestamp));
    assert(payloads(clusters[i]) =~= Seq::new(clusters[i].len(), |m: int| clusters[i][m].payload));
    if i == 0 {
        assert(time == 0);
        lemma_kept(buffer, uid, first);
        lemma_round(round, kept, time, clusters[i]);
    } else {
        assert(round =~= Seq::<u8>::empty() + cluster_bytes(time, clusters[i]));
        lemma_round(round, seq![], time, clusters[i]);
    }
}

/// What stands in front of the first cluster.
#[verifier::spinoff_prover]
proof fn lemma_kept(buffer: Seq<u8>, uid: Seq<u8>, first: FrameView)
    ensures
        buffer + start_bytes(uid) + track_bytes(first.dimensions, first.private, first.name) == buffer + (
        opening_bytes(uid) + description_bytes(first.dimensions, first.private, first.name)),
{
    lemma_head(uid, first.dimensions, first.private, first.name);
    let tracks = track_bytes(first.dimensions, first.private, first.name);
    assert(buffer + start_bytes(uid) + tracks =~= buffer + (start_bytes(uid) + tracks));
}

/// What is handed out with a cluster, taken apart.
#[verifier::spinoff_prover]
proof fn lemma_round(round: Seq<u8>, head: Seq<u8>, time: nat, frames: Seq<FrameView>)
    requires
        round == head + cluster_bytes(time, frames),
        time <= u64::MAX,
    ensures
        round.len() >= head.len(),
        round.take(head.len() as int) == head,
        is_cluster(round.skip(head.len() as int), time as int, payloads(frames)),
{
    lemma_is_cluster(time, frames);
    assert(round.take(head.len() as int) =~= head);
    assert(round.skip(head.len() as int) =~= cluster_bytes(time, frames));
}

/// What is in the buffer stays there where a writer stops.
proof fn lemma_stopped(before: ebml::WriterState, tags: Seq<TagView>, after: ebml::WriterState)
    requires
        before.stops_into(tags, after),
    ensures
        before.flushed.is_prefix_of(after.flushed),
{
    let n = choose|n: int|
        0 <= n < tags.len() && (before.written_all(#[trigger] tags.take(n)) matches Some(state) && !state.accepts(
            tags[n],
        ) && state.refused_into(after));
    ebml::lemma_flushed_grows(before, tags.take(n));
}

/// A frame that the container refuses counts as seen, but not as part of the cluster; the segment begins with it if
/// it is the first one; and what is in the buffer stays there.
pub proof fn law_add_refused(before: Cursor, frame: PreparedFrame, result: Result<(), MkvError>, after: Cursor)
    requires
        exists|cursor: &mut Cursor|
            *cursor == before && *final(cursor) == after && #[trigger] call_ensures(
                Cursor::add_prepared,
                (cursor, frame),
                result,
            ),
        result == Err::<(), MkvError>(MkvError::Refused),
    ensures
        after@.frames_seen == before@.frames_seen + 1,
        after@.frame_index == before@.frame_index,
        after@.position == before@.position,
        after@.segment_start matches Some(start) && start.nanos == match before@.segment_start {
            Some(start) => start.nanos,
            None => frame.timestamp.nanos,
        },
        before@.writer.flushed.is_prefix_of(after@.writer.flushed),
{
    lemma_stopped(before@.writer, before@.segment_tags(frame@), after@.writer);
}

/// The private data that the container tells is that of its track, and an empty container is one without a buffer.
pub proof fn law_codec_private(cursor: Cursor, data: Option<&avcc::PrivateData>, frames: usize, empty: Cursor)
    requires
        call_ensures(Cursor::codec_private, (&cursor,), data),
        call_ensures(Cursor::frames_seen, (&cursor,), frames),
        call_ensures(<Cursor as Default>::default, (), empty),
    ensures
        match data {
            Some(data) => cursor@.codec_private == Some(data.record@),
            None => cursor@.codec_private is None,
        },
        frames == cursor@.frames_seen,
        empty@.writer.flushed.len() == 0,
        empty@.writer.pending.len() == 0,
        empty@.writer.open.len() == 0,
        empty@.frames_seen == 0,
        empty@.frame_index == 0,
        empty@.position == 0,
        empty@.segment_start is None,
        empty@.tracks_end is None,
        empty@.codec_private is None,
{
}

} // verus!
