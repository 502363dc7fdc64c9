//! The Matroska container: puts encoded frames into clusters, and hands out what is complete.
use crate::annexb::{self, NalReport};
use crate::avcc::{self, PrivateData};
use crate::clock::Moment;
use crate::ebml::{
    self, Tag, TagView, TagWriter, WriterState, CLUSTER, CODEC_ID, CODEC_NAME, CODEC_PRIVATE, DISPLAY_HEIGHT,
    DISPLAY_UNIT, DISPLAY_WIDTH, DOC_TYPE, DOC_TYPE_VERSION, EBML, FLAG_INTERLACED, INFO, MUXING_APP,
    PIXEL_HEIGHT, PIXEL_WIDTH, SEGMENT, SEGMENT_UID, SIMPLE_BLOCK, SIZE_LIMIT, TIMESTAMP, TIMESTAMP_SCALE,
    TITLE, TRACKS, TRACK_ENTRY, TRACK_NAME, TRACK_NUMBER, TRACK_TIMESTAMP_SCALE, TRACK_TYPE, TRACK_UID, VIDEO,
    WRITING_APP,
};
use crate::uid;
use vstd::prelude::*;
use webm_iterable::matroska_spec::{EbmlTag, Frame, MatroskaSpec, SimpleBlock};

pub mod bytes;
pub mod history;

verus! {

/// Why something could not be written to the container.
#[derive(Clone, Copy, Debug, PartialEq, Eq, Structural)]
pub enum MkvError {
    /// A frame came so long after the first one that its time does not fit the container.
    TimestampOverflow,
    /// A frame could not be made into a block.
    Block,
    /// An element was written where it cannot stand, or has become too large.
    Refused,
}

/// What stands in the header of the document.
pub open spec fn header_leaves() -> Seq<TagView> {
    seq![TagView::Text(DOC_TYPE, "matroska"@), TagView::Unsigned(DOC_TYPE_VERSION, 4)]
}

/// The header of the document.
pub open spec fn header_bytes() -> Seq<u8> {
    ebml::element(EBML, ebml::leaf_bytes(header_leaves()))
}

/// What is said of the segment as a whole, for the segment with the identifier `uid`.
pub open spec fn info_leaves(uid: Seq<u8>) -> Seq<TagView> {
    seq![
        TagView::Binary(SEGMENT_UID, uid),
        TagView::Text(TITLE, uid::uid_text(uid)),
        TagView::Unsigned(TIMESTAMP_SCALE, 1_000_000),
        TagView::Text(WRITING_APP, "rs-kvs-streamer"@),
        TagView::Text(MUXING_APP, "rs-kvs-streamer"@),
    ]
}

/// The element that says it.
pub open spec fn info_bytes(uid: Seq<u8>) -> Seq<u8> {
    ebml::element(INFO, ebml::leaf_bytes(info_leaves(uid)))
}

/// Everything that stands in front of the tracks.
pub open spec fn start_bytes(uid: Seq<u8>) -> Seq<u8> {
    header_bytes() + ebml::unsized_start(SEGMENT) + info_bytes(uid)
}

/// What is said of the one track, in front of the shape of the picture.
pub open spec fn entry_leaves(private: Option<Seq<u8>>, name: Seq<u8>) -> Seq<TagView> {
    seq![
        TagView::Unsigned(TRACK_NUMBER, 1),
        TagView::Unsigned(TRACK_TYPE, 1),
        TagView::Float(TRACK_TIMESTAMP_SCALE, 1),
        TagView::Unsigned(TRACK_UID, 0x55),
        TagView::Text(TRACK_NAME, uid::uid_text(name)),
        TagView::Text(CODEC_ID, "V_MPEG4/ISO/AVC"@),
        TagView::Text(CODEC_NAME, "AVC/H.264"@),
    ] + match private {
        Some(record) => seq![TagView::Binary(CODEC_PRIVATE, record)],
        None => seq![],
    }
}

/// The shape of the picture.
pub open spec fn video_leaves(dimensions: (u16, u16)) -> Seq<TagView> {
    seq![
        TagView::Unsigned(PIXEL_WIDTH, dimensions.0 as u64),
        TagView::Unsigned(PIXEL_HEIGHT, dimensions.1 as u64),
        TagView::Unsigned(FLAG_INTERLACED, 2),
        TagView::Unsigned(DISPLAY_UNIT, 4),
        TagView::Unsigned(DISPLAY_WIDTH, dimensions.0 as u64),
        TagView::Unsigned(DISPLAY_HEIGHT, dimensions.1 as u64),
    ]
}

/// The tags of the one track.
pub open spec fn track_tags(dimensions: (u16, u16), private: Option<Seq<u8>>, name: Seq<u8>) -> Seq<TagView> {
    ebml::master_tags(
        TRACKS,
        ebml::master_tags(
            TRACK_ENTRY,
            entry_leaves(private, name) + ebml::master_tags(VIDEO, video_leaves(dimensions)),
        ),
    )
}

/// The element that describes the one track.
pub open spec fn track_bytes(dimensions: (u16, u16), private: Option<Seq<u8>>, name: Seq<u8>) -> Seq<u8> {
    ebml::element(
        TRACKS,
        ebml::element(
            TRACK_ENTRY,
            ebml::leaf_bytes(entry_leaves(private, name)) + ebml::element(
                VIDEO,
                ebml::leaf_bytes(video_leaves(dimensions)),
            ),
        ),
    )
}

/// A writer in which nothing is open, and nothing waits.
pub open spec fn nothing_open(flushed: Seq<u8>) -> WriterState {
    WriterState { flushed, pending: seq![], open: seq![] }
}

/// A writer in which nothing but an unsized segment is open, and nothing waits.
pub open spec fn between_clusters(flushed: Seq<u8>) -> WriterState {
    WriterState { flushed, pending: seq![], open: seq![(SEGMENT, None)] }
}

/// The start of the container, written where nothing is open yet.
proof fn lemma_start(state: WriterState, uid: Seq<u8>)
    requires
        state.open.len() == 0,
        uid.len() == 16,
    ensures
        state.written_all(ebml::master_tags(EBML, header_leaves())) == Some(
            nothing_open(state.flushed + state.pending + header_bytes()),
        ),
        nothing_open(state.flushed + state.pending + header_bytes()).unsized_opened(SEGMENT).written_all(ebml::master_tags(INFO, info_leaves(uid))) == Some(
            between_clusters(state.flushed + state.pending + start_bytes(uid)),
        ),
{
    reveal_strlit("matroska");
    reveal_strlit("rs-kvs-streamer");
    ebml::lemma_utf8_bound("matroska"@);
    ebml::lemma_utf8_bound("rs-kvs-streamer"@);
    ebml::lemma_utf8_bound(uid::uid_text(uid));
    ebml::lemma_be_bytes_len(4, 1);
    ebml::lemma_be_bytes_len(1_000_000, 4);

    assert(state.open_ids() =~= seq![]);
    let opened = WriterState { open: state.open.push((EBML, Some(state.pending.len()))), ..state };
    assert(opened.open[0].1 is Some);
    assert(opened.open_ids() =~= seq![EBML]);
    ebml::lemma_leaves(opened, header_leaves());
    ebml::lemma_leaf_bytes_bound(header_leaves(), 1000);
    ebml::lemma_master(state, EBML, header_leaves(), ebml::leaf_bytes(header_leaves()));
    let headed = nothing_open(state.flushed + state.pending + header_bytes());
    let closed = WriterState { pending: state.pending + header_bytes(), ..state };
    assert(!closed.waits());
    assert(closed.settled() =~= headed);

    let segment = headed.unsized_opened(SEGMENT);
    assert(segment.open_ids() =~= seq![SEGMENT]);
    let opened = WriterState { open: segment.open.push((INFO, Some(segment.pending.len()))), ..segment };
    assert(opened.open[1].1 is Some);
    assert(opened.open_ids() =~= seq![SEGMENT, INFO]);
    ebml::lemma_leaves(opened, info_leaves(uid));
    ebml::lemma_leaf_bytes_bound(info_leaves(uid), 1000);
    ebml::lemma_master(segment, INFO, info_leaves(uid), ebml::leaf_bytes(info_leaves(uid)));
    let closed = WriterState { pending: segment.pending + info_bytes(uid), ..segment };
    assert(!closed.waits());
    assert(closed.settled() =~= between_clusters(state.flushed + state.pending + start_bytes(uid)));
}

/// The header of the document is refused where something is open, and nothing reaches the buffer.
proof fn lemma_start_refused(state: WriterState)
    requires
        state.wf(),
        state.open.len() > 0,
    ensures
        state.written_all(ebml::master_tags(EBML, header_leaves())) is None,
        forall|after: WriterState|
            #[trigger] state.stops_into(ebml::master_tags(EBML, header_leaves()), after) ==> after.flushed
                == state.flushed,
{
    let tags = ebml::master_tags(EBML, header_leaves());
    assert(tags.take(0) =~= seq![]);
    assert(tags.take(1) =~= seq![tags[0]]);
    assert(tags.take(2).drop_last() =~= tags.take(1));
    ebml::lemma_written_one(state, tags[0]);
    assert(state.open_ids().len() == state.open.len());
    let opened = WriterState { open: state.open.push((EBML, Some(state.pending.len()))), ..state };
    assert(opened.open[state.open.len() as int].1 is Some);
    assert(opened.open_ids().len() == state.open.len() + 1);
    assert(tags[1] == TagView::Text(DOC_TYPE, "matroska"@));
    assert(!opened.accepts(tags[1]));
    assert forall|n: int| 2 <= n <= tags.len() implies state.written_all(#[trigger] tags.take(n)) is None by {
        let most = tags.take(n);
        assert(most.take(1) =~= tags.take(1));
        assert(most.take(0) =~= tags.take(0));
        if state.accepts(tags[0]) {
            ebml::lemma_refused_at(state, most, 1);
        } else {
            ebml::lemma_refused_at(state, most, 0);
        }
    }
    assert(tags.take(tags.len() as int) =~= tags);
}

/// The description of the track is small.
proof fn lemma_track_sizes(dimensions: (u16, u16), private: Option<Seq<u8>>, name: Seq<u8>)
    requires
        private matches Some(record) ==> record.len() <= avcc::RECORD_LIMIT,
    ensures
        forall|i: int|
            0 <= i < entry_leaves(private, name).len() ==> (#[trigger] entry_leaves(
                private,
                name,
            )[i]).payload().len() <= 1_000_000,
        forall|i: int|
            0 <= i < video_leaves(dimensions).len() ==> (#[trigger] video_leaves(
                dimensions,
            )[i]).payload().len() <= 1_000,
        ebml::leaf_bytes(video_leaves(dimensions)).len() <= 10_000,
        (ebml::leaf_bytes(entry_leaves(private, name)) + ebml::element(
            VIDEO,
            ebml::leaf_bytes(video_leaves(dimensions)),
        )).len() <= 10_000_000,
        ebml::element(
            TRACK_ENTRY,
            ebml::leaf_bytes(entry_leaves(private, name)) + ebml::element(
                VIDEO,
                ebml::leaf_bytes(video_leaves(dimensions)),
            ),
        ).len() <= 10_000_100,
{
    let entry = entry_leaves(private, name);
    let video = video_leaves(dimensions);
    reveal_strlit("V_MPEG4/ISO/AVC");
    reveal_strlit("AVC/H.264");
    ebml::lemma_utf8_bound("V_MPEG4/ISO/AVC"@);
    ebml::lemma_utf8_bound("AVC/H.264"@);
    ebml::lemma_utf8_bound(uid::uid_text(name));
    assert forall|value: u64| #[trigger] ebml::unsigned_payload(value).len() <= 8 by {
        ebml::lemma_be_bytes_len(value as nat, 1);
        ebml::lemma_be_bytes_len(value as nat, 2);
        ebml::lemma_be_bytes_len(value as nat, 4);
        ebml::lemma_be_bytes_len(value as nat, 8);
    }
    assert(entry.len() <= 8);
    ebml::lemma_leaf_bytes_bound(entry, 1_000_000);
    ebml::lemma_leaf_bytes_bound(video, 1_000);
    assert(entry.len() * (1_000_000 + 16) <= 8 * (1_000_000 + 16)) by (nonlinear_arith)
        requires
            entry.len() <= 8,
    ;
    ebml::lemma_element_bound(VIDEO, ebml::leaf_bytes(video));
    ebml::lemma_element_bound(
        TRACK_ENTRY,
        ebml::leaf_bytes(entry) + ebml::element(VIDEO, ebml::leaf_bytes(video)),
    );
}

/// The description of the track, written inside the segment.
#[verifier::spinoff_prover]
proof fn lemma_tracks(state: WriterState, dimensions: (u16, u16), private: Option<Seq<u8>>, name: Seq<u8>)
    requires
        state.open_ids() == seq![SEGMENT],
        name.len() == 16,
        private matches Some(record) ==> record.len() <= avcc::RECORD_LIMIT,
    ensures
        state.written_all(track_tags(dimensions, private, name)) == Some(
            (WriterState {
                pending: state.pending + track_bytes(dimensions, private, name),
                ..state
            }).settled(),
        ),
{
    let entry = entry_leaves(private, name);
    let video = video_leaves(dimensions);
    lemma_track_sizes(dimensions, private, name);
    let video_element = ebml::element(VIDEO, ebml::leaf_bytes(video));
    let entry_inner = ebml::leaf_bytes(entry) + video_element;
    let entry_element = ebml::element(TRACK_ENTRY, entry_inner);

    let in_tracks = WriterState { open: state.open.push((TRACKS, Some(state.pending.len()))), ..state };
    assert(in_tracks.open[state.open.len() as int].1 is Some);
    assert(state.open.len() == 1) by {
        assert(state.open_ids().len() == 1);
    }
    assert(state.open[0].0 == state.open_ids()[0]);
    assert(in_tracks.open_ids() =~= seq![SEGMENT, TRACKS]);
    let in_entry = WriterState {
        open: in_tracks.open.push((TRACK_ENTRY, Some(state.pending.len()))),
        ..in_tracks
    };
    assert(in_entry.open[2].1 is Some);
    assert(in_entry.open_ids() =~= seq![SEGMENT, TRACKS, TRACK_ENTRY]);
    ebml::lemma_leaves(in_entry, entry);
    let described = WriterState { pending: state.pending + ebml::leaf_bytes(entry), ..in_entry };
    assert(described.open_ids() =~= seq![SEGMENT, TRACKS, TRACK_ENTRY]);
    let in_video = WriterState {
        open: described.open.push((VIDEO, Some(described.pending.len()))),
        ..described
    };
    assert(in_video.open[3].1 is Some);
    assert(in_video.open_ids() =~= seq![SEGMENT, TRACKS, TRACK_ENTRY, VIDEO]);
    ebml::lemma_leaves(in_video, video);
    ebml::lemma_master(described, VIDEO, video, ebml::leaf_bytes(video));
    let shaped = WriterState { pending: described.pending + video_element, ..described };
    assert(shaped.open[2].1 is Some);
    assert(shaped.waits());
    assert(shaped.pending =~= state.pending + entry_inner);
    ebml::lemma_written_concat(in_entry, entry, ebml::master_tags(VIDEO, video));
    ebml::lemma_master(in_tracks, TRACK_ENTRY, entry + ebml::master_tags(VIDEO, video), entry_inner);
    let entered = WriterState { pending: state.pending + entry_element, ..in_tracks };
    assert(entered.open[1].1 is Some);
    assert(entered.waits());
    ebml::lemma_master(
        state,
        TRACKS,
        ebml::master_tags(TRACK_ENTRY, entry + ebml::master_tags(VIDEO, video)),
        entry_element,
    );
}

/// The payload of a `SimpleBlock`: the track, the time since the start of the cluster, flags, and one
/// frame.
pub open spec fn block_payload(track: u64, timestamp: i16, keyframe: bool, data: Seq<u8>) -> Seq<u8> {
    seq![(0x80 + track) as u8] + ebml::be_bytes(
        (if timestamp < 0 {
            timestamp + 0x1_0000
        } else {
            timestamp as int
        }) as nat,
        2,
    ) + seq![if keyframe {
        0x80u8
    } else {
        0u8
    }] + data
}

/// Why a block could not be read.
#[verifier::external_type_specification]
#[verifier::external_body]
pub struct ExWebmCoercionError(webm_iterable::errors::WebmCoercionError);

/// `webm_iterable::matroska_spec::SimpleBlock`: read from a template with `try_from`, given a track, a
/// time and one frame without lacing, and turned back into bytes. The flags that are not given come
/// from the template, which here has none of them set, behind a track number of eight bytes.
#[verifier::external_body]
fn encode_block(template: Vec<u8>, track: u64, timestamp: i16, keyframe: bool, data: &[u8]) -> (made: Result<
    Vec<u8>,
    webm_iterable::errors::WebmCoercionError,
>)
    requires
        template@.len() >= 11,
        template@[0] == 1,
        template@[10] == 0,
        track < 0x7f,
    ensures
        made is Ok,
        made->Ok_0@ == block_payload(track, timestamp, keyframe, data@),
{
    let tag = MatroskaSpec::SimpleBlock(template);
    let mut block = SimpleBlock::try_from(&tag)?;
    block.lacing = None;
    block.track = track;
    block.keyframe = keyframe;
    block.timestamp = timestamp;
    block.set_frame_data(&vec![Frame { data }]);
    Ok(MatroskaSpec::from(block).as_binary().unwrap_or_default().to_vec())
}

/// An encoded frame, and when it was taken.
pub struct SegmentFrame<'a> {
    /// The encoded frame, as a byte stream of NAL units.
    pub bitstream: &'a [u8],
    /// The time since the start of the cluster, in milliseconds.
    pub cluster_timestamp: i16,
    /// When the frame was taken.
    pub timestamp: Moment,
    /// The width and the height of the picture.
    pub dimensions: (u16, u16),
}

/// A [`SegmentFrame`], over mathematical values.
#[verifier::ext_equal]
pub struct SegmentView {
    pub bitstream: Seq<u8>,
    pub cluster_timestamp: i16,
    pub timestamp: Moment,
    pub dimensions: (u16, u16),
}

impl<'a> View for SegmentFrame<'a> {
    type V = SegmentView;

    open spec fn view(&self) -> SegmentView {
        SegmentView {
            bitstream: self.bitstream@,
            cluster_timestamp: self.cluster_timestamp,
            timestamp: self.timestamp,
            dimensions: self.dimensions,
        }
    }
}

/// The payload of the block for a frame of which the splitter gave some reports.
pub open spec fn frame_payload(cluster_timestamp: i16, reports: Seq<(bool, Seq<u8>)>) -> Seq<u8> {
    block_payload(1, cluster_timestamp, false, annexb::length_prefixed(reports))
}

/// The payload of the block for a frame of which the splitter gave some reports.
pub fn make_simpleblock(cluster_timestamp: i16, reports: &Vec<NalReport>) -> (made: Result<Vec<u8>, MkvError>)
    ensures
        made matches Ok(payload) && payload@ == frame_payload(
            cluster_timestamp,
            annexb::report_views(reports@),
        ),
{
    let data = annexb::prefix_lengths(reports);
    let template: Vec<u8> = vec![
        1, 0, 0, 0, 0, 0, 0, 0, 1, 0, 0, 0, 0, 0, 0, 0, 0, 0, 0, 0, 0, 0, 0, 0,
    ];
    match encode_block(template, 1, cluster_timestamp, false, data.as_slice()) {
        Ok(payload) => Ok(payload),
        Err(_) => Err(MkvError::Block),
    }
}

impl<'a> SegmentFrame<'a> {
    /// The payload of the block for this frame: its units, each behind its length. The last unit ends
    /// where the frame ends.
    pub fn simpleblock(&self) -> (made: Result<Vec<u8>, MkvError>)
        ensures
            made matches Ok(payload) && payload@ == frame_payload(
                self.cluster_timestamp,
                annexb::reset_reports(self.bitstream@),
            ),
            forall|units: Seq<(bool, Seq<u8>)>|
                self.bitstream@ == #[trigger] annexb::byte_stream(units) && annexb::all_framable(units)
                    ==> annexb::reset_reports(self.bitstream@) == annexb::closed_reports(units),
    {
        let reports = annexb::read_closed(self.bitstream);
        make_simpleblock(self.cluster_timestamp, &reports)
    }
}

/// The number that the two bytes of a block's time stand for: the first one is the more significant, and numbers
/// from the upper half are negative.
pub open spec fn block_time(high: u8, low: u8) -> int {
    let value = 256 * high + low;
    if value < 0x8000 {
        value
    } else {
        value - 0x1_0000
    }
}

/// The head of a block, and what it holds.
pub(crate) proof fn lemma_block(time: i16, reports: Seq<(bool, Seq<u8>)>)
    ensures
        ({
            let payload = frame_payload(time, reports);
            &&& payload.len() >= 4
            &&& payload[0] == 0x81
            &&& block_time(payload[1], payload[2]) == time
            &&& payload[3] == 0
            &&& annexb::read_units(payload.skip(4)) == Some(annexb::sent_units(reports))
        }),
{
    let payload = frame_payload(time, reports);
    let value = (if time < 0 {
        time + 0x1_0000
    } else {
        time as int
    }) as nat;
    ebml::lemma_be_bytes_2(value);
    assert(value < 0x1_0000);
    assert(256 * (value / 0x100) + value % 0x100 == value);
    annexb::lemma_read_prefixed(reports);
    assert(payload.skip(4) =~= annexb::length_prefixed(reports));
}

/// A block tells the first track, then the time of its frame since the start of the cluster, and no flags; and
/// behind that a receiver reads all units that are to be sent.
pub proof fn law_block_reads_back(time: i16, reports: Vec<NalReport>, made: Result<Vec<u8>, MkvError>)
    requires
        call_ensures(make_simpleblock, (time, &reports), made),
    ensures
        made matches Ok(payload) && {
            &&& payload@.len() >= 4
            &&& payload@[0] == 0x81
            &&& block_time(payload@[1], payload@[2]) == time
            &&& payload@[3] == 0
            &&& annexb::read_units(payload@.skip(4)) == Some(
                annexb::sent_units(Seq::new(reports@.len(), |i: int| (reports@[i].complete, reports@[i].head@))),
            )
        },
{
    let views = Seq::new(reports@.len(), |i: int| (reports@[i].complete, reports@[i].head@));
    assert(annexb::report_views(reports@) =~= views);
    lemma_block(time, views);
}

/// A frame that is a byte stream of units becomes a block from which a receiver reads the time of the frame and
/// exactly these units, in order, byte for byte.
pub proof fn law_frame_reads_back(frame: SegmentFrame, units: Seq<(bool, Seq<u8>)>, made: Result<Vec<u8>, MkvError>)
    requires
        call_ensures(SegmentFrame::simpleblock, (&frame,), made),
        frame.bitstream@ == annexb::byte_stream(units),
        annexb::all_framable(units),
        forall|i: int|
            0 <= i < units.len() ==> (#[trigger] units[i]).1[0] < 0x80 && units[i].1.len() < 0x1_0000_0000,
    ensures
        made matches Ok(payload) && {
            &&& payload@.len() >= 4
            &&& payload@[0] == 0x81
            &&& block_time(payload@[1], payload@[2]) == frame.cluster_timestamp
            &&& payload@[3] == 0
            &&& annexb::read_units(payload@.skip(4)) == Some(Seq::new(units.len(), |i: int| units[i].1))
        },
{
    lemma_block(frame.cluster_timestamp, annexb::closed_reports(units));
    annexb::law_all_units_sent(units);
}

/// Whatever a frame is, its block tells the time of the frame, and behind that a receiver reads the units that the
/// splitter reports of the frame, as far as they are to be sent.
pub proof fn law_any_frame_reads_back(frame: SegmentFrame, made: Result<Vec<u8>, MkvError>)
    requires
        call_ensures(SegmentFrame::simpleblock, (&frame,), made),
    ensures
        made matches Ok(payload) && {
            &&& payload@.len() >= 4
            &&& payload@[0] == 0x81
            &&& block_time(payload@[1], payload@[2]) == frame.cluster_timestamp
            &&& payload@[3] == 0
            &&& annexb::read_units(payload@.skip(4)) == Some(
                annexb::sent_units(annexb::reset_reports(frame.bitstream@)),
            )
        },
{
    lemma_block(frame.cluster_timestamp, annexb::reset_reports(frame.bitstream@));
}

/// A frame that is ready to be added, with what the description of the track needs if it is the first
/// one.
pub struct PreparedFrame {
    /// The payload of its block.
    pub payload: Vec<u8>,
    /// When the frame was taken.
    pub timestamp: Moment,
    /// The width and the height of the picture.
    pub dimensions: (u16, u16),
    /// The private data of the track.
    pub private: Option<PrivateData>,
    /// The identifier that the track is named by.
    pub name: [u8; 16],
}

/// A [`PreparedFrame`], over mathematical values.
#[verifier::ext_equal]
pub struct FrameView {
    pub payload: Seq<u8>,
    pub timestamp: Moment,
    pub dimensions: (u16, u16),
    pub private: Option<Seq<u8>>,
    pub name: Seq<u8>,
}

impl View for PreparedFrame {
    type V = FrameView;

    open spec fn view(&self) -> FrameView {
        FrameView {
            payload: self.payload@,
            timestamp: self.timestamp,
            dimensions: self.dimensions,
            private: avcc::record_of(self.private),
            name: self.name@,
        }
    }
}

/// A container that is being written.
///
/// What is complete is handed out by [`Cursor::dump_to`] and then forgotten, so that no more than the
/// start of the container and one cluster is ever kept.
pub struct Cursor {
    /// Writes the elements into memory.
    writer: TagWriter,
    /// Where in the buffer the description of the tracks ends. What comes after that can be forgotten
    /// once it has been handed out.
    tracks_end: Option<usize>,
    /// When the first frame was taken.
    segment_start: Option<Moment>,
    /// How many frames the open cluster holds.
    frame_index: usize,
    /// How many frames there have been in all.
    frames_seen: usize,
    /// How much of the buffer has been handed out.
    position: usize,
    /// The private data of the track.
    codec_private: Option<PrivateData>,
}

/// A [`Cursor`], over mathematical values.
#[verifier::ext_equal]
pub struct CursorView {
    pub writer: WriterState,
    pub tracks_end: Option<nat>,
    pub segment_start: Option<Moment>,
    pub frame_index: nat,
    pub frames_seen: nat,
    pub position: nat,
    pub codec_private: Option<Seq<u8>>,
}

impl View for Cursor {
    type V = CursorView;

    closed spec fn view(&self) -> CursorView {
        CursorView {
            writer: self.writer@,
            tracks_end: match self.tracks_end {
                Some(end) => Some(end as nat),
                None => None,
            },
            segment_start: self.segment_start,
            frame_index: self.frame_index as nat,
            frames_seen: self.frames_seen as nat,
            position: self.position as nat,
            codec_private: avcc::record_of(self.codec_private),
        }
    }
}

impl CursorView {
    /// A container that is empty but for what was in its buffer.
    pub open spec fn fresh(buffer: Seq<u8>) -> CursorView {
        CursorView {
            writer: nothing_open(buffer),
            tracks_end: None,
            segment_start: None,
            frame_index: 0,
            frames_seen: 0,
            position: 0,
            codec_private: None,
        }
    }

    /// A container that has been started, for the segment with the identifier `uid`.
    pub open spec fn started(self, uid: Seq<u8>) -> CursorView {
        CursorView {
            writer: between_clusters(self.writer.flushed + self.writer.pending + start_bytes(uid)),
            ..self
        }
    }

    /// How many milliseconds after the first frame something happens.
    pub open spec fn cluster_timestamp(self, at: Moment) -> nat {
        match self.segment_start {
            Some(start) => at.millis_after(start),
            None => 0,
        }
    }

    /// The tags that describe the track, where the frame is the first one.
    pub open spec fn opening_tags(self, frame: FrameView) -> Seq<TagView> {
        if self.segment_start is None {
            track_tags(frame.dimensions, frame.private, frame.name)
        } else {
            seq![]
        }
    }

    /// The tags that open a cluster, where none is open.
    pub open spec fn cluster_tags(self, frame: FrameView) -> Seq<TagView> {
        if self.frame_index == 0 {
            seq![
                TagView::Start(CLUSTER),
                TagView::Unsigned(TIMESTAMP, self.cluster_timestamp(frame.timestamp) as u64),
            ]
        } else {
            seq![]
        }
    }

    /// All tags that adding a frame writes.
    pub open spec fn segment_tags(self, frame: FrameView) -> Seq<TagView> {
        self.opening_tags(frame) + self.cluster_tags(frame) + seq![
            TagView::Binary(SIMPLE_BLOCK, frame.payload),
        ]
    }

    /// The container when a frame has been added as far as `writer` shows.
    pub open spec fn reached(self, frame: FrameView, writer: WriterState) -> CursorView {
        CursorView {
            writer,
            tracks_end: match self.writer.written_all(self.opening_tags(frame)) {
                Some(described) if self.segment_start is None => Some(described.flushed.len()),
                _ => self.tracks_end,
            },
            segment_start: match self.segment_start {
                Some(start) => Some(start),
                None => Some(frame.timestamp),
            },
            frame_index: self.frame_index,
            frames_seen: self.frames_seen + 1,
            position: self.position,
            codec_private: if self.segment_start is None {
                frame.private
            } else {
                self.codec_private
            },
        }
    }

    /// The container with a frame added to it, or `None` where it cannot be added.
    pub open spec fn added(self, frame: FrameView) -> Option<CursorView> {
        if self.cluster_timestamp(frame.timestamp) > u64::MAX {
            None
        } else {
            match self.writer.written_all(self.segment_tags(frame)) {
                Some(writer) => Some(
                    CursorView {
                        frame_index: self.frame_index + 1,
                        ..self.reached(frame, writer)
                    },
                ),
                None => None,
            }
        }
    }

    /// Is the open cluster, with its frames, ready to be closed? Until there has been a frame there
    /// is nothing to close.
    pub open spec fn can_dump(self) -> bool {
        self.tracks_end is Some ==> self.writer.accepts(TagView::End(CLUSTER))
    }

    /// What is handed out when the open cluster is closed: all that has become complete and was not
    /// handed out before.
    pub open spec fn dumped_bytes(self) -> Seq<u8> {
        if self.tracks_end is Some {
            self.writer.written(TagView::End(CLUSTER)).flushed.skip(self.position as int)
        } else {
            seq![]
        }
    }

    /// The container after that. What stands behind the description of the tracks is forgotten.
    pub open spec fn dumped(self) -> CursorView {
        match self.tracks_end {
            Some(end) => {
                let closed = self.writer.written(TagView::End(CLUSTER));
                if self.dumped_bytes().len() == 0 {
                    CursorView { writer: closed, frame_index: 0, ..self }
                } else {
                    CursorView {
                        writer: WriterState { flushed: closed.flushed.take(end as int), ..closed },
                        frame_index: 0,
                        position: end,
                        ..self
                    }
                }
            },
            None => self,
        }
    }

    /// Holds of every container: no place in the buffer lies behind its end, and the open cluster
    /// holds no frame that has not been seen.
    pub open spec fn wf(self) -> bool {
        &&& self.writer.wf()
        &&& self.tracks_end matches Some(end) ==> end <= self.writer.flushed.len()
        &&& self.position <= self.writer.flushed.len()
        &&& self.frame_index <= self.frames_seen
    }
}

/// The frame that [`Cursor::add_segment_as`] adds: the private data of the track is only looked for in
/// the first frame.
pub open spec fn segment_view(cursor: CursorView, block: SegmentView, name: Seq<u8>) -> FrameView {
    FrameView {
        payload: frame_payload(block.cluster_timestamp, annexb::reset_reports(block.bitstream)),
        timestamp: block.timestamp,
        dimensions: block.dimensions,
        private: match avcc::found_sets(block.bitstream).record() {
            Ok(record) if cursor.segment_start is None => Some(record),
            _ => None,
        },
        name,
    }
}

impl Default for Cursor {
    /// An empty container.
    fn default() -> (cursor: Cursor)
        ensures
            cursor@ == CursorView::fresh(seq![]),
            cursor@.wf(),
    {
        Cursor::new(Vec::with_capacity(10_000))
    }
}

impl Cursor {
    /// A container that is empty but for what is in the buffer.
    pub fn new(buffer: Vec<u8>) -> (cursor: Cursor)
        ensures
            cursor@ == CursorView::fresh(buffer@),
            cursor@.wf(),
    {
        Cursor {
            writer: TagWriter::new(buffer),
            tracks_end: None,
            segment_start: None,
            frame_index: 0,
            frames_seen: 0,
            position: 0,
            codec_private: None,
        }
    }

    /// Writes one tag.
    fn write_tag(&mut self, tag: &Tag) -> (result: Result<(), MkvError>)
        requires
            old(self)@.wf(),
            tag@.known(),
        ensures
            result == (if old(self)@.writer.accepts(tag@) {
                Ok::<(), MkvError>(())
            } else {
                Err::<(), MkvError>(MkvError::Refused)
            }),
            result is Ok ==> final(self)@ == (CursorView {
                writer: old(self)@.writer.written(tag@),
                ..old(self)@
            }),
            result is Err ==> {
                &&& old(self)@.writer.refused_into(final(self)@.writer)
                &&& final(self)@ == (CursorView { writer: final(self)@.writer, ..old(self)@ })
            },
            final(self)@.wf(),
    {
        let written = self.writer.write(tag);
        proof {
            if old(self)@.writer.accepts(tag@) {
                ebml::lemma_written_wf(old(self)@.writer, tag@);
                ebml::lemma_written_one(old(self)@.writer, tag@);
                ebml::lemma_flushed_grows(old(self)@.writer, seq![tag@]);
            } else {
                ebml::lemma_refused_wf(old(self)@.writer, self@.writer);
            }
        }
        match written {
            Ok(()) => Ok(()),
            Err(_) => Err(MkvError::Refused),
        }
    }

    /// Writes some tags in turn, up to the first that is refused.
    fn write_tags(&mut self, tags: &Vec<Tag>) -> (result: Result<(), MkvError>)
        requires
            old(self)@.wf(),
            forall|i: int| 0 <= i < tags.len() ==> (#[trigger] tags@[i])@.known(),
        ensures
            result is Ok <==> old(self)@.writer.written_all(ebml::tag_views(tags@)) is Some,
            result is Err ==> result == Err::<(), MkvError>(MkvError::Refused),
            result is Ok ==> final(self)@ == (CursorView {
                writer: old(self)@.writer.written_all(ebml::tag_views(tags@))->0,
                ..old(self)@
            }),
            result is Err ==> {
                &&& old(self)@.writer.stops_into(ebml::tag_views(tags@), final(self)@.writer)
                &&& final(self)@ == (CursorView { writer: final(self)@.writer, ..old(self)@ })
            },
            old(self)@.writer.flushed.is_prefix_of(final(self)@.writer.flushed),
            final(self)@.wf(),
    {
        let ghost views = ebml::tag_views(tags@);
        let ghost before = self@.writer;
        let mut i: usize = 0;
        proof {
            assert(views.take(0) =~= seq![]);
        }
        while i < tags.len()
            invariant
                i <= tags.len(),
                views == ebml::tag_views(tags@),
                before == old(self)@.writer,
                forall|j: int| 0 <= j < tags.len() ==> (#[trigger] tags@[j])@.known(),
                self@.wf(),
                before.written_all(views.take(i as int)) == Some(self@.writer),
                before.flushed.is_prefix_of(self@.writer.flushed),
                self@ == (CursorView { writer: self@.writer, ..old(self)@ }),
            decreases tags.len() - i,
        {
            let ghost middle = self@.writer;
            assert(views[i as int] == tags@[i as int]@);
            let written = self.write_tag(&tags[i]);
            if written.is_err() {
                proof {
                    ebml::lemma_refused_at(before, views, i as int);
                }
                return written;
            }
            proof {
                assert(views.take(i + 1).drop_last() =~= views.take(i as int));
                ebml::lemma_written_one(middle, views[i as int]);
                ebml::lemma_flushed_grows(middle, seq![views[i as int]]);
            }
            i += 1;
        }
        assert(views.take(i as int) =~= views);
        Ok(())
    }

    /// Writes what stands in front of everything else, for a segment with an identifier drawn at
    /// random. Frames can be added after that.
    pub fn start(&mut self) -> (result: Result<(), MkvError>)
        requires
            old(self)@.wf(),
        ensures
            final(self)@.wf(),
            result is Ok <==> old(self)@.writer.open.len() == 0,
            result is Ok ==> exists|uid: Seq<u8>|
                uid::is_random(uid) && final(self)@ == #[trigger] old(self)@.started(uid),
            result is Err ==> {
                &&& result == Err::<(), MkvError>(MkvError::Refused)
                &&& final(self)@.writer.flushed == old(self)@.writer.flushed
                &&& final(self)@ == (CursorView { writer: final(self)@.writer, ..old(self)@ })
            },
    {
        let segment_uid = uid::draw_uid();
        let result = self.start_as(&segment_uid);
        assert(result is Ok ==> self@ == old(self)@.started(segment_uid@));
        result
    }

    /// Writes what stands in front of everything else, for a segment with the given identifier. This
    /// can only be done once, before anything else.
    pub fn start_as(&mut self, segment_uid: &[u8; 16]) -> (result: Result<(), MkvError>)
        requires
            old(self)@.wf(),
        ensures
            final(self)@.wf(),
            result is Ok <==> old(self)@.writer.open.len() == 0,
            result is Ok ==> final(self)@ == old(self)@.started(segment_uid@),
            result is Err ==> {
                &&& result == Err::<(), MkvError>(MkvError::Refused)
                &&& final(self)@.writer.flushed == old(self)@.writer.flushed
                &&& final(self)@ == (CursorView { writer: final(self)@.writer, ..old(self)@ })
            },
    {
        let header: Vec<Tag> = vec![
            Tag::Start(EBML),
            Tag::Text(DOC_TYPE, "matroska".to_owned()),
            Tag::Unsigned(DOC_TYPE_VERSION, 4),
            Tag::End(EBML),
        ];
        proof {
            assert(ebml::tag_views(header@) =~= ebml::master_tags(EBML, header_leaves()));
            if self@.writer.open.len() > 0 {
                lemma_start_refused(self@.writer);
            } else {
                lemma_start(self@.writer, segment_uid@);
            }
        }
        self.write_tags(&header)?;
        // The segment has no size: it goes on for as long as there are frames.
        if self.writer.open_unsized(SEGMENT).is_err() {
            return Err(MkvError::Refused);
        }
        let info: Vec<Tag> = vec![
            Tag::Start(INFO),
            Tag::Binary(SEGMENT_UID, vstd::slice::slice_to_vec(segment_uid.as_slice())),
            Tag::Text(TITLE, uid::show_uid(segment_uid)),
            Tag::Unsigned(TIMESTAMP_SCALE, 1_000_000),
            Tag::Text(WRITING_APP, "rs-kvs-streamer".to_owned()),
            Tag::Text(MUXING_APP, "rs-kvs-streamer".to_owned()),
            Tag::End(INFO),
        ];
        proof {
            assert(ebml::tag_views(info@) =~= ebml::master_tags(INFO, info_leaves(segment_uid@)));
        }
        self.write_tags(&info)
    }

    /// How many frames there have been in all.
    pub fn frames_seen(&self) -> (frames: usize)
        ensures
            frames == self@.frames_seen,
    {
        self.frames_seen
    }

    /// The private data of the track, once there has been a frame.
    pub fn codec_private(&self) -> (data: Option<&PrivateData>)
        ensures
            match data {
                Some(data) => self@.codec_private == Some(data.record@),
                None => self@.codec_private is None,
            },
    {
        self.codec_private.as_ref()
    }

    /// Writes the description of the track, which has to come before any frame.
    fn write_tracks(&mut self, dimensions: (u16, u16), private: Option<PrivateData>, name: &[u8; 16]) -> (result:
        Result<(), MkvError>)
        requires
            old(self)@.wf(),
        ensures
            final(self)@.wf(),
            ({
                let record = avcc::record_of(private);
                let tags = track_tags(dimensions, record, name@);
                match old(self)@.writer.written_all(tags) {
                    Some(writer) => {
                        &&& result is Ok
                        &&& final(self)@ == (CursorView {
                            writer,
                            tracks_end: Some(writer.flushed.len()),
                            codec_private: record,
                            ..old(self)@
                        })
                    },
                    None => {
                        &&& result == Err::<(), MkvError>(MkvError::Refused)
                        &&& old(self)@.writer.stops_into(tags, final(self)@.writer)
                        &&& final(self)@ == (CursorView {
                            writer: final(self)@.writer,
                            codec_private: record,
                            ..old(self)@
                        })
                    },
                }
            }),
    {
        let mut tags: Vec<Tag> = vec![
            Tag::Start(TRACKS),
            Tag::Start(TRACK_ENTRY),
            Tag::Unsigned(TRACK_NUMBER, 1),
            Tag::Unsigned(TRACK_TYPE, 1),
            Tag::Float(TRACK_TIMESTAMP_SCALE, 1),
            Tag::Unsigned(TRACK_UID, 0x55),
            Tag::Text(TRACK_NAME, uid::show_uid(name)),
            Tag::Text(CODEC_ID, "V_MPEG4/ISO/AVC".to_owned()),
            Tag::Text(CODEC_NAME, "AVC/H.264".to_owned()),
        ];
        if let Some(data) = &private {
            tags.push(Tag::Binary(CODEC_PRIVATE, vstd::slice::slice_to_vec(data.record.as_slice())));
        }
        tags.push(Tag::Start(VIDEO));
        tags.push(Tag::Unsigned(PIXEL_WIDTH, dimensions.0 as u64));
        tags.push(Tag::Unsigned(PIXEL_HEIGHT, dimensions.1 as u64));
        tags.push(Tag::Unsigned(FLAG_INTERLACED, 2));
        tags.push(Tag::Unsigned(DISPLAY_UNIT, 4));
        tags.push(Tag::Unsigned(DISPLAY_WIDTH, dimensions.0 as u64));
        tags.push(Tag::Unsigned(DISPLAY_HEIGHT, dimensions.1 as u64));
        tags.push(Tag::End(VIDEO));
        tags.push(Tag::End(TRACK_ENTRY));
        tags.push(Tag::End(TRACKS));
        proof {
            assert(ebml::tag_views(tags@) =~= track_tags(dimensions, avcc::record_of(private), name@));
        }
        self.codec_private = private;
        self.write_tags(&tags)?;
        self.tracks_end = Some(self.writer.get_ref().len());
        Ok(())
    }

    /// Adds a frame. The description of the track is written in front of the first one, and a cluster
    /// is opened where none is open.
    pub fn add_prepared(&mut self, frame: PreparedFrame) -> (result: Result<(), MkvError>)
        requires
            old(self)@.wf(),
            old(self)@.frames_seen < usize::MAX,
        ensures
            final(self)@.wf(),
            result == (if old(self)@.cluster_timestamp(frame.timestamp) > u64::MAX {
                Err::<(), MkvError>(MkvError::TimestampOverflow)
            } else if old(self)@.added(frame@) is None {
                Err::<(), MkvError>(MkvError::Refused)
            } else {
                Ok::<(), MkvError>(())
            }),
            result is Ok ==> final(self)@ == old(self)@.added(frame@)->0,
            result == Err::<(), MkvError>(MkvError::TimestampOverflow) ==> final(self)@ == old(self)@,
            result == Err::<(), MkvError>(MkvError::Refused) ==> {
                &&& old(self)@.writer.stops_into(old(self)@.segment_tags(frame@), final(self)@.writer)
                &&& final(self)@ == old(self)@.reached(frame@, final(self)@.writer)
            },
    {
        let ghost before = self@;
        let ghost view = frame@;
        let ghost opening = before.opening_tags(view);
        let ghost opening_cluster = before.cluster_tags(view);
        let ghost block = seq![TagView::Binary(SIMPLE_BLOCK, view.payload)];
        let cluster_timestamp: u64 = match self.segment_start {
            None => 0,
            Some(start) => {
                let millis: u128 = frame.timestamp.millis_since(start);
                if millis > 0xffff_ffff_ffff_ffff {
                    return Err(MkvError::TimestampOverflow);
                }
                millis as u64
            },
        };
        self.frames_seen = self.frames_seen + 1;
        if self.segment_start.is_none() {
            self.segment_start = Some(frame.timestamp);
            let described = self.write_tracks(frame.dimensions, frame.private, &frame.name);
            if described.is_err() {
                proof {
                    ebml::lemma_stops_first(before.writer, opening, opening_cluster + block, self@.writer);
                    assert(opening + (opening_cluster + block) =~= before.segment_tags(view));
                }
                return described;
            }
        }
        let ghost described = self@.writer;
        assert(before.writer.written_all(opening) == Some(described));
        if self.frame_index == 0 {
            let tags: Vec<Tag> = vec![Tag::Start(CLUSTER), Tag::Unsigned(TIMESTAMP, cluster_timestamp)];
            assert(ebml::tag_views(tags@) =~= opening_cluster);
            let opened = self.write_tags(&tags);
            if opened.is_err() {
                proof {
                    ebml::lemma_stops_second(before.writer, opening, described, opening_cluster, self@.writer);
                    ebml::lemma_stops_first(before.writer, opening + opening_cluster, block, self@.writer);
                }
                return opened;
            }
        }
        let ghost opened = self@.writer;
        proof {
            ebml::lemma_written_concat(before.writer, opening, opening_cluster);
            ebml::lemma_written_concat(before.writer, opening + opening_cluster, block);
            ebml::lemma_written_one(opened, block[0]);
        }
        let written = self.write_tag(&Tag::Binary(SIMPLE_BLOCK, frame.payload));
        if written.is_err() {
            proof {
                assert(block.take(0) =~= seq![]);
                assert(opened.written_all(block.take(0)) == Some(opened));
                assert(opened.stops_into(block, self@.writer));
                ebml::lemma_stops_second(
                    before.writer,
                    opening + opening_cluster,
                    opened,
                    block,
                    self@.writer,
                );
            }
            return written;
        }
        self.frame_index = self.frame_index + 1;
        Ok(())
    }

    /// Adds an encoded frame, for a track that is named by the given identifier. Where no private data
    /// can be found in the first frame, the track goes without.
    pub fn add_segment_as(&mut self, block: &SegmentFrame, name: &[u8; 16]) -> (result: Result<(), MkvError>)
        requires
            old(self)@.wf(),
            old(self)@.frames_seen < usize::MAX,
        ensures
            final(self)@.wf(),
            ({
                let frame = segment_view(old(self)@, block@, name@);
                &&& result == (if old(self)@.cluster_timestamp(block.timestamp) > u64::MAX {
                    Err::<(), MkvError>(MkvError::TimestampOverflow)
                } else if old(self)@.added(frame) is None {
                    Err::<(), MkvError>(MkvError::Refused)
                } else {
                    Ok::<(), MkvError>(())
                })
                &&& result is Ok ==> final(self)@ == old(self)@.added(frame)->0
                &&& result == Err::<(), MkvError>(MkvError::TimestampOverflow) ==> final(self)@ == old(self)@
                &&& result == Err::<(), MkvError>(MkvError::Refused) ==> {
                    &&& old(self)@.writer.stops_into(old(self)@.segment_tags(frame), final(self)@.writer)
                    &&& final(self)@ == old(self)@.reached(frame, final(self)@.writer)
                }
            }),
    {
        let mut private: Option<PrivateData> = None;
        if self.segment_start.is_none() {
            if let Ok(data) = avcc::generate_private_data(block.bitstream) {
                private = Some(data);
            }
        }
        let payload = block.simpleblock()?;
        let frame = PreparedFrame {
            payload,
            timestamp: block.timestamp,
            dimensions: block.dimensions,
            private,
            name: *name,
        };
        assert(frame@ =~= segment_view(old(self)@, block@, name@));
        self.add_prepared(frame)
    }

    /// Adds an encoded frame. The name of the track, which is written with the first frame, is drawn at
    /// random.
    pub fn add_segment(&mut self, block: &SegmentFrame) -> (result: Result<(), MkvError>)
        requires
            old(self)@.wf(),
            old(self)@.frames_seen < usize::MAX,
        ensures
            final(self)@.wf(),
            result == Err::<(), MkvError>(MkvError::TimestampOverflow) <==> old(self)@.cluster_timestamp(
                block.timestamp,
            ) > u64::MAX,
            result == Err::<(), MkvError>(MkvError::TimestampOverflow) ==> final(self)@ == old(self)@,
            result != Err::<(), MkvError>(MkvError::TimestampOverflow) ==> exists|name: Seq<u8>|
                {
                    let frame = #[trigger] segment_view(old(self)@, block@, name);
                    &&& uid::is_random(name)
                    &&& result == (if old(self)@.added(frame) is None {
                        Err::<(), MkvError>(MkvError::Refused)
                    } else {
                        Ok::<(), MkvError>(())
                    })
                    &&& result is Ok ==> final(self)@ == old(self)@.added(frame)->0
                    &&& result is Err ==> {
                        &&& old(self)@.writer.stops_into(
                            old(self)@.segment_tags(frame),
                            final(self)@.writer,
                        )
                        &&& final(self)@ == old(self)@.reached(frame, final(self)@.writer)
                    }
                },
    {
        let name = uid::draw_uid();
        let result = self.add_segment_as(block, &name);
        proof {
            let frame = segment_view(old(self)@, block@, name@);
            assert(old(self)@.added(frame) is None ==> result is Err);
        }
        result
    }

    /// Closes the open cluster, and appends all that has become complete, and was not handed out
    /// before, to `destination`. What was handed out is forgotten, but for the start of the container.
    pub fn dump_to(&mut self, destination: &mut Vec<u8>) -> (result: Result<(), MkvError>)
        requires
            old(self)@.wf(),
        ensures
            final(self)@.wf(),
            result == (if old(self)@.can_dump() {
                Ok::<(), MkvError>(())
            } else {
                Err::<(), MkvError>(MkvError::Refused)
            }),
            result is Ok ==> {
                &&& final(self)@ == old(self)@.dumped()
                &&& final(destination)@ == old(destination)@ + old(self)@.dumped_bytes()
            },
            result is Err ==> {
                &&& old(self)@.writer.refused_into(final(self)@.writer)
                &&& final(self)@ == (CursorView { writer: final(self)@.writer, ..old(self)@ })
                &&& final(destination)@ == old(destination)@
            },
    {
        let end: usize = match self.tracks_end {
            Some(end) => end,
            None => {
                assert(destination@ + seq![] =~= destination@);
                return Ok(());
            },
        };
        self.write_tag(&Tag::End(CLUSTER))?;
        self.frame_index = 0;
        let buffer = self.writer.get_ref();
        let length: usize = buffer.len();
        let complete = vstd::slice::slice_subrange(buffer.as_slice(), self.position, length);
        assert(complete@ =~= self@.writer.flushed.skip(self.position as int));
        if complete.len() == 0 {
            assert(destination@ + complete@ =~= destination@);
            return Ok(());
        }
        destination.extend_from_slice(complete);
        self.writer.get_mut().truncate(end);
        self.position = end;
        Ok(())
    }
}

/// The blocks of some frames, as tags.
pub open spec fn block_tags(frames: Seq<FrameView>) -> Seq<TagView> {
    frames.map_values(|frame: FrameView| TagView::Binary(SIMPLE_BLOCK, frame.payload))
}

/// What stands in a cluster that began at `timestamp`: the time, and a block for each frame.
pub open spec fn cluster_body(timestamp: nat, frames: Seq<FrameView>) -> Seq<u8> {
    ebml::element(TIMESTAMP, ebml::unsigned_payload(timestamp as u64)) + ebml::leaf_bytes(block_tags(frames))
}

/// A cluster of some frames that began at `timestamp`.
pub open spec fn cluster_bytes(timestamp: nat, frames: Seq<FrameView>) -> Seq<u8> {
    ebml::element(CLUSTER, cluster_body(timestamp, frames))
}

/// Does a frame bring what the description of the track needs: an identifier to name it by, and no more private
/// data than a record can be?
pub open spec fn describes_track(frame: FrameView) -> bool {
    &&& frame.name.len() == 16
    &&& frame.private matches Some(record) ==> record.len() <= avcc::RECORD_LIMIT
}

impl CursorView {
    /// The container with some frames added in turn, or `None` where one of them cannot be added.
    pub open spec fn added_all(self, frames: Seq<FrameView>) -> Option<CursorView>
        decreases frames.len(),
    {
        if frames.len() == 0 {
            Some(self)
        } else {
            match self.added_all(frames.drop_last()) {
                Some(cursor) => cursor.added(frames.last()),
                None => None,
            }
        }
    }

    /// When the segment starts, if `first` is the next frame.
    pub open spec fn start_with(self, first: FrameView) -> Moment {
        match self.segment_start {
            Some(start) => start,
            None => first.timestamp,
        }
    }

    /// Can these frames make up one cluster? There is at least one, none comes too long after the start
    /// of the segment, and they do not take more room than an element can have.
    pub open spec fn fits_cluster(self, frames: Seq<FrameView>) -> bool {
        &&& frames.len() > 0
        &&& forall|i: int|
            0 <= i < frames.len() ==> (#[trigger] frames[i]).timestamp.millis_after(self.start_with(frames[0]))
                <= u64::MAX
        &&& cluster_body(self.cluster_timestamp(frames[0].timestamp), frames).len() < SIZE_LIMIT
    }

    /// Can these frames make up one cluster, and does the first one of all bring what the description of
    /// the track needs?
    pub open spec fn clusterable(self, frames: Seq<FrameView>) -> bool {
        &&& self.fits_cluster(frames)
        &&& self.segment_start is None ==> describes_track(frames[0])
    }

    /// Is this a container in which no cluster is open, and of which all that is kept, `kept`, has been
    /// handed out?
    pub open spec fn handed_out(self, kept: Seq<u8>) -> bool {
        &&& self.writer == between_clusters(kept)
        &&& self.tracks_end == Some(kept.len())
        &&& self.position == kept.len()
        &&& self.frame_index == 0
        &&& self.segment_start is Some
    }

    /// The container after some clusters, each of which is handed out when its last frame has been
    /// added, and all bytes that were handed out. `None` where a frame cannot be added or a cluster
    /// cannot be closed.
    pub open spec fn streamed(self, clusters: Seq<Seq<FrameView>>) -> Option<(CursorView, Seq<u8>)>
        decreases clusters.len(),
    {
        if clusters.len() == 0 {
            Some((self, seq![]))
        } else {
            match self.streamed(clusters.drop_last()) {
                Some((cursor, bytes)) => match cursor.added_all(clusters.last()) {
                    Some(full) if full.can_dump() => Some((full.dumped(), bytes + full.dumped_bytes())),
                    _ => None,
                },
                None => None,
            }
        }
    }
}

/// The clusters of a segment that began at `start`, one behind the other.
pub open spec fn clusters_bytes(start: Moment, clusters: Seq<Seq<FrameView>>) -> Seq<u8>
    decreases clusters.len(),
{
    if clusters.len() == 0 {
        seq![]
    } else {
        clusters_bytes(start, clusters.drop_last()) + cluster_bytes(
            clusters.last()[0].timestamp.millis_after(start),
            clusters.last(),
        )
    }
}

/// A writer in which a cluster is open, inside the segment.
spec fn in_cluster(flushed: Seq<u8>, body: Seq<u8>) -> WriterState {
    WriterState { flushed, pending: body, open: seq![(SEGMENT, None), (CLUSTER, Some(0))] }
}

/// A container that `frames` have been added to, where no cluster was open before.
spec fn filled(before: CursorView, flushed: Seq<u8>, frames: Seq<FrameView>) -> CursorView {
    CursorView {
        writer: in_cluster(
            flushed,
            cluster_body(before.cluster_timestamp(frames[0].timestamp), frames),
        ),
        tracks_end: if before.segment_start is None {
            Some(flushed.len())
        } else {
            before.tracks_end
        },
        segment_start: Some(before.start_with(frames[0])),
        frame_index: frames.len(),
        frames_seen: before.frames_seen + frames.len(),
        position: before.position,
        codec_private: if before.segment_start is None {
            frames[0].private
        } else {
            before.codec_private
        },
    }
}

/// Is there a frame, and can each of these frames be written by itself: it does not come too long after the
/// start of the segment, and its block does not take more room than an element can have?
spec fn writable(before: CursorView, frames: Seq<FrameView>) -> bool {
    &&& frames.len() > 0
    &&& forall|i: int|
        0 <= i < frames.len() ==> {
            &&& (#[trigger] frames[i]).timestamp.millis_after(before.start_with(frames[0])) <= u64::MAX
            &&& frames[i].payload.len() < SIZE_LIMIT
        }
}

/// Each block takes less room than all of them.
proof fn lemma_blocks_len(frames: Seq<FrameView>)
    ensures
        forall|i: int|
            0 <= i < frames.len() ==> (#[trigger] frames[i]).payload.len() < ebml::leaf_bytes(
                block_tags(frames),
            ).len(),
    decreases frames.len(),
{
    if frames.len() > 0 {
        let rest = frames.drop_last();
        lemma_blocks_len(rest);
        ebml::lemma_element_len(SIMPLE_BLOCK, frames.last().payload);
        assert(block_tags(frames).drop_last() =~= block_tags(rest));
        assert forall|i: int| 0 <= i < frames.len() implies (#[trigger] frames[i]).payload.len()
            < ebml::leaf_bytes(block_tags(frames)).len() by {
            if i < rest.len() {
                assert(rest[i] == frames[i]);
            }
        }
    }
}

/// The first frame of a cluster is written behind the time of the cluster.
#[verifier::spinoff_prover]
proof fn lemma_filled_first(before: CursorView, flushed: Seq<u8>, frame: FrameView)
    requires
        before.cluster_timestamp(frame.timestamp) <= u64::MAX,
        frame.payload.len() < SIZE_LIMIT,
        before.frame_index == 0,
        before.writer.written_all(before.opening_tags(frame)) == Some(between_clusters(flushed)),
    ensures
        before.added(frame) == Some(filled(before, flushed, seq![frame])),
{
    let timestamp = before.cluster_timestamp(frame.timestamp);
    let time = TagView::Unsigned(TIMESTAMP, timestamp as u64);
    let block = TagView::Binary(SIMPLE_BLOCK, frame.payload);
    let frames = seq![frame];
    assert(block_tags(frames) =~= seq![block]);
    assert(seq![block].drop_last() =~= seq![]);
    assert(ebml::leaf_bytes(seq![]) =~= seq![]);
    assert(ebml::leaf_bytes(seq![block]) =~= ebml::element(SIMPLE_BLOCK, frame.payload));
    let idle = between_clusters(flushed);
    assert(idle.open_ids() =~= seq![SEGMENT]);
    let opened = in_cluster(flushed, seq![]);
    assert(opened.open[1].1 is Some);
    assert(opened.open_ids() =~= seq![SEGMENT, CLUSTER]);
    assert(idle.written(TagView::Start(CLUSTER)) =~= opened);
    let leaves = seq![time, block];
    ebml::lemma_be_bytes_len(timestamp, 1);
    ebml::lemma_be_bytes_len(timestamp, 2);
    ebml::lemma_be_bytes_len(timestamp, 4);
    ebml::lemma_be_bytes_len(timestamp, 8);
    ebml::lemma_leaves(opened, leaves);
    assert(leaves.drop_last() =~= seq![time]);
    assert(seq![time].drop_last() =~= seq![]);
    assert(ebml::leaf_bytes(seq![time]) =~= ebml::element(TIMESTAMP, time.payload()));
    assert(ebml::leaf_bytes(leaves) =~= cluster_body(timestamp, frames));
    ebml::lemma_written_one(idle, TagView::Start(CLUSTER));
    ebml::lemma_written_concat(idle, seq![TagView::Start(CLUSTER)], leaves);
    ebml::lemma_written_concat(
        before.writer,
        before.opening_tags(frame),
        seq![TagView::Start(CLUSTER)] + leaves,
    );
    assert(before.segment_tags(frame) =~= before.opening_tags(frame) + (seq![TagView::Start(CLUSTER)] + leaves));
    assert(before.added(frame)->0 =~= filled(before, flushed, frames));
}

/// Every later frame of a cluster is written behind the one before it.
#[verifier::spinoff_prover]
proof fn lemma_filled_next(before: CursorView, flushed: Seq<u8>, frames: Seq<FrameView>)
    requires
        frames.len() > 1,
        frames.last().timestamp.millis_after(before.start_with(frames[0])) <= u64::MAX,
        frames.last().payload.len() < SIZE_LIMIT,
    ensures
        filled(before, flushed, frames.drop_last()).added(frames.last()) == Some(filled(before, flushed, frames)),
{
    let timestamp = before.cluster_timestamp(frames[0].timestamp);
    let last = frames.last();
    let rest = frames.drop_last();
    let block = TagView::Binary(SIMPLE_BLOCK, last.payload);
    assert(block_tags(frames).drop_last() =~= block_tags(rest));
    assert(block_tags(frames).last() == block);
    assert(ebml::leaf_bytes(block_tags(frames)) == ebml::leaf_bytes(block_tags(rest)) + ebml::element(
        SIMPLE_BLOCK,
        last.payload,
    ));
    assert(rest[0] == frames[0]);
    let partly = filled(before, flushed, rest);
    assert(partly.segment_tags(last) =~= seq![block]);
    assert(partly.opening_tags(last) =~= seq![]);
    assert(partly.writer.open[1].1 is Some);
    assert(partly.writer.open_ids() =~= seq![SEGMENT, CLUSTER]);
    ebml::lemma_written_one(partly.writer, block);
    let full = in_cluster(flushed, cluster_body(timestamp, frames));
    assert(full.open[1].1 is Some);
    assert(full.pending =~= partly.writer.pending + ebml::element(SIMPLE_BLOCK, last.payload));
    assert(partly.writer.written(block) =~= full);
    assert(partly.added(last)->0 =~= filled(before, flushed, frames));
}

/// Frames of one cluster are written one behind the other.
proof fn lemma_filled(before: CursorView, flushed: Seq<u8>, frames: Seq<FrameView>)
    requires
        writable(before, frames),
        before.frame_index == 0,
        before.writer.written_all(before.opening_tags(frames[0])) == Some(between_clusters(flushed)),
    ensures
        before.added_all(frames) == Some(filled(before, flushed, frames)),
    decreases frames.len(),
{
    let last = frames.last();
    assert(last == frames[frames.len() - 1]);
    let rest = frames.drop_last();
    if frames.len() == 1 {
        assert(rest =~= seq![]);
        assert(before.added_all(rest) == Some(before));
        assert(frames =~= seq![last]);
        lemma_filled_first(before, flushed, last);
    } else {
        assert(rest[0] == frames[0]);
        assert(writable(before, rest)) by {
            assert forall|i: int| 0 <= i < rest.len() implies {
                &&& (#[trigger] rest[i]).timestamp.millis_after(before.start_with(rest[0])) <= u64::MAX
                &&& rest[i].payload.len() < SIZE_LIMIT
            } by {
                assert(rest[i] == frames[i]);
            }
        }
        lemma_filled(before, flushed, rest);
        lemma_filled_next(before, flushed, frames);
    }
}

/// A cluster is closed as one element.
proof fn lemma_closed(flushed: Seq<u8>, body: Seq<u8>)
    requires
        body.len() < SIZE_LIMIT,
    ensures
        in_cluster(flushed, body).accepts(TagView::End(CLUSTER)),
        in_cluster(flushed, body).written(TagView::End(CLUSTER)) == between_clusters(
            flushed + ebml::element(CLUSTER, body),
        ),
{
    let state = in_cluster(flushed, body);
    assert(state.open.drop_last() =~= seq![(SEGMENT, None)]);
    assert(body.take(0) + ebml::element(CLUSTER, body.skip(0)) =~= ebml::element(CLUSTER, body)) by {
        assert(body.skip(0) =~= body);
    }
    assert(state.written(TagView::End(CLUSTER)) =~= between_clusters(
        flushed + ebml::element(CLUSTER, body),
    ));
}

/// The first cluster of a container is handed out together with all that stands in front of it: the
/// start of the container, and the description of the track. After that only these two are kept.
#[verifier::spinoff_prover]
pub proof fn law_first_cluster(buffer: Seq<u8>, uid: Seq<u8>, frames: Seq<FrameView>)
    requires
        uid.len() == 16,
        CursorView::fresh(buffer).started(uid).clusterable(frames),
    ensures
        CursorView::fresh(buffer).started(uid).added_all(frames) matches Some(full) && {
            let kept = buffer + start_bytes(uid) + track_bytes(
                frames[0].dimensions,
                frames[0].private,
                frames[0].name,
            );
            &&& full.can_dump()
            &&& full.dumped_bytes() == kept + cluster_bytes(0, frames)
            &&& full.dumped().handed_out(kept)
            &&& full.dumped().segment_start == Some(frames[0].timestamp)
            &&& full.dumped().codec_private == frames[0].private
            &&& full.dumped().frames_seen == frames.len()
        },
{
    let before = CursorView::fresh(buffer).started(uid);
    let first = frames[0];
    let tracks = track_bytes(first.dimensions, first.private, first.name);
    let kept = buffer + start_bytes(uid) + tracks;
    assert(before.writer.open_ids() =~= seq![SEGMENT]);
    lemma_tracks(before.writer, first.dimensions, first.private, first.name);
    let described = WriterState { pending: before.writer.pending + tracks, ..before.writer };
    assert(!described.waits());
    assert(described.settled() =~= between_clusters(kept));
    lemma_blocks_len(frames);
    lemma_filled(before, kept, frames);
    lemma_closed(kept, cluster_body(0, frames));
    let full = filled(before, kept, frames);
    ebml::lemma_element_len(CLUSTER, cluster_body(0, frames));
    assert(full.dumped_bytes() =~= kept + cluster_bytes(0, frames));
    assert((kept + cluster_bytes(0, frames)).take(kept.len() as int) =~= kept);
}

/// Every later cluster is handed out as it is, no byte less and no byte more, and what is kept stays as
/// it was.
#[verifier::spinoff_prover]
pub proof fn law_later_cluster(before: CursorView, kept: Seq<u8>, frames: Seq<FrameView>)
    requires
        before.handed_out(kept),
        before.clusterable(frames),
    ensures
        before.added_all(frames) matches Some(full) && {
            &&& full.can_dump()
            &&& full.dumped_bytes() == cluster_bytes(
                before.cluster_timestamp(frames[0].timestamp),
                frames,
            )
            &&& full.dumped() == (CursorView { frames_seen: before.frames_seen + frames.len(), ..before })
        },
{
    let timestamp = before.cluster_timestamp(frames[0].timestamp);
    assert(before.opening_tags(frames[0]) =~= seq![]);
    assert(before.writer.written_all(seq![]) == Some(before.writer));
    lemma_blocks_len(frames);
    lemma_filled(before, kept, frames);
    lemma_closed(kept, cluster_body(timestamp, frames));
    ebml::lemma_element_len(CLUSTER, cluster_body(timestamp, frames));
    let full = filled(before, kept, frames);
    let closed = kept + cluster_bytes(timestamp, frames);
    assert(closed.skip(kept.len() as int) =~= cluster_bytes(timestamp, frames));
    assert(closed.take(kept.len() as int) =~= kept);
    assert(full.dumped() =~= (CursorView { frames_seen: before.frames_seen + frames.len(), ..before }));
}

/// One cluster more behind some that were handed out.
#[verifier::spinoff_prover]
proof fn lemma_stream_next(start: CursorView, kept: Seq<u8>, first: Moment, clusters: Seq<Seq<FrameView>>)
    requires
        clusters.len() > 0,
        start.streamed(clusters.drop_last()) matches Some((cursor, bytes)) && {
            &&& bytes == kept + clusters_bytes(first, clusters.drop_last())
            &&& cursor.handed_out(kept)
            &&& cursor.segment_start == Some(first)
            &&& cursor.clusterable(clusters.last())
        },
    ensures
        start.streamed(clusters) matches Some((cursor, bytes)) && {
            &&& bytes == kept + clusters_bytes(first, clusters)
            &&& cursor.handed_out(kept)
            &&& cursor.segment_start == Some(first)
        },
{
    let rest = clusters.drop_last();
    let last = clusters.last();
    let (cursor, _) = start.streamed(rest)->0;
    law_later_cluster(cursor, kept, last);
    let time = last[0].timestamp.millis_after(first);
    assert(kept + clusters_bytes(first, rest) + cluster_bytes(time, last) =~= kept + clusters_bytes(first, clusters));
}

/// The first cluster by itself.
#[verifier::spinoff_prover]
proof fn lemma_stream_first(buffer: Seq<u8>, uid: Seq<u8>, frames: Seq<FrameView>)
    requires
        uid.len() == 16,
        CursorView::fresh(buffer).started(uid).clusterable(frames),
    ensures
        CursorView::fresh(buffer).started(uid).streamed(seq![frames]) matches Some((cursor, bytes)) && {
            let first = frames[0];
            let kept = buffer + start_bytes(uid) + track_bytes(first.dimensions, first.private, first.name);
            &&& bytes == kept + clusters_bytes(first.timestamp, seq![frames])
            &&& cursor.handed_out(kept)
            &&& cursor.segment_start == Some(first.timestamp)
        },
{
    let start = CursorView::fresh(buffer).started(uid);
    let first = frames[0];
    let kept = buffer + start_bytes(uid) + track_bytes(first.dimensions, first.private, first.name);
    let clusters = seq![frames];
    let none = Seq::<Seq<FrameView>>::empty();
    law_first_cluster(buffer, uid, frames);
    assert(clusters.drop_last() =~= none);
    assert(clusters.last() == frames);
    assert(start.streamed(none) == Some((start, Seq::<u8>::empty())));
    let (_, bytes) = start.streamed(clusters)->0;
    assert(bytes =~= kept + cluster_bytes(0, frames));
    assert(clusters_bytes(first.timestamp, none) =~= seq![]);
    assert(clusters_bytes(first.timestamp, clusters) =~= cluster_bytes(0, frames));
}

/// All that is ever handed out, put together, is one container: its start, the description of the track,
/// and every cluster with every frame, once and in turn. The time of a cluster is that of its first
/// frame, counted from the first frame of all.
#[verifier::spinoff_prover]
pub proof fn law_stream(buffer: Seq<u8>, uid: Seq<u8>, clusters: Seq<Seq<FrameView>>)
    requires
        uid.len() == 16,
        clusters.len() > 0,
        CursorView::fresh(buffer).started(uid).clusterable(clusters[0]),
        forall|i: int|
            0 < i < clusters.len() ==> (CursorView {
                segment_start: Some(clusters[0][0].timestamp),
                ..CursorView::fresh(buffer)
            }).clusterable(#[trigger] clusters[i]),
    ensures
        CursorView::fresh(buffer).started(uid).streamed(clusters) matches Some((cursor, bytes)) && {
            let first = clusters[0][0];
            let kept = buffer + start_bytes(uid) + track_bytes(first.dimensions, first.private, first.name);
            &&& bytes == kept + clusters_bytes(first.timestamp, clusters)
            &&& cursor.handed_out(kept)
            &&& cursor.segment_start == Some(first.timestamp)
        },
    decreases clusters.len(),
{
    let start = CursorView::fresh(buffer).started(uid);
    let first = clusters[0][0];
    let kept = buffer + start_bytes(uid) + track_bytes(first.dimensions, first.private, first.name);
    let rest = clusters.drop_last();
    if clusters.len() == 1 {
        assert(clusters =~= seq![clusters[0]]);
        lemma_stream_first(buffer, uid, clusters[0]);
    } else {
        assert(rest[0] == clusters[0]);
        law_stream(buffer, uid, rest);
        let (cursor, _) = start.streamed(rest)->0;
        assert(clusters.last() == clusters[clusters.len() - 1]);
        assert(cursor.clusterable(clusters.last()));
        lemma_stream_next(start, kept, first.timestamp, clusters);
    }
}

} // verus!
