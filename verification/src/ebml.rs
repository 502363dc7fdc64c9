//! EBML, the binary layout underneath Matroska, and the writer that turns Matroska tags into it.
//!
//! An EBML element is an identifier, the size of its payload, and the payload. A *master* element
//! holds other elements; it is opened and closed by two separate tags, and everything written in
//! between is its payload.
use vstd::prelude::*;
use webm_iterable::matroska_spec::{EbmlSpecification, Master, MatroskaSpec};

verus! {

/// `Ebml`, the header of the document.
pub const EBML: u64 = 0x1a45dfa3;

/// `Ebml/DocType`.
pub const DOC_TYPE: u64 = 0x4282;

/// `Ebml/DocTypeVersion`.
pub const DOC_TYPE_VERSION: u64 = 0x4287;

/// `Segment`, which holds the whole of the media.
pub const SEGMENT: u64 = 0x18538067;

/// `Segment/Info`.
pub const INFO: u64 = 0x1549a966;

/// `Segment/Info/SegmentUID`.
pub const SEGMENT_UID: u64 = 0x73a4;

/// `Segment/Info/Title`.
pub const TITLE: u64 = 0x7ba9;

/// `Segment/Info/TimestampScale`.
pub const TIMESTAMP_SCALE: u64 = 0x2ad7b1;

/// `Segment/Info/WritingApp`.
pub const WRITING_APP: u64 = 0x5741;

/// `Segment/Info/MuxingApp`.
pub const MUXING_APP: u64 = 0x4d80;

/// `Segment/Tracks`.
pub const TRACKS: u64 = 0x1654ae6b;

/// `Segment/Tracks/TrackEntry`.
pub const TRACK_ENTRY: u64 = 0xae;

/// `Segment/Tracks/TrackEntry/TrackNumber`.
pub const TRACK_NUMBER: u64 = 0xd7;

/// `Segment/Tracks/TrackEntry/TrackType`.
pub const TRACK_TYPE: u64 = 0x83;

/// `Segment/Tracks/TrackEntry/TrackTimestampScale`.
pub const TRACK_TIMESTAMP_SCALE: u64 = 0x23314f;

/// `Segment/Tracks/TrackEntry/TrackUID`.
pub const TRACK_UID: u64 = 0x73c5;

/// `Segment/Tracks/TrackEntry/Name`.
pub const TRACK_NAME: u64 = 0x536e;

/// `Segment/Tracks/TrackEntry/CodecID`.
pub const CODEC_ID: u64 = 0x86;

/// `Segment/Tracks/TrackEntry/CodecName`.
pub const CODEC_NAME: u64 = 0x258688;

/// `Segment/Tracks/TrackEntry/CodecPrivate`.
pub const CODEC_PRIVATE: u64 = 0x63a2;

/// `Segment/Tracks/TrackEntry/Video`.
pub const VIDEO: u64 = 0xe0;

/// `Segment/Tracks/TrackEntry/Video/PixelWidth`.
pub const PIXEL_WIDTH: u64 = 0xb0;

/// `Segment/Tracks/TrackEntry/Video/PixelHeight`.
pub const PIXEL_HEIGHT: u64 = 0xba;

/// `Segment/Tracks/TrackEntry/Video/FlagInterlaced`.
pub const FLAG_INTERLACED: u64 = 0x9a;

/// `Segment/Tracks/TrackEntry/Video/DisplayUnit`.
pub const DISPLAY_UNIT: u64 = 0x54b2;

/// `Segment/Tracks/TrackEntry/Video/DisplayWidth`.
pub const DISPLAY_WIDTH: u64 = 0x54b0;

/// `Segment/Tracks/TrackEntry/Video/DisplayHeight`.
pub const DISPLAY_HEIGHT: u64 = 0x54ba;

/// `Segment/Cluster`.
pub const CLUSTER: u64 = 0x1f43b675;

/// `Segment/Cluster/Timestamp`.
pub const TIMESTAMP: u64 = 0xe7;

/// `Segment/Cluster/SimpleBlock`.
pub const SIMPLE_BLOCK: u64 = 0xa3;

/// Payloads of this size and above have no size field.
pub const SIZE_LIMIT: u64 = 0x100_0000_0000_0000;

/// The `width` bytes of `value`, the most significant first.
pub open spec fn be_bytes(value: nat, width: nat) -> Seq<u8>
    decreases width,
{
    if width == 0 {
        Seq::empty()
    } else {
        be_bytes(value / 256, (width - 1) as nat).push((value % 256) as u8)
    }
}

/// The four bytes of `value`, the most significant first.
pub fn u32_bytes(value: u32) -> (bytes: [u8; 4])
    ensures
        bytes@ == be_bytes(value as nat, 4),
{
    proof {
        lemma_be_bytes_4(value as nat);
    }
    [
        (value / 0x100_0000) as u8,
        (value / 0x1_0000 % 0x100) as u8,
        (value / 0x100 % 0x100) as u8,
        (value % 0x100) as u8,
    ]
}

/// The two bytes of `value`, the most significant first.
pub fn u16_bytes(value: u16) -> (bytes: [u8; 2])
    ensures
        bytes@ == be_bytes(value as nat, 2),
{
    proof {
        lemma_be_bytes_2(value as nat);
    }
    [(value / 0x100) as u8, (value % 0x100) as u8]
}

/// The bytes of a number of two bytes, one by one.
pub proof fn lemma_be_bytes_2(value: nat)
    requires
        value <= u16::MAX,
    ensures
        be_bytes(value, 2) == seq![(value / 0x100) as u8, (value % 0x100) as u8],
{
    reveal_with_fuel(be_bytes, 3);
    assert(be_bytes(value, 2) =~= seq![(value / 0x100) as u8, (value % 0x100) as u8]);
}

/// The bytes of a number of four bytes, one by one.
pub proof fn lemma_be_bytes_4(value: nat)
    requires
        value <= u32::MAX,
    ensures
        be_bytes(value, 4) == seq![
            (value / 0x100_0000) as u8,
            (value / 0x1_0000 % 0x100) as u8,
            (value / 0x100 % 0x100) as u8,
            (value % 0x100) as u8,
        ],
{
    reveal_with_fuel(be_bytes, 5);
    assert(value / 0x100 / 0x100 == value / 0x1_0000);
    assert(value / 0x100 / 0x100 / 0x100 == value / 0x100_0000);
    assert(be_bytes(value, 4) =~= seq![
        (value / 0x100_0000) as u8,
        (value / 0x1_0000 % 0x100) as u8,
        (value / 0x100 % 0x100) as u8,
        (value % 0x100) as u8,
    ]);
}

/// A number takes as many bytes as it is written in.
pub proof fn lemma_be_bytes_len(value: nat, width: nat)
    ensures
        be_bytes(value, width).len() == width,
    decreases width,
{
    if width > 0 {
        lemma_be_bytes_len(value / 256, (width - 1) as nat);
    }
}

/// How many bytes `value` takes without leading zeros.
pub open spec fn byte_width(value: nat) -> nat
    decreases value,
{
    if value == 0 {
        0
    } else {
        1 + byte_width(value / 256)
    }
}

/// An element's identifier, as it stands in the stream.
pub open spec fn id_bytes(id: u64) -> Seq<u8> {
    be_bytes(id as nat, byte_width(id as nat))
}

/// How many bytes the size field of a payload of `size` bytes takes. In a field of `n` bytes, `7 * n`
/// bits are left for the size, and the value with all of them set is reserved.
pub open spec fn size_width(size: nat) -> nat {
    if size < 0x7f {
        1
    } else if size < 0x3fff {
        2
    } else if size < 0x1f_ffff {
        3
    } else if size < 0xfff_ffff {
        4
    } else if size < 0x7_ffff_ffff {
        5
    } else if size < 0x3ff_ffff_ffff {
        6
    } else if size < 0x1_ffff_ffff_ffff {
        7
    } else {
        8
    }
}

/// The bit that marks a size field of `width` bytes: the one above the bits left for the size.
pub open spec fn size_marker(width: nat) -> nat {
    vstd::arithmetic::power2::pow2(7 * width)
}

/// The size field of a payload of `size` bytes.
pub open spec fn size_field(size: nat) -> Seq<u8> {
    be_bytes(size + size_marker(size_width(size)), size_width(size))
}

/// An element with its payload.
pub open spec fn element(id: u64, payload: Seq<u8>) -> Seq<u8> {
    id_bytes(id) + size_field(payload.len()) + payload
}

/// The start of an element whose size is left open: its payload goes on to the end of the stream.
pub open spec fn unsized_start(id: u64) -> Seq<u8> {
    id_bytes(id) + seq![0x01u8, 0xff, 0xff, 0xff, 0xff, 0xff, 0xff, 0xff]
}

/// The payload of an element that holds the unsigned integer `value`: 1, 2, 4 or 8 bytes.
pub open spec fn unsigned_payload(value: u64) -> Seq<u8> {
    be_bytes(
        value as nat,
        if value <= 0xff {
            1
        } else if value <= 0xffff {
            2
        } else if value <= 0xffff_ffff {
            4
        } else {
            8
        },
    )
}

/// What an element holds.
pub enum TagKind {
    /// Other elements.
    Master,
    /// An unsigned integer.
    Unsigned,
    /// UTF-8 text.
    Text,
    /// Bytes.
    Binary,
    /// A floating-point number.
    Float,
}

/// What the elements that this library writes hold, by their identifier.
pub open spec fn kind_of(id: u64) -> Option<TagKind> {
    if id == EBML || id == SEGMENT || id == INFO || id == TRACKS || id == TRACK_ENTRY || id == VIDEO
        || id == CLUSTER {
        Some(TagKind::Master)
    } else if id == DOC_TYPE_VERSION || id == TIMESTAMP_SCALE || id == TRACK_NUMBER || id == TRACK_TYPE
        || id == TRACK_UID || id == PIXEL_WIDTH || id == PIXEL_HEIGHT || id == FLAG_INTERLACED || id
        == DISPLAY_UNIT || id == DISPLAY_WIDTH || id == DISPLAY_HEIGHT || id == TIMESTAMP {
        Some(TagKind::Unsigned)
    } else if id == DOC_TYPE || id == TITLE || id == WRITING_APP || id == MUXING_APP || id == TRACK_NAME
        || id == CODEC_ID || id == CODEC_NAME {
        Some(TagKind::Text)
    } else if id == SEGMENT_UID || id == CODEC_PRIVATE || id == SIMPLE_BLOCK {
        Some(TagKind::Binary)
    } else if id == TRACK_TIMESTAMP_SCALE {
        Some(TagKind::Float)
    } else {
        None
    }
}

/// The master elements that an element stands in, the outermost first.
pub open spec fn path_of(id: u64) -> Seq<u64> {
    if id == EBML || id == SEGMENT {
        seq![]
    } else if id == DOC_TYPE || id == DOC_TYPE_VERSION {
        seq![EBML]
    } else if id == INFO || id == TRACKS || id == CLUSTER {
        seq![SEGMENT]
    } else if id == SEGMENT_UID || id == TITLE || id == TIMESTAMP_SCALE || id == WRITING_APP || id
        == MUXING_APP {
        seq![SEGMENT, INFO]
    } else if id == TRACK_ENTRY {
        seq![SEGMENT, TRACKS]
    } else if id == TIMESTAMP || id == SIMPLE_BLOCK {
        seq![SEGMENT, CLUSTER]
    } else if id == PIXEL_WIDTH || id == PIXEL_HEIGHT || id == FLAG_INTERLACED || id == DISPLAY_UNIT
        || id == DISPLAY_WIDTH || id == DISPLAY_HEIGHT {
        seq![SEGMENT, TRACKS, TRACK_ENTRY, VIDEO]
    } else {
        seq![SEGMENT, TRACKS, TRACK_ENTRY]
    }
}

/// One tag to write.
pub enum Tag {
    /// Opens a master element.
    Start(u64),
    /// Closes a master element.
    End(u64),
    /// An unsigned integer.
    Unsigned(u64, u64),
    /// Text.
    Text(u64, String),
    /// Bytes.
    Binary(u64, Vec<u8>),
    /// A whole number, written as a floating-point number.
    Float(u64, u32),
}

/// What a [`Tag`] says, over mathematical values.
pub enum TagView {
    Start(u64),
    End(u64),
    Unsigned(u64, u64),
    Text(u64, Seq<char>),
    Binary(u64, Seq<u8>),
    Float(u64, u32),
}

impl View for Tag {
    type V = TagView;

    open spec fn view(&self) -> TagView {
        match *self {
            Tag::Start(id) => TagView::Start(id),
            Tag::End(id) => TagView::End(id),
            Tag::Unsigned(id, value) => TagView::Unsigned(id, value),
            Tag::Text(id, text) => TagView::Text(id, text@),
            Tag::Binary(id, bytes) => TagView::Binary(id, bytes@),
            Tag::Float(id, value) => TagView::Float(id, value),
        }
    }
}

/// What a list of tags says.
pub open spec fn tag_views(tags: Seq<Tag>) -> Seq<TagView> {
    tags.map_values(|tag: Tag| tag@)
}

impl TagView {
    /// The identifier of the tag's element.
    pub open spec fn id(self) -> u64 {
        match self {
            TagView::Start(id) => id,
            TagView::End(id) => id,
            TagView::Unsigned(id, _) => id,
            TagView::Text(id, _) => id,
            TagView::Binary(id, _) => id,
            TagView::Float(id, _) => id,
        }
    }

    /// Is this an element that the library writes, with the sort of content that it takes? The one
    /// floating-point number that is written is 1.
    pub open spec fn known(self) -> bool {
        match self {
            TagView::Start(id) => kind_of(id) == Some(TagKind::Master),
            TagView::End(id) => kind_of(id) == Some(TagKind::Master),
            TagView::Unsigned(id, _) => kind_of(id) == Some(TagKind::Unsigned),
            TagView::Text(id, _) => kind_of(id) == Some(TagKind::Text),
            TagView::Binary(id, _) => kind_of(id) == Some(TagKind::Binary),
            TagView::Float(id, value) => kind_of(id) == Some(TagKind::Float) && value == 1,
        }
    }

    /// The payload of an element that is no master element.
    pub open spec fn payload(self) -> Seq<u8> {
        match self {
            TagView::Start(_) => seq![],
            TagView::End(_) => seq![],
            TagView::Unsigned(_, value) => unsigned_payload(value),
            TagView::Text(_, text) => vstd::utf8::encode_utf8(text),
            TagView::Binary(_, bytes) => bytes,
            // The number 1 as a double, the sign and exponent first.
            TagView::Float(_, _) => seq![0x3fu8, 0xf0, 0, 0, 0, 0, 0, 0],
        }
    }
}

/// Where a writer stands.
#[verifier::ext_equal]
pub struct WriterState {
    /// The bytes that have reached the writer's buffer.
    pub flushed: Seq<u8>,
    /// The bytes that wait for the sizes of the open master elements.
    pub pending: Seq<u8>,
    /// The open master elements, the outermost first: the identifier, and where in `pending` the
    /// payload begins. An element whose size is left open has no such place.
    pub open: Seq<(u64, Option<nat>)>,
}

impl WriterState {
    /// The identifiers of the open master elements.
    pub open spec fn open_ids(self) -> Seq<u64> {
        self.open.map_values(|tag: (u64, Option<nat>)| tag.0)
    }

    /// Holds of every writer that this library makes: each payload begins inside `pending`, and only
    /// an outermost segment is left without a size.
    pub open spec fn wf(self) -> bool {
        forall|i: int|
            #![trigger self.open[i]]
            0 <= i < self.open.len() ==> match self.open[i].1 {
                Some(start) => start <= self.pending.len(),
                None => i == 0 && self.open[i].0 == SEGMENT,
            }
    }

    /// Does one of the open elements still need its size?
    pub open spec fn waits(self) -> bool {
        exists|i: int| 0 <= i < self.open.len() && (#[trigger] self.open[i]).1 is Some
    }

    /// Can `tag` be written here? A closing tag has to close the innermost open element; any other has
    /// to stand where Matroska has it. A segment whose size is left open ends where another outermost
    /// element begins.
    pub open spec fn accepts(self, tag: TagView) -> bool {
        match tag {
            TagView::End(id) => {
                &&& self.open.len() > 0
                &&& self.open.last().0 == id
                &&& self.open.last().1 matches Some(start) ==> self.pending.len() - start < SIZE_LIMIT
            },
            _ => {
                &&& {
                    ||| self.open_ids() == path_of(tag.id())
                    ||| path_of(tag.id()).len() == 0 && self.open.len() > 0 && self.open[0].1 is None
                }
                &&& tag.payload().len() < SIZE_LIMIT
            },
        }
    }

    /// The state with what waits moved to the buffer, unless a size is still missing.
    pub open spec fn settled(self) -> WriterState {
        if self.waits() {
            self
        } else {
            WriterState {
                flushed: self.flushed + self.pending,
                pending: seq![],
                open: self.open,
            }
        }
    }

    /// The state after `tag`, where it is accepted.
    pub open spec fn written(self, tag: TagView) -> WriterState {
        match tag {
            TagView::Start(id) => WriterState {
                open: self.open.push((id, Some(self.pending.len()))),
                ..self
            }.settled(),
            TagView::End(id) => WriterState {
                pending: match self.open.last().1 {
                    Some(start) => self.pending.take(start as int) + element(
                        id,
                        self.pending.skip(start as int),
                    ),
                    None => self.pending,
                },
                open: self.open.drop_last(),
                ..self
            }.settled(),
            _ => WriterState {
                pending: self.pending + element(tag.id(), tag.payload()),
                ..self
            }.settled(),
        }
    }

    /// The state after the start of a master element whose size is left open.
    pub open spec fn unsized_opened(self, id: u64) -> WriterState {
        WriterState {
            flushed: self.flushed,
            pending: self.pending + unsized_start(id),
            open: self.open.push((id, None)),
        }
    }

    /// The state after the tags in turn, or `None` where one of them is not accepted.
    pub open spec fn written_all(self, tags: Seq<TagView>) -> Option<WriterState>
        decreases tags.len(),
    {
        if tags.len() == 0 {
            Some(self)
        } else {
            match self.written_all(tags.drop_last()) {
                Some(state) if state.accepts(tags.last()) => Some(state.written(tags.last())),
                _ => None,
            }
        }
    }

    /// Is `after` what is left of a writer that was to write some tags and refused one of them? The
    /// tags in front of that one have been written.
    pub open spec fn stops_into(self, tags: Seq<TagView>, after: WriterState) -> bool {
        exists|n: int|
            0 <= n < tags.len() && (self.written_all(#[trigger] tags.take(n)) matches Some(state)
                && !state.accepts(tags[n]) && state.refused_into(after))
    }

    /// What is left of a writer that has refused a tag: nothing has reached the buffer, and of the
    /// open elements only the innermost may be gone.
    pub open spec fn refused_into(self, after: WriterState) -> bool {
        &&& after.flushed == self.flushed
        &&& self.pending.is_prefix_of(after.pending)
        &&& after.open.is_prefix_of(self.open)
        &&& self.open.len() <= after.open.len() + 1
    }
}

/// An element is longer than its payload.
pub proof fn lemma_element_len(id: u64, payload: Seq<u8>)
    ensures
        element(id, payload).len() > payload.len(),
{
    lemma_be_bytes_len(
        payload.len() + size_marker(size_width(payload.len())),
        size_width(payload.len()),
    );
}

/// A writer that has taken a tag is well formed if it was before.
pub proof fn lemma_written_wf(state: WriterState, tag: TagView)
    requires
        state.wf(),
        state.accepts(tag),
    ensures
        state.written(tag).wf(),
{
    if let TagView::End(id) = tag {
        if let Some(start) = state.open.last().1 {
            lemma_element_len(id, state.pending.skip(start as int));
        }
    }
}

/// A writer that has refused a tag is well formed if it was before.
pub proof fn lemma_refused_wf(state: WriterState, after: WriterState)
    requires
        state.wf(),
        state.refused_into(after),
    ensures
        after.wf(),
{
    assert forall|i: int| #![trigger after.open[i]] 0 <= i < after.open.len() implies match after.open[i].1 {
        Some(start) => start <= after.pending.len(),
        None => i == 0 && after.open[i].0 == SEGMENT,
    } by {
        assert(state.open[i] == after.open[i]);
    }
}

/// Is this a tag that neither opens nor closes a master element?
pub open spec fn is_leaf(tag: TagView) -> bool {
    !(tag is Start) && !(tag is End)
}

/// The elements of some tags, one behind the other.
pub open spec fn leaf_bytes(leaves: Seq<TagView>) -> Seq<u8>
    decreases leaves.len(),
{
    if leaves.len() == 0 {
        seq![]
    } else {
        leaf_bytes(leaves.drop_last()) + element(leaves.last().id(), leaves.last().payload())
    }
}

/// The tags of a master element with `body` inside it.
pub open spec fn master_tags(id: u64, body: Seq<TagView>) -> Seq<TagView> {
    seq![TagView::Start(id)] + body + seq![TagView::End(id)]
}

/// Writing one list of tags and then another is writing the two as one list.
pub proof fn lemma_written_concat(state: WriterState, first: Seq<TagView>, second: Seq<TagView>)
    ensures
        state.written_all(first + second) == match state.written_all(first) {
            Some(middle) => middle.written_all(second),
            None => None,
        },
    decreases second.len(),
{
    if second.len() == 0 {
        assert(first + second =~= first);
    } else {
        assert((first + second).drop_last() =~= first + second.drop_last());
        lemma_written_concat(state, first, second.drop_last());
    }
}

/// Writing one tag as a list.
pub proof fn lemma_written_one(state: WriterState, tag: TagView)
    ensures
        state.written_all(seq![tag]) == (if state.accepts(tag) {
            Some(state.written(tag))
        } else {
            None
        }),
{
    assert(seq![tag].drop_last() =~= seq![]);
    assert(state.written_all(seq![]) == Some(state));
}

/// Where a writer refuses one tag of a list, it refuses the list, and no tag before that one was
/// refused.
pub proof fn lemma_refused_at(state: WriterState, tags: Seq<TagView>, n: int)
    requires
        0 <= n < tags.len(),
        state.written_all(tags.take(n)) matches Some(middle) && !middle.accepts(tags[n]),
    ensures
        state.written_all(tags) is None,
{
    let rest = tags.skip(n + 1);
    assert(tags.take(n + 1).drop_last() =~= tags.take(n));
    assert(tags =~= tags.take(n + 1) + rest);
    lemma_written_concat(state, tags.take(n + 1), rest);
}

/// Where a writer stops in the first of two lists of tags, it stops in the two as one list.
pub proof fn lemma_stops_first(state: WriterState, first: Seq<TagView>, second: Seq<TagView>, after: WriterState)
    requires
        state.stops_into(first, after),
    ensures
        state.stops_into(first + second, after),
        state.written_all(first + second) is None,
{
    let n = choose|n: int|
        0 <= n < first.len() && (state.written_all(#[trigger] first.take(n)) matches Some(middle)
            && !middle.accepts(first[n]) && middle.refused_into(after));
    assert((first + second).take(n) =~= first.take(n));
    lemma_refused_at(state, first + second, n);
}

/// Where a writer stops in the second of two lists of tags, it stops in the two as one list.
pub proof fn lemma_stops_second(
    state: WriterState,
    first: Seq<TagView>,
    middle: WriterState,
    second: Seq<TagView>,
    after: WriterState,
)
    requires
        state.written_all(first) == Some(middle),
        middle.stops_into(second, after),
    ensures
        state.stops_into(first + second, after),
        state.written_all(first + second) is None,
{
    let n = choose|n: int|
        0 <= n < second.len() && (middle.written_all(#[trigger] second.take(n)) matches Some(last)
            && !last.accepts(second[n]) && last.refused_into(after));
    assert((first + second).take(first.len() + n) =~= first + second.take(n));
    lemma_written_concat(state, first, second.take(n));
    lemma_refused_at(state, first + second, first.len() + n);
}

/// What has reached the buffer stays there, whatever is written.
pub proof fn lemma_flushed_grows(state: WriterState, tags: Seq<TagView>)
    ensures
        state.written_all(tags) matches Some(after) ==> state.flushed.is_prefix_of(after.flushed),
    decreases tags.len(),
{
    if tags.len() > 0 {
        lemma_flushed_grows(state, tags.drop_last());
    }
}

/// What is in the buffer makes no difference to what is written behind it.
pub proof fn lemma_written_anywhere(state: WriterState, tags: Seq<TagView>)
    ensures
        state.written_all(tags) == match (WriterState { flushed: seq![], ..state }).written_all(tags) {
            Some(after) => Some(WriterState { flushed: state.flushed + after.flushed, ..after }),
            None => None,
        },
    decreases tags.len(),
{
    let empty = WriterState { flushed: seq![], ..state };
    if tags.len() == 0 {
        assert(state.flushed + Seq::<u8>::empty() =~= state.flushed);
    } else {
        lemma_written_anywhere(state, tags.drop_last());
        if let Some(middle) = empty.written_all(tags.drop_last()) {
            let moved = WriterState { flushed: state.flushed + middle.flushed, ..middle };
            assert(moved.open_ids() == middle.open_ids());
            assert(moved.accepts(tags.last()) == middle.accepts(tags.last()));
            let after = middle.written(tags.last());
            assert(moved.written(tags.last()) =~= WriterState { flushed: state.flushed + after.flushed, ..after });
        }
    }
}

/// Inside a master element, the tags that may stand there are written one behind the other.
pub proof fn lemma_leaves(state: WriterState, leaves: Seq<TagView>)
    requires
        state.waits(),
        forall|i: int|
            0 <= i < leaves.len() ==> {
                &&& is_leaf(#[trigger] leaves[i])
                &&& path_of(leaves[i].id()) == state.open_ids()
                &&& leaves[i].payload().len() < SIZE_LIMIT
            },
    ensures
        state.written_all(leaves) == Some(
            WriterState { pending: state.pending + leaf_bytes(leaves), ..state },
        ),
    decreases leaves.len(),
{
    if leaves.len() == 0 {
        assert(state.pending + leaf_bytes(leaves) =~= state.pending);
    } else {
        lemma_leaves(state, leaves.drop_last());
        let before = WriterState { pending: state.pending + leaf_bytes(leaves.drop_last()), ..state };
        assert(before.open == state.open);
        assert(leaves.last() == leaves[leaves.len() - 1]);
        assert(before.accepts(leaves.last()));
        let after = WriterState { pending: state.pending + leaf_bytes(leaves), ..state };
        assert(after.pending =~= before.pending + element(leaves.last().id(), leaves.last().payload()));
        assert(after.waits()) by {
            let i = choose|i: int| 0 <= i < state.open.len() && (#[trigger] state.open[i]).1 is Some;
            assert(after.open[i].1 is Some);
        }
        assert(before.written(leaves.last()) == after);
    }
}

/// A master element is written as one element that holds what is written inside it.
pub proof fn lemma_master(state: WriterState, id: u64, body: Seq<TagView>, inner: Seq<u8>)
    requires
        state.accepts(TagView::Start(id)),
        ({
            let opened = WriterState { open: state.open.push((id, Some(state.pending.len()))), ..state };
            opened.written_all(body) == Some(WriterState { pending: state.pending + inner, ..opened })
        }),
        inner.len() < SIZE_LIMIT,
    ensures
        state.written_all(master_tags(id, body)) == Some(
            WriterState { pending: state.pending + element(id, inner), ..state }.settled(),
        ),
{
    let opened = WriterState { open: state.open.push((id, Some(state.pending.len()))), ..state };
    assert(opened.open[state.open.len() as int].1 is Some);
    assert(opened.waits());
    assert(state.written(TagView::Start(id)) == opened);
    let filled = WriterState { pending: state.pending + inner, ..opened };
    assert(filled.pending.len() - state.pending.len() == inner.len());
    assert(filled.accepts(TagView::End(id)));
    assert(filled.open.drop_last() =~= state.open);
    assert(filled.pending.take(state.pending.len() as int) =~= state.pending);
    assert(filled.pending.skip(state.pending.len() as int) =~= inner);
    lemma_written_one(state, TagView::Start(id));
    lemma_written_one(filled, TagView::End(id));
    lemma_written_concat(state, seq![TagView::Start(id)], body);
    lemma_written_concat(state, seq![TagView::Start(id)] + body, seq![TagView::End(id)]);
}

/// The most that the bytes of a text can be.
pub proof fn lemma_utf8_bound(text: Seq<char>)
    ensures
        vstd::utf8::encode_utf8(text).len() <= 4 * text.len(),
    decreases text.len(),
{
    if text.len() > 0 {
        lemma_utf8_bound(text.drop_first());
    }
}

/// An identifier takes eight bytes at most.
pub proof fn lemma_id_bound(id: u64)
    ensures
        id_bytes(id).len() <= 8,
{
    reveal_with_fuel(byte_width, 9);
    let value = id as nat;
    assert(value / 256 < 0x100_0000_0000_0000);
    assert(value / 256 / 256 < 0x1_0000_0000_0000);
    assert(value / 256 / 256 / 256 < 0x100_0000_0000);
    assert(value / 256 / 256 / 256 / 256 < 0x1_0000_0000);
    assert(value / 256 / 256 / 256 / 256 / 256 < 0x100_0000);
    assert(value / 256 / 256 / 256 / 256 / 256 / 256 < 0x1_0000);
    assert(value / 256 / 256 / 256 / 256 / 256 / 256 / 256 < 0x100);
    assert(value / 256 / 256 / 256 / 256 / 256 / 256 / 256 / 256 == 0);
    lemma_be_bytes_len(value, byte_width(value));
}

/// An element is longer than its payload by sixteen bytes at most.
pub proof fn lemma_element_bound(id: u64, payload: Seq<u8>)
    ensures
        element(id, payload).len() <= payload.len() + 16,
{
    lemma_id_bound(id);
    lemma_be_bytes_len(
        payload.len() + size_marker(size_width(payload.len())),
        size_width(payload.len()),
    );
}

/// The most that some elements can take together, where each payload keeps to a limit.
pub proof fn lemma_leaf_bytes_bound(leaves: Seq<TagView>, limit: nat)
    requires
        forall|i: int| 0 <= i < leaves.len() ==> (#[trigger] leaves[i]).payload().len() <= limit,
    ensures
        leaf_bytes(leaves).len() <= leaves.len() * (limit + 16),
    decreases leaves.len(),
{
    if leaves.len() > 0 {
        lemma_leaf_bytes_bound(leaves.drop_last(), limit);
        lemma_element_bound(leaves.last().id(), leaves.last().payload());
        assert(leaves.last() == leaves[leaves.len() - 1]);
        let count = (leaves.len() - 1) as nat;
        assert((count + 1) * (limit + 16) == count * (limit + 16) + (limit + 16)) by (nonlinear_arith);
    }
}

/// Why the writer refused a tag.
#[verifier::external_type_specification]
#[verifier::external_body]
pub struct ExTagWriterError(webm_iterable::errors::TagWriterError);

/// A `webm_iterable::WebmWriter` that writes into memory.
#[verifier::external_body]
pub struct TagWriter {
    inner: webm_iterable::WebmWriter<Vec<u8>>,
}

/// The bytes in the buffer of a `WebmWriter`.
pub uninterp spec fn writer_flushed(writer: TagWriter) -> Seq<u8>;

/// The bytes that a `WebmWriter` holds back until the sizes in front of them are known.
pub uninterp spec fn writer_pending(writer: TagWriter) -> Seq<u8>;

/// The master elements that are open in a `WebmWriter`, as in [`WriterState::open`].
pub uninterp spec fn writer_open(writer: TagWriter) -> Seq<(u64, Option<nat>)>;

impl View for TagWriter {
    type V = WriterState;

    open spec fn view(&self) -> WriterState {
        WriterState {
            flushed: writer_flushed(*self),
            pending: writer_pending(*self),
            open: writer_open(*self),
        }
    }
}

impl TagWriter {
    /// `WebmWriter::new`: a writer with no open element, which appends to `buffer`.
    #[verifier::external_body]
    pub(crate) fn new(buffer: Vec<u8>) -> (writer: TagWriter)
        ensures
            writer_flushed(writer) == buffer@,
            writer_pending(writer) == Seq::<u8>::empty(),
            writer_open(writer) == Seq::<(u64, Option<nat>)>::empty(),
    {
        TagWriter { inner: webm_iterable::WebmWriter::new(buffer) }
    }

    /// `WebmWriter::write`: succeeds where the tag may stand here and its size can be written, and
    /// then the writer has taken the tag. A refused tag changes nothing in the buffer.
    #[verifier::external_body]
    pub(crate) fn write(&mut self, tag: &Tag) -> (result: Result<
        (),
        webm_iterable::errors::TagWriterError,
    >)
        requires
            old(self)@.wf(),
            tag@.known(),
        ensures
            result is Ok <==> old(self)@.accepts(tag@),
            result is Ok ==> final(self)@ == old(self)@.written(tag@),
            result is Err ==> old(self)@.refused_into(final(self)@),
    {
        let spec = match tag {
            Tag::Start(id) => MatroskaSpec::get_master_tag(*id, Master::Start),
            Tag::End(id) => MatroskaSpec::get_master_tag(*id, Master::End),
            Tag::Unsigned(id, value) => MatroskaSpec::get_unsigned_int_tag(*id, *value),
            Tag::Text(id, text) => MatroskaSpec::get_utf8_tag(*id, text.clone()),
            Tag::Binary(id, bytes) => MatroskaSpec::get_binary_tag(*id, bytes),
            Tag::Float(id, value) => MatroskaSpec::get_float_tag(*id, (*value).into()),
        };
        self.inner.write(&spec.unwrap())
    }

    /// `WebmWriter::write_advanced`, with the option for an element of unknown size: opens a master
    /// element whose size is left open, wherever the writer stands.
    #[verifier::external_body]
    pub(crate) fn open_unsized(&mut self, id: u64) -> (result: Result<
        (),
        webm_iterable::errors::TagWriterError,
    >)
        requires
            kind_of(id) == Some(TagKind::Master),
        ensures
            result is Ok,
            final(self)@ == old(self)@.unsized_opened(id),
    {
        let spec = MatroskaSpec::get_master_tag(id, Master::Start).unwrap();
        self.inner.write_advanced(&spec, webm_iterable::WriteOptions::is_unknown_sized_element())
    }

    /// `WebmWriter::get_ref`: the buffer.
    #[verifier::external_body]
    pub(crate) fn get_ref(&self) -> (buffer: &Vec<u8>)
        ensures
            buffer@ == self@.flushed,
    {
        self.inner.get_ref()
    }

    /// `WebmWriter::get_mut`: the buffer, to be changed in place. What waits, and what is open, stays
    /// as it is.
    #[verifier::external_body]
    pub(crate) fn get_mut(&mut self) -> (buffer: &mut Vec<u8>)
        ensures
            buffer@ == old(self)@.flushed,
            final(self)@ == (WriterState { flushed: final(buffer)@, ..old(self)@ }),
    {
        self.inner.get_mut()
    }
}

/// The bytes of a number, the first one the most significant, stand for the number.
pub proof fn law_number_bytes(long: u32, four: [u8; 4], short: u16, two: [u8; 2])
    requires
        call_ensures(u32_bytes, (long,), four),
        call_ensures(u16_bytes, (short,), two),
    ensures
        four@[0] * 0x100_0000 + four@[1] * 0x1_0000 + four@[2] * 0x100 + four@[3] == long,
        two@[0] * 0x100 + two@[1] == short,
{
    let (n, m) = (long as int, short as int);
    lemma_be_bytes_4(long as nat);
    lemma_be_bytes_2(short as nat);
    assert(n / 0x100_0000 * 0x100_0000 + n / 0x1_0000 % 0x100 * 0x1_0000 + n / 0x100 % 0x100 * 0x100 + n % 0x100
        == n);
    assert(four@[0] == n / 0x100_0000 && four@[1] == n / 0x1_0000 % 0x100);
    assert(four@[2] == n / 0x100 % 0x100 && four@[3] == n % 0x100);
}

} // verus!
