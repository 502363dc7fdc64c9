//! What holds of a container over any number of calls.
use super::{
    between_clusters, cluster_body, cluster_bytes, clusters_bytes, describes_track, filled,
    law_first_cluster, law_later_cluster, lemma_filled, lemma_tracks, start_bytes, track_bytes, writable,
    CursorView, FrameView,
};
use crate::clock::Moment;
use crate::ebml::{self, TagView, WriterState, CLUSTER, SEGMENT, SIMPLE_BLOCK, TRACKS};
use vstd::prelude::*;

verus! {

/// Something that is done with a container.
pub enum CursorCall {
    /// A frame is added.
    Add(FrameView),
    /// The open cluster is closed, and handed out.
    Dump,
}

impl CursorView {
    /// The tags that a call writes.
    pub open spec fn call_tags(self, call: CursorCall) -> Seq<TagView> {
        match call {
            CursorCall::Add(frame) => self.segment_tags(frame),
            CursorCall::Dump => if self.tracks_end is Some {
                seq![TagView::End(CLUSTER)]
            } else {
                seq![]
            },
        }
    }

    /// The container after a call, and what it has handed out. `None` where the call fails.
    pub open spec fn called(self, call: CursorCall) -> Option<(CursorView, Seq<u8>)> {
        match call {
            CursorCall::Add(frame) => match self.added(frame) {
                Some(after) => Some((after, seq![])),
                None => None,
            },
            CursorCall::Dump => if self.can_dump() {
                Some((self.dumped(), self.dumped_bytes()))
            } else {
                None
            },
        }
    }

    /// The container after some calls in turn, and all that it has handed out. `None` where one of the calls
    /// fails.
    pub open spec fn ran(self, calls: Seq<CursorCall>) -> Option<(CursorView, Seq<u8>)>
        decreases calls.len(),
    {
        if calls.len() == 0 {
            Some((self, seq![]))
        } else {
            match self.ran(calls.drop_last()) {
                Some((before, bytes)) => match before.called(calls.last()) {
                    Some((after, more)) => Some((after, bytes + more)),
                    None => None,
                },
                None => None,
            }
        }
    }

    /// The tags that some calls write, in turn.
    pub open spec fn ran_tags(self, calls: Seq<CursorCall>) -> Seq<TagView>
        decreases calls.len(),
    {
        if calls.len() == 0 {
            seq![]
        } else {
            let rest = calls.drop_last();
            let (before, _) = self.ran(rest)->0;
            self.ran_tags(rest) + before.call_tags(calls.last())
        }
    }
}

/// How many of some calls add a frame.
pub open spec fn adds(calls: Seq<CursorCall>) -> nat
    decreases calls.len(),
{
    if calls.len() == 0 {
        0
    } else if calls.last() is Add {
        adds(calls.drop_last()) + 1
    } else {
        adds(calls.drop_last())
    }
}

/// How many of some calls add a frame and come after the last one that closes a cluster.
pub open spec fn adds_since_dump(calls: Seq<CursorCall>) -> nat
    decreases calls.len(),
{
    if calls.len() == 0 || calls.last() is Dump {
        0
    } else {
        adds_since_dump(calls.drop_last()) + 1
    }
}

/// How often a tag stands among some.
pub open spec fn occurrences(tags: Seq<TagView>, tag: TagView) -> nat
    decreases tags.len(),
{
    if tags.len() == 0 {
        0
    } else {
        occurrences(tags.drop_last(), tag) + if tags.last() == tag {
            1nat
        } else {
            0nat
        }
    }
}

/// A tag stands in two lists as often as in the one and in the other.
proof fn lemma_occurrences_concat(first: Seq<TagView>, second: Seq<TagView>, tag: TagView)
    ensures
        occurrences(first + second, tag) == occurrences(first, tag) + occurrences(second, tag),
    decreases second.len(),
{
    if second.len() == 0 {
        assert(first + second =~= first);
    } else {
        assert((first + second).drop_last() =~= first + second.drop_last());
        lemma_occurrences_concat(first, second.drop_last(), tag);
    }
}

/// A tag that is none of some does not stand among them.
proof fn lemma_occurrences_none(tags: Seq<TagView>, tag: TagView)
    requires
        forall|i: int| 0 <= i < tags.len() ==> #[trigger] tags[i] != tag,
    ensures
        occurrences(tags, tag) == 0,
    decreases tags.len(),
{
    if tags.len() > 0 {
        assert(tags.last() == tags[tags.len() - 1]);
        assert forall|i: int| 0 <= i < tags.drop_last().len() implies #[trigger] tags.drop_last()[i] != tag by {
            assert(tags[i] != tag);
        }
        lemma_occurrences_none(tags.drop_last(), tag);
    }
}

/// The tracks are opened with the first frame, and with no other.
proof fn lemma_tracks_opened(before: CursorView, frame: FrameView)
    ensures
        occurrences(before.segment_tags(frame), TagView::Start(TRACKS)) == if before.segment_start is None {
            1nat
        } else {
            0nat
        },
{
    let tracks = TagView::Start(TRACKS);
    let opening = before.opening_tags(frame);
    let cluster = before.cluster_tags(frame);
    let block = seq![TagView::Binary(SIMPLE_BLOCK, frame.payload)];
    lemma_occurrences_concat(opening + cluster, block, tracks);
    lemma_occurrences_concat(opening, cluster, tracks);
    lemma_occurrences_none(block, tracks);
    lemma_occurrences_none(cluster, tracks);
    if before.segment_start is None {
        let entry = ebml::master_tags(
            ebml::TRACK_ENTRY,
            super::entry_leaves(frame.private, frame.name) + ebml::master_tags(
                ebml::VIDEO,
                super::video_leaves(frame.dimensions),
            ),
        );
        let leaves = super::entry_leaves(frame.private, frame.name);
        assert forall|i: int| 0 <= i < leaves.len() implies #[trigger] leaves[i] != tracks by {}
        lemma_occurrences_none(leaves, tracks);
        let video = ebml::master_tags(ebml::VIDEO, super::video_leaves(frame.dimensions));
        lemma_occurrences_none(video, tracks);
        let opened = seq![TagView::Start(ebml::TRACK_ENTRY)];
        let closed = seq![TagView::End(ebml::TRACK_ENTRY)];
        lemma_occurrences_none(opened, tracks);
        lemma_occurrences_none(closed, tracks);
        lemma_occurrences_concat(leaves, video, tracks);
        lemma_occurrences_concat(opened, leaves + video, tracks);
        lemma_occurrences_concat(opened + (leaves + video), closed, tracks);
        lemma_occurrences_concat(seq![tracks], entry, tracks);
        lemma_occurrences_concat(seq![tracks] + entry, seq![TagView::End(TRACKS)], tracks);
        lemma_occurrences_none(seq![TagView::End(TRACKS)], tracks);
        assert(seq![tracks].drop_last() =~= seq![]);
        assert(occurrences(seq![], tracks) == 0);
        assert(occurrences(seq![tracks], tracks) == 1);
    } else {
        lemma_occurrences_none(opening, tracks);
    }
}

/// After any calls that do not fail, a container counts all frames that were added, and those that were added
/// since a cluster was last closed. It knows when the segment began, and where the description of the track
/// ends, as soon as there has been a frame. The track is described once, with the first frame.
pub proof fn law_counts(buffer: Seq<u8>, uid: Seq<u8>, calls: Seq<CursorCall>)
    requires
        CursorView::fresh(buffer).started(uid).ran(calls) is Some,
    ensures
        ({
            let start = CursorView::fresh(buffer).started(uid);
            let (after, _) = start.ran(calls)->0;
            &&& after.frames_seen == adds(calls)
            &&& after.frame_index == adds_since_dump(calls)
            &&& after.segment_start is Some <==> adds(calls) > 0
            &&& after.tracks_end is Some <==> adds(calls) > 0
            &&& occurrences(start.ran_tags(calls), TagView::Start(TRACKS)) == if adds(calls) > 0 {
                1nat
            } else {
                0nat
            }
        }),
    decreases calls.len(),
{
    let start = CursorView::fresh(buffer).started(uid);
    if calls.len() > 0 {
        let rest = calls.drop_last();
        law_counts(buffer, uid, rest);
        let (before, _) = start.ran(rest)->0;
        lemma_occurrences_concat(start.ran_tags(rest), before.call_tags(calls.last()), TagView::Start(TRACKS));
        match calls.last() {
            CursorCall::Add(frame) => {
                lemma_tracks_opened(before, frame);
                let opening = before.opening_tags(frame);
                ebml::lemma_written_concat(
                    before.writer,
                    opening + before.cluster_tags(frame),
                    seq![TagView::Binary(SIMPLE_BLOCK, frame.payload)],
                );
                ebml::lemma_written_concat(before.writer, opening, before.cluster_tags(frame));
                assert(before.writer.written_all(opening) is Some);
            },
            CursorCall::Dump => {
                lemma_occurrences_none(before.call_tags(calls.last()), TagView::Start(TRACKS));
            },
        }
    }
}

/// A call leaves a container well formed as far as its places in the buffer go, and writes its tags where they
/// could as well have been written in another buffer.
#[verifier::spinoff_prover]
proof fn lemma_called(before: CursorView, call: CursorCall, whole: WriterState)
    requires
        before.position <= before.writer.flushed.len(),
        before.tracks_end matches Some(end) ==> end <= before.writer.flushed.len(),
        before.called(call) is Some,
        whole.pending == before.writer.pending,
        whole.open == before.writer.open,
    ensures
        ({
            let (after, more) = before.called(call)->0;
            let written = whole.written_all(before.call_tags(call));
            &&& after.position <= after.writer.flushed.len()
            &&& after.tracks_end matches Some(end) ==> end <= after.writer.flushed.len()
            &&& written is Some
            &&& written->0.pending == after.writer.pending
            &&& written->0.open == after.writer.open
            &&& call is Dump && after.tracks_end is Some ==> after.writer.flushed.len() == after.position
            &&& forall|handed: Seq<u8>|
                whole.flushed == handed + before.writer.flushed.skip(before.position as int)
                    ==> written->0.flushed == #[trigger] (handed + more) + after.writer.flushed.skip(
                    after.position as int,
                )
        }),
{
    let tags = before.call_tags(call);
    let (after, more) = before.called(call)->0;
    ebml::lemma_written_anywhere(before.writer, tags);
    ebml::lemma_written_anywhere(whole, tags);
    let empty = WriterState { flushed: seq![], ..whole };
    assert(empty == WriterState { flushed: seq![], ..before.writer });
    match call {
        CursorCall::Add(frame) => {
            let opening = before.opening_tags(frame);
            let cluster = before.cluster_tags(frame);
            let block = seq![TagView::Binary(SIMPLE_BLOCK, frame.payload)];
            ebml::lemma_written_concat(before.writer, opening + cluster, block);
            ebml::lemma_written_concat(before.writer, opening, cluster);
            let described = before.writer.written_all(opening)->0;
            ebml::lemma_written_concat(described, cluster, block);
            assert(opening + cluster + block =~= opening + (cluster + block));
            ebml::lemma_written_concat(before.writer, opening, cluster + block);
            ebml::lemma_flushed_grows(before.writer, tags);
            ebml::lemma_flushed_grows(described, cluster + block);
        },
        CursorCall::Dump => {
            if before.tracks_end is Some {
                ebml::lemma_written_one(before.writer, TagView::End(CLUSTER));
                ebml::lemma_flushed_grows(before.writer, tags);
            } else {
                assert(before.writer.written_all(tags) == Some(before.writer));
            }
        },
    }
    let written = whole.written_all(tags)->0;
    let added = empty.written_all(tags)->0.flushed;
    assert forall|handed: Seq<u8>|
        whole.flushed == handed + before.writer.flushed.skip(before.position as int) implies written.flushed
        == #[trigger] (handed + more) + after.writer.flushed.skip(after.position as int) by {
        let kept = before.writer.flushed.skip(before.position as int);
        assert(written.flushed == whole.flushed + added);
        assert((before.writer.flushed + added).skip(before.position as int) =~= kept + added);
        assert(handed + kept + added =~= handed + (kept + added));
        match call {
            CursorCall::Add(_) => {
                assert(handed + more =~= handed);
            },
            CursorCall::Dump => {
                if before.tracks_end is Some {
                    assert(more == kept + added);
                    assert(after.writer.flushed.skip(after.position as int) =~= seq![]);
                    assert((handed + more) + Seq::<u8>::empty() =~= handed + more);
                } else {
                    assert(added =~= seq![]) by {
                        assert(empty.written_all(tags) == Some(empty));
                    }
                    assert(handed + more =~= handed);
                    assert(kept + added =~= kept);
                }
            },
        }
    }
}

/// Handing out what is complete, and forgetting it, loses nothing and repeats nothing: all that was handed out,
/// put together, and what is complete but not handed out yet, are what the same tags make of one buffer that
/// is never cut. When a cluster has just been handed out, all that is complete has been.
pub proof fn law_nothing_lost(before: CursorView, calls: Seq<CursorCall>)
    requires
        before.wf(),
        before.ran(calls) is Some,
    ensures
        ({
            let (after, bytes) = before.ran(calls)->0;
            before.writer.written_all(before.ran_tags(calls)) matches Some(whole) && {
                &&& whole.flushed.skip(before.position as int) == bytes + after.writer.flushed.skip(
                    after.position as int,
                )
                &&& whole.pending == after.writer.pending
                &&& whole.open == after.writer.open
                &&& calls.len() > 0 && calls.last() is Dump && after.tracks_end is Some ==> whole.flushed.skip(
                    before.position as int,
                ) == bytes
            }
        }),
{
    lemma_nothing_lost(before, calls);
    let (after, bytes) = before.ran(calls)->0;
    let whole = before.writer.written_all(before.ran_tags(calls))->0;
    let handed = before.writer.flushed.take(before.position as int);
    assert(whole.flushed =~= handed + (bytes + after.writer.flushed.skip(after.position as int)));
    assert(whole.flushed.skip(before.position as int) =~= bytes + after.writer.flushed.skip(after.position as int));
    if calls.len() > 0 && calls.last() is Dump && after.tracks_end is Some {
        assert(after.writer.flushed.skip(after.position as int) =~= seq![]);
        assert(bytes + Seq::<u8>::empty() =~= bytes);
    }
}

/// The same, with what was handed out before in front.
proof fn lemma_nothing_lost(before: CursorView, calls: Seq<CursorCall>)
    requires
        before.wf(),
        before.ran(calls) is Some,
    ensures
        ({
            let (after, bytes) = before.ran(calls)->0;
            let handed = before.writer.flushed.take(before.position as int);
            &&& after.position <= after.writer.flushed.len()
            &&& after.tracks_end matches Some(end) ==> end <= after.writer.flushed.len()
            &&& before.writer.written_all(before.ran_tags(calls)) matches Some(whole) && {
                &&& whole.flushed == handed + bytes + after.writer.flushed.skip(after.position as int)
                &&& whole.pending == after.writer.pending
                &&& whole.open == after.writer.open
            }
            &&& calls.len() > 0 && calls.last() is Dump && after.tracks_end is Some ==> after.writer.flushed.len()
                == after.position
        }),
    decreases calls.len(),
{
    let handed = before.writer.flushed.take(before.position as int);
    if calls.len() == 0 {
        assert(before.writer.flushed =~= handed + Seq::<u8>::empty() + before.writer.flushed.skip(
            before.position as int,
        ));
    } else {
        let rest = calls.drop_last();
        lemma_nothing_lost(before, rest);
        let (middle, bytes) = before.ran(rest)->0;
        let (_, more) = middle.called(calls.last())->0;
        let whole = before.writer.written_all(before.ran_tags(rest))->0;
        lemma_called(middle, calls.last(), whole);
        ebml::lemma_written_concat(before.writer, before.ran_tags(rest), middle.call_tags(calls.last()));
        assert((handed + bytes) + more =~= handed + (bytes + more));
    }
}

impl CursorView {
    /// What is handed out with each of some clusters, where each is handed out when its last frame has been
    /// added.
    pub open spec fn rounds(self, clusters: Seq<Seq<FrameView>>) -> Seq<Seq<u8>>
        decreases clusters.len(),
    {
        if clusters.len() == 0 {
            seq![]
        } else {
            let rest = clusters.drop_last();
            let (cursor, _) = self.streamed(rest)->0;
            self.rounds(rest).push(cursor.added_all(clusters.last())->0.dumped_bytes())
        }
    }
}

/// Frames that were added can be written.
proof fn lemma_accepted(before: CursorView, frames: Seq<FrameView>)
    requires
        frames.len() > 0,
        before.added_all(frames) is Some,
    ensures
        writable(before, frames),
        before.added_all(frames)->0.segment_start == Some(before.start_with(frames[0])),
    decreases frames.len(),
{
    let rest = frames.drop_last();
    let last = frames.last();
    let cursor = before.added_all(rest)->0;
    let tags = cursor.segment_tags(last);
    assert(tags.last() == TagView::Binary(SIMPLE_BLOCK, last.payload));
    assert(last.payload.len() < ebml::SIZE_LIMIT);
    if frames.len() > 1 {
        lemma_accepted(before, rest);
        assert(rest[0] == frames[0]);
    } else {
        assert(cursor == before);
        assert(last == frames[0]);
    }
    assert forall|i: int| 0 <= i < frames.len() implies {
        &&& (#[trigger] frames[i]).timestamp.millis_after(before.start_with(frames[0])) <= u64::MAX
        &&& frames[i].payload.len() < ebml::SIZE_LIMIT
    } by {
        if i < rest.len() {
            assert(rest[i] == frames[i]);
        } else {
            assert(frames[i] == last);
        }
    }
}

/// Frames that were added, in a cluster that can be closed, fit the cluster.
#[verifier::spinoff_prover]
proof fn lemma_fits(before: CursorView, flushed: Seq<u8>, frames: Seq<FrameView>)
    requires
        frames.len() > 0,
        before.frame_index == 0,
        before.segment_start is None || before.tracks_end is Some,
        before.writer.written_all(before.opening_tags(frames[0])) == Some(between_clusters(flushed)),
        before.added_all(frames) matches Some(full) && full.can_dump(),
    ensures
        before.fits_cluster(frames),
{
    lemma_accepted(before, frames);
    lemma_filled(before, flushed, frames);
    let full = filled(before, flushed, frames);
    assert(full.writer.open.last() == (CLUSTER, Some(0nat)));
    assert(full.writer.pending == cluster_body(before.cluster_timestamp(frames[0].timestamp), frames));
}

/// Frames that make up the first cluster, where nothing fails.
proof fn lemma_first_round(buffer: Seq<u8>, uid: Seq<u8>, frames: Seq<FrameView>)
    requires
        uid.len() == 16,
        frames.len() > 0,
        describes_track(frames[0]),
        CursorView::fresh(buffer).started(uid).added_all(frames) matches Some(full) && full.can_dump(),
    ensures
        CursorView::fresh(buffer).started(uid).clusterable(frames),
{
    let start = CursorView::fresh(buffer).started(uid);
    let first = frames[0];
    let tracks = track_bytes(first.dimensions, first.private, first.name);
    let kept = buffer + start_bytes(uid) + tracks;
    assert(start.writer.open_ids() =~= seq![SEGMENT]);
    lemma_tracks(start.writer, first.dimensions, first.private, first.name);
    let described = WriterState { pending: start.writer.pending + tracks, ..start.writer };
    assert(!described.waits());
    assert(described.settled() =~= between_clusters(kept));
    lemma_fits(start, kept, frames);
}

/// Frames that make up a later cluster, where nothing fails.
proof fn lemma_later_round(before: CursorView, kept: Seq<u8>, frames: Seq<FrameView>)
    requires
        before.handed_out(kept),
        before.added_all(frames) matches Some(full) && full.can_dump(),
    ensures
        frames.len() > 0,
        before.clusterable(frames),
{
    if frames.len() == 0 {
        assert(before.added_all(frames) == Some(before));
        assert(before.writer.open.last().0 == SEGMENT);
    } else {
        assert(before.opening_tags(frames[0]) =~= seq![]);
        assert(before.writer.written_all(seq![]) == Some(before.writer));
        lemma_fits(before, kept, frames);
    }
}

/// Is this what some clusters, of a segment that began at `first`, make of a container: what is handed out with
/// each is that cluster, with `kept` in front of the first one?
spec fn handed_in_turn(start: CursorView, kept: Seq<u8>, first: Moment, clusters: Seq<Seq<FrameView>>) -> bool {
    let rounds = start.rounds(clusters);
    &&& rounds.len() == clusters.len()
    &&& rounds[0] == kept + cluster_bytes(0, clusters[0])
    &&& forall|i: int|
        0 < i < clusters.len() ==> #[trigger] rounds[i] == cluster_bytes(
            clusters[i][0].timestamp.millis_after(first),
            clusters[i],
        )
    &&& forall|i: int| 0 <= i < clusters.len() ==> (#[trigger] clusters[i]).len() > 0
    &&& forall|i: int|
        0 <= i < clusters.len() ==> (#[trigger] clusters[i])[0].timestamp.millis_after(first) <= u64::MAX
    &&& start.streamed(clusters) matches Some((cursor, bytes)) && {
        &&& bytes == kept + clusters_bytes(first, clusters)
        &&& cursor.handed_out(kept)
        &&& cursor.segment_start == Some(first)
    }
}

/// The first cluster, where nothing fails.
#[verifier::spinoff_prover]
proof fn lemma_handed_first(buffer: Seq<u8>, uid: Seq<u8>, frames: Seq<FrameView>)
    requires
        uid.len() == 16,
        frames.len() > 0,
        describes_track(frames[0]),
        CursorView::fresh(buffer).started(uid).streamed(seq![frames]) is Some,
    ensures
        handed_in_turn(
            CursorView::fresh(buffer).started(uid),
            buffer + start_bytes(uid) + track_bytes(frames[0].dimensions, frames[0].private, frames[0].name),
            frames[0].timestamp,
            seq![frames],
        ),
{
    let start = CursorView::fresh(buffer).started(uid);
    let first = frames[0];
    let kept = buffer + start_bytes(uid) + track_bytes(first.dimensions, first.private, first.name);
    let clusters = seq![frames];
    let none = Seq::<Seq<FrameView>>::empty();
    assert(clusters.drop_last() =~= none);
    assert(start.rounds(none) =~= seq![]);
    assert(start.streamed(none) == Some((start, Seq::<u8>::empty())));
    assert(clusters.last() == frames);
    lemma_first_round(buffer, uid, frames);
    law_first_cluster(buffer, uid, frames);
    let (_, all) = start.streamed(clusters)->0;
    assert(all =~= kept + cluster_bytes(0, frames));
    assert(clusters_bytes(first.timestamp, none) =~= seq![]);
    assert(clusters_bytes(first.timestamp, clusters) =~= cluster_bytes(0, frames));
}

/// One cluster more, where nothing fails.
#[verifier::spinoff_prover]
proof fn lemma_handed_next(start: CursorView, kept: Seq<u8>, first: Moment, clusters: Seq<Seq<FrameView>>)
    requires
        clusters.len() > 1,
        handed_in_turn(start, kept, first, clusters.drop_last()),
        start.streamed(clusters) is Some,
    ensures
        handed_in_turn(start, kept, first, clusters),
{
    let rest = clusters.drop_last();
    let last = clusters.last();
    let (cursor, bytes) = start.streamed(rest)->0;
    let rounds = start.rounds(clusters);
    lemma_later_round(cursor, kept, last);
    law_later_cluster(cursor, kept, last);
    let time = last[0].timestamp.millis_after(first);
    assert(kept + clusters_bytes(first, rest) + cluster_bytes(time, last) =~= kept + clusters_bytes(first, clusters));
    assert forall|i: int| 0 < i < clusters.len() implies #[trigger] rounds[i] == cluster_bytes(
        clusters[i][0].timestamp.millis_after(first),
        clusters[i],
    ) by {
        if i < rest.len() {
            assert(rounds[i] == start.rounds(rest)[i]);
            assert(clusters[i] == rest[i]);
        }
    }
    assert forall|i: int| 0 <= i < clusters.len() implies {
        &&& (#[trigger] clusters[i]).len() > 0
        &&& clusters[i][0].timestamp.millis_after(first) <= u64::MAX
    } by {
        if i < rest.len() {
            assert(clusters[i] == rest[i]);
        } else {
            assert(last[0].timestamp.millis_after(cursor.start_with(last[0])) <= u64::MAX);
        }
    }
    assert(rounds[0] == start.rounds(rest)[0]);
    assert(clusters[0] == rest[0]);
}

/// All clusters, where nothing fails.
proof fn lemma_handed_in_turn(buffer: Seq<u8>, uid: Seq<u8>, clusters: Seq<Seq<FrameView>>)
    requires
        uid.len() == 16,
        clusters.len() > 0,
        clusters[0].len() > 0,
        describes_track(clusters[0][0]),
        CursorView::fresh(buffer).started(uid).streamed(clusters) is Some,
    ensures
        ({
            let first = clusters[0][0];
            handed_in_turn(
                CursorView::fresh(buffer).started(uid),
                buffer + start_bytes(uid) + track_bytes(first.dimensions, first.private, first.name),
                first.timestamp,
                clusters,
            )
        }),
    decreases clusters.len(),
{
    let start = CursorView::fresh(buffer).started(uid);
    let first = clusters[0][0];
    if clusters.len() == 1 {
        assert(clusters =~= seq![clusters[0]]);
        lemma_handed_first(buffer, uid, clusters[0]);
    } else {
        assert(clusters.drop_last()[0] == clusters[0]);
        lemma_handed_in_turn(buffer, uid, clusters.drop_last());
        let kept = buffer + start_bytes(uid) + track_bytes(first.dimensions, first.private, first.name);
        lemma_handed_next(start, kept, first.timestamp, clusters);
    }
}

/// Whenever frames are added and handed out, cluster by cluster, and nothing fails, what is handed out with
/// a cluster is that cluster, with exactly its frames. Only in front of the first one stand the start of the
/// container and the description of the track.
pub proof fn law_rounds(buffer: Seq<u8>, uid: Seq<u8>, clusters: Seq<Seq<FrameView>>)
    requires
        uid.len() == 16,
        clusters.len() > 0,
        clusters[0].len() > 0,
        describes_track(clusters[0][0]),
        CursorView::fresh(buffer).started(uid).streamed(clusters) is Some,
    ensures
        ({
            let start = CursorView::fresh(buffer).started(uid);
            let (cursor, bytes) = start.streamed(clusters)->0;
            let rounds = start.rounds(clusters);
            let first = clusters[0][0];
            let kept = buffer + start_bytes(uid) + track_bytes(first.dimensions, first.private, first.name);
            &&& rounds.len() == clusters.len()
            &&& rounds[0] == kept + cluster_bytes(0, clusters[0])
            &&& forall|i: int|
                0 < i < clusters.len() ==> #[trigger] rounds[i] == cluster_bytes(
                    clusters[i][0].timestamp.millis_after(first.timestamp),
                    clusters[i],
                )
            &&& forall|i: int| 0 <= i < clusters.len() ==> (#[trigger] clusters[i]).len() > 0
            &&& forall|i: int|
                0 <= i < clusters.len() ==> (#[trigger] clusters[i])[0].timestamp.millis_after(first.timestamp)
                    <= u64::MAX
            &&& bytes == kept + clusters_bytes(first.timestamp, clusters)
            &&& cursor.handed_out(kept)
            &&& cursor.segment_start == Some(first.timestamp)
        }),
{
    lemma_handed_in_turn(buffer, uid, clusters);
}

} // verus!
