//! What holds of a video over any number of pictures.
use super::{cluster_size, in_clusters, prepared_all, EncodeError, EncoderView, Stored};
use crate::avcc;
use crate::camera::JpegFrame;
use crate::clock::Moment;
use crate::ebml;
use crate::mkv::{self, SegmentView};
use crate::uid;
use vstd::prelude::*;

verus! {

/// What is handed out with the last of some encoded frames: where it makes its cluster full, that cluster,
/// and nothing else. In front of the first cluster stand the start of the container and the description of
/// the track.
pub open spec fn sent_with(uid: Seq<u8>, frames: Seq<(SegmentView, Seq<u8>)>) -> Seq<u8> {
    let prepared = prepared_all(EncoderView::fresh(uid).cursor, frames);
    if frames.len() == 0 || frames.len() as int % cluster_size() != 0 {
        seq![]
    } else {
        let first = prepared[0];
        let cluster = prepared.skip(frames.len() - cluster_size());
        let bytes = mkv::cluster_bytes(cluster[0].timestamp.millis_after(first.timestamp), cluster);
        if frames.len() == cluster_size() {
            mkv::start_bytes(uid) + mkv::track_bytes(first.dimensions, first.private, first.name) + bytes
        } else {
            bytes
        }
    }
}

/// Where frames have been stored without failure, the encoder stands where this many frames bring it, and its
/// container where the full clusters and the frames of the open one do.
#[verifier::spinoff_prover]
proof fn lemma_progress(uid: Seq<u8>, frames: Seq<(SegmentView, Seq<u8>)>)
    requires
        EncoderView::fresh(uid).stored_all(frames) is Some,
    ensures
        ({
            let start = EncoderView::fresh(uid);
            let (after, bytes) = start.stored_all(frames)->0;
            let prepared = prepared_all(start.cursor, frames);
            let full = frames.len() as int / cluster_size();
            let streamed = start.cursor.streamed(in_clusters(prepared, full as nat));
            &&& after.written_frames == frames.len() as int % cluster_size()
            &&& after.segment_start == after.cursor.segment_start
            &&& after.exchanges == start.exchanges
            &&& frames.len() == 0 ==> after.segment_start is None
            &&& frames.len() > 0 ==> after.segment_start == Some(frames[0].0.timestamp)
            &&& streamed matches Some((cursor, handed)) && {
                &&& handed == bytes
                &&& cursor.added_all(prepared.skip(cluster_size() * full)) == Some(after.cursor)
            }
        }),
    decreases frames.len(),
{
    let start = EncoderView::fresh(uid);
    let size = cluster_size();
    assert(size == 61);
    let prepared = prepared_all(start.cursor, frames);
    if frames.len() == 0 {
        assert(in_clusters(prepared, 0) =~= seq![]);
        assert(prepared.skip(0) =~= seq![]);
    } else {
        let rest = frames.drop_last();
        let last = frames.last();
        lemma_progress(uid, rest);
        let (before, bytes) = start.stored_all(rest)->0;
        let (after, _) = start.stored_all(frames)->0;
        let prepared_rest = prepared_all(start.cursor, rest);
        assert(prepared_rest =~= prepared.drop_last());
        let done = rest.len() as int / size;
        let full = frames.len() as int / size;
        let (cursor, _) = start.cursor.streamed(in_clusters(prepared_rest, done as nat))->0;
        assert(in_clusters(prepared_rest, done as nat) =~= in_clusters(prepared, done as nat)) by {
            assert forall|i: int| 0 <= i < done implies #[trigger] in_clusters(prepared_rest, done as nat)[i]
                == in_clusters(prepared, done as nat)[i] by {
                assert(prepared_rest.subrange(size * i, size * i + size) =~= prepared.subrange(
                    size * i,
                    size * i + size,
                ));
            }
        }
        assert(mkv::segment_view(before.cursor, last.0, last.1) == prepared.last());
        let open = prepared.skip(size * done);
        assert(open.drop_last() =~= prepared_rest.skip(size * done));
        assert(open.last() == prepared.last());
        assert(cursor.added_all(open) == before.cursor.added(prepared.last()));
        if frames.len() as int % size == 0 {
            assert(full == done + 1);
            let clusters = in_clusters(prepared, full as nat);
            assert(clusters.drop_last() =~= in_clusters(prepared, done as nat));
            assert(clusters.last() =~= open);
            assert(prepared.skip(size * full) =~= seq![]);
        } else {
            assert(full == done);
        }
    }
}

/// A frame that makes its cluster full completes the frames of that cluster.
#[verifier::spinoff_prover]
proof fn lemma_completes(uid: Seq<u8>, frames: Seq<(SegmentView, Seq<u8>)>)
    requires
        frames.len() > 0,
        frames.len() as int % cluster_size() == 0,
        EncoderView::fresh(uid).stored_all(frames) is Some,
    ensures
        ({
            let start = EncoderView::fresh(uid);
            let prepared = prepared_all(start.cursor, frames);
            let clusters = in_clusters(prepared, (frames.len() as int / cluster_size()) as nat);
            let (before, _) = start.stored_all(frames.drop_last())->0;
            let (cursor, _) = start.cursor.streamed(clusters.drop_last())->0;
            &&& clusters.last() == prepared.skip(frames.len() - cluster_size())
            &&& start.cursor.streamed(clusters.drop_last()) is Some
            &&& cursor.added_all(clusters.last()) == before.cursor.added(
                mkv::segment_view(before.cursor, frames.last().0, frames.last().1),
            )
        }),
{
    let start = EncoderView::fresh(uid);
    let size = cluster_size();
    assert(size == 61);
    let rest = frames.drop_last();
    let last = frames.last();
    lemma_progress(uid, rest);
    let (before, _) = start.stored_all(rest)->0;
    let prepared = prepared_all(start.cursor, frames);
    let prepared_rest = prepared_all(start.cursor, rest);
    assert(prepared_rest =~= prepared.drop_last());
    let full = frames.len() as int / size;
    let done = full - 1;
    let clusters = in_clusters(prepared, full as nat);
    assert(in_clusters(prepared_rest, done as nat) =~= clusters.drop_last()) by {
        assert forall|i: int| 0 <= i < done implies #[trigger] in_clusters(prepared_rest, done as nat)[i]
            == clusters[i] by {
            assert(prepared_rest.subrange(size * i, size * i + size) =~= prepared.subrange(
                size * i,
                size * i + size,
            ));
        }
    }
    let cluster = prepared.skip(frames.len() - size);
    assert(clusters.last() =~= cluster);
    assert(cluster.drop_last() =~= prepared_rest.skip(size * done));
    assert(cluster.last() == prepared.last());
    assert(mkv::segment_view(before.cursor, last.0, last.1) == prepared.last());
}

/// With a frame that makes its cluster full, the cluster is handed out.
#[verifier::spinoff_prover]
proof fn lemma_sent_full(uid: Seq<u8>, frames: Seq<(SegmentView, Seq<u8>)>)
    requires
        uid.len() == 16,
        frames.len() > 0,
        frames[0].1.len() == 16,
        frames.len() as int % cluster_size() == 0,
        EncoderView::fresh(uid).stored_all(frames) is Some,
    ensures
        ({
            let (before, _) = EncoderView::fresh(uid).stored_all(frames.drop_last())->0;
            let prepared = mkv::segment_view(before.cursor, frames.last().0, frames.last().1);
            sent_with(uid, frames) == before.cursor.added(prepared)->0.dumped_bytes()
        }),
        sent_with(uid, frames).len() > 0,
{
    let start = EncoderView::fresh(uid);
    let size = cluster_size();
    assert(size == 61);
    lemma_progress(uid, frames);
    lemma_completes(uid, frames);
    let prepared = prepared_all(start.cursor, frames);
    let full = frames.len() as int / size;
    let clusters = in_clusters(prepared, full as nat);
    assert(clusters[0][0] == prepared[0]);
    avcc::lemma_record_len(avcc::found_sets(frames[0].0.bitstream));
    mkv::history::law_rounds(seq![], uid, clusters);
    let rounds = start.cursor.rounds(clusters);
    assert(rounds.last() == rounds[full - 1]);
    let cluster = clusters.last();
    assert(cluster == clusters[full - 1]);
    let time = cluster[0].timestamp.millis_after(prepared[0].timestamp);
    ebml::lemma_element_len(ebml::CLUSTER, mkv::cluster_body(time, cluster));
    if full == 1 {
        assert(Seq::<u8>::empty() + mkv::start_bytes(uid) =~= mkv::start_bytes(uid));
    }
}

/// What comes of a frame that was stored without failure.
proof fn lemma_stored_kind(before: EncoderView, frame: SegmentView, name: Seq<u8>)
    requires
        before.stored(frame, name) is Kept || before.stored(frame, name) is Flushed,
    ensures
        before.written_frames + 1 < cluster_size() ==> before.stored(frame, name) is Kept,
        before.written_frames + 1 >= cluster_size() ==> {
            let full = before.cursor.added(mkv::segment_view(before.cursor, frame, name))->0;
            before.stored(frame, name) matches Stored::Flushed(_, bytes) && bytes == full.dumped_bytes()
        },
{
}

/// The last one of some frames that were stored without failure was stored without failure, and so were those
/// in front of it.
proof fn lemma_stored_last(start: EncoderView, frames: Seq<(SegmentView, Seq<u8>)>)
    requires
        frames.len() > 0,
        start.stored_all(frames) is Some,
    ensures
        start.stored_all(frames.drop_last()) is Some,
        ({
            let (before, _) = start.stored_all(frames.drop_last())->0;
            let stored = before.stored(frames.last().0, frames.last().1);
            stored is Kept || stored is Flushed
        }),
{
}

/// What the last one of some frames that were stored without failure has handed out.
spec fn handed_with_last(start: EncoderView, frames: Seq<(SegmentView, Seq<u8>)>) -> Seq<u8> {
    let (before, _) = start.stored_all(frames.drop_last())->0;
    match before.stored(frames.last().0, frames.last().1) {
        Stored::Flushed(_, bytes) => bytes,
        _ => seq![],
    }
}

/// The last frame hands out all that has become complete if it makes its cluster full, and nothing else.
proof fn lemma_handed(start: EncoderView, frames: Seq<(SegmentView, Seq<u8>)>)
    requires
        frames.len() > 0,
        start.stored_all(frames) is Some,
    ensures
        ({
            let (before, _) = start.stored_all(frames.drop_last())->0;
            let prepared = mkv::segment_view(before.cursor, frames.last().0, frames.last().1);
            handed_with_last(start, frames) == if before.written_frames + 1 < cluster_size() {
                Seq::<u8>::empty()
            } else {
                before.cursor.added(prepared)->0.dumped_bytes()
            }
        }),
{
    lemma_stored_last(start, frames);
    let (before, _) = start.stored_all(frames.drop_last())->0;
    lemma_stored_kind(before, frames.last().0, frames.last().1);
}

/// How many frames the open cluster holds, and when the video began, after this many frames.
proof fn lemma_counted(uid: Seq<u8>, frames: Seq<(SegmentView, Seq<u8>)>)
    requires
        EncoderView::fresh(uid).stored_all(frames) is Some,
    ensures
        ({
            let (after, _) = EncoderView::fresh(uid).stored_all(frames)->0;
            &&& after.written_frames == frames.len() as int % cluster_size()
            &&& frames.len() > 0 ==> after.segment_start == Some(frames[0].0.timestamp)
        }),
{
    lemma_progress(uid, frames);
}

/// One frame more in the open cluster.
proof fn lemma_next_count(count: int)
    requires
        count > 0,
    ensures
        count % cluster_size() == 0 <==> (count - 1) % cluster_size() + 1 == cluster_size(),
        (count - 1) % cluster_size() + 1 <= cluster_size(),
{
    assert(cluster_size() == 61);
}

/// Where frames have been stored without failure, the last one has handed out what it owes.
#[verifier::spinoff_prover]
proof fn lemma_sent(uid: Seq<u8>, frames: Seq<(SegmentView, Seq<u8>)>)
    requires
        uid.len() == 16,
        frames.len() > 0,
        frames[0].1.len() == 16,
        EncoderView::fresh(uid).stored_all(frames) is Some,
    ensures
        sent_with(uid, frames) == handed_with_last(EncoderView::fresh(uid), frames),
        sent_with(uid, frames).len() > 0 <==> frames.len() as int % cluster_size() == 0,
{
    let start = EncoderView::fresh(uid);
    lemma_stored_last(start, frames);
    lemma_handed(start, frames);
    lemma_counted(uid, frames.drop_last());
    lemma_next_count(frames.len() as int);
    if frames.len() as int % cluster_size() == 0 {
        lemma_sent_full(uid, frames);
    }
}

/// Do some pictures, each given to the encoder in turn and none of them refused, bring it through `states`, and
/// do they hand out `outs`?
pub open spec fn took_all(states: Seq<EncoderView>, frames: Seq<JpegFrame>, outs: Seq<Seq<u8>>) -> bool {
    &&& states.len() == frames.len() + 1
    &&& outs.len() == frames.len()
    &&& forall|i: int|
        0 <= i < frames.len() ==> states[i].takes(
            #[trigger] frames[i],
            seq![],
            Ok::<(), EncodeError>(()),
            states[i + 1],
            outs[i],
        )
}

/// What a picture is stored as, when it brings the encoder from `before` to `after`: what came out of the
/// video encoder, with the time since the start of the cluster.
pub open spec fn encoded_frame(before: EncoderView, frame: JpegFrame, after: EncoderView) -> SegmentView {
    SegmentView {
        bitstream: after.exchanges.last().reply->0,
        cluster_timestamp: before.cluster_millis(frame.timestamp) as i16,
        timestamp: frame.timestamp,
        dimensions: frame.dimensions,
    }
}

/// Are these the frames, each with a name for the track, that some pictures are stored as?
pub open spec fn encoded_as(
    encoded: Seq<(SegmentView, Seq<u8>)>,
    states: Seq<EncoderView>,
    frames: Seq<JpegFrame>,
) -> bool {
    &&& encoded.len() == frames.len()
    &&& forall|i: int|
        0 <= i < frames.len() ==> (#[trigger] encoded[i]).0 == encoded_frame(states[i], frames[i], states[i + 1])
    &&& forall|i: int| 0 <= i < frames.len() ==> uid::is_random((#[trigger] encoded[i]).1)
}

/// An encoder, without its memory of what has gone through it.
spec fn plain(state: EncoderView) -> EncoderView {
    EncoderView { exchanges: seq![], ..state }
}

/// What has gone through the encoder makes no difference to how a frame is stored.
proof fn lemma_stored_plain(before: EncoderView, frame: SegmentView, name: Seq<u8>)
    ensures
        plain(before).stored(frame, name) == match before.stored(frame, name) {
            Stored::Kept(after) => Stored::Kept(plain(after)),
            Stored::Flushed(after, bytes) => Stored::Flushed(plain(after), bytes),
            Stored::Stuck(after) => Stored::Stuck(plain(after)),
            other => other,
        },
{
}

/// A picture that is not refused is stored.
proof fn lemma_taken(before: EncoderView, frame: JpegFrame, after: EncoderView, out: Seq<u8>) -> (name: Seq<u8>)
    requires
        before.takes(frame, seq![], Ok::<(), EncodeError>(()), after, out),
    ensures
        uid::is_random(name),
        match plain(before).stored(encoded_frame(before, frame, after), name) {
            Stored::Kept(kept) => plain(after) == kept && out == Seq::<u8>::empty(),
            Stored::Flushed(flushed, bytes) => plain(after) == flushed && out == bytes,
            _ => false,
        },
{
    let result = Ok::<(), EncodeError>(());
    let (decoded, now) = choose|decoded: Option<Seq<u8>>, now: Moment|
        #[trigger] before.encodes_decoded(
            frame.timestamp,
            frame.dimensions,
            decoded,
            now,
            seq![],
            result,
            after,
            out,
        );
    assert(before.encodes(frame.timestamp, frame.dimensions, decoded->0, now, seq![], result, after, out));
    let given = EncoderView { exchanges: after.exchanges, ..before };
    let encoded = encoded_frame(before, frame, after);
    let name = choose|name: Seq<u8>|
        uid::is_random(name) && #[trigger] given.stores(encoded, name, seq![], result, after, out);
    lemma_stored_plain(given, encoded, name);
    assert(plain(given) == plain(before));
    if let Stored::Flushed(_, bytes) = given.stored(encoded, name) {
        assert(Seq::<u8>::empty() + bytes =~= bytes);
    }
    name
}

/// The pictures up to one, and what they are stored as.
#[verifier::spinoff_prover]
proof fn lemma_pictures(
    uid: Seq<u8>,
    states: Seq<EncoderView>,
    frames: Seq<JpegFrame>,
    outs: Seq<Seq<u8>>,
) -> (encoded: Seq<(SegmentView, Seq<u8>)>)
    requires
        uid.len() == 16,
        took_all(states, frames, outs),
        states[0] == EncoderView::fresh(uid),
    ensures
        encoded_as(encoded, states, frames),
        EncoderView::fresh(uid).stored_all(encoded) matches Some((after, _)) && after == plain(states.last()),
        forall|i: int|
            0 <= i < frames.len() ==> #[trigger] outs[i] == sent_with(uid, encoded.take(i + 1)),
    decreases frames.len(),
{
    let start = EncoderView::fresh(uid);
    if frames.len() == 0 {
        assert(plain(start) =~= start);
        seq![]
    } else {
        let last = frames.len() - 1;
        let before = states[last];
        let after = states[last + 1];
        let rest = frames.drop_last();
        lemma_took_fewer(states, frames, outs);
        let earlier = lemma_pictures(uid, states.drop_last(), rest, outs.drop_last());
        assert(states.drop_last().last() == before);
        assert(frames[last] == frames.last());
        let name = lemma_taken(before, frames[last], after, outs[last]);
        let next = (encoded_frame(before, frames[last], after), name);
        let encoded = earlier.push(next);
        assert(encoded.drop_last() =~= earlier);
        assert(states.last() == after);
        assert(start.stored_all(encoded) is Some);
        assert(encoded_as(encoded, states, frames)) by {
            assert forall|i: int| 0 <= i < frames.len() implies {
                &&& (#[trigger] encoded[i]).0 == encoded_frame(states[i], frames[i], states[i + 1])
                &&& uid::is_random(encoded[i].1)
            } by {
                if i < last {
                    assert(encoded[i] == earlier[i]);
                }
            }
        }
        lemma_sent(uid, encoded);
        assert forall|i: int| 0 <= i < frames.len() implies #[trigger] outs[i] == sent_with(
            uid,
            encoded.take(i + 1),
        ) by {
            if i < last {
                assert(outs[i] == outs.drop_last()[i]);
                assert(encoded.take(i + 1) =~= earlier.take(i + 1));
            } else {
                assert(encoded.take(i + 1) =~= encoded);
            }
        }
        encoded
    }
}

/// The pictures but for the last one.
proof fn lemma_took_fewer(states: Seq<EncoderView>, frames: Seq<JpegFrame>, outs: Seq<Seq<u8>>)
    requires
        took_all(states, frames, outs),
        frames.len() > 0,
    ensures
        took_all(states.drop_last(), frames.drop_last(), outs.drop_last()),
{
    let rest = frames.drop_last();
    assert forall|i: int| 0 <= i < rest.len() implies states.drop_last()[i].takes(
        #[trigger] rest[i],
        seq![],
        Ok::<(), EncodeError>(()),
        states.drop_last()[i + 1],
        outs.drop_last()[i],
    ) by {
        assert(rest[i] == frames[i]);
    }
}

/// The last one of some pictures.
proof fn lemma_last_picture(uid: Seq<u8>, states: Seq<EncoderView>, frames: Seq<JpegFrame>, outs: Seq<Seq<u8>>)
    requires
        uid.len() == 16,
        took_all(states, frames, outs),
        states[0] == EncoderView::fresh(uid),
    ensures
        states.last().written_frames == frames.len() as int % cluster_size(),
        frames.len() > 0 ==> states.last().segment_start == Some(frames[0].timestamp),
        frames.len() > 0 ==> (outs.last().len() > 0 <==> frames.len() as int % cluster_size() == 0),
{
    let encoded = lemma_pictures(uid, states, frames, outs);
    lemma_counted(uid, encoded);
    if frames.len() > 0 {
        let last = frames.len() - 1;
        assert(encoded[0].0.timestamp == frames[0].timestamp);
        assert(encoded.take(last + 1) =~= encoded);
        assert(outs[last] == sent_with(uid, encoded));
        lemma_sent(uid, encoded);
    }
}

/// However many pictures are given to a new encoder, and none of them refused: the video begins with the first
/// one; the open cluster never holds more than a cluster less one; and just the pictures that make a cluster
/// full hand something out, which is that cluster, with all its frames and no others, behind the start of
/// the container if it is the first one.
pub proof fn law_pictures(uid: Seq<u8>, states: Seq<EncoderView>, frames: Seq<JpegFrame>, outs: Seq<Seq<u8>>)
    requires
        uid.len() == 16,
        took_all(states, frames, outs),
        states[0] == EncoderView::fresh(uid),
    ensures
        forall|k: int|
            0 <= k <= frames.len() ==> (#[trigger] states[k]).written_frames == k % cluster_size(),
        forall|k: int|
            0 < k <= frames.len() ==> (#[trigger] states[k]).segment_start == Some(frames[0].timestamp),
        forall|i: int|
            0 <= i < frames.len() ==> ((#[trigger] outs[i]).len() > 0 <==> (i + 1) % cluster_size() == 0),
        exists|encoded: Seq<(SegmentView, Seq<u8>)>|
            {
                &&& #[trigger] encoded_as(encoded, states, frames)
                &&& forall|i: int|
                    0 <= i < frames.len() ==> #[trigger] outs[i] == sent_with(uid, encoded.take(i + 1))
            },
{
    let encoded = lemma_pictures(uid, states, frames, outs);
    assert(encoded_as(encoded, states, frames));
    lemma_all_pictures(uid, states, frames, outs);
}

/// Every one of some pictures.
proof fn lemma_all_pictures(uid: Seq<u8>, states: Seq<EncoderView>, frames: Seq<JpegFrame>, outs: Seq<Seq<u8>>)
    requires
        uid.len() == 16,
        took_all(states, frames, outs),
        states[0] == EncoderView::fresh(uid),
    ensures
        forall|k: int|
            0 <= k <= frames.len() ==> (#[trigger] states[k]).written_frames == k % cluster_size(),
        forall|k: int|
            0 < k <= frames.len() ==> (#[trigger] states[k]).segment_start == Some(frames[0].timestamp),
        forall|i: int|
            0 <= i < frames.len() ==> ((#[trigger] outs[i]).len() > 0 <==> (i + 1) % cluster_size() == 0),
    decreases frames.len(),
{
    lemma_last_picture(uid, states, frames, outs);
    assert(states.last() == states[frames.len() as int]);
    if frames.len() > 0 {
        let rest = frames.drop_last();
        lemma_took_fewer(states, frames, outs);
        lemma_all_pictures(uid, states.drop_last(), rest, outs.drop_last());
        assert forall|k: int| 0 <= k <= frames.len() implies {
            &&& (#[trigger] states[k]).written_frames == k % cluster_size()
            &&& k > 0 ==> states[k].segment_start == Some(frames[0].timestamp)
        } by {
            if k < frames.len() {
                assert(states[k] == states.drop_last()[k]);
                if k > 0 {
                    assert(rest[0] == frames[0]);
                }
            }
        }
        assert forall|i: int| 0 <= i < frames.len() implies ((#[trigger] outs[i]).len() > 0 <==> (i + 1)
            % cluster_size() == 0) by {
            if i < rest.len() {
                assert(outs[i] == outs.drop_last()[i]);
            } else {
                assert(outs[i] == outs.last());
            }
        }
    }
}

} // verus!
