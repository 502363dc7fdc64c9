use kvs_streamer::avcc::PrivateData;
use kvs_streamer::clock::Moment;
use kvs_streamer::mkv::{make_simpleblock, Cursor, MkvError, PreparedFrame, SegmentFrame};
use kvs_streamer::annexb::NalReport;

const UID: [u8; 16] = [
    0x12, 0x3e, 0x45, 0x67, 0xe8, 0x9b, 0x42, 0xd3, 0xa4, 0x56, 0x42, 0x66, 0x14, 0x17, 0x40, 0x00,
];

const UID_TEXT: &str = "123e4567-e89b-42d3-a456-426614174000";

/// The size field of a payload of `size` bytes, for small sizes.
fn size_field(size: usize) -> Vec<u8> {
    if size < 0x7f {
        vec![0x80 | size as u8]
    } else if size < 0x3fff {
        vec![0x40 | (size >> 8) as u8, size as u8]
    } else {
        vec![0x20 | (size >> 16) as u8, (size >> 8) as u8, size as u8]
    }
}

fn element(id: &[u8], payload: &[u8]) -> Vec<u8> {
    [id, &size_field(payload.len()), payload].concat()
}

fn start_bytes() -> Vec<u8> {
    let header = element(
        &[0x1a, 0x45, 0xdf, 0xa3],
        &[0x42, 0x82, 0x88, b'm', b'a', b't', b'r', b'o', b's', b'k', b'a', 0x42, 0x87, 0x81, 4],
    );
    let segment = [0x18, 0x53, 0x80, 0x67, 0x01, 0xff, 0xff, 0xff, 0xff, 0xff, 0xff, 0xff];
    let info = [
        element(&[0x73, 0xa4], &UID),
        element(&[0x7b, 0xa9], UID_TEXT.as_bytes()),
        element(&[0x2a, 0xd7, 0xb1], &[0x00, 0x0f, 0x42, 0x40]),
        element(&[0x57, 0x41], b"rs-kvs-streamer"),
        element(&[0x4d, 0x80], b"rs-kvs-streamer"),
    ]
    .concat();
    [&header[..], &segment, &element(&[0x15, 0x49, 0xa9, 0x66], &info)].concat()
}

fn track_bytes(private: Option<&[u8]>) -> Vec<u8> {
    let mut entry = [
        element(&[0xd7], &[1]),
        element(&[0x83], &[1]),
        element(&[0x23, 0x31, 0x4f], &[0x3f, 0xf0, 0, 0, 0, 0, 0, 0]),
        element(&[0x73, 0xc5], &[0x55]),
        element(&[0x53, 0x6e], UID_TEXT.as_bytes()),
        element(&[0x86], b"V_MPEG4/ISO/AVC"),
        element(&[0x25, 0x86, 0x88], b"AVC/H.264"),
    ]
    .concat();
    if let Some(record) = private {
        entry.extend(element(&[0x63, 0xa2], record));
    }
    let video = [
        element(&[0xb0], &[0x02, 0x80]),
        element(&[0xba], &[0x01, 0xe0]),
        element(&[0x9a], &[2]),
        element(&[0x54, 0xb2], &[4]),
        element(&[0x54, 0xb0], &[0x02, 0x80]),
        element(&[0x54, 0xba], &[0x01, 0xe0]),
    ]
    .concat();
    entry.extend(element(&[0xe0], &video));
    element(&[0x16, 0x54, 0xae, 0x6b], &element(&[0xae], &entry))
}

fn cluster_bytes(timestamp: &[u8], payloads: &[&[u8]]) -> Vec<u8> {
    let mut body = element(&[0xe7], timestamp);
    for payload in payloads {
        body.extend(element(&[0xa3], payload));
    }
    element(&[0x1f, 0x43, 0xb6, 0x75], &body)
}

fn at(millis: u128) -> Moment {
    Moment { nanos: millis * 1_000_000 }
}

fn frame(payload: &[u8], millis: u128) -> PreparedFrame {
    PreparedFrame {
        payload: payload.to_vec(),
        timestamp: at(millis),
        dimensions: (640, 480),
        private: None,
        name: UID,
    }
}

#[test]
fn first_cluster_comes_with_the_start_of_the_container() {
    let mut cursor = Cursor::default();
    assert_eq!(cursor.start_as(&UID), Ok(()));
    assert_eq!(cursor.add_prepared(frame(&[1, 2, 3], 100)), Ok(()));
    assert_eq!(cursor.add_prepared(frame(&[4], 140)), Ok(()));
    let mut destination = vec![9];
    assert_eq!(cursor.dump_to(&mut destination), Ok(()));
    let expected = [
        vec![9],
        start_bytes(),
        track_bytes(None),
        cluster_bytes(&[0], &[&[1, 2, 3], &[4]]),
    ]
    .concat();
    assert_eq!(destination, expected);
    assert_eq!(cursor.frames_seen(), 2);
}

#[test]
fn later_clusters_come_alone() {
    let mut cursor = Cursor::default();
    assert_eq!(cursor.start_as(&UID), Ok(()));
    let mut first = Vec::new();
    assert_eq!(cursor.add_prepared(frame(&[7; 5], 0)), Ok(()));
    assert_eq!(cursor.dump_to(&mut first), Ok(()));
    let mut second = Vec::new();
    assert_eq!(cursor.add_prepared(frame(&[8; 200], 300)), Ok(()));
    assert_eq!(cursor.add_prepared(frame(&[9; 20_000], 70_000)), Ok(()));
    assert_eq!(cursor.dump_to(&mut second), Ok(()));
    assert_eq!(second, cluster_bytes(&[0x01, 0x2c], &[&[8; 200], &[9; 20_000]]));
    let mut third = Vec::new();
    assert_eq!(cursor.add_prepared(frame(&[], 70_100)), Ok(()));
    assert_eq!(cursor.dump_to(&mut third), Ok(()));
    assert_eq!(third, cluster_bytes(&[0x00, 0x01, 0x11, 0xd4], &[&[]]));
    assert_eq!(cursor.frames_seen(), 4);
}

#[test]
fn all_clusters_together_are_one_stream() {
    let mut cursor = Cursor::default();
    assert_eq!(cursor.start_as(&UID), Ok(()));
    let mut stream = Vec::new();
    for cluster in 0..3u8 {
        for block in 0..2u8 {
            let millis = u128::from(cluster) * 100 + u128::from(block);
            assert_eq!(cursor.add_prepared(frame(&[cluster, block], millis)), Ok(()));
        }
        assert_eq!(cursor.dump_to(&mut stream), Ok(()));
    }
    let expected = [
        start_bytes(),
        track_bytes(None),
        cluster_bytes(&[0], &[&[0, 0], &[0, 1]]),
        cluster_bytes(&[100], &[&[1, 0], &[1, 1]]),
        cluster_bytes(&[200], &[&[2, 0], &[2, 1]]),
    ]
    .concat();
    assert_eq!(stream, expected);
}

#[test]
fn each_round_hands_out_its_own_cluster() {
    let mut cursor = Cursor::default();
    assert_eq!(cursor.start_as(&UID), Ok(()));
    let mut rounds: Vec<Vec<u8>> = Vec::new();
    let mut number = 0u8;
    for size in [2, 1, 3] {
        for _ in 0..size {
            assert_eq!(cursor.add_prepared(frame(&[number], u128::from(number))), Ok(()));
            number += 1;
        }
        let mut round = Vec::new();
        assert_eq!(cursor.dump_to(&mut round), Ok(()));
        rounds.push(round);
    }
    let start = [start_bytes(), track_bytes(None)].concat();
    assert_eq!(rounds[0], [start, cluster_bytes(&[0], &[&[0], &[1]])].concat());
    assert_eq!(rounds[1], cluster_bytes(&[2], &[&[2]]));
    assert_eq!(rounds[2], cluster_bytes(&[3], &[&[3], &[4], &[5]]));
}

#[test]
fn frames_are_counted_and_the_track_is_described_once() {
    let mut cursor = Cursor::default();
    assert_eq!(cursor.start_as(&UID), Ok(()));
    let mut stream = Vec::new();
    assert_eq!(cursor.dump_to(&mut stream), Ok(()));
    assert_eq!(cursor.frames_seen(), 0);
    for number in 0..10u8 {
        assert_eq!(cursor.add_prepared(frame(&[number], u128::from(number))), Ok(()));
        assert_eq!(cursor.frames_seen(), usize::from(number) + 1);
        if number % 3 == 2 {
            assert_eq!(cursor.dump_to(&mut stream), Ok(()));
            assert_eq!(cursor.frames_seen(), usize::from(number) + 1);
        }
    }
    let tracks = stream.windows(4).filter(|bytes| *bytes == [0x16, 0x54, 0xae, 0x6b]).count();
    assert_eq!(tracks, 1);
}

#[test]
fn nothing_is_lost_when_the_buffer_is_cut() {
    // One container is handed out piece by piece, the other only once.
    let mut cut = Cursor::default();
    let mut whole = Cursor::default();
    assert_eq!(cut.start_as(&UID), Ok(()));
    assert_eq!(whole.start_as(&UID), Ok(()));
    let mut pieces = Vec::new();
    for number in 0..4u8 {
        assert_eq!(cut.add_prepared(frame(&[number; 3], 0)), Ok(()));
        assert_eq!(cut.dump_to(&mut pieces), Ok(()));
        assert_eq!(whole.add_prepared(frame(&[number; 3], 0)), Ok(()));
    }
    let mut once = Vec::new();
    assert_eq!(whole.dump_to(&mut once), Ok(()));
    let payload = [0u8; 3];
    let cluster = cluster_bytes(&[0], &[&payload[..]]).len();
    let head = start_bytes().len() + track_bytes(None).len();
    assert_eq!(pieces.len(), head + 4 * cluster);
    assert_eq!(pieces[..head], once[..head]);
    for number in 0..4u8 {
        let at = head + usize::from(number) * cluster;
        assert_eq!(pieces[at..at + cluster], cluster_bytes(&[0], &[&[number; 3]])[..]);
    }
}

#[test]
fn private_data_is_part_of_the_track() {
    let mut cursor = Cursor::default();
    assert_eq!(cursor.start_as(&UID), Ok(()));
    let mut first = frame(&[1], 0);
    first.private = Some(PrivateData { record: vec![5; 40], profile: None });
    assert_eq!(cursor.add_prepared(first), Ok(()));
    assert_eq!(cursor.codec_private().map(|data| data.record.clone()), Some(vec![5; 40]));
    let mut destination = Vec::new();
    assert_eq!(cursor.dump_to(&mut destination), Ok(()));
    let expected = [start_bytes(), track_bytes(Some(&[5; 40])), cluster_bytes(&[0], &[&[1]])].concat();
    assert_eq!(destination, expected);
}

#[test]
fn buffer_keeps_what_was_in_it() {
    let mut cursor = Cursor::new(vec![0xaa, 0xbb]);
    assert_eq!(cursor.start_as(&UID), Ok(()));
    assert_eq!(cursor.add_prepared(frame(&[1], 0)), Ok(()));
    let mut destination = Vec::new();
    assert_eq!(cursor.dump_to(&mut destination), Ok(()));
    let expected =
        [vec![0xaa, 0xbb], start_bytes(), track_bytes(None), cluster_bytes(&[0], &[&[1]])].concat();
    assert_eq!(destination, expected);
}

#[test]
fn nothing_to_hand_out_without_frames() {
    let mut cursor = Cursor::default();
    assert_eq!(cursor.start_as(&UID), Ok(()));
    let mut destination = Vec::new();
    assert_eq!(cursor.dump_to(&mut destination), Ok(()));
    assert!(destination.is_empty());
}

#[test]
fn cluster_is_closed_only_once() {
    let mut cursor = Cursor::default();
    assert_eq!(cursor.start_as(&UID), Ok(()));
    assert_eq!(cursor.add_prepared(frame(&[1], 0)), Ok(()));
    let mut destination = Vec::new();
    assert_eq!(cursor.dump_to(&mut destination), Ok(()));
    let length = destination.len();
    assert_eq!(cursor.dump_to(&mut destination), Err(MkvError::Refused));
    assert_eq!(destination.len(), length);
}

#[test]
fn container_is_started_only_once() {
    let mut cursor = Cursor::default();
    assert_eq!(cursor.start(), Ok(()));
    assert_eq!(cursor.start(), Err(MkvError::Refused));
}

#[test]
fn frame_needs_a_started_container() {
    let mut cursor = Cursor::default();
    assert_eq!(cursor.add_prepared(frame(&[1], 0)), Err(MkvError::Refused));
}

#[test]
fn frame_can_come_too_late() {
    let mut cursor = Cursor::default();
    assert_eq!(cursor.start_as(&UID), Ok(()));
    assert_eq!(cursor.add_prepared(frame(&[1], 0)), Ok(()));
    let late = u128::from(u64::MAX) + 1;
    assert_eq!(cursor.add_prepared(frame(&[2], late)), Err(MkvError::TimestampOverflow));
    assert_eq!(cursor.frames_seen(), 1);
    assert_eq!(cursor.add_prepared(frame(&[2], late - 1)), Ok(()));
    assert_eq!(cursor.frames_seen(), 2);
}

#[test]
fn random_segment_has_its_identifier_as_title() {
    let mut cursor = Cursor::default();
    assert_eq!(cursor.start(), Ok(()));
    assert_eq!(cursor.add_prepared(frame(&[1], 0)), Ok(()));
    let mut destination = Vec::new();
    assert_eq!(cursor.dump_to(&mut destination), Ok(()));
    // The header and the start of the segment take 32 bytes, the start of the information 5 or 6.
    let place = destination.windows(2).position(|pair| pair == [0x73, 0xa4]).unwrap();
    let uid = &destination[place + 3..place + 19];
    assert_eq!(uid[6] >> 4, 4);
    assert_eq!(uid[8] >> 6, 2);
    let digits: Vec<String> = uid.iter().map(|byte| format!("{byte:02x}")).collect();
    let text = [
        digits[0..4].concat(),
        digits[4..6].concat(),
        digits[6..8].concat(),
        digits[8..10].concat(),
        digits[10..16].concat(),
    ]
    .join("-");
    assert_eq!(&destination[place + 22..place + 58], text.as_bytes());
}

#[test]
fn block_holds_track_time_flags_and_units() {
    let reports = vec![
        NalReport { complete: true, head: vec![0x65, 1, 2] },
        NalReport { complete: false, head: vec![0x41, 3] },
        NalReport { complete: true, head: vec![0x41, 3] },
        NalReport { complete: true, head: vec![0xe5, 3] },
    ];
    let expected = vec![0x81, 0x01, 0x02, 0x00, 0, 0, 0, 3, 0x65, 1, 2, 0, 0, 0, 2, 0x41, 3];
    assert_eq!(make_simpleblock(0x0102, &reports), Ok(expected));
    assert_eq!(make_simpleblock(-2, &Vec::new()), Ok(vec![0x81, 0xff, 0xfe, 0x00]));
}

#[test]
fn block_of_a_frame_has_every_unit() {
    let bitstream = [0, 0, 0, 1, 0x67, 0x42, 0, 0, 1, 0x68, 0xce, 0, 0, 0, 1, 0x65, 0x88, 0x84];
    let frame = SegmentFrame {
        bitstream: &bitstream,
        cluster_timestamp: 33,
        timestamp: at(0),
        dimensions: (16, 16),
    };
    let expected = vec![
        0x81, 0, 33, 0, 0, 0, 0, 2, 0x67, 0x42, 0, 0, 0, 2, 0x68, 0xce, 0, 0, 0, 3, 0x65, 0x88, 0x84,
    ];
    assert_eq!(frame.simpleblock(), Ok(expected));
}

#[test]
fn track_goes_without_private_data_where_there_is_none() {
    let bitstream = [0, 0, 0, 1, 0x65, 0x88];
    let segment = SegmentFrame {
        bitstream: &bitstream,
        cluster_timestamp: 0,
        timestamp: at(5),
        dimensions: (640, 480),
    };
    let mut cursor = Cursor::default();
    assert_eq!(cursor.start_as(&UID), Ok(()));
    assert_eq!(cursor.add_segment_as(&segment, &UID), Ok(()));
    assert!(cursor.codec_private().is_none());
    let mut destination = Vec::new();
    assert_eq!(cursor.dump_to(&mut destination), Ok(()));
    let block = [0x81, 0, 0, 0, 0, 0, 0, 2, 0x65, 0x88];
    let expected = [start_bytes(), track_bytes(None), cluster_bytes(&[0], &[&block])].concat();
    assert_eq!(destination, expected);
}

#[test]
fn track_is_named_at_random() {
    let bitstream = [0, 0, 0, 1, 0x65, 0x88];
    let segment = SegmentFrame {
        bitstream: &bitstream,
        cluster_timestamp: 0,
        timestamp: at(5),
        dimensions: (640, 480),
    };
    let mut cursor = Cursor::default();
    assert_eq!(cursor.start_as(&UID), Ok(()));
    assert_eq!(cursor.add_segment(&segment), Ok(()));
    let mut destination = Vec::new();
    assert_eq!(cursor.dump_to(&mut destination), Ok(()));
    let place = destination.windows(3).position(|bytes| bytes == [0x53, 0x6e, 0xa4]).unwrap();
    let name = &destination[place + 3..place + 39];
    assert_eq!(name[14], b'4');
    assert!(matches!(name[19], b'8' | b'9' | b'a' | b'b'));
}
