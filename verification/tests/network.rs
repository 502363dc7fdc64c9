use kvs_streamer::camera::JpegFrame;
use kvs_streamer::clock::{Clock, Moment};
use kvs_streamer::codec::{is_well_shaped, VideoEncoder};
use kvs_streamer::jpeg::{does_overcount, Coding, JpegHeader};
use kvs_streamer::mkv::{MkvError, SegmentFrame};
use kvs_streamer::streaming::network::{
    after_picture, after_read, EncodeError, NetworkAction, NetworkError, NetworkEvent, NetworkedVideoEncoder,
};
use kvs_streamer::streaming::wire::ResponseError;
use kvs_streamer::streaming::StreamControl;

const UID: [u8; 16] = [7; 16];

/// A JPEG of 16 by 16 pixels, all of them the same gray.
fn gray_jpeg() -> Vec<u8> {
    let mut data = vec![0xff, 0xd8, 0xff, 0xdb, 0, 0x43, 0];
    data.extend([1; 64]);
    data.extend([0xff, 0xc0, 0, 0x11, 8, 0, 16, 0, 16, 3, 1, 0x11, 0, 2, 0x11, 0, 3, 0x11, 0]);
    for class in [0x00, 0x10] {
        data.extend([0xff, 0xc4, 0, 0x14, class, 1]);
        data.extend([0; 16]);
    }
    data.extend([0xff, 0xda, 0, 12, 3, 1, 0, 2, 0, 3, 0, 0, 63, 0, 0, 0, 0, 0xff, 0xd9]);
    data
}

fn at(millis: u128) -> Moment {
    Moment { nanos: millis * 1_000_000 }
}

fn picture(millis: u128) -> JpegFrame {
    JpegFrame { timestamp: at(millis), data: gray_jpeg(), dimensions: (16, 16) }
}

fn new_encoder() -> NetworkedVideoEncoder {
    NetworkedVideoEncoder::new(Clock::start()).ok().unwrap()
}

fn segment(bitstream: &[u8], millis: u128) -> SegmentFrame<'_> {
    SegmentFrame { bitstream, cluster_timestamp: 0, timestamp: at(millis), dimensions: (16, 16) }
}

const SLICE: [u8; 6] = [0, 0, 0, 1, 0x65, 0x88];

#[test]
fn video_is_handed_out_cluster_by_cluster() {
    let mut encoder = new_encoder();
    let mut video = Vec::new();
    for number in 0..60 {
        assert_eq!(encoder.encode_to(&picture(number * 10), &mut video), Ok(()));
        assert!(video.is_empty());
    }
    assert_eq!(encoder.encode_to(&picture(600), &mut video), Ok(()));
    assert_eq!(video[..4], [0x1a, 0x45, 0xdf, 0xa3]);
    let blocks = video.windows(4).filter(|bytes| *bytes == [0x1f, 0x43, 0xb6, 0x75]).count();
    assert_eq!(blocks, 1);
    // The first frame of an encoder comes with its parameter sets.
    assert!(video.windows(2).any(|bytes| bytes == [0x63, 0xa2]));
    let mut next = Vec::new();
    for number in 0..61 {
        assert!(next.is_empty());
        assert_eq!(encoder.encode_to(&picture(1000 + number * 10), &mut next), Ok(()));
    }
    assert_eq!(next[..4], [0x1f, 0x43, 0xb6, 0x75]);
    assert_eq!(encoder.frames_seen(), 122);
}

#[test]
fn picture_has_to_be_a_jpeg() {
    let mut encoder = new_encoder();
    let mut video = Vec::new();
    let broken = JpegFrame { timestamp: at(0), data: vec![1, 2, 3], dimensions: (16, 16) };
    assert_eq!(encoder.encode_to(&broken, &mut video), Err(EncodeError::Jpeg));
    let mut small = picture(0);
    small.dimensions = (8, 8);
    assert_eq!(encoder.encode_to(&small, &mut video), Err(EncodeError::Shape));
    assert_eq!(encoder.frames_seen(), 0);
    assert!(video.is_empty());
}

/// A JPEG of one component, which has these sampling factors.
fn lone_jpeg(width: u16, height: u16, sampling: u8) -> Vec<u8> {
    let mut data = vec![0xff, 0xd8, 0xff, 0xdb, 0, 0x43, 0];
    data.extend([1; 64]);
    data.extend([0xff, 0xc0, 0, 0x0b, 8]);
    data.extend(height.to_be_bytes());
    data.extend(width.to_be_bytes());
    data.extend([1, 1, sampling, 0]);
    for class in [0x00, 0x10] {
        data.extend([0xff, 0xc4, 0, 0x14, class, 1]);
        data.extend([0; 16]);
    }
    data.extend([0xff, 0xda, 0, 8, 1, 1, 0, 0, 63, 0, 0, 0, 0xff, 0xd9]);
    data
}

#[test]
fn long_picture_with_one_scan_is_decoded() {
    let mut encoder = new_encoder();
    let mut video = Vec::new();
    // Where the header of the picture says how high and how wide it is.
    let size = gray_jpeg().windows(2).position(|bytes| bytes == [0xff, 0xc0]).unwrap() + 5;
    for (place, other) in [(size, size + 2), (size + 2, size)] {
        let mut long = picture(0);
        long.data[place] = 0xff;
        long.data[place + 1] = 0xfe;
        long.data[other + 1] = 2;
        long.dimensions = (434, 302);
        assert_eq!(encoder.encode_to(&long, &mut video), Ok(()));
        long.dimensions = (16, 16);
        assert_eq!(encoder.encode_to(&long, &mut video), Err(EncodeError::Shape));
    }
    assert_eq!(encoder.frames_seen(), 2);
}

#[test]
fn component_alone_can_have_too_many_lines_or_columns() {
    let mut encoder = new_encoder();
    let mut video = Vec::new();
    let mut lone = |width: u16, height: u16, sampling: u8| {
        let data = lone_jpeg(width, height, sampling);
        encoder.encode_to(&JpegFrame { timestamp: at(0), data, dimensions: (254, 172) }, &mut video)
    };
    assert_eq!(lone(8, 0xfff9, 0x11), Err(EncodeError::TooLarge));
    assert_eq!(lone(8, 0xffff, 0x22), Err(EncodeError::TooLarge));
    assert_eq!(lone(0xfff9, 8, 0x31), Err(EncodeError::TooLarge));
    assert_eq!(lone(8, 0xfff8, 0x11), Err(EncodeError::Shape));
    assert_eq!(lone(0xfff8, 8, 0x31), Err(EncodeError::Shape));
    // Three times the pixels of the dimensions, one byte each.
    assert_eq!(lone(0xfffc, 2, 0x11), Ok(()));
    assert_eq!(encoder.frames_seen(), 1);
    assert!(video.is_empty());
}

#[test]
fn header_and_scans_tell_whether_the_decoder_counts_too_far() {
    let scan = [0, 0xff, 0xda, 0, 8, 1];
    let header = |width, height, coding| Some(JpegHeader { width, height, coding });
    assert!(!does_overcount(None, &scan));
    assert!(does_overcount(header(1, 0xffff, Coding::Sequential), &scan));
    assert!(does_overcount(header(1, 0xfff9, Coding::Progressive), &scan));
    assert!(!does_overcount(header(1, 0xffff, Coding::Lossless), &scan));
    assert!(!does_overcount(header(1, 0xfff8, Coding::Sequential), &scan));
    assert!(!does_overcount(header(1, 0xffff, Coding::Sequential), &scan[..5]));
    assert!(!does_overcount(header(0xffff, 1, Coding::Sequential), &scan));
    let mut tripled = vec![0xff, 0xc2, 0, 17, 8, 0, 1, 0xff, 0xff, 3, 1, 0x11, 0, 2, 0x11, 0, 3, 0x31, 0];
    tripled.extend(scan);
    assert!(does_overcount(header(0xffff, 1, Coding::Progressive), &tripled));
    // With two components, the third one is none.
    tripled[9] = 2;
    assert!(!does_overcount(header(0xffff, 1, Coding::Progressive), &tripled));
}

#[test]
fn decoded_picture_is_encoded() {
    let mut encoder = new_encoder();
    let mut video = vec![1];
    let pixels = vec![128; 768];
    assert_eq!(encoder.encode_decoded_to(&picture(0), None, at(0), &mut video), Err(EncodeError::Jpeg));
    assert_eq!(
        encoder.encode_decoded_to(&picture(0), Some(&pixels[1..]), at(0), &mut video),
        Err(EncodeError::Shape)
    );
    assert_eq!(encoder.frames_seen(), 0);
    assert_eq!(encoder.encode_decoded_to(&picture(0), Some(&pixels), at(0), &mut video), Ok(()));
    assert_eq!(encoder.frames_seen(), 1);
    let beyond = at(i64::MAX as u128 + 1);
    assert_eq!(
        encoder.encode_decoded_to(&picture(1), Some(&pixels), beyond, &mut video),
        Err(EncodeError::ClockRange)
    );
    let over = at(u128::from(u64::MAX) + 1);
    assert_eq!(
        encoder.encode_decoded_to(&picture(1), Some(&pixels), over, &mut video),
        Err(EncodeError::SegmentTimestamp)
    );
    assert_eq!(
        encoder.encode_decoded_to(&picture(40_000), Some(&pixels), at(1), &mut video),
        Err(EncodeError::ClusterTimestamp)
    );
    assert_eq!(encoder.frames_seen(), 1);
    assert_eq!(video, vec![1]);
}

#[test]
fn only_full_clusters_are_handed_out() {
    let mut encoder = new_encoder();
    let pixels = vec![90; 768];
    for number in 1..=183u128 {
        let mut video = Vec::new();
        let result = encoder.encode_decoded_to(&picture(number), Some(&pixels), at(number), &mut video);
        assert_eq!(result, Ok(()));
        assert_eq!(video.is_empty(), number % 61 != 0);
        if number == 122 {
            // The time of the cluster is that of its first picture, counted from the first one of all.
            assert_eq!(video[..4], [0x1f, 0x43, 0xb6, 0x75]);
            let time = video.windows(2).position(|bytes| bytes == [0xe7, 0x81]).unwrap();
            assert_eq!(video[time + 2], 61);
        }
    }
}

#[test]
fn shape_has_to_be_right() {
    assert!(is_well_shaped(768, (16, 16)));
    assert!(!is_well_shaped(767, (16, 16)));
    assert!(!is_well_shaped(256, (16, 16)));
    assert!(!is_well_shaped(9, (3, 1)));
    assert!(!is_well_shaped(18, (2, 3)));
    assert!(is_well_shaped(0, (0, 0)));
}

#[test]
fn pictures_of_one_cluster_are_close_together() {
    let mut encoder = new_encoder();
    let mut video = Vec::new();
    assert_eq!(encoder.encode_to(&picture(0), &mut video), Ok(()));
    assert_eq!(encoder.encode_to(&picture(32_767), &mut video), Ok(()));
    assert_eq!(encoder.encode_to(&picture(32_768), &mut video), Err(EncodeError::ClusterTimestamp));
    assert_eq!(encoder.frames_seen(), 2);
}

#[test]
fn times_have_limits() {
    let mut encoder = new_encoder();
    let mut video = Vec::new();
    let pixels = vec![128; 768];
    assert_eq!(encoder.encode_pixels_to(&picture(0), &pixels, at(0), &mut video), Ok(()));
    let over = at(u128::from(u64::MAX) + 1);
    assert_eq!(
        encoder.encode_pixels_to(&picture(1), &pixels, over, &mut video),
        Err(EncodeError::SegmentTimestamp)
    );
    assert!(encoder.is_in_range(at(1), at(i64::MAX as u128)));
    assert!(!encoder.is_in_range(at(1), at(i64::MAX as u128 + 1)));
    assert!(!encoder.is_in_range(over, at(1)));
    let mut late = picture(0);
    late.timestamp = over;
    assert_eq!(encoder.encode_to(&late, &mut video), Err(EncodeError::ClockRange));
    assert_eq!(encoder.frames_seen(), 1);
}

#[test]
fn encoder_refuses_what_is_too_large() {
    let mut encoder = new_encoder();
    let mut video = Vec::new();
    let mut wide = picture(0);
    wide.dimensions = (4000, 2);
    let pixels = vec![0; 24_000];
    assert_eq!(
        encoder.encode_pixels_to(&wide, &pixels, at(0), &mut video),
        Err(EncodeError::Encoder)
    );
    assert_eq!(encoder.frames_seen(), 0);
}

#[test]
fn encoded_picture_is_a_byte_stream() {
    let mut encoder = VideoEncoder::new().unwrap();
    let stream = encoder.encode(&vec![200; 768], (16, 16), 0).unwrap();
    assert_eq!(stream[..5], [0, 0, 0, 1, 0x67]);
    assert!(encoder.encode(&vec![0; 24_000], (4000, 2), 1).is_none());
}

#[test]
fn encoder_is_there_if_its_engine_is() {
    let mut encoder = VideoEncoder::from_engine(openh264::encoder::Encoder::new()).unwrap();
    assert!(encoder.encode(&vec![0; 768], (16, 16), 0).is_some());
    let failed = openh264::Error::msg("not started");
    assert!(VideoEncoder::from_engine(Err(failed)).is_none());
}

#[test]
fn empty_picture_is_refused() {
    let mut encoder = VideoEncoder::new().unwrap();
    assert!(encoder.encode(&[], (0, 0), 0).is_none());
    assert!(encoder.encode(&[], (0, 16), i64::MAX as u64).is_none());
}

#[test]
fn encoded_frames_are_stored() {
    let encoder = VideoEncoder::new().unwrap();
    let mut video = Vec::new();
    let mut encoder = NetworkedVideoEncoder::with_encoder(Clock::start(), encoder, &UID).ok().unwrap();
    for number in 0..61 {
        assert!(video.is_empty());
        assert_eq!(encoder.store(&segment(&SLICE, number), &UID, &mut video), Ok(()));
    }
    // Each block takes twelve bytes, the time of the cluster three, and the start of the cluster six.
    let cluster = &video[video.len() - 741..];
    assert_eq!(cluster[..9], [0x1f, 0x43, 0xb6, 0x75, 0x42, 0xdf, 0xe7, 0x81, 0]);
    for block in cluster[9..].chunks(12) {
        assert_eq!(block, [0xa3, 0x8a, 0x81, 0, 0, 0, 0, 0, 0, 2, 0x65, 0x88]);
    }
}

#[test]
fn frame_can_come_too_late_for_the_video() {
    let mut encoder = new_encoder();
    let mut video = Vec::new();
    assert_eq!(encoder.store(&segment(&SLICE, 0), &UID, &mut video), Ok(()));
    let late = u128::from(u64::MAX) + 1;
    assert_eq!(
        encoder.store(&segment(&SLICE, late), &UID, &mut video),
        Err(EncodeError::Container(MkvError::TimestampOverflow))
    );
}

#[test]
fn times_add_up_to_a_millisecond() {
    let start = Moment { nanos: 700_000 };
    let cluster = Moment { nanos: 2_500_000 };
    let frame = Moment { nanos: 4_300_000 };
    assert_eq!(frame.millis_since(start), 3);
    assert_eq!(cluster.millis_since(start) + frame.millis_since(cluster), 2);
}

#[test]
fn network_does_what_it_is_told() {
    let mut encoder = new_encoder();
    let terminate = NetworkEvent::Command(StreamControl::Terminate);
    assert!(matches!(encoder.next_action(&terminate), NetworkAction::Finish));
    assert!(matches!(encoder.next_action(&NetworkEvent::Lost), NetworkAction::Abandon));
    let closed = NetworkEvent::Read(Vec::new());
    assert!(matches!(encoder.next_action(&closed), NetworkAction::Abandon));
    let message = NetworkEvent::Read(b"2\r\n{}".to_vec());
    assert!(matches!(encoder.next_action(&message), NetworkAction::Check(payload) if payload == b"{}"));
    let broken = NetworkEvent::Read(b"x\r\n{}".to_vec());
    let action = encoder.next_action(&broken);
    assert!(matches!(action, NetworkAction::Fail(NetworkError::Response(ResponseError::Size))));
    for number in 0..60 {
        let frame = NetworkEvent::Command(StreamControl::DataAvailable(picture(number)));
        assert!(matches!(encoder.next_action(&frame), NetworkAction::Wait));
    }
    let frame = NetworkEvent::Command(StreamControl::DataAvailable(picture(60)));
    let NetworkAction::Send(chunk) = encoder.next_action(&frame) else {
        panic!("nothing was sent");
    };
    let end = chunk.windows(2).position(|pair| pair == b"\r\n").unwrap();
    let size = usize::from_str_radix(&String::from_utf8(chunk[..end].to_vec()).unwrap(), 16).unwrap();
    assert_eq!(chunk.len(), end + 2 + size + 2);
    assert_eq!(chunk[end + 2..end + 6], [0x1a, 0x45, 0xdf, 0xa3]);
    let mut bad = picture(61);
    bad.data.clear();
    let bad = NetworkEvent::Command(StreamControl::DataAvailable(bad));
    let action = encoder.next_action(&bad);
    assert!(matches!(action, NetworkAction::Fail(NetworkError::Encode(EncodeError::Jpeg))));
}

#[test]
fn decisions_follow_results() {
    let failed = after_picture(Err(EncodeError::Encoder), &vec![1]);
    assert!(matches!(failed, NetworkAction::Fail(NetworkError::Encode(EncodeError::Encoder))));
    assert!(matches!(after_picture(Ok(()), &vec![]), NetworkAction::Wait));
    let sent = after_picture(Ok(()), &vec![5, 6]);
    assert!(matches!(sent, NetworkAction::Send(bytes) if bytes == b"2\r\n\x05\x06\r\n"));
    assert!(matches!(after_read(&vec![]), NetworkAction::Abandon));
    let missing = after_read(&b"3".to_vec());
    assert!(matches!(
        missing,
        NetworkAction::Fail(NetworkError::Response(ResponseError::MissingPayload))
    ));
}
