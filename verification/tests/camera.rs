use kvs_streamer::camera::{
    Camera, CameraError, DeviceConnectionType, DeviceReply, DeviceRequest, JpegFrame, Progress, Property,
    Reading, Session,
};
use kvs_streamer::clock::Moment;
use kvs_streamer::lifecycle::{after_wait, plan_capture, refusal, supervise, CapturePlan, Supervision};
use kvs_streamer::streaming::camera::{first_action, next_action, CameraAction, CameraEvent, Polled};
use kvs_streamer::streaming::CameraControl;

const MJPG: i32 = 0x4750_4a4d;

fn whole(floor: i64) -> Reading {
    Reading { floor, fractional: false }
}

/// Answers everything, and tells what was asked.
fn converse(
    camera: &mut Camera<&'static str>,
    session: &mut Session,
    answer: impl Fn(DeviceRequest) -> DeviceReply,
) -> (Vec<DeviceRequest>, Progress) {
    let mut asked = Vec::new();
    loop {
        let request = session.request();
        asked.push(request);
        let progress = camera.resume(session, answer(request));
        if let Progress::Ask(next) = progress {
            assert_eq!(next, session.request());
        } else {
            return (asked, progress);
        }
    }
}

fn device(fourcc: i64, width: Reading, height: Reading) -> impl Fn(DeviceRequest) -> DeviceReply {
    move |request| match request {
        DeviceRequest::Open => DeviceReply::Done,
        DeviceRequest::Get(Property::FourCC) => DeviceReply::Value(whole(fourcc)),
        DeviceRequest::Get(Property::Width) => DeviceReply::Value(width),
        DeviceRequest::Get(Property::Height) => DeviceReply::Value(height),
        DeviceRequest::Get(_) => DeviceReply::Value(whole(1)),
        DeviceRequest::Measure => DeviceReply::Size(1, 3),
        DeviceRequest::Copy => DeviceReply::Data(vec![0xff, 0xd8, 0xff]),
        _ => DeviceReply::Answer(true),
    }
}

const READS: [DeviceRequest; 7] = [
    DeviceRequest::Get(Property::FourCC),
    DeviceRequest::Get(Property::Width),
    DeviceRequest::Get(Property::Height),
    DeviceRequest::Get(Property::BufferSize),
    DeviceRequest::Get(Property::ConvertRGB),
    DeviceRequest::Get(Property::Fps),
    DeviceRequest::Get(Property::Format),
];

const PICTURE: [DeviceRequest; 4] =
    [DeviceRequest::Grab, DeviceRequest::Retrieve, DeviceRequest::Measure, DeviceRequest::Copy];

fn opened(fourcc: i64, width: Reading, height: Reading) -> Camera<&'static str> {
    let (mut camera, mut session) = Camera::open(DeviceConnectionType::ByPath("/dev/video0"));
    let (asked, progress) = converse(&mut camera, &mut session, device(fourcc, width, height));
    assert_eq!(asked[..2], [DeviceRequest::Open, DeviceRequest::Verify]);
    assert_eq!(asked[2..], READS);
    assert!(matches!(progress, Progress::Finished));
    assert!(!session.is_pending());
    camera
}

#[test]
fn device_is_made_to_give_jpegs_once() {
    let mut camera = opened(0x5956_5955, whole(640), whole(480));
    let mut session = camera.take_jpeg(MJPG);
    let ready = device(i64::from(MJPG), whole(800), whole(600));
    let (asked, progress) = converse(&mut camera, &mut session, &ready);
    assert_eq!(
        asked[..3],
        [
            DeviceRequest::Assign(Property::ConvertRGB, 0),
            DeviceRequest::Assign(Property::BufferSize, 1),
            DeviceRequest::Assign(Property::FourCC, MJPG),
        ]
    );
    assert_eq!(asked[3..10], READS);
    assert_eq!(asked[10..], PICTURE);
    assert!(matches!(progress, Progress::Picture(data) if data == [0xff, 0xd8, 0xff]));
    assert_eq!(camera.dimensions(), Ok((800, 600)));
    let mut session = camera.take_jpeg(MJPG);
    let (asked, _) = converse(&mut camera, &mut session, &ready);
    assert_eq!(asked, PICTURE);
}

#[test]
fn device_that_refuses_is_asked_again() {
    let mut camera = opened(7, whole(640), whole(480));
    let stubborn = device(7, whole(640), whole(480));
    for _ in 0..2 {
        let mut session = camera.take_jpeg(MJPG);
        let (asked, _) = converse(&mut camera, &mut session, &stubborn);
        assert_eq!(asked.len(), 14);
    }
}

#[test]
fn device_without_code_counts_as_code_zero() {
    let (camera, _) = Camera::open(DeviceConnectionType::ByPath("/dev/video0"));
    assert!(matches!(camera.connection(), DeviceConnectionType::ByPath("/dev/video0")));
    assert_eq!(camera.take_jpeg(MJPG).request(), DeviceRequest::Assign(Property::ConvertRGB, 0));
    assert_eq!(camera.take_jpeg(0).request(), DeviceRequest::Grab);
}

#[test]
fn code_has_to_be_whole() {
    let (mut camera, mut session) = Camera::open(DeviceConnectionType::ByPath("x"));
    let answer = |request| match request {
        DeviceRequest::Get(Property::FourCC) => {
            DeviceReply::Value(Reading { floor: i64::from(MJPG), fractional: true })
        }
        other => device(0, whole(2), whole(2))(other),
    };
    converse(&mut camera, &mut session, answer);
    assert_eq!(camera.take_jpeg(MJPG).request(), DeviceRequest::Assign(Property::ConvertRGB, 0));
}

/// How a session ends if one question gets another answer.
fn end_with(bad: DeviceRequest, reply: fn() -> DeviceReply) -> Progress {
    let (mut camera, mut session) = Camera::open(DeviceConnectionType::ByPath("x"));
    let answer = |request| {
        if request == bad {
            reply()
        } else {
            device(0, whole(2), whole(2))(request)
        }
    };
    let (_, progress) = converse(&mut camera, &mut session, answer);
    if !matches!(progress, Progress::Finished) {
        return progress;
    }
    let mut session = camera.take_jpeg(MJPG);
    converse(&mut camera, &mut session, answer).1
}

#[test]
fn every_failure_has_its_error() {
    let failed = || DeviceReply::Failed;
    let no = || DeviceReply::Answer(false);
    let cases: [(DeviceRequest, fn() -> DeviceReply, CameraError); 10] = [
        (DeviceRequest::Open, failed, CameraError::Open),
        (DeviceRequest::Verify, failed, CameraError::Verify),
        (DeviceRequest::Verify, no, CameraError::Unavailable),
        (DeviceRequest::Get(Property::Fps), failed, CameraError::Read(Property::Fps)),
        (DeviceRequest::Assign(Property::BufferSize, 1), failed, CameraError::Configure),
        (DeviceRequest::Grab, failed, CameraError::Grab),
        (DeviceRequest::Grab, no, CameraError::Grab),
        (DeviceRequest::Retrieve, failed, CameraError::Pull),
        (DeviceRequest::Retrieve, no, CameraError::Retrieve),
        (DeviceRequest::Copy, failed, CameraError::Copy),
    ];
    for (request, reply, error) in cases {
        assert!(matches!(end_with(request, reply), Progress::Failed(found) if found == error));
    }
    let unset = end_with(DeviceRequest::Assign(Property::BufferSize, 1), no);
    assert!(matches!(unset, Progress::Picture(_)));
}

#[test]
fn frame_has_the_dimensions_of_the_device() {
    let camera = opened(0, whole(640), Reading { floor: 480, fractional: true });
    let frame = camera.take_jpeg_frame(vec![1, 2, 3], Moment { nanos: 77 }).unwrap();
    assert_eq!(frame.dimensions, (640, 480));
    assert_eq!(frame.timestamp, Moment { nanos: 77 });
    assert_eq!(frame.data, vec![1, 2, 3]);
    assert_eq!(frame.len(), 3);
    assert!(!frame.is_empty());
}

#[test]
fn dimensions_have_bounds() {
    assert_eq!(opened(0, whole(65_535), whole(0)).dimensions(), Ok((65_535, 0)));
    let wide = Reading { floor: 65_535, fractional: true };
    assert_eq!(opened(0, wide, whole(-1)).dimensions(), Err(CameraError::WidthBounds));
    assert_eq!(opened(0, whole(65_536), whole(1)).dimensions(), Err(CameraError::WidthBounds));
    assert_eq!(opened(0, whole(-1), whole(1)).dimensions(), Err(CameraError::WidthBounds));
    assert_eq!(opened(0, whole(1), wide).dimensions(), Err(CameraError::HeightBounds));
    let below = Reading { floor: -1, fractional: true };
    assert_eq!(opened(0, whole(1), below).dimensions(), Err(CameraError::HeightBounds));
}

#[test]
fn dimensions_may_be_missing() {
    let (mut camera, mut session) = Camera::open(DeviceConnectionType::ByPath("x"));
    assert_eq!(camera.dimensions(), Err(CameraError::MissingWidth));
    let answer = |request| match request {
        DeviceRequest::Get(Property::Height) => DeviceReply::Failed,
        other => device(0, whole(2), whole(2))(other),
    };
    converse(&mut camera, &mut session, answer);
    assert_eq!(camera.dimensions(), Err(CameraError::MissingHeight));
    let frame = camera.take_jpeg_frame(Vec::new(), Moment { nanos: 0 });
    assert_eq!(frame.map(|frame| frame.dimensions), Err(CameraError::MissingHeight));
}

#[test]
fn empty_frame_is_empty() {
    let frame = JpegFrame { timestamp: Moment { nanos: 0 }, data: Vec::new(), dimensions: (1, 1) };
    assert_eq!(frame.len(), 0);
    assert!(frame.is_empty());
}

#[test]
fn properties_have_numbers() {
    let known = [
        (Property::Width, 3),
        (Property::Height, 4),
        (Property::Fps, 5),
        (Property::FourCC, 6),
        (Property::Format, 8),
        (Property::ConvertRGB, 16),
        (Property::BufferSize, 38),
        (Property::Unknown(7), 7),
        (Property::Unknown(-1), -1),
    ];
    for (property, id) in known {
        assert_eq!(i32::from(property), id);
        assert_eq!(Property::from(id), property);
    }
    assert_eq!(i32::from(Property::Unknown(3)), 3);
}

#[test]
fn camera_runs_until_it_is_told_otherwise() {
    assert_eq!(first_action(), CameraAction::Wait);
    let next = |event: CameraEvent| next_action(&event);
    assert_eq!(next(CameraEvent::Received(None)), CameraAction::Fail);
    assert_eq!(next(CameraEvent::Received(Some(CameraControl::NetworkReady))), CameraAction::Poll);
    assert_eq!(next(CameraEvent::Received(Some(CameraControl::Terminate))), CameraAction::Finish);
    assert_eq!(next(CameraEvent::Polled(Polled::Empty)), CameraAction::Capture);
    assert_eq!(next(CameraEvent::Polled(Polled::Closed)), CameraAction::Finish);
    let ready = Polled::Message(CameraControl::NetworkReady);
    assert_eq!(next(CameraEvent::Polled(ready)), CameraAction::Capture);
    let terminate = Polled::Message(CameraControl::Terminate);
    assert_eq!(next(CameraEvent::Polled(terminate)), CameraAction::Finish);
    assert_eq!(next(CameraEvent::Sent), CameraAction::Poll);
    assert_eq!(next(CameraEvent::Failed), CameraAction::Fail);
}

#[test]
fn file_is_only_replaced_on_request() {
    assert_eq!(plan_capture(true, true), CapturePlan::Replace);
    assert_eq!(plan_capture(false, true), CapturePlan::Refuse);
    assert_eq!(plan_capture(true, false), CapturePlan::Create);
    assert_eq!(plan_capture(false, false), CapturePlan::Create);
    assert_eq!(
        refusal("a.jpg"),
        "'a.jpg' appears to exist. Capturing can automatically overwrite the specified file via the --overwrite flag"
    );
}

#[test]
fn both_threads_are_waited_for() {
    assert_eq!(supervise(), Supervision::Wait(0));
    assert_eq!(after_wait(0, true), Supervision::Wait(1));
    assert_eq!(after_wait(1, true), Supervision::Complete);
    assert_eq!(after_wait(0, false), Supervision::Lost);
    assert_eq!(after_wait(1, false), Supervision::Lost);
}
