//! The camera: what is asked of the video device, in which order, and what comes of the answers.
//!
//! The device itself is not here. A [`Session`] says what to ask next; whoever has the device asks it, and
//! hands the answer back.
use crate::clock::Moment;
use std::collections::BTreeMap;
use vstd::prelude::*;

verus! {

/// A picture taken by the camera.
#[derive(Debug)]
pub struct JpegFrame {
    /// When it was taken.
    pub timestamp: Moment,
    /// The picture, as a JPEG.
    pub data: Vec<u8>,
    /// The width and the height of the picture, as the device last gave them.
    pub dimensions: (u16, u16),
}

impl JpegFrame {
    /// The size of the JPEG, in bytes.
    pub fn len(&self) -> (length: usize)
        ensures
            length == self.data@.len(),
    {
        self.data.len()
    }

    /// Is the JPEG empty?
    pub fn is_empty(&self) -> (empty: bool)
        ensures
            empty == (self.data@.len() == 0),
    {
        self.data.len() == 0
    }
}

/// How to find a video device.
#[derive(Debug)]
pub enum DeviceConnectionType<P> {
    /// By the path of a file.
    ByPath(P),
}

/// `CAP_PROP_FRAME_WIDTH`
pub const FRAME_WIDTH_ID: i32 = 3;

/// `CAP_PROP_FRAME_HEIGHT`
pub const FRAME_HEIGHT_ID: i32 = 4;

/// `CAP_PROP_FPS`
pub const FPS_ID: i32 = 5;

/// `CAP_PROP_FOURCC`
pub const FOURCC_ID: i32 = 6;

/// `CAP_PROP_FORMAT`
pub const FORMAT_ID: i32 = 8;

/// `CAP_PROP_CONVERT_RGB`
pub const CONVERT_RGB_ID: i32 = 16;

/// `CAP_PROP_BUFFERSIZE`
pub const BUFFER_SIZE_ID: i32 = 38;

/// A property of a video device.
#[derive(Debug, Hash, PartialEq, Eq, Clone, Copy, PartialOrd, Ord, Structural)]
pub enum Property {
    /// `CAP_PROP_FOURCC`
    FourCC,
    /// `CAP_PROP_FORMAT`
    Format,
    /// `CAP_PROP_FPS`
    Fps,
    /// `CAP_PROP_CONVERT_RGB`
    ConvertRGB,
    /// `CAP_PROP_BUFFERSIZE`
    BufferSize,
    /// `CAP_PROP_FRAME_WIDTH`
    Width,
    /// `CAP_PROP_FRAME_HEIGHT`
    Height,
    /// Another one.
    Unknown(i32),
}

/// The number of a property.
pub open spec fn property_id(property: Property) -> i32 {
    match property {
        Property::FourCC => FOURCC_ID,
        Property::Fps => FPS_ID,
        Property::Width => FRAME_WIDTH_ID,
        Property::Height => FRAME_HEIGHT_ID,
        Property::Format => FORMAT_ID,
        Property::BufferSize => BUFFER_SIZE_ID,
        Property::ConvertRGB => CONVERT_RGB_ID,
        Property::Unknown(id) => id,
    }
}

/// The property with a number.
pub open spec fn property_of(id: i32) -> Property {
    if id == FOURCC_ID {
        Property::FourCC
    } else if id == FORMAT_ID {
        Property::Format
    } else if id == FPS_ID {
        Property::Fps
    } else if id == FRAME_WIDTH_ID {
        Property::Width
    } else if id == FRAME_HEIGHT_ID {
        Property::Height
    } else if id == CONVERT_RGB_ID {
        Property::ConvertRGB
    } else if id == BUFFER_SIZE_ID {
        Property::BufferSize
    } else {
        Property::Unknown(id)
    }
}

impl From<Property> for i32 {
    /// The number of a property.
    fn from(val: Property) -> (id: i32) {
        match val {
            Property::FourCC => FOURCC_ID,
            Property::Fps => FPS_ID,
            Property::Width => FRAME_WIDTH_ID,
            Property::Height => FRAME_HEIGHT_ID,
            Property::Format => FORMAT_ID,
            Property::BufferSize => BUFFER_SIZE_ID,
            Property::ConvertRGB => CONVERT_RGB_ID,
            Property::Unknown(id) => id,
        }
    }
}

impl vstd::std_specs::convert::FromSpecImpl<Property> for i32 {
    open spec fn obeys_from_spec() -> bool {
        true
    }

    open spec fn from_spec(val: Property) -> i32 {
        property_id(val)
    }
}

impl From<i32> for Property {
    /// The property with a number.
    fn from(input: i32) -> (property: Property) {
        match input {
            FOURCC_ID => Property::FourCC,
            FORMAT_ID => Property::Format,
            FPS_ID => Property::Fps,
            FRAME_WIDTH_ID => Property::Width,
            FRAME_HEIGHT_ID => Property::Height,
            CONVERT_RGB_ID => Property::ConvertRGB,
            BUFFER_SIZE_ID => Property::BufferSize,
            other => Property::Unknown(other),
        }
    }
}

impl vstd::std_specs::convert::FromSpecImpl<i32> for Property {
    open spec fn obeys_from_spec() -> bool {
        true
    }

    open spec fn from_spec(input: i32) -> Property {
        property_of(input)
    }
}

/// Every number is the number of its property.
pub proof fn law_id_of_property(id: i32)
    ensures
        property_id(property_of(id)) == id,
{
}

/// Every property is the one with its number, unless it is said to be unknown and has the number of one that
/// is known.
pub proof fn law_property_of_id(property: Property)
    requires
        property matches Property::Unknown(id) ==> property_of(id) == property,
    ensures
        property_of(property_id(property)) == property,
{
}

/// The value of a property. Devices give floating-point numbers; this is what matters of one.
#[derive(Clone, Copy, Debug, PartialEq, Eq, Structural)]
pub struct Reading {
    /// The largest whole number that is not above it.
    pub floor: i64,
    /// Is it more than that?
    pub fractional: bool,
}

/// What the video device is asked.
#[derive(Clone, Copy, Debug, PartialEq, Eq, Structural)]
pub enum DeviceRequest {
    /// To be opened.
    Open,
    /// Whether it is open.
    Verify,
    /// The value of a property.
    Get(Property),
    /// To give a property another value.
    Assign(Property, i32),
    /// To get a picture ready.
    Grab,
    /// To hand the picture over.
    Retrieve,
    /// How large the picture is.
    Measure,
    /// The bytes of the picture.
    Copy,
}

/// What the video device answers.
#[derive(Debug)]
pub enum DeviceReply {
    /// Something went wrong.
    Failed,
    /// It is done.
    Done,
    /// Yes or no.
    Answer(bool),
    /// The value of a property.
    Value(Reading),
    /// The rows and columns of a picture.
    Size(i32, i32),
    /// The bytes of a picture.
    Data(Vec<u8>),
}

/// Why there is no picture.
#[derive(Clone, Copy, Debug, PartialEq, Eq, Structural)]
pub enum CameraError {
    /// The device could not be opened.
    Open,
    /// The device does not say whether it is open.
    Verify,
    /// The device is not there.
    Unavailable,
    /// A property could not be read.
    Read(Property),
    /// A property could not be set.
    Configure,
    /// The device has no picture ready.
    Grab,
    /// The picture could not be pulled from the device.
    Pull,
    /// The device did not hand the picture over.
    Retrieve,
    /// The bytes of the picture could not be copied.
    Copy,
    /// The device has no width.
    MissingWidth,
    /// The device has no height.
    MissingHeight,
    /// The width of the device is out of bounds.
    WidthBounds,
    /// The height of the device is out of bounds.
    HeightBounds,
}

/// Can this be the answer to that? The rows and columns of a picture are such that it is not empty, and that
/// a number can hold how many places there are.
pub open spec fn answers(reply: DeviceReply, request: DeviceRequest) -> bool {
    match request {
        DeviceRequest::Open => reply is Done || reply is Failed,
        DeviceRequest::Verify => reply is Answer || reply is Failed,
        DeviceRequest::Get(_) => reply is Value || reply is Failed,
        DeviceRequest::Assign(_, _) => reply is Answer || reply is Failed,
        DeviceRequest::Grab => reply is Answer || reply is Failed,
        DeviceRequest::Retrieve => reply is Answer || reply is Failed,
        DeviceRequest::Measure => reply matches DeviceReply::Size(rows, columns) && 0 < rows * columns
            <= i32::MAX,
        DeviceRequest::Copy => reply is Data || reply is Failed,
    }
}

/// What goes wrong with an answer, if anything does. Whether a property could be set only shows in a failure:
/// a device that says no is taken at its word later, when the property is read.
pub open spec fn fault(reply: DeviceReply, request: DeviceRequest) -> Option<CameraError> {
    match (request, reply) {
        (DeviceRequest::Open, DeviceReply::Failed) => Some(CameraError::Open),
        (DeviceRequest::Verify, DeviceReply::Failed) => Some(CameraError::Verify),
        (DeviceRequest::Verify, DeviceReply::Answer(false)) => Some(CameraError::Unavailable),
        (DeviceRequest::Get(property), DeviceReply::Failed) => Some(CameraError::Read(property)),
        (DeviceRequest::Assign(_, _), DeviceReply::Failed) => Some(CameraError::Configure),
        (DeviceRequest::Grab, DeviceReply::Failed) => Some(CameraError::Grab),
        (DeviceRequest::Grab, DeviceReply::Answer(false)) => Some(CameraError::Grab),
        (DeviceRequest::Retrieve, DeviceReply::Failed) => Some(CameraError::Pull),
        (DeviceRequest::Retrieve, DeviceReply::Answer(false)) => Some(CameraError::Retrieve),
        (DeviceRequest::Copy, DeviceReply::Failed) => Some(CameraError::Copy),
        _ => None,
    }
}

/// The properties that are read, in order.
pub open spec fn read_requests() -> Seq<DeviceRequest> {
    seq![
        DeviceRequest::Get(Property::FourCC),
        DeviceRequest::Get(Property::Width),
        DeviceRequest::Get(Property::Height),
        DeviceRequest::Get(Property::BufferSize),
        DeviceRequest::Get(Property::ConvertRGB),
        DeviceRequest::Get(Property::Fps),
        DeviceRequest::Get(Property::Format),
    ]
}

/// What is asked to open a device.
pub open spec fn open_requests() -> Seq<DeviceRequest> {
    seq![DeviceRequest::Open, DeviceRequest::Verify] + read_requests()
}

/// What is asked to make a device give JPEGs, whose code is `fourcc`.
pub open spec fn configure_requests(fourcc: i32) -> Seq<DeviceRequest> {
    seq![
        DeviceRequest::Assign(Property::ConvertRGB, 0),
        DeviceRequest::Assign(Property::BufferSize, 1),
        DeviceRequest::Assign(Property::FourCC, fourcc),
    ] + read_requests()
}

/// What is asked to take a picture.
pub open spec fn picture_requests() -> Seq<DeviceRequest> {
    seq![DeviceRequest::Grab, DeviceRequest::Retrieve, DeviceRequest::Measure, DeviceRequest::Copy]
}

/// The values of properties, by their numbers.
pub type Readings = Map<i32, Reading>;

/// Does the device give JPEGs, going by its properties? One that has never said what it gives does not.
pub open spec fn gives_jpeg(properties: Readings, fourcc: i32) -> bool {
    let current = if properties.dom().contains(FOURCC_ID) {
        properties[FOURCC_ID]
    } else {
        Reading { floor: 0, fractional: false }
    };
    current.floor == fourcc && !current.fractional
}

/// What is asked to take a JPEG.
pub open spec fn jpeg_requests(properties: Readings, fourcc: i32) -> Seq<DeviceRequest> {
    if gives_jpeg(properties, fourcc) {
        picture_requests()
    } else {
        configure_requests(fourcc) + picture_requests()
    }
}

/// Is a width or height out of bounds?
pub open spec fn out_of_bounds(reading: Reading) -> bool {
    reading.floor < 0 || reading.floor > u16::MAX || reading.floor == u16::MAX && reading.fractional
}

/// The width and height of pictures, going by the properties.
pub open spec fn dimensions_of(properties: Readings) -> Result<(u16, u16), CameraError> {
    if !properties.dom().contains(FRAME_WIDTH_ID) {
        Err(CameraError::MissingWidth)
    } else if !properties.dom().contains(FRAME_HEIGHT_ID) {
        Err(CameraError::MissingHeight)
    } else if out_of_bounds(properties[FRAME_WIDTH_ID]) {
        Err(CameraError::WidthBounds)
    } else if out_of_bounds(properties[FRAME_HEIGHT_ID]) {
        Err(CameraError::HeightBounds)
    } else {
        Ok((properties[FRAME_WIDTH_ID].floor as u16, properties[FRAME_HEIGHT_ID].floor as u16))
    }
}

/// What is known of a video device.
#[derive(Debug)]
pub struct Camera<P> {
    /// How it was found.
    connection: DeviceConnectionType<P>,
    /// The properties, as they were last read.
    properties: BTreeMap<i32, Reading>,
}

/// A [`Camera`], over mathematical values.
#[verifier::ext_equal]
pub struct CameraView<P> {
    pub connection: DeviceConnectionType<P>,
    pub properties: Readings,
}

impl<P> View for Camera<P> {
    type V = CameraView<P>;

    closed spec fn view(&self) -> CameraView<P> {
        CameraView { connection: self.connection, properties: self.properties@ }
    }
}

/// Some questions to a video device, one after the other.
#[derive(Debug)]
pub struct Session {
    /// The questions.
    requests: Vec<DeviceRequest>,
    /// How many of them have been answered.
    answered: usize,
}

impl View for Session {
    type V = (Seq<DeviceRequest>, nat);

    closed spec fn view(&self) -> (Seq<DeviceRequest>, nat) {
        (self.requests@, self.answered as nat)
    }
}

/// What comes of an answer.
#[derive(Debug)]
pub enum Progress {
    /// The next question is to be asked.
    Ask(DeviceRequest),
    /// There are no more questions.
    Finished,
    /// There are no more questions, and this is the picture.
    Picture(Vec<u8>),
    /// There is no use in going on.
    Failed(CameraError),
}

/// Is there a question that has not been answered?
pub open spec fn pending(session: (Seq<DeviceRequest>, nat)) -> bool {
    session.1 < session.0.len()
}

/// The properties after an answer.
pub open spec fn learned(properties: Readings, request: DeviceRequest, reply: DeviceReply) -> Readings {
    match (request, reply) {
        (DeviceRequest::Get(property), DeviceReply::Value(value)) => properties.insert(
            property_id(property),
            value,
        ),
        _ => properties,
    }
}

/// Is this what comes of an answer?
pub open spec fn proceeds(session: (Seq<DeviceRequest>, nat), reply: DeviceReply, progress: Progress) -> bool {
    let request = session.0[session.1 as int];
    match fault(reply, request) {
        Some(error) => progress == Progress::Failed(error),
        None => if session.1 + 1 < session.0.len() {
            progress == Progress::Ask(session.0[(session.1 + 1) as int])
        } else {
            match reply {
                DeviceReply::Data(data) => progress matches Progress::Picture(picture) && picture@ == data@,
                _ => progress is Finished,
            }
        },
    }
}

/// Appends the properties that are read, in order.
fn push_reads(requests: &mut Vec<DeviceRequest>)
    ensures
        final(requests)@ == old(requests)@ + read_requests(),
{
    requests.push(DeviceRequest::Get(Property::FourCC));
    requests.push(DeviceRequest::Get(Property::Width));
    requests.push(DeviceRequest::Get(Property::Height));
    requests.push(DeviceRequest::Get(Property::BufferSize));
    requests.push(DeviceRequest::Get(Property::ConvertRGB));
    requests.push(DeviceRequest::Get(Property::Fps));
    requests.push(DeviceRequest::Get(Property::Format));
    assert(requests@ =~= old(requests)@ + read_requests());
}

/// What goes wrong with an answer, if anything does.
fn find_fault(reply: &DeviceReply, request: DeviceRequest) -> (found: Option<CameraError>)
    ensures
        found == fault(*reply, request),
{
    match (request, reply) {
        (DeviceRequest::Open, DeviceReply::Failed) => Some(CameraError::Open),
        (DeviceRequest::Verify, DeviceReply::Failed) => Some(CameraError::Verify),
        (DeviceRequest::Verify, DeviceReply::Answer(false)) => Some(CameraError::Unavailable),
        (DeviceRequest::Get(property), DeviceReply::Failed) => Some(CameraError::Read(property)),
        (DeviceRequest::Assign(_, _), DeviceReply::Failed) => Some(CameraError::Configure),
        (DeviceRequest::Grab, DeviceReply::Failed) => Some(CameraError::Grab),
        (DeviceRequest::Grab, DeviceReply::Answer(false)) => Some(CameraError::Grab),
        (DeviceRequest::Retrieve, DeviceReply::Failed) => Some(CameraError::Pull),
        (DeviceRequest::Retrieve, DeviceReply::Answer(false)) => Some(CameraError::Retrieve),
        (DeviceRequest::Copy, DeviceReply::Failed) => Some(CameraError::Copy),
        _ => None,
    }
}

impl Session {
    /// The question that is to be answered next.
    pub fn request(&self) -> (request: DeviceRequest)
        requires
            pending(self@),
        ensures
            request == self@.0[self@.1 as int],
    {
        self.requests[self.answered]
    }

    /// Have all questions been answered?
    pub fn is_pending(&self) -> (more: bool)
        ensures
            more == pending(self@),
    {
        self.answered < self.requests.len()
    }
}

impl<P> Camera<P> {
    /// A device of which nothing is known yet, and what to ask to open it.
    pub fn open(connection: DeviceConnectionType<P>) -> (opened: (Camera<P>, Session))
        ensures
            opened.0@ == (CameraView { connection, properties: Map::empty() }),
            opened.1@ == (open_requests(), 0nat),
    {
        let mut requests: Vec<DeviceRequest> = vec![DeviceRequest::Open, DeviceRequest::Verify];
        push_reads(&mut requests);
        (Camera { connection, properties: BTreeMap::new() }, Session { requests, answered: 0 })
    }

    /// How the device was found.
    pub fn connection(&self) -> (connection: &DeviceConnectionType<P>)
        ensures
            *connection == self@.connection,
    {
        &self.connection
    }

    /// What to ask to take a JPEG. `fourcc` is the code of JPEGs. A device that does not give JPEGs yet is
    /// made to.
    pub fn take_jpeg(&self, fourcc: i32) -> (session: Session)
        ensures
            session@ == (jpeg_requests(self@.properties, fourcc), 0nat),
    {
        broadcast use vstd::std_specs::btree::group_btree_axioms;

        let current = match self.properties.get(&FOURCC_ID) {
            Some(reading) => *reading,
            None => Reading { floor: 0, fractional: false },
        };
        let mut requests: Vec<DeviceRequest> = Vec::new();
        if current.floor != fourcc as i64 || current.fractional {
            requests.push(DeviceRequest::Assign(Property::ConvertRGB, 0));
            requests.push(DeviceRequest::Assign(Property::BufferSize, 1));
            requests.push(DeviceRequest::Assign(Property::FourCC, fourcc));
            push_reads(&mut requests);
        }
        requests.push(DeviceRequest::Grab);
        requests.push(DeviceRequest::Retrieve);
        requests.push(DeviceRequest::Measure);
        requests.push(DeviceRequest::Copy);
        assert(requests@ =~= jpeg_requests(self@.properties, fourcc));
        Session { requests, answered: 0 }
    }

    /// Takes an answer of the device. Values of properties are remembered.
    pub fn resume(&mut self, session: &mut Session, reply: DeviceReply) -> (progress: Progress)
        requires
            pending(old(session)@),
            answers(reply, old(session)@.0[old(session)@.1 as int]),
        ensures
            proceeds(old(session)@, reply, progress),
            final(session)@ == (old(session)@.0, old(session)@.1 + 1),
            final(self)@ == (CameraView {
                properties: learned(
                    old(self)@.properties,
                    old(session)@.0[old(session)@.1 as int],
                    reply,
                ),
                ..old(self)@
            }),
    {
        broadcast use vstd::std_specs::btree::group_btree_axioms;

        let request = session.request();
        assert(session.answered < session.requests.len());
        session.answered = session.answered + 1;
        if let Some(error) = find_fault(&reply, request) {
            return Progress::Failed(error);
        }
        if let DeviceRequest::Get(property) = request {
            if let DeviceReply::Value(value) = &reply {
                self.properties.insert(i32::from(property), *value);
            }
        }
        if session.is_pending() {
            return Progress::Ask(session.request());
        }
        match reply {
            DeviceReply::Data(data) => Progress::Picture(data),
            _ => Progress::Finished,
        }
    }

    /// The width and height of pictures, going by the properties.
    pub fn dimensions(&self) -> (found: Result<(u16, u16), CameraError>)
        ensures
            found == dimensions_of(self@.properties),
    {
        broadcast use vstd::std_specs::btree::group_btree_axioms;

        let width = match self.properties.get(&FRAME_WIDTH_ID) {
            Some(width) => *width,
            None => {
                return Err(CameraError::MissingWidth);
            },
        };
        let height = match self.properties.get(&FRAME_HEIGHT_ID) {
            Some(height) => *height,
            None => {
                return Err(CameraError::MissingHeight);
            },
        };
        if width.floor < 0 || width.floor > 0xffff || width.floor == 0xffff && width.fractional {
            return Err(CameraError::WidthBounds);
        }
        if height.floor < 0 || height.floor > 0xffff || height.floor == 0xffff && height.fractional {
            return Err(CameraError::HeightBounds);
        }
        Ok((width.floor as u16, height.floor as u16))
    }

    /// The frame with a picture, taken at a time, and the width and height that the device last gave.
    pub fn take_jpeg_frame(&self, data: Vec<u8>, timestamp: Moment) -> (frame: Result<JpegFrame, CameraError>)
        ensures
            frame == (match dimensions_of(self@.properties) {
                Ok(dimensions) => Ok::<JpegFrame, CameraError>(JpegFrame { timestamp, data, dimensions }),
                Err(error) => Err::<JpegFrame, CameraError>(error),
            }),
    {
        match self.dimensions() {
            Ok(dimensions) => Ok(JpegFrame { timestamp, data, dimensions }),
            Err(error) => Err(error),
        }
    }
}

/// The properties after some answers.
pub open spec fn learned_all(
    properties: Readings,
    requests: Seq<DeviceRequest>,
    replies: Seq<DeviceReply>,
) -> Readings
    decreases requests.len(),
{
    if requests.len() == 0 {
        properties
    } else {
        learned(
            learned_all(properties, requests.drop_last(), replies.drop_last()),
            requests.last(),
            replies.last(),
        )
    }
}

/// Are these answers to those questions, and does nothing go wrong with any of them?
pub open spec fn all_well(requests: Seq<DeviceRequest>, replies: Seq<DeviceReply>) -> bool {
    &&& replies.len() == requests.len()
    &&& forall|i: int|
        #![trigger replies[i]]
        0 <= i < requests.len() ==> answers(replies[i], requests[i]) && fault(replies[i], requests[i]) is None
}

/// Reading all properties, after some other questions, tells the value of each.
proof fn lemma_reads(properties: Readings, before: Seq<DeviceRequest>, replies: Seq<DeviceReply>)
    requires
        all_well(before + read_requests(), replies),
    ensures
        ({
            let known = learned_all(properties, before + read_requests(), replies);
            let n = before.len() as int;
            &&& known.dom().contains(FOURCC_ID) && known[FOURCC_ID] == replies[n]->Value_0
            &&& known.dom().contains(FRAME_WIDTH_ID) && known[FRAME_WIDTH_ID] == replies[n + 1]->Value_0
            &&& known.dom().contains(FRAME_HEIGHT_ID) && known[FRAME_HEIGHT_ID] == replies[n + 2]->Value_0
            &&& known.dom().contains(BUFFER_SIZE_ID) && known[BUFFER_SIZE_ID] == replies[n + 3]->Value_0
            &&& known.dom().contains(CONVERT_RGB_ID) && known[CONVERT_RGB_ID] == replies[n + 4]->Value_0
            &&& known.dom().contains(FPS_ID) && known[FPS_ID] == replies[n + 5]->Value_0
            &&& known.dom().contains(FORMAT_ID) && known[FORMAT_ID] == replies[n + 6]->Value_0
        }),
{
    let requests = before + read_requests();
    let n = before.len() as int;
    assert forall|i: int| 0 <= i < 7 implies {
        &&& requests[n + i] == read_requests()[i]
        &&& #[trigger] replies[n + i] is Value
    } by {
        assert(requests[n + i] == read_requests()[i]);
        assert(answers(replies[n + i], requests[n + i]));
    }
    let r7 = requests;
    let p7 = replies;
    let r6 = r7.drop_last();
    let p6 = p7.drop_last();
    let r5 = r6.drop_last();
    let p5 = p6.drop_last();
    let r4 = r5.drop_last();
    let p4 = p5.drop_last();
    let r3 = r4.drop_last();
    let p3 = p4.drop_last();
    let r2 = r3.drop_last();
    let p2 = p3.drop_last();
    let r1 = r2.drop_last();
    let p1 = p2.drop_last();
    assert(replies[n + 0] is Value && replies[n + 1] is Value && replies[n + 2] is Value);
    assert(replies[n + 3] is Value && replies[n + 4] is Value && replies[n + 5] is Value);
    assert(replies[n + 6] is Value);
    let k1 = learned_all(properties, r1, p1);
    assert(k1.dom().contains(FOURCC_ID) && k1[FOURCC_ID] == replies[n]->Value_0);
    let k2 = learned_all(properties, r2, p2);
    assert(k2 == k1.insert(FRAME_WIDTH_ID, replies[n + 1]->Value_0));
    let k3 = learned_all(properties, r3, p3);
    assert(k3 == k2.insert(FRAME_HEIGHT_ID, replies[n + 2]->Value_0));
    let k4 = learned_all(properties, r4, p4);
    assert(k4 == k3.insert(BUFFER_SIZE_ID, replies[n + 3]->Value_0));
    let k5 = learned_all(properties, r5, p5);
    assert(k5 == k4.insert(CONVERT_RGB_ID, replies[n + 4]->Value_0));
    let k6 = learned_all(properties, r6, p6);
    assert(k6 == k5.insert(FPS_ID, replies[n + 5]->Value_0));
    assert(learned_all(properties, r7, p7) == k6.insert(FORMAT_ID, replies[n + 6]->Value_0));
}

/// A device that has been opened has a width and a height: the frames that it gives have the dimensions that
/// it answered with, unless these are out of bounds.
pub proof fn law_open_device_has_dimensions(replies: Seq<DeviceReply>)
    requires
        all_well(open_requests(), replies),
    ensures
        ({
            let known = learned_all(Map::empty(), open_requests(), replies);
            let width = replies[3]->Value_0;
            let height = replies[4]->Value_0;
            dimensions_of(known) == (if out_of_bounds(width) {
                Err::<(u16, u16), CameraError>(CameraError::WidthBounds)
            } else if out_of_bounds(height) {
                Err::<(u16, u16), CameraError>(CameraError::HeightBounds)
            } else {
                Ok::<(u16, u16), CameraError>((width.floor as u16, height.floor as u16))
            })
        }),
{
    lemma_reads(Map::empty(), seq![DeviceRequest::Open, DeviceRequest::Verify], replies);
}

/// A device that has been made to give JPEGs, and says that it does, is not made to again: the next picture
/// is simply taken.
pub proof fn law_configured_once(properties: Readings, fourcc: i32, replies: Seq<DeviceReply>)
    requires
        all_well(configure_requests(fourcc), replies),
        replies[3] == DeviceReply::Value(Reading { floor: fourcc as i64, fractional: false }),
    ensures
        jpeg_requests(learned_all(properties, configure_requests(fourcc), replies), fourcc)
            == picture_requests(),
{
    lemma_reads(
        properties,
        seq![
            DeviceRequest::Assign(Property::ConvertRGB, 0),
            DeviceRequest::Assign(Property::BufferSize, 1),
            DeviceRequest::Assign(Property::FourCC, fourcc),
        ],
        replies,
    );
}

/// The number that the video library has for a property.
pub open spec fn library_number(property: Property) -> int {
    match property {
        Property::Width => 3,
        Property::Height => 4,
        Property::Fps => 5,
        Property::FourCC => 6,
        Property::Format => 8,
        Property::ConvertRGB => 16,
        Property::BufferSize => 38,
        Property::Unknown(id) => id as int,
    }
}

/// Properties are turned into the numbers of the video library, and back.
pub proof fn law_library_numbers(property: Property, id: i32, number: i32, found: Property)
    requires
        call_ensures(<i32 as From<Property>>::from, (property,), number),
        call_ensures(<Property as From<i32>>::from, (id,), found),
    ensures
        number == library_number(property),
        library_number(found) == id,
        found matches Property::Unknown(_) ==> !(3 <= id <= 6) && id != 8 && id != 16 && id != 38,
{
}

/// The questions about all properties.
pub open spec fn all_questions() -> Seq<DeviceRequest> {
    seq![
        DeviceRequest::Get(Property::FourCC),
        DeviceRequest::Get(Property::Width),
        DeviceRequest::Get(Property::Height),
        DeviceRequest::Get(Property::BufferSize),
        DeviceRequest::Get(Property::ConvertRGB),
        DeviceRequest::Get(Property::Fps),
        DeviceRequest::Get(Property::Format),
    ]
}

/// A device is opened, asked whether it is open, and asked for all its properties; nothing is known of it before.
pub proof fn law_opening<P>(connection: DeviceConnectionType<P>, opened: (Camera<P>, Session))
    requires
        call_ensures(Camera::<P>::open, (connection,), opened),
    ensures
        opened.0@.connection == connection,
        opened.0@.properties == Map::<i32, Reading>::empty(),
        opened.1@.0 == seq![DeviceRequest::Open, DeviceRequest::Verify] + all_questions(),
        opened.1@.1 == 0,
{
    assert(opened.1@.0 =~= seq![DeviceRequest::Open, DeviceRequest::Verify] + all_questions());
}

/// To take a JPEG, a picture is grabbed, retrieved, measured and copied, in this order. Unless the device has said
/// that it gives JPEGs, it is told before to leave colours alone, to keep one picture, and to give JPEGs, and is
/// then asked for all its properties.
pub proof fn law_taking<P>(camera: Camera<P>, fourcc: i32, session: Session)
    requires
        call_ensures(Camera::<P>::take_jpeg, (&camera, fourcc), session),
    ensures
        ({
            let known = camera@.properties;
            let ready = if known.dom().contains(6) {
                known[6].floor == fourcc && !known[6].fractional
            } else {
                fourcc == 0
            };
            let taken = seq![
                DeviceRequest::Grab,
                DeviceRequest::Retrieve,
                DeviceRequest::Measure,
                DeviceRequest::Copy,
            ];
            session@.0 == if ready {
                taken
            } else {
                seq![
                    DeviceRequest::Assign(Property::ConvertRGB, 0),
                    DeviceRequest::Assign(Property::BufferSize, 1),
                    DeviceRequest::Assign(Property::FourCC, fourcc),
                ] + all_questions() + taken
            }
        }),
        session@.1 == 0,
{
    assert(all_questions() =~= read_requests());
}

/// Does this answer mean that there is no use in going on? A device that fails at something does, and one that
/// says that it is not open, has no picture ready or does not hand it over; one that says that it did not take
/// a value does not.
pub open spec fn stops(request: DeviceRequest, reply: DeviceReply) -> bool {
    match reply {
        DeviceReply::Failed => !(request is Measure),
        DeviceReply::Answer(yes) => !yes && (request is Verify || request is Grab || request is Retrieve),
        _ => false,
    }
}

/// Each answer takes a session one question further. An answer that stops it says so, and why; else the next
/// question is asked, and behind the last one comes the picture, byte for byte as the device gave it. The value
/// of a property is remembered under its number, and nothing else changes.
pub proof fn law_each_answer<P>(
    before: Camera<P>,
    session: Session,
    reply: DeviceReply,
    progress: Progress,
    after: Camera<P>,
    next: Session,
)
    requires
        pending(session@),
        exists|camera: &mut Camera<P>, asked: &mut Session|
            *camera == before && *final(camera) == after && *asked == session && *final(asked) == next
                && #[trigger] call_ensures(Camera::<P>::resume, (camera, asked, reply), progress),
    ensures
        ({
            let (requests, answered) = session@;
            let request = requests[answered as int];
            &&& next@ == (requests, answered + 1)
            &&& after@.connection == before@.connection
            &&& stops(request, reply) ==> (progress matches Progress::Failed(error) && match request {
                DeviceRequest::Open => error == CameraError::Open,
                DeviceRequest::Verify => error == if reply is Failed {
                    CameraError::Verify
                } else {
                    CameraError::Unavailable
                },
                DeviceRequest::Get(property) => error == CameraError::Read(property),
                DeviceRequest::Assign(_, _) => error == CameraError::Configure,
                DeviceRequest::Grab => error == CameraError::Grab,
                DeviceRequest::Retrieve => error == if reply is Failed {
                    CameraError::Pull
                } else {
                    CameraError::Retrieve
                },
                DeviceRequest::Measure => true,
                DeviceRequest::Copy => error == CameraError::Copy,
            })
            &&& !stops(request, reply) && answered + 1 < requests.len() ==> progress == Progress::Ask(
                requests[(answered + 1) as int],
            )
            &&& !stops(request, reply) && answered + 1 == requests.len() ==> match reply {
                DeviceReply::Data(data) => progress matches Progress::Picture(picture) && {
                    &&& picture@.len() == data@.len()
                    &&& forall|i: int| 0 <= i < data@.len() ==> #[trigger] picture@[i] == data@[i]
                },
                _ => progress is Finished,
            }
            &&& match (request, reply) {
                (DeviceRequest::Get(property), DeviceReply::Value(value)) => {
                    let id = library_number(property) as i32;
                    &&& after@.properties.dom().contains(id) && after@.properties[id] == value
                    &&& forall|other: i32|
                        other != id ==> (#[trigger] after@.properties.dom().contains(other)
                            <==> before@.properties.dom().contains(other))
                    &&& forall|other: i32| other != id ==> #[trigger] after@.properties[other] == before@.properties[other]
                },
                _ => after@.properties == before@.properties,
            }
        }),
{
}

/// When a JPEG is taken, and the device neither fails at anything nor says no, each of the questions is asked in
/// turn, and what comes out in the end is the picture that the device gave, all of it and byte for byte.
pub proof fn law_picture_is_the_devices<P>(
    fourcc: i32,
    cameras: Seq<Camera<P>>,
    sessions: Seq<Session>,
    replies: Seq<DeviceReply>,
    progresses: Seq<Progress>,
    data: Vec<u8>,
)
    requires
        replies.len() > 0,
        cameras.len() == replies.len() + 1,
        sessions.len() == replies.len() + 1,
        progresses.len() == replies.len(),
        call_ensures(Camera::<P>::take_jpeg, (&cameras[0], fourcc), sessions[0]),
        replies.len() == sessions[0]@.0.len(),
        forall|i: int|
            #![trigger replies[i]]
            0 <= i < replies.len() ==> (exists|camera: &mut Camera<P>, asked: &mut Session|
                *camera == cameras[i] && *final(camera) == cameras[i + 1] && *asked == sessions[i] && *final(asked)
                    == sessions[i + 1] && #[trigger] call_ensures(
                    Camera::<P>::resume,
                    (camera, asked, replies[i]),
                    progresses[i],
                )),
        forall|i: int|
            0 <= i < replies.len() ==> !(#[trigger] replies[i] is Failed) && replies[i] != DeviceReply::Answer(false),
        replies.last() == DeviceReply::Data(data),
    ensures
        progresses.last() matches Progress::Picture(picture) && {
            &&& picture@.len() == data@.len()
            &&& forall|i: int| 0 <= i < data@.len() ==> #[trigger] picture@[i] == data@[i]
        },
        forall|i: int|
            0 <= i < replies.len() - 1 ==> #[trigger] progresses[i] == Progress::Ask(sessions[0]@.0[i + 1]),
        sessions[0]@.0.last() == DeviceRequest::Copy,
{
    law_taking(cameras[0], fourcc, sessions[0]);
    assert forall|i: int| 0 < i < sessions.len() implies (#[trigger] sessions[i])@ == (
        sessions[i - 1]@.0,
        sessions[i - 1]@.1 + 1,
    ) by {
        assert(!(replies[i - 1] is Failed));
        lemma_one_further(
            cameras[i - 1],
            sessions[i - 1],
            replies[i - 1],
            progresses[i - 1],
            cameras[i],
            sessions[i],
        );
    }
    let last = replies.len() - 1;
    lemma_asked_in_turn(sessions, last);
    assert(replies[last] == replies.last());
    law_each_answer(cameras[last], sessions[last], replies[last], progresses[last], cameras[last + 1], sessions[last + 1]);
    assert forall|i: int| 0 <= i < replies.len() - 1 implies #[trigger] progresses[i] == Progress::Ask(
        sessions[0]@.0[i + 1],
    ) by {
        assert(!(replies[i] is Failed));
        lemma_asked_in_turn(sessions, i);
        law_each_answer(cameras[i], sessions[i], replies[i], progresses[i], cameras[i + 1], sessions[i + 1]);
    }
}

/// One answer takes a session one question further.
proof fn lemma_one_further<P>(
    before: Camera<P>,
    session: Session,
    reply: DeviceReply,
    progress: Progress,
    after: Camera<P>,
    next: Session,
)
    requires
        exists|camera: &mut Camera<P>, asked: &mut Session|
            *camera == before && *final(camera) == after && *asked == session && *final(asked) == next
                && #[trigger] call_ensures(Camera::<P>::resume, (camera, asked, reply), progress),
    ensures
        next@ == (session@.0, session@.1 + 1),
{
}

/// A session goes through its questions one by one.
proof fn lemma_asked_in_turn(sessions: Seq<Session>, n: int)
    requires
        0 <= n < sessions.len(),
        sessions[0]@.1 == 0,
        forall|i: int|
            0 < i < sessions.len() ==> (#[trigger] sessions[i])@ == (
                sessions[i - 1]@.0,
                sessions[i - 1]@.1 + 1,
            ),
    ensures
        sessions[n]@ == (sessions[0]@.0, n as nat),
    decreases n,
{
    if n > 0 {
        lemma_asked_in_turn(sessions, n - 1);
        assert(sessions[n]@ == (sessions[n - 1]@.0, sessions[n - 1]@.1 + 1));
    }
}

/// The dimensions are the whole numbers below the width and the height that the device last gave, where both are
/// between 0 and 65535; else it is said which of them is missing or out of bounds, the width first.
pub proof fn law_dimensions<P>(camera: Camera<P>, found: Result<(u16, u16), CameraError>)
    requires
        call_ensures(Camera::<P>::dimensions, (&camera,), found),
    ensures
        ({
            let known = camera@.properties;
            let (width, height) = (known[3], known[4]);
            let wide = width.floor < 0 || width.floor > 65535 || (width.floor == 65535 && width.fractional);
            let high = height.floor < 0 || height.floor > 65535 || (height.floor == 65535 && height.fractional);
            match found {
                Ok((w, h)) => {
                    &&& known.dom().contains(3) && known.dom().contains(4)
                    &&& !wide && !high
                    &&& w == width.floor
                    &&& h == height.floor
                },
                Err(CameraError::MissingWidth) => !known.dom().contains(3),
                Err(CameraError::MissingHeight) => known.dom().contains(3) && !known.dom().contains(4),
                Err(CameraError::WidthBounds) => known.dom().contains(3) && known.dom().contains(4) && wide,
                Err(CameraError::HeightBounds) => known.dom().contains(3) && known.dom().contains(4) && !wide
                    && high,
                Err(_) => false,
            }
        }),
{
}

/// A frame is the picture, all of it, with the time at which it was taken, and the dimensions of the device. There
/// is one just where there are dimensions.
pub proof fn law_frame_is_the_picture<P>(
    camera: Camera<P>,
    data: Vec<u8>,
    timestamp: Moment,
    found: Result<(u16, u16), CameraError>,
    made: Result<JpegFrame, CameraError>,
    length: usize,
    empty: bool,
)
    requires
        call_ensures(Camera::<P>::dimensions, (&camera,), found),
        call_ensures(Camera::<P>::take_jpeg_frame, (&camera, data, timestamp), made),
        made matches Ok(frame) ==> call_ensures(JpegFrame::len, (&frame,), length),
        made matches Ok(frame) ==> call_ensures(JpegFrame::is_empty, (&frame,), empty),
    ensures
        match (found, made) {
            (Ok(dimensions), Ok(frame)) => {
                &&& frame.data@ == data@
                &&& frame.timestamp.nanos == timestamp.nanos
                &&& frame.dimensions == dimensions
                &&& length == data@.len()
                &&& empty <==> data@.len() == 0
            },
            (Err(error), Err(reason)) => error == reason,
            _ => false,
        },
{
}

/// A session tells the question that stands where its answers end, and whether there is one.
pub proof fn law_session(session: Session, request: DeviceRequest, more: bool)
    requires
        call_ensures(Session::is_pending, (&session,), more),
        more ==> call_ensures(Session::request, (&session,), request),
    ensures
        more <==> session@.1 < session@.0.len(),
        more ==> request == session@.0[session@.1 as int],
{
}

} // verus!
