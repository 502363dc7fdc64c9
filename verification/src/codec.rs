//! H.264: pixels in, a byte stream out.
use vstd::prelude::*;

verus! {

/// An encoder of the `openh264` library.
#[verifier::external_type_specification]
#[verifier::external_body]
pub struct ExEncoder(openh264::encoder::Encoder);

/// Why the encoder failed.
#[verifier::external_type_specification]
#[verifier::external_body]
pub struct ExEncoderError(openh264::Error);

/// What went into the encoder, and what came out.
#[verifier::ext_equal]
pub struct Exchange {
    /// The pixels of the picture: red, green and blue, line by line.
    pub pixels: Seq<u8>,
    /// The width and the height of the picture.
    pub dimensions: (u16, u16),
    /// The time since the start of the video, in milliseconds.
    pub millis: u64,
    /// The byte stream that came out, if one did.
    pub reply: Option<Seq<u8>>,
}

/// Can `openh264::encoder::Encoder::encode_at` answer like this, in some state of the encoder and on some
/// machine?
pub uninterp spec fn encoder_replies(
    pixels: Seq<u8>,
    dimensions: (u16, u16),
    millis: u64,
    reply: Option<Seq<u8>>,
) -> bool;

/// The byte stream of an encoded picture, if it was encoded.
pub open spec fn stream_of(encoded: Result<Vec<u8>, openh264::Error>) -> Option<Seq<u8>> {
    match encoded {
        Ok(stream) => Some(stream@),
        Err(_) => None,
    }
}

/// Does a picture have as many pixels as its dimensions say, and even dimensions?
pub open spec fn well_shaped(length: nat, dimensions: (u16, u16)) -> bool {
    &&& length == 3 * (dimensions.0 * dimensions.1)
    &&& dimensions.0 % 2 == 0
    &&& dimensions.1 % 2 == 0
}

/// Does a picture have as many pixels as its dimensions say, and even dimensions?
pub fn is_well_shaped(length: usize, dimensions: (u16, u16)) -> (shaped: bool)
    ensures
        shaped == well_shaped(length as nat, dimensions),
{
    let (width, height) = dimensions;
    proof {
        assert(0 <= width * height <= 0xffff * 0xffff) by (nonlinear_arith)
            requires
                0 <= width <= 0xffff,
                0 <= height <= 0xffff,
        ;
    }
    let area: u64 = width as u64 * height as u64;
    length as u64 == 3 * area && width % 2 == 0 && height % 2 == 0
}

/// `openh264::encoder::Encoder::new`. Whether there is an encoder depends on the machine.
#[verifier::external_body]
fn open_encoder() -> Result<openh264::encoder::Encoder, openh264::Error> {
    openh264::encoder::Encoder::new()
}

/// `openh264::encoder::Encoder::encode_at`: the pixels are made into a picture of the sort that the
/// encoder takes, and the encoded picture is written into memory. The reply is one that the encoder can
/// give; what that is depends on all that it was given before, and on the machine, and is not said.
#[verifier::external_body]
fn encode_at(encoder: &mut openh264::encoder::Encoder, pixels: &[u8], dimensions: (u16, u16), millis: u64) -> (encoded:
    Result<Vec<u8>, openh264::Error>)
    requires
        well_shaped(pixels@.len(), dimensions),
        millis <= i64::MAX,
    ensures
        encoder_replies(pixels@, dimensions, millis, stream_of(encoded)),
{
    let size = (usize::from(dimensions.0), usize::from(dimensions.1));
    let source = openh264::formats::RgbSliceU8::new(pixels, size);
    let picture = openh264::formats::YUVBuffer::from_rgb_source(source);
    let encoded = encoder.encode_at(&picture, openh264::Timestamp::from_millis(millis))?;
    let mut stream = Vec::with_capacity(10_000);
    encoded.write(&mut stream)?;
    Ok(stream)
}

/// An H.264 encoder that remembers, for the sake of contracts, all that has gone through it.
pub struct VideoEncoder {
    /// The encoder.
    inner: openh264::encoder::Encoder,
    /// What has gone through it.
    exchanges: Ghost<Seq<Exchange>>,
}

impl View for VideoEncoder {
    type V = Seq<Exchange>;

    closed spec fn view(&self) -> Seq<Exchange> {
        self.exchanges@
    }
}

impl VideoEncoder {
    /// The encoder that pictures go through.
    pub closed spec fn engine(self) -> openh264::encoder::Encoder {
        self.inner
    }

    /// A new encoder. There may be none: the library can fail to start, and whether it does depends on the
    /// machine. [`VideoEncoder::from_engine`] says what comes of either outcome.
    pub fn new() -> (encoder: Option<VideoEncoder>)
        ensures
            encoder matches Some(encoder) ==> encoder@ == Seq::<Exchange>::empty(),
    {
        VideoEncoder::from_engine(open_encoder())
    }

    /// The encoder around an engine that nothing has gone through yet, if the engine could be started.
    pub fn from_engine(started: Result<openh264::encoder::Encoder, openh264::Error>) -> (encoder: Option<
        VideoEncoder,
    >)
        ensures
            encoder is Some <==> started is Ok,
            encoder matches Some(encoder) ==> {
                &&& encoder@ == Seq::<Exchange>::empty()
                &&& encoder.engine() == started->Ok_0
            },
    {
        match started {
            Ok(inner) => Some(VideoEncoder { inner, exchanges: Ghost(Seq::empty()) }),
            Err(_) => None,
        }
    }

    /// Encodes a picture.
    pub fn encode(&mut self, pixels: &[u8], dimensions: (u16, u16), millis: u64) -> (stream: Option<Vec<u8>>)
        requires
            well_shaped(pixels@.len(), dimensions),
            millis <= i64::MAX,
        ensures
            ({
                let reply = match stream {
                    Some(stream) => Some(stream@),
                    None => None,
                };
                &&& encoder_replies(pixels@, dimensions, millis, reply)
                &&& final(self)@ == old(self)@.push(
                    Exchange { pixels: pixels@, dimensions, millis, reply },
                )
            }),
    {
        let encoded = encode_at(&mut self.inner, pixels, dimensions, millis);
        let ghost reply = stream_of(encoded);
        self.exchanges = Ghost(
            self.exchanges@.push(Exchange { pixels: pixels@, dimensions, millis, reply }),
        );
        match encoded {
            Ok(stream) => Some(stream),
            Err(_) => None,
        }
    }
}

/// A picture has the right shape just where there are three bytes for each of its pixels, and as many columns and
/// lines as make whole squares of four pixels.
pub proof fn law_shape(length: usize, dimensions: (u16, u16), shaped: bool)
    requires
        call_ensures(is_well_shaped, (length, dimensions), shaped),
    ensures
        ({
            let (width, height) = dimensions;
            shaped <==> length == width * height * 3 && width % 2 == 0 && height % 2 == 0
        }),
{
    let (width, height) = dimensions;
    assert(3 * (width * height) == width * height * 3) by (nonlinear_arith);
}

/// What goes through the encoder is the picture that was given, once, and what comes out is what the encoder
/// replied; what went through it before stays known.
pub proof fn law_exchange(
    before: VideoEncoder,
    pixels: &[u8],
    dimensions: (u16, u16),
    millis: u64,
    stream: Option<Vec<u8>>,
    after: VideoEncoder,
)
    requires
        exists|encoder: &mut VideoEncoder|
            *encoder == before && *final(encoder) == after && #[trigger] call_ensures(
                VideoEncoder::encode,
                (encoder, pixels, dimensions, millis),
                stream,
            ),
    ensures
        after@.len() == before@.len() + 1,
        forall|i: int| 0 <= i < before@.len() ==> #[trigger] after@[i] == before@[i],
        after@.last().pixels == pixels@,
        after@.last().dimensions == dimensions,
        after@.last().millis == millis,
        match stream {
            Some(stream) => after@.last().reply == Some(stream@),
            None => after@.last().reply is None,
        },
        encoder_replies(pixels@, dimensions, millis, after@.last().reply),
{
}

/// There is a video encoder just where its engine could be started. It is around that engine, and nothing has gone
/// through it.
pub proof fn law_engine(
    started: Result<openh264::encoder::Encoder, openh264::Error>,
    encoder: Option<VideoEncoder>,
    new: Option<VideoEncoder>,
)
    requires
        call_ensures(VideoEncoder::from_engine, (started,), encoder),
        call_ensures(VideoEncoder::new, (), new),
    ensures
        match started {
            Ok(engine) => encoder matches Some(encoder) && encoder.engine() == engine && encoder@.len() == 0,
            Err(_) => encoder is None,
        },
        new matches Some(encoder) ==> encoder@.len() == 0,
{
}

} // verus!
