//! JPEG: a picture in, pixels out.
//!
//! The decoder counts the blocks of a picture in sixteen bits. That is enough for every picture, but for some
//! with a very long side of which a scan holds one component alone: there it would count too far.
use vstd::prelude::*;

verus! {

/// Up to this many lines and columns, the decoder never counts too far: it counts blocks of eight, in sixteen
/// bits.
pub const LONGEST_SIDE: u16 = 0xfff8;

/// Why a JPEG could not be decoded.
#[verifier::external_type_specification]
#[verifier::external_body]
pub struct ExJpegError(jpeg_decoder::Error);

/// How a picture was coded.
#[derive(Clone, Copy, Debug, PartialEq, Eq, Structural)]
pub enum Coding {
    /// Block by block, each of them at once.
    Sequential,
    /// Block by block, in several passes.
    Progressive,
    /// Pixel by pixel, without loss.
    Lossless,
}

/// What the header of a picture says.
#[derive(Clone, Copy, Debug, PartialEq, Eq, Structural)]
pub struct JpegHeader {
    /// How many columns there are.
    pub width: u16,
    /// How many lines there are.
    pub height: u16,
    /// How the picture was coded.
    pub coding: Coding,
}

/// The header that `jpeg_decoder::Decoder::read_info` finds in `data`; none where it finds none.
pub uninterp spec fn jpeg_header(data: Seq<u8>) -> Option<JpegHeader>;

/// `jpeg_decoder::Decoder::read_info` and `jpeg_decoder::Decoder::info`, on a picture that lies in memory: what
/// the header of the picture says, if it has one. Where in the data the header is, is not said.
#[verifier::external_body]
pub(crate) fn read_header(data: &[u8]) -> (header: Option<JpegHeader>)
    ensures
        header == jpeg_header(data@),
{
    let mut decoder = jpeg_decoder::Decoder::new(std::io::Cursor::new(data));
    decoder.read_info().ok()?;
    let info = decoder.info()?;
    let coding = match info.coding_process {
        jpeg_decoder::CodingProcess::DctSequential => Coding::Sequential,
        jpeg_decoder::CodingProcess::DctProgressive => Coding::Progressive,
        jpeg_decoder::CodingProcess::Lossless => Coding::Lossless,
    };
    Some(JpegHeader { width: info.width, height: info.height, coding })
}

/// Does a scan that holds one component alone begin here? Its marker is followed by its length, which is 8, and
/// by the number of its components.
pub open spec fn lone_scan_at(data: Seq<u8>, place: int) -> bool {
    &&& 0 <= place
    &&& place + 5 <= data.len()
    &&& data[place] == 0xff
    &&& data[place + 1] == 0xda
    &&& data[place + 2] == 0
    &&& data[place + 3] == 8
    &&& data[place + 4] == 1
}

/// Is there a place where a scan that holds one component alone can begin?
pub open spec fn has_lone_scan(data: Seq<u8>) -> bool {
    exists|place: int| lone_scan_at(data, place)
}

/// Does the header of a frame begin here, in which this component has a horizontal sampling factor of 3? Behind
/// the marker stand the length, the precision, the two sides and the number of components; then each
/// component takes three bytes, of which the second holds the sampling factors.
pub open spec fn tripled_at(data: Seq<u8>, place: int, component: int) -> bool {
    &&& 0 <= place
    &&& 0 <= component
    &&& place + 12 + 3 * component <= data.len()
    &&& data[place] == 0xff
    &&& 0xc0 <= data[place + 1] <= 0xc2
    &&& component < data[place + 9]
    &&& data[place + 11 + 3 * component] / 16 == 3
}

/// Is there a place where the header of a frame can begin in which a component has a horizontal
/// sampling factor of 3?
pub open spec fn has_tripled(data: Seq<u8>) -> bool {
    exists|place: int, component: int| tripled_at(data, place, component)
}

/// Can the decoder count too far in a picture with this header? It counts the blocks of a scan that holds one
/// component alone. Too many lines are counted too far; too many columns only where they are counted in threes,
/// so that the last three can reach beyond the picture.
pub open spec fn overcounts(header: Option<JpegHeader>, data: Seq<u8>) -> bool {
    header matches Some(header) && {
        &&& header.coding != Coding::Lossless
        &&& header.height > LONGEST_SIDE || (header.width > LONGEST_SIDE && has_tripled(data))
        &&& has_lone_scan(data)
    }
}

/// Is there a place where a scan that holds one component alone can begin?
fn find_lone_scan(data: &[u8]) -> (found: bool)
    ensures
        found == has_lone_scan(data@),
{
    let mut i: usize = 0;
    while i < data.len()
        invariant
            i <= data.len(),
            forall|place: int| 0 <= place < i ==> !#[trigger] lone_scan_at(data@, place),
        decreases data.len() - i,
    {
        if data.len() - i >= 5 && data[i] == 0xff && data[i + 1] == 0xda && data[i + 2] == 0 && data[i + 3] == 8
            && data[i + 4] == 1 {
            assert(lone_scan_at(data@, i as int));
            return true;
        }
        assert(!lone_scan_at(data@, i as int));
        i += 1;
    }
    false
}

/// Does the header of a frame begin here in which a component has a horizontal
/// sampling factor of 3?
fn is_tripled_at(data: &[u8], place: usize) -> (found: bool)
    requires
        place < data@.len(),
    ensures
        found == (exists|component: int| tripled_at(data@, place as int, component)),
{
    if data.len() - place < 12 || data[place] != 0xff || data[place + 1] < 0xc0 || data[place + 1] > 0xc2 {
        return false;
    }
    let count: u8 = data[place + 9];
    let mut k: u8 = 0;
    while k < count
        invariant
            k <= count,
            count == data@[place + 9],
            data@.len() - place >= 12,
            data@[place as int] == 0xff,
            0xc0 <= data@[place + 1] <= 0xc2,
            forall|component: int| 0 <= component < k ==> !#[trigger] tripled_at(data@, place as int, component),
        decreases count - k,
    {
        let at: usize = 11 + 3 * (k as usize);
        if at >= data.len() - place {
            assert forall|component: int| !#[trigger] tripled_at(data@, place as int, component) by {}
            return false;
        }
        if data[place + at] / 16 == 3 {
            assert(tripled_at(data@, place as int, k as int));
            return true;
        }
        k += 1;
    }
    false
}

/// Is there a place where the header of a frame can begin in which a component has a horizontal
/// sampling factor of 3?
fn find_tripled(data: &[u8]) -> (found: bool)
    ensures
        found == has_tripled(data@),
{
    let mut i: usize = 0;
    while i < data.len()
        invariant
            i <= data.len(),
            forall|place: int, component: int|
                0 <= place < i ==> !#[trigger] tripled_at(data@, place, component),
        decreases data.len() - i,
    {
        if is_tripled_at(data, i) {
            return true;
        }
        i += 1;
    }
    false
}

/// Can the decoder count too far in a picture with this header?
pub fn does_overcount(header: Option<JpegHeader>, data: &[u8]) -> (over: bool)
    ensures
        over == overcounts(header, data@),
{
    match header {
        Some(header) => {
            let blocks = match header.coding {
                Coding::Lossless => false,
                _ => true,
            };
            let long = header.height > LONGEST_SIDE || (header.width > LONGEST_SIDE && find_tripled(data));
            blocks && long && find_lone_scan(data)
        },
        None => false,
    }
}

/// Can `jpeg_decoder::Decoder::decode` make these pixels of `data`, or, for `None`, refuse it? Which
/// pixels it makes depends on the machine too: the decoder rounds in other ways where it can use vector
/// instructions.
pub uninterp spec fn jpeg_decodes_to(data: Seq<u8>, pixels: Option<Seq<u8>>) -> bool;

/// The pixels of a decoded picture, if it was decoded.
pub open spec fn pixels_of(decoded: Result<Vec<u8>, jpeg_decoder::Error>) -> Option<Seq<u8>> {
    match decoded {
        Ok(pixels) => Some(pixels@),
        Err(_) => None,
    }
}

/// `jpeg_decoder::Decoder::decode`, on a picture that lies in memory. The result is one that the decoder
/// can give for this data; what that is, is not said. A picture in which the decoder can count too far is not
/// handed to it: where overflows are checked, it would not return.
#[verifier::external_body]
pub(crate) fn decode_jpeg(data: &[u8]) -> (decoded: Result<Vec<u8>, jpeg_decoder::Error>)
    requires
        !overcounts(jpeg_header(data@), data@),
    ensures
        jpeg_decodes_to(data@, pixels_of(decoded)),
{
    jpeg_decoder::Decoder::new(std::io::Cursor::new(data)).decode()
}

/// The decoder is trusted with every picture without long sides, with every picture of which all scans hold more
/// than one component, and with every lossless one; and it is not trusted with one that has too many lines and
/// a scan of one component.
pub proof fn law_trusted_pictures(header: JpegHeader, data: &[u8], over: bool)
    requires
        call_ensures(does_overcount, (Some(header), data), over),
    ensures
        header.width < 0xfff9 && header.height < 0xfff9 ==> !over,
        header.coding is Lossless ==> !over,
        (forall|i: int|
            0 <= i <= data@.len() - 5 ==> #[trigger] data@.subrange(i, i + 5) != seq![0xffu8, 0xda, 0, 8, 1])
            ==> !over,
        header.height >= 0xfff9 && !(header.coding is Lossless) && (exists|i: int|
            0 <= i <= data@.len() - 5 && #[trigger] data@.subrange(i, i + 5) == seq![0xffu8, 0xda, 0, 8, 1]) ==> over,
{
    if has_lone_scan(data@) {
        let i = choose|i: int| lone_scan_at(data@, i);
        assert(data@.subrange(i, i + 5) =~= seq![0xffu8, 0xda, 0, 8, 1]);
    }
    if exists|i: int| 0 <= i <= data@.len() - 5 && #[trigger] data@.subrange(i, i + 5) == seq![0xffu8, 0xda, 0, 8, 1] {
        let i = choose|i: int|
            0 <= i <= data@.len() - 5 && #[trigger] data@.subrange(i, i + 5) == seq![0xffu8, 0xda, 0, 8, 1];
        let found = data@.subrange(i, i + 5);
        assert(found[0] == data@[i] && found[1] == data@[i + 1] && found[2] == data@[i + 2] && found[3] == data@[i
            + 3] && found[4] == data@[i + 4]);
        assert(lone_scan_at(data@, i));
    }
}

/// Without a header there is nothing to count.
pub proof fn law_no_header(data: &[u8], over: bool)
    requires
        call_ensures(does_overcount, (None, data), over),
    ensures
        !over,
{
}

/// Where there are too many columns, but not too many lines, the decoder is trusted just where no frame has a component
/// with a horizontal sampling factor of 3, or no scan holds one component alone.
pub proof fn law_wide_pictures(header: JpegHeader, data: &[u8], over: bool, place: int, component: int)
    requires
        call_ensures(does_overcount, (Some(header), data), over),
        header.width >= 0xfff9,
        header.height < 0xfff9,
    ensures
        over ==> exists|p: int, c: int|
            {
                &&& 0 <= p && 0 <= c && p + 11 + 3 * c < data@.len()
                &&& data@[p] == 0xff && 0xc0 <= data@[p + 1] <= 0xc2
                &&& c < data@[p + 9]
                &&& #[trigger] data@[p + 11 + 3 * c] / 16 == 3
            },
        ({
            &&& !(header.coding is Lossless)
            &&& 0 <= place && 0 <= component && place + 11 + 3 * component < data@.len()
            &&& data@[place] == 0xff && 0xc0 <= data@[place + 1] <= 0xc2
            &&& component < data@[place + 9]
            &&& data@[place + 11 + 3 * component] / 16 == 3
            &&& exists|i: int|
                0 <= i <= data@.len() - 5 && #[trigger] data@.subrange(i, i + 5) == seq![0xffu8, 0xda, 0, 8, 1]
        }) ==> over,
{
    if over {
        let (p, c) = choose|p: int, c: int| tripled_at(data@, p, c);
        assert(data@[p + 11 + 3 * c] / 16 == 3);
    }
    if exists|i: int| 0 <= i <= data@.len() - 5 && #[trigger] data@.subrange(i, i + 5) == seq![0xffu8, 0xda, 0, 8, 1] {
        let i = choose|i: int|
            0 <= i <= data@.len() - 5 && #[trigger] data@.subrange(i, i + 5) == seq![0xffu8, 0xda, 0, 8, 1];
        let found = data@.subrange(i, i + 5);
        assert(found[0] == data@[i] && found[1] == data@[i + 1] && found[2] == data@[i + 2] && found[3] == data@[i
            + 3] && found[4] == data@[i + 4]);
        assert(lone_scan_at(data@, i));
    }
    if tripled_at(data@, place, component) {
        assert(has_tripled(data@));
    }
}

} // verus!
