//! What goes over the connection: the request that opens a stream, the chunks that the video is sent in,
//! and what comes back.
use crate::kvs::{self, Entries, SignedRequest};
use vstd::prelude::*;
use vstd::utf8::encode_utf8;

verus! {

/// Why a stream could not be opened.
#[derive(Clone, Copy, Debug, PartialEq, Eq, Structural)]
pub enum HandshakeError {
    /// The request has no host.
    NoHost,
    /// A header of the request cannot be written out, because not all of it is visible ASCII.
    NotVisible,
    /// The response could not be parsed.
    Unparsable,
    /// The response is a refusal.
    Refused,
}

/// Can this byte be written out in a header?
pub open spec fn visible_byte(byte: u8) -> bool {
    32 <= byte < 127 || byte == 9
}

/// Can all of these be written out?
pub open spec fn all_visible(entries: Entries) -> bool {
    forall|i: int, j: int|
        0 <= i < entries.len() && 0 <= j < entries[i].1.len() ==> visible_byte(#[trigger] entries[i].1[j])
}

/// One line of a request: a header.
pub open spec fn header_line(name: Seq<char>, value: Seq<u8>) -> Seq<u8> {
    encode_utf8(name) + encode_utf8(": "@) + value + encode_utf8("\r\n"@)
}

/// The lines of some headers.
pub open spec fn header_lines(entries: Entries) -> Seq<u8>
    decreases entries.len(),
{
    if entries.len() == 0 {
        seq![]
    } else {
        header_lines(entries.drop_last()) + header_line(entries.last().0, entries.last().1)
    }
}

/// The headers that stand in front of the signed ones.
pub open spec fn connection_headers(host: Seq<char>) -> Entries {
    seq![
        ("Host"@, encode_utf8(host)),
        ("Connection"@, encode_utf8("keep-alive"@)),
        ("Accept"@, encode_utf8("*/*"@)),
        ("Accept-Encoding"@, encode_utf8("deflate, gzip"@)),
        ("Transfer-Encoding"@, encode_utf8("chunked"@)),
    ]
}

/// The request that opens a stream, up to where its body begins.
pub open spec fn request_bytes(host: Seq<char>, entries: Entries) -> Seq<u8> {
    encode_utf8("POST /putMedia HTTP/1.1\r\n"@) + header_lines(connection_headers(host) + entries)
        + encode_utf8("\r\n"@)
}

/// Writes one header.
fn write_line(request: &mut Vec<u8>, name: &str, value: &[u8])
    ensures
        final(request)@ == old(request)@ + header_line(name@, value@),
{
    request.extend_from_slice(name.as_bytes());
    request.extend_from_slice(": ".as_bytes());
    request.extend_from_slice(value);
    request.extend_from_slice("\r\n".as_bytes());
    assert(request@ =~= old(request)@ + header_line(name@, value@));
}

/// Lines written one after the other.
proof fn lemma_lines(entries: Entries, name: Seq<char>, value: Seq<u8>)
    ensures
        header_lines(entries.push((name, value))) == header_lines(entries) + header_line(name, value),
{
    assert(entries.push((name, value)).drop_last() =~= entries);
}

/// The request that opens a stream, up to where its body begins.
pub fn write_request(host: &str, entries: &Vec<(String, Vec<u8>)>) -> (request: Vec<u8>)
    requires
        all_visible(kvs::entry_views(entries@)),
    ensures
        request@ == request_bytes(host@, kvs::entry_views(entries@)),
{
    let ghost views = kvs::entry_views(entries@);
    let ghost none: Entries = seq![];
    let ghost start = encode_utf8("POST /putMedia HTTP/1.1\r\n"@);
    let mut request: Vec<u8> = Vec::with_capacity(1024);
    request.extend_from_slice("POST /putMedia HTTP/1.1\r\n".as_bytes());
    assert(request@ =~= start + header_lines(none));
    write_line(&mut request, "Host", host.as_bytes());
    write_line(&mut request, "Connection", "keep-alive".as_bytes());
    write_line(&mut request, "Accept", "*/*".as_bytes());
    write_line(&mut request, "Accept-Encoding", "deflate, gzip".as_bytes());
    write_line(&mut request, "Transfer-Encoding", "chunked".as_bytes());
    proof {
        let first = connection_headers(host@);
        let one = none.push(first[0]);
        let two = one.push(first[1]);
        let three = two.push(first[2]);
        let four = three.push(first[3]);
        lemma_lines(none, first[0].0, first[0].1);
        lemma_lines(one, first[1].0, first[1].1);
        lemma_lines(two, first[2].0, first[2].1);
        lemma_lines(three, first[3].0, first[3].1);
        lemma_lines(four, first[4].0, first[4].1);
        assert(first =~= four.push(first[4]));
        assert(request@ =~= start + header_lines(first));
        assert(first + views.take(0) =~= first);
    }
    let mut i: usize = 0;
    while i < entries.len()
        invariant
            i <= entries.len(),
            views == kvs::entry_views(entries@),
            request@ == start + header_lines(connection_headers(host@) + views.take(i as int)),
        decreases entries.len() - i,
    {
        let (name, value) = &entries[i];
        let ghost before = connection_headers(host@) + views.take(i as int);
        write_line(&mut request, name.as_str(), value.as_slice());
        proof {
            lemma_lines(before, name@, value@);
            assert(connection_headers(host@) + views.take(i + 1) =~= before.push((name@, value@)));
            assert(request@ =~= start + header_lines(before.push((name@, value@))));
        }
        i += 1;
    }
    assert(views.take(i as int) =~= views);
    request.extend_from_slice("\r\n".as_bytes());
    request
}

/// Can all of these be written out?
fn are_visible(entries: &Vec<(String, Vec<u8>)>) -> (visible: bool)
    ensures
        visible == all_visible(kvs::entry_views(entries@)),
{
    let ghost views = kvs::entry_views(entries@);
    let mut i: usize = 0;
    while i < entries.len()
        invariant
            i <= entries.len(),
            views == kvs::entry_views(entries@),
            forall|k: int, j: int|
                0 <= k < i && 0 <= j < views[k].1.len() ==> visible_byte(#[trigger] views[k].1[j]),
        decreases entries.len() - i,
    {
        let value = &entries[i].1;
        assert(views[i as int].1 == value@);
        let mut j: usize = 0;
        while j < value.len()
            invariant
                i < entries.len(),
                j <= value.len(),
                views == kvs::entry_views(entries@),
                views[i as int].1 == value@,
                forall|k: int| 0 <= k < j ==> visible_byte(#[trigger] value@[k]),
            decreases value.len() - j,
        {
            let byte: u8 = value[j];
            if !(32 <= byte && byte < 127 || byte == 9) {
                assert(!visible_byte(views[i as int].1[j as int]));
                return false;
            }
            j += 1;
        }
        i += 1;
    }
    true
}

/// The request that opens a stream, or why it cannot be written out.
pub open spec fn handshake_outcome(request: kvs::RequestView) -> Result<Seq<u8>, HandshakeError> {
    match request.host {
        None => Err(HandshakeError::NoHost),
        Some(host) => {
            if all_visible(request.headers) {
                Ok(request_bytes(host, request.headers))
            } else {
                Err(HandshakeError::NotVisible)
            }
        },
    }
}

/// Writes out the request that opens a stream.
pub fn write_handshake(request: &SignedRequest) -> (written: Result<Vec<u8>, HandshakeError>)
    ensures
        match written {
            Ok(bytes) => handshake_outcome(request@) == Ok::<Seq<u8>, HandshakeError>(bytes@),
            Err(error) => handshake_outcome(request@) == Err::<Seq<u8>, HandshakeError>(error),
        },
{
    let entries = request.entries();
    match request.host() {
        None => Err(HandshakeError::NoHost),
        Some(host) => {
            if are_visible(&entries) {
                Ok(write_request(host.as_str(), &entries))
            } else {
                Err(HandshakeError::NotVisible)
            }
        },
    }
}

/// What `httparse::Response::parse`, with room for ten headers, finds in the beginning of a response: none
/// where it fails, and else the status code, if it has come that far.
pub uninterp spec fn parsed_status(response: Seq<u8>) -> Option<Option<u16>>;

/// `httparse::Response::parse`, with room for ten headers: the status code of a response, of which the end
/// may be missing.
#[verifier::external_body]
fn parse_status(response: &[u8]) -> (status: Option<Option<u16>>)
    ensures
        status == parsed_status(response@),
{
    let mut headers = [httparse::EMPTY_HEADER; 10];
    let mut parsed = httparse::Response::new(&mut headers);
    let outcome = parsed.parse(response);
    outcome.ok().map(|_| parsed.code)
}

/// Is the stream open, going by what was found in the response?
pub open spec fn status_outcome(status: Option<Option<u16>>) -> Result<(), HandshakeError> {
    match status {
        None => Err(HandshakeError::Unparsable),
        Some(Some(200)) => Ok(()),
        Some(_) => Err(HandshakeError::Refused),
    }
}

/// Is the stream open, going by what was found in the response? Only 200 will do.
pub fn check_status(status: Option<Option<u16>>) -> (open: Result<(), HandshakeError>)
    ensures
        open == status_outcome(status),
{
    match status {
        None => Err(HandshakeError::Unparsable),
        Some(Some(200)) => Ok(()),
        Some(_) => Err(HandshakeError::Refused),
    }
}

/// Is the stream open, going by the response?
pub fn check_response(response: &[u8]) -> (open: Result<(), HandshakeError>)
    ensures
        open == status_outcome(parsed_status(response@)),
{
    check_status(parse_status(response))
}

/// The digit for a number below 16, in upper case.
pub open spec fn upper_digit(value: nat) -> u8 {
    if value < 10 {
        (0x30 + value) as u8
    } else {
        (0x41 + value - 10) as u8
    }
}

/// A number in hexadecimal digits, in upper case, without leading zeros.
pub open spec fn upper_hex(value: nat) -> Seq<u8>
    decreases value,
{
    if value < 16 {
        seq![upper_digit(value)]
    } else {
        upper_hex(value / 16).push(upper_digit(value % 16))
    }
}

/// A chunk: the size of the data, and the data.
pub open spec fn chunk_bytes(data: Seq<u8>) -> Seq<u8> {
    upper_hex(data.len()) + encode_utf8("\r\n"@) + data + encode_utf8("\r\n"@)
}

/// Writes a number in hexadecimal digits, in upper case, without leading zeros.
fn write_hex(written: &mut Vec<u8>, value: usize)
    ensures
        final(written)@ == old(written)@ + upper_hex(value as nat),
    decreases value,
{
    if value >= 16 {
        write_hex(written, value / 16);
    }
    let digit: u8 = (value % 16) as u8;
    if digit < 10 {
        written.push(0x30 + digit);
    } else {
        written.push(0x41 + (digit - 10));
    }
    assert(written@ =~= old(written)@ + upper_hex(value as nat));
}

/// A chunk for some data, unless there is none: an empty chunk would end the stream.
pub fn frame_chunk(data: &[u8]) -> (chunk: Option<Vec<u8>>)
    ensures
        chunk is Some <==> data@.len() > 0,
        chunk is Some ==> chunk->0@ == chunk_bytes(data@),
{
    if data.len() == 0 {
        return None;
    }
    let mut chunk: Vec<u8> = Vec::with_capacity(data.len());
    write_hex(&mut chunk, data.len());
    chunk.extend_from_slice("\r\n".as_bytes());
    chunk.extend_from_slice(data);
    chunk.extend_from_slice("\r\n".as_bytes());
    assert(chunk@ =~= chunk_bytes(data@));
    Some(chunk)
}

/// The number that some hexadecimal digits stand for.
pub open spec fn hex_value(digits: Seq<u8>) -> nat
    decreases digits.len(),
{
    if digits.len() == 0 {
        0
    } else {
        let last = digits.last();
        16 * hex_value(digits.drop_last()) + (if last < 0x41 {
            (last - 0x30) as nat
        } else {
            (last - 0x41 + 10) as nat
        })
    }
}

/// Is this a hexadecimal digit, in upper case?
pub open spec fn is_upper_digit(byte: u8) -> bool {
    0x30 <= byte <= 0x39 || 0x41 <= byte <= 0x46
}

/// Hexadecimal digits stand for the number that they were made from.
pub proof fn law_hex(value: nat)
    ensures
        hex_value(upper_hex(value)) == value,
        upper_hex(value).len() > 0,
        forall|i: int| 0 <= i < upper_hex(value).len() ==> is_upper_digit(#[trigger] upper_hex(value)[i]),
    decreases value,
{
    if value < 16 {
        assert(upper_hex(value).drop_last() =~= seq![]);
        assert(hex_value(seq![]) == 0);
    } else {
        law_hex(value / 16);
        assert(upper_hex(value).drop_last() =~= upper_hex(value / 16));
    }
}

/// A chunk can be read back, whatever follows it: the digits in front of the first line break say how many
/// bytes of data there are, the data follows, and behind it the line breaks again.
pub proof fn law_chunk_reads_back(data: Seq<u8>, rest: Seq<u8>)
    ensures
        ({
            let bytes = chunk_bytes(data) + rest;
            let end = upper_hex(data.len()).len() as int;
            &&& forall|i: int| 0 <= i < end ==> is_upper_digit(#[trigger] bytes[i])
            &&& hex_value(bytes.take(end)) == data.len()
            &&& bytes.subrange(end, end + 2) == seq![13u8, 10u8]
            &&& bytes.subrange(end + 2, end + 2 + data.len()) == data
            &&& bytes.subrange(end + 2 + data.len(), end + 4 + data.len()) == seq![13u8, 10u8]
            &&& bytes.skip(end + 4 + data.len()) == rest
        }),
{
    let bytes = chunk_bytes(data) + rest;
    let end = upper_hex(data.len()).len() as int;
    law_hex(data.len());
    lemma_line_break();
    assert(bytes.take(end) =~= upper_hex(data.len()));
    assert forall|i: int| 0 <= i < end implies is_upper_digit(#[trigger] bytes[i]) by {
        assert(bytes[i] == upper_hex(data.len())[i]);
    }
    assert(bytes.subrange(end, end + 2) =~= seq![13u8, 10u8]);
    assert(bytes.subrange(end + 2, end + 2 + data.len()) =~= data);
    assert(bytes.subrange(end + 2 + data.len(), end + 4 + data.len()) =~= seq![13u8, 10u8]);
    assert(bytes.skip(end + 4 + data.len()) =~= rest);
}

/// A line break, in bytes.
proof fn lemma_line_break()
    ensures
        encode_utf8("\r\n"@) == seq![13u8, 10u8],
{
    reveal_strlit("\r\n");
    vstd::utf8::is_ascii_chars_encode_utf8("\r\n"@);
    assert(encode_utf8("\r\n"@) =~= seq![13u8, 10u8]);
}

/// Why a message from the service is not understood.
#[derive(Clone, Copy, Debug, PartialEq, Eq, Structural)]
pub enum ResponseError {
    /// It is not UTF-8.
    NotText,
    /// It does not begin with a size.
    Size,
    /// Nothing comes after the size.
    MissingPayload,
}

/// `std::str::from_utf8`: is this UTF-8?
#[verifier::external_body]
fn is_text(bytes: &[u8]) -> (text: bool)
    ensures
        text == vstd::utf8::valid_utf8(bytes@),
{
    std::str::from_utf8(bytes).is_ok()
}

/// Is there a line break at this place?
pub open spec fn breaks_at(bytes: Seq<u8>, i: int) -> bool {
    0 <= i < bytes.len() - 1 && bytes[i] == 13 && bytes[i + 1] == 10
}

/// Where the line that begins at `from` ends; none where it is the last one.
pub open spec fn line_break(bytes: Seq<u8>, from: int) -> Option<int>
    decreases bytes.len() - from,
{
    if from >= bytes.len() {
        None
    } else if breaks_at(bytes, from) {
        Some(from)
    } else {
        line_break(bytes, from + 1)
    }
}

/// The number that some decimal digits stand for.
pub open spec fn decimal_value(digits: Seq<u8>) -> nat
    decreases digits.len(),
{
    if digits.len() == 0 {
        0
    } else {
        10 * decimal_value(digits.drop_last()) + (digits.last() - 0x30) as nat
    }
}

/// The digits of a number, which may have a plus sign in front of it.
pub open spec fn unsigned_digits(text: Seq<u8>) -> Seq<u8> {
    if text.len() > 0 && text[0] == 0x2b {
        text.skip(1)
    } else {
        text
    }
}

/// Is this a number that fits a size?
pub open spec fn is_size(text: Seq<u8>) -> bool {
    let digits = unsigned_digits(text);
    &&& digits.len() > 0
    &&& forall|i: int| 0 <= i < digits.len() ==> 0x30 <= #[trigger] digits[i] <= 0x39
    &&& decimal_value(digits) <= usize::MAX
}

/// What a message says: a size, in a line of its own, and behind it a line with the payload.
pub open spec fn response_outcome(message: Seq<u8>) -> Result<Seq<u8>, ResponseError> {
    if !vstd::utf8::valid_utf8(message) {
        Err(ResponseError::NotText)
    } else {
        match line_break(message, 0) {
            None => if is_size(message) {
                Err(ResponseError::MissingPayload)
            } else {
                Err(ResponseError::Size)
            },
            Some(end) => if !is_size(message.take(end)) {
                Err(ResponseError::Size)
            } else {
                match line_break(message, end + 2) {
                    None => Ok(message.skip(end + 2)),
                    Some(next) => Ok(message.subrange(end + 2, next)),
                }
            },
        }
    }
}

/// Where the line that begins at `from` ends.
fn find_break(bytes: &[u8], from: usize) -> (found: Option<usize>)
    requires
        from <= bytes@.len(),
    ensures
        match found {
            Some(end) => line_break(bytes@, from as int) == Some(end as int) && from <= end && end + 2
                <= bytes@.len(),
            None => line_break(bytes@, from as int) is None,
        },
{
    let mut i: usize = from;
    while i < bytes.len()
        invariant
            from <= i <= bytes@.len(),
            line_break(bytes@, from as int) == line_break(bytes@, i as int),
        decreases bytes.len() - i,
    {
        if bytes.len() - i > 1 && bytes[i] == 13 && bytes[i + 1] == 10 {
            return Some(i);
        }
        i += 1;
    }
    None
}

/// More digits make a number that is no smaller.
proof fn lemma_decimal_grows(digits: Seq<u8>, n: int)
    requires
        0 <= n <= digits.len(),
        forall|i: int| 0 <= i < digits.len() ==> 0x30 <= #[trigger] digits[i] <= 0x39,
    ensures
        decimal_value(digits.take(n)) <= decimal_value(digits),
    decreases digits.len(),
{
    if n < digits.len() {
        lemma_decimal_grows(digits.drop_last(), n);
        assert(digits.drop_last().take(n) =~= digits.take(n));
    } else {
        assert(digits.take(n) =~= digits);
    }
}

/// Is this a number that fits a size?
fn check_size(text: &[u8]) -> (size: bool)
    ensures
        size == is_size(text@),
{
    let start: usize = if text.len() > 0 && text[0] == 0x2b {
        1
    } else {
        0
    };
    let ghost digits = unsigned_digits(text@);
    proof {
        assert(digits =~= text@.skip(start as int));
    }
    if text.len() == start {
        return false;
    }
    let mut value: usize = 0;
    let mut i: usize = start;
    assert(digits.take(0) =~= seq![]);
    while i < text.len()
        invariant
            start <= i <= text@.len(),
            digits == unsigned_digits(text@),
            digits == text@.skip(start as int),
            value == decimal_value(digits.take(i - start)),
            forall|j: int| 0 <= j < i - start ==> 0x30 <= #[trigger] digits[j] <= 0x39,
        decreases text.len() - i,
    {
        let byte: u8 = text[i];
        assert(digits[i - start] == byte);
        if byte < 0x30 || byte > 0x39 {
            return false;
        }
        let digit: usize = (byte - 0x30) as usize;
        proof {
            let more = digits.take(i - start + 1);
            assert(more.drop_last() =~= digits.take(i - start));
            assert(decimal_value(more) == 10 * value + digit);
            if forall|j: int| 0 <= j < digits.len() ==> 0x30 <= #[trigger] digits[j] <= 0x39 {
                lemma_decimal_grows(digits, i - start + 1);
            }
        }
        if value > (usize::MAX - digit) / 10 {
            return false;
        }
        value = 10 * value + digit;
        i += 1;
    }
    assert(digits.take(i - start) =~= digits);
    true
}

/// Reads a message from the service: the payload that follows the size.
pub fn read_response(message: &[u8]) -> (payload: Result<Vec<u8>, ResponseError>)
    ensures
        match payload {
            Ok(bytes) => response_outcome(message@) == Ok::<Seq<u8>, ResponseError>(bytes@),
            Err(error) => response_outcome(message@) == Err::<Seq<u8>, ResponseError>(error),
        },
{
    if !is_text(message) {
        return Err(ResponseError::NotText);
    }
    let length: usize = message.len();
    match find_break(message, 0) {
        None => {
            if check_size(message) {
                Err(ResponseError::MissingPayload)
            } else {
                Err(ResponseError::Size)
            }
        },
        Some(end) => {
            let size = vstd::slice::slice_subrange(message, 0, end);
            assert(size@ =~= message@.take(end as int));
            if !check_size(size) {
                return Err(ResponseError::Size);
            }
            let next: usize = match find_break(message, end + 2) {
                None => length,
                Some(next) => next,
            };
            let payload = vstd::slice::slice_subrange(message, end + 2, next);
            assert(message@.subrange(end + 2, length as int) =~= message@.skip(end + 2));
            Ok(vstd::slice::slice_to_vec(payload))
        },
    }
}

/// Pieces of data, one behind the other.
pub open spec fn joined(pieces: Seq<Seq<u8>>) -> Seq<u8>
    decreases pieces.len(),
{
    if pieces.len() == 0 {
        seq![]
    } else {
        pieces[0] + joined(pieces.drop_first())
    }
}

/// Chunks for some pieces of data, one behind the other.
pub open spec fn chunks_bytes(pieces: Seq<Seq<u8>>) -> Seq<u8>
    decreases pieces.len(),
{
    if pieces.len() == 0 {
        seq![]
    } else {
        chunk_bytes(pieces[0]) + chunks_bytes(pieces.drop_first())
    }
}

/// The data in some chunks, as a receiver reads them: the digits up to the first line break say how much data
/// comes behind it. `None` where the bytes are no chunks.
pub open spec fn dechunked(bytes: Seq<u8>) -> Option<Seq<u8>>
    decreases bytes.len(),
{
    if bytes.len() == 0 {
        Some(seq![])
    } else {
        match line_break(bytes, 0) {
            None => None,
            Some(end) => {
                let digits = bytes.take(end);
                let after = end + 2 + hex_value(digits);
                if 0 <= end <= bytes.len() && (forall|i: int|
                    0 <= i < digits.len() ==> is_upper_digit(#[trigger] digits[i])) && breaks_at(bytes, after) {
                    match dechunked(bytes.skip(after + 2)) {
                        Some(rest) => Some(bytes.subrange(end + 2, after) + rest),
                        None => None,
                    }
                } else {
                    None
                }
            },
        }
    }
}

/// There is no line break among digits.
proof fn lemma_first_break(bytes: Seq<u8>, from: int, end: int)
    requires
        0 <= from <= end,
        breaks_at(bytes, end),
        forall|i: int| 0 <= i < end ==> is_upper_digit(#[trigger] bytes[i]),
    ensures
        line_break(bytes, from) == Some(end),
    decreases end - from,
{
    if from < end {
        assert(is_upper_digit(bytes[from]));
        lemma_first_break(bytes, from + 1, end);
    }
}

/// What is sent in chunks is what a receiver reads, in whatever pieces it was sent.
pub proof fn law_chunks_carry_the_data(pieces: Seq<Seq<u8>>)
    ensures
        dechunked(chunks_bytes(pieces)) == Some(joined(pieces)),
    decreases pieces.len(),
{
    if pieces.len() > 0 {
        let data = pieces[0];
        let rest = chunks_bytes(pieces.drop_first());
        let bytes = chunk_bytes(data) + rest;
        let end = upper_hex(data.len()).len() as int;
        law_chunks_carry_the_data(pieces.drop_first());
        law_hex(data.len());
        law_chunk_reads_back(data, rest);
        lemma_line_break();
        let first = bytes.subrange(end, end + 2);
        assert(first[0] == bytes[end] && first[1] == bytes[end + 1]);
        lemma_first_break(bytes, 0, end);
        let after = end + 2 + data.len();
        let last = bytes.subrange(after, after + 2);
        assert(last[0] == bytes[after] && last[1] == bytes[after + 1]);
        assert(breaks_at(bytes, after));
        assert(bytes.skip(after + 2) == rest);
    }
}

/// A header as it stands in a request: its name, a colon and a space, its value, and a line break.
pub open spec fn text_line(name: Seq<char>, value: Seq<u8>) -> Seq<u8> {
    encode_utf8(name) + seq![58u8, 32u8] + value + seq![13u8, 10u8]
}

/// Some headers, line by line.
pub open spec fn text_lines(entries: Entries) -> Seq<u8>
    decreases entries.len(),
{
    if entries.len() == 0 {
        seq![]
    } else {
        text_lines(entries.drop_last()) + text_line(entries.last().0, entries.last().1)
    }
}

/// The text of a request that opens a stream: what is requested, five headers about the connection, the headers of
/// the request, each on a line of its own, and an empty line.
pub open spec fn request_text(host: Seq<char>, entries: Entries) -> Seq<u8> {
    encode_utf8("POST /putMedia HTTP/1.1\r\n"@) + text_line("Host"@, encode_utf8(host)) + text_line(
        "Connection"@,
        encode_utf8("keep-alive"@),
    ) + text_line("Accept"@, encode_utf8("*/*"@)) + text_line(
        "Accept-Encoding"@,
        encode_utf8("deflate, gzip"@),
    ) + text_line("Transfer-Encoding"@, encode_utf8("chunked"@)) + text_lines(entries) + seq![13u8, 10u8]
}

/// Lines are written as they stand.
proof fn lemma_text_line(name: Seq<char>, value: Seq<u8>)
    ensures
        header_line(name, value) == text_line(name, value),
{
    lemma_line_break();
    reveal_strlit(": ");
    vstd::utf8::is_ascii_chars_encode_utf8(": "@);
    assert(encode_utf8(": "@) =~= seq![58u8, 32u8]);
}

/// Lines behind other lines.
proof fn lemma_text_lines(first: Entries, second: Entries)
    ensures
        header_lines(first + second) == header_lines(first) + text_lines(second),
    decreases second.len(),
{
    if second.len() == 0 {
        assert(first + second =~= first);
        assert(header_lines(first) + text_lines(second) =~= header_lines(first));
    } else {
        assert((first + second).drop_last() =~= first + second.drop_last());
        assert((first + second).last() == second.last());
        lemma_text_lines(first, second.drop_last());
        lemma_text_line(second.last().0, second.last().1);
        assert(header_lines(first + second) =~= header_lines(first) + text_lines(second));
    }
}

/// The request as it is put together is the text of the request.
proof fn lemma_request_text(host: Seq<char>, entries: Entries)
    ensures
        request_bytes(host, entries) == request_text(host, entries),
{
    let first = connection_headers(host);
    let none: Entries = seq![];
    let one = none.push(first[0]);
    let two = one.push(first[1]);
    let three = two.push(first[2]);
    let four = three.push(first[3]);
    assert(first =~= four.push(first[4]));
    lemma_lines(none, first[0].0, first[0].1);
    lemma_lines(one, first[1].0, first[1].1);
    lemma_lines(two, first[2].0, first[2].1);
    lemma_lines(three, first[3].0, first[3].1);
    lemma_lines(four, first[4].0, first[4].1);
    lemma_text_line(first[0].0, first[0].1);
    lemma_text_line(first[1].0, first[1].1);
    lemma_text_line(first[2].0, first[2].1);
    lemma_text_line(first[3].0, first[3].1);
    lemma_text_line(first[4].0, first[4].1);
    lemma_text_lines(first, entries);
    lemma_line_break();
    assert(request_bytes(host, entries) =~= request_text(host, entries));
}

/// What is sent to open a stream is the text of the request, with the headers in order.
pub proof fn law_request_text(host: &str, entries: Vec<(String, Vec<u8>)>, request: Vec<u8>)
    requires
        call_ensures(write_request, (host, &entries), request),
    ensures
        request@ == request_text(
            host@,
            Seq::new(entries@.len(), |i: int| (entries@[i].0@, entries@[i].1@)),
        ),
{
    let views = Seq::new(entries@.len(), |i: int| (entries@[i].0@, entries@[i].1@));
    assert(kvs::entry_views(entries@) =~= views);
    lemma_request_text(host@, views);
}

/// A signed request is sent as it is, with all its headers, to its host; unless it has none, or one of its headers
/// holds a byte that is neither visible nor a space or tab.
pub proof fn law_handshake(request: SignedRequest, written: Result<Vec<u8>, HandshakeError>)
    requires
        call_ensures(write_handshake, (&request,), written),
    ensures
        ({
            let headers = request@.headers;
            let hidden = exists|i: int, j: int|
                0 <= i < headers.len() && 0 <= j < headers[i].1.len() && #[trigger] headers[i].1[j] != 9 && !(32
                    <= headers[i].1[j] <= 126);
            match written {
                Ok(bytes) => request@.host matches Some(host) && !hidden && bytes@ == request_text(host, headers),
                Err(HandshakeError::NoHost) => request@.host is None,
                Err(HandshakeError::NotVisible) => request@.host is Some && hidden,
                Err(_) => false,
            }
        }),
{
    let headers = request@.headers;
    if let Some(host) = request@.host {
        lemma_request_text(host, headers);
    }
    if !all_visible(headers) {
        let (i, j) = choose|i: int, j: int|
            0 <= i < headers.len() && 0 <= j < headers[i].1.len() && !visible_byte(#[trigger] headers[i].1[j]);
        assert(headers[i].1[j] != 9 && !(32 <= headers[i].1[j] <= 126));
    }
}

/// A stream is open just where the service answers 200.
pub proof fn law_open(
    status: Option<Option<u16>>,
    open: Result<(), HandshakeError>,
    response: &[u8],
    answered: Result<(), HandshakeError>,
)
    requires
        call_ensures(check_status, (status,), open),
        call_ensures(check_response, (response,), answered),
    ensures
        open is Ok <==> status == Some(Some(200u16)),
        open == Err::<(), HandshakeError>(HandshakeError::Unparsable) <==> status is None,
        status is Some && status != Some(Some(200u16)) ==> open == Err::<(), HandshakeError>(
            HandshakeError::Refused,
        ),
        answered is Ok <==> parsed_status(response@) == Some(Some(200u16)),
        answered == Err::<(), HandshakeError>(HandshakeError::Unparsable) <==> parsed_status(response@) is None,
        answered is Err && parsed_status(response@) is Some ==> answered == Err::<(), HandshakeError>(
            HandshakeError::Refused,
        ),
{
}

/// Is this the first line break from a place on?
pub open spec fn is_first_break(bytes: Seq<u8>, from: int, at: int) -> bool {
    &&& from <= at
    &&& at + 2 <= bytes.len()
    &&& bytes[at] == 13
    &&& bytes[at + 1] == 10
    &&& forall|i: int| from <= i < at ==> (#[trigger] bytes[i] != 13 || bytes[i + 1] != 10)
}

/// Is there no line break from a place on?
pub open spec fn has_no_break(bytes: Seq<u8>, from: int) -> bool {
    forall|i: int| from <= i < bytes.len() - 1 ==> (#[trigger] bytes[i] != 13 || bytes[i + 1] != 10)
}

/// The first line break is the first line break.
proof fn lemma_is_first_break(bytes: Seq<u8>, from: int)
    requires
        0 <= from,
    ensures
        match line_break(bytes, from) {
            Some(at) => is_first_break(bytes, from, at),
            None => has_no_break(bytes, from),
        },
    decreases bytes.len() - from,
{
    if from < bytes.len() && !breaks_at(bytes, from) {
        lemma_is_first_break(bytes, from + 1);
    }
}

/// There is only one first line break.
proof fn lemma_one_first_break(bytes: Seq<u8>, from: int, at: int)
    requires
        0 <= from,
        is_first_break(bytes, from, at),
    ensures
        line_break(bytes, from) == Some(at),
{
    lemma_is_first_break(bytes, from);
    match line_break(bytes, from) {
        Some(other) => {
            if other < at {
                assert(bytes[other] == 13 && bytes[other + 1] == 10);
            } else if at < other {
                assert(bytes[at] == 13 && bytes[at + 1] == 10);
            }
        },
        None => {
            assert(bytes[at] == 13 && bytes[at + 1] == 10);
        },
    }
}

/// A piece of data that is not empty goes into a chunk that a receiver reads as this piece, whatever follows: the
/// length in hexadecimal digits, without zeros in front, a line break, the data, byte for byte, and a line break.
/// An empty piece goes into none.
pub proof fn law_chunk(data: &[u8], chunk: Option<Vec<u8>>, rest: Seq<u8>)
    requires
        call_ensures(frame_chunk, (data,), chunk),
    ensures
        data@.len() == 0 ==> chunk is None,
        data@.len() > 0 ==> (chunk matches Some(chunk) && {
            let bytes = chunk@ + rest;
            exists|end: int|
                {
                    &&& #[trigger] is_first_break(bytes, 0, end)
                    &&& end > 0
                    &&& bytes[0] != 0x30
                    &&& forall|i: int|
                        0 <= i < end ==> 0x30 <= #[trigger] bytes[i] <= 0x39 || 0x41 <= bytes[i] <= 0x46
                    &&& hex_value(bytes.take(end)) == data@.len()
                    &&& bytes.subrange(end + 2, end + 2 + data@.len()) == data@
                    &&& bytes.subrange(end + 2 + data@.len(), end + 4 + data@.len()) == seq![13u8, 10u8]
                    &&& bytes.skip(end + 4 + data@.len()) == rest
                }
        }),
{
    if data@.len() > 0 {
        let bytes = chunk->0@ + rest;
        let digits = upper_hex(data@.len());
        let end = digits.len() as int;
        law_hex(data@.len());
        law_chunk_reads_back(data@, rest);
        lemma_no_leading_zero(data@.len());
        lemma_line_break();
        assert(bytes.len() == end + 4 + data@.len() + rest.len());
        let first = bytes.subrange(end, end + 2);
        assert(first[0] == bytes[end] && first[1] == bytes[end + 1]);
        assert forall|i: int| 0 <= i < end implies 0x30 <= #[trigger] bytes[i] <= 0x39 || 0x41 <= bytes[i] <= 0x46 by {
            assert(is_upper_digit(bytes[i]));
        }
        assert(bytes[0] == digits[0]);
        assert(is_first_break(bytes, 0, end));
    }
}

/// A number above zero has no zeros in front.
proof fn lemma_no_leading_zero(value: nat)
    requires
        value > 0,
    ensures
        upper_hex(value).len() > 0,
        upper_hex(value)[0] != 0x30,
    decreases value,
{
    if value >= 16 {
        lemma_no_leading_zero(value / 16);
    }
}

/// The number that some decimal digits stand for, the first one the most significant.
pub open spec fn number_of(digits: Seq<u8>) -> int
    decreases digits.len(),
{
    if digits.len() == 0 {
        0
    } else {
        number_of(digits.drop_last()) * 10 + (digits.last() - 48)
    }
}

/// A number without the plus sign that it may have.
pub open spec fn without_plus(text: Seq<u8>) -> Seq<u8> {
    if text.len() > 0 && text[0] == 43 {
        text.skip(1)
    } else {
        text
    }
}

/// Is this a number in decimal digits, with or without a plus sign, that a size can hold?
pub open spec fn tells_size(text: Seq<u8>) -> bool {
    let digits = without_plus(text);
    &&& digits.len() > 0
    &&& forall|i: int| 0 <= i < digits.len() ==> 48 <= #[trigger] digits[i] <= 57
    &&& number_of(digits) <= usize::MAX
}

/// The two ways to tell a number.
proof fn lemma_number_of(digits: Seq<u8>)
    requires
        forall|i: int| 0 <= i < digits.len() ==> 48 <= #[trigger] digits[i] <= 57,
    ensures
        number_of(digits) == decimal_value(digits),
    decreases digits.len(),
{
    if digits.len() > 0 {
        assert(digits.last() == digits[digits.len() - 1]);
        assert forall|i: int| 0 <= i < digits.drop_last().len() implies 48 <= #[trigger] digits.drop_last()[i] <= 57 by {
            assert(digits.drop_last()[i] == digits[i]);
        }
        lemma_number_of(digits.drop_last());
    }
}

/// The two ways to say that a text is a size.
proof fn lemma_tells_size(text: Seq<u8>)
    ensures
        is_size(text) == tells_size(text),
{
    let digits = unsigned_digits(text);
    if forall|i: int| 0 <= i < digits.len() ==> 48 <= #[trigger] digits[i] <= 57 {
        lemma_number_of(digits);
    }
}

/// A message from the service is understood just where it is UTF-8, its first line is a size, and there is a second
/// line. The payload is that line, all of it and byte for byte; what comes behind it does not matter.
pub proof fn law_response(message: &[u8], payload: Result<Vec<u8>, ResponseError>, end: int, next: int)
    requires
        call_ensures(read_response, (message,), payload),
    ensures
        payload == Err::<Vec<u8>, ResponseError>(ResponseError::NotText) <==> !vstd::utf8::valid_utf8(message@),
        vstd::utf8::valid_utf8(message@) && has_no_break(message@, 0) ==> payload == Err::<Vec<u8>, ResponseError>(
            if tells_size(message@) {
                ResponseError::MissingPayload
            } else {
                ResponseError::Size
            },
        ),
        vstd::utf8::valid_utf8(message@) && is_first_break(message@, 0, end) && !tells_size(message@.take(end))
            ==> payload == Err::<Vec<u8>, ResponseError>(ResponseError::Size),
        vstd::utf8::valid_utf8(message@) && is_first_break(message@, 0, end) && tells_size(message@.take(end))
            && has_no_break(message@, end + 2) ==> (payload matches Ok(bytes) && bytes@ == message@.skip(end + 2)),
        vstd::utf8::valid_utf8(message@) && is_first_break(message@, 0, end) && tells_size(message@.take(end))
            && is_first_break(message@, end + 2, next) ==> (payload matches Ok(bytes) && bytes@ == message@.subrange(
            end + 2,
            next,
        )),
{
    let bytes = message@;
    lemma_is_first_break(bytes, 0);
    lemma_tells_size(bytes);
    if let Some(at) = line_break(bytes, 0) {
        assert(bytes[at] == 13 && bytes[at + 1] == 10);
    }
    if is_first_break(bytes, 0, end) {
        lemma_one_first_break(bytes, 0, end);
        lemma_tells_size(bytes.take(end));
        lemma_is_first_break(bytes, end + 2);
        if let Some(at) = line_break(bytes, end + 2) {
            assert(bytes[at] == 13 && bytes[at + 1] == 10);
        }
        if is_first_break(bytes, end + 2, next) {
            lemma_one_first_break(bytes, end + 2, next);
        }
    }
}

} // verus!
