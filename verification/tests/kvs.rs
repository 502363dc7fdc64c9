use kvs_streamer::kvs::{
    assemble, build_signed_request, build_signed_request_at, is_header_safe, KVSCredentials, KVSResponse,
    MissingVariable, RequestError, FIRST_SECOND, LAST_SECOND,
};
use kvs_streamer::streaming::wire::{
    check_response, check_status, frame_chunk, read_response, write_handshake, write_request, HandshakeError,
    ResponseError,
};

const ENDPOINT: &str = "https://s-1234abcd.kinesisvideo.us-west-2.amazonaws.com";

const HOST: &str = "s-1234abcd.kinesisvideo.us-west-2.amazonaws.com";

const ARN: &str = "arn:aws:kinesisvideo:us-west-2:123456789012:stream/demo/1700000000000";

const AUTHORIZATION: &str = "AWS4-HMAC-SHA256 Credential=AKIDEXAMPLE/20240102/us-west-2/kinesisvideo/aws4_request, \
SignedHeaders=host;x-amz-date;x-amzn-fragment-timecode-type;x-amzn-producer-start-timestamp;x-amzn-stream-arn, \
Signature=eb3627c202044fc9b9541284b2825cbfa742b42128e48a2e4692025a0e88e39a";

/// 2024-01-02T03:04:05Z
const SECONDS: i64 = 1_704_164_645;

fn credentials() -> KVSCredentials {
    KVSCredentials {
        key: "AKIDEXAMPLE".to_owned(),
        secret: "secret/example+key".to_owned(),
        region: "us-west-2".to_owned(),
        stream_name: "demo".to_owned(),
        stream_arn: ARN.to_owned(),
    }
}

fn entries(list: &[(&str, &str)]) -> Vec<(String, Vec<u8>)> {
    list.iter().map(|(name, value)| (name.to_string(), value.as_bytes().to_vec())).collect()
}

fn pairs(list: &[(&str, &str)]) -> Vec<(String, String)> {
    list.iter().map(|(name, value)| (name.to_string(), value.to_string())).collect()
}

fn error_of(credentials: &KVSCredentials, endpoint: &str, seconds: i64) -> Option<RequestError> {
    build_signed_request_at(credentials, endpoint, seconds, seconds).err()
}

#[test]
fn request_is_signed() {
    let request = build_signed_request_at(&credentials(), ENDPOINT, SECONDS, SECONDS).ok().unwrap();
    assert_eq!(request.host().map(String::as_str), Some(HOST));
    let expected = entries(&[
        ("x-amz-date", "20240102T030405Z"),
        ("authorization", AUTHORIZATION),
        ("x-amzn-producer-start-timestamp", "2024-01-02T03:04:05Z"),
        ("x-amzn-fragment-timecode-type", "RELATIVE"),
        ("x-amzn-stream-arn", ARN),
    ]);
    assert_eq!(request.entries(), expected);
}

#[test]
fn signed_request_is_written_out() {
    let request = build_signed_request_at(&credentials(), ENDPOINT, SECONDS, SECONDS).ok().unwrap();
    let expected = [
        "POST /putMedia HTTP/1.1\r\n",
        "Host: s-1234abcd.kinesisvideo.us-west-2.amazonaws.com\r\n",
        "Connection: keep-alive\r\n",
        "Accept: */*\r\n",
        "Accept-Encoding: deflate, gzip\r\n",
        "Transfer-Encoding: chunked\r\n",
        "x-amz-date: 20240102T030405Z\r\n",
        "authorization: ",
        AUTHORIZATION,
        "\r\n",
        "x-amzn-producer-start-timestamp: 2024-01-02T03:04:05Z\r\n",
        "x-amzn-fragment-timecode-type: RELATIVE\r\n",
        "x-amzn-stream-arn: arn:aws:kinesisvideo:us-west-2:123456789012:stream/demo/1700000000000\r\n",
        "\r\n",
    ]
    .concat();
    assert_eq!(write_handshake(&request), Ok(expected.into_bytes()));
}

#[test]
fn clock_is_read_for_a_request() {
    let request = build_signed_request(&credentials(), ENDPOINT).ok().unwrap();
    let entries = request.entries();
    assert_eq!(entries.len(), 5);
    assert_eq!(entries[2].1.len(), 20);
    assert_eq!(entries[2].1[19], b'Z');
    assert!(entries[2].1[..4].to_vec() >= b"2024".to_vec());
}

#[test]
fn endpoint_has_to_be_a_uri_with_a_host() {
    assert_eq!(error_of(&credentials(), "https://bad host", SECONDS), Some(RequestError::NotSignable));
    assert_eq!(error_of(&credentials(), "example.com", SECONDS), Some(RequestError::NotSignable));
    assert_eq!(error_of(&credentials(), "", SECONDS), Some(RequestError::NoAuthority));
    assert_eq!(error_of(&credentials(), "/path", SECONDS), Some(RequestError::NoAuthority));
    assert_eq!(error_of(&credentials(), "/ ", SECONDS), Some(RequestError::NotSignable));
}

#[test]
fn endpoint_may_have_a_port_and_a_path() {
    let request =
        build_signed_request_at(&credentials(), "http://localhost:8080/a/b", SECONDS, SECONDS).ok().unwrap();
    assert_eq!(request.host().map(String::as_str), Some("localhost"));
}

#[test]
fn time_has_to_be_in_the_calendar() {
    assert_eq!(error_of(&credentials(), ENDPOINT, LAST_SECOND + 1), Some(RequestError::ClockRange));
    assert_eq!(error_of(&credentials(), ENDPOINT, FIRST_SECOND - 1), Some(RequestError::ClockRange));
    assert_eq!(error_of(&credentials(), ENDPOINT, LAST_SECOND), None);
    assert_eq!(error_of(&credentials(), ENDPOINT, FIRST_SECOND), None);
    assert_eq!(error_of(&credentials(), ENDPOINT, 0), None);
    let late = build_signed_request_at(&credentials(), ENDPOINT, SECONDS, LAST_SECOND + 1);
    assert_eq!(late.err(), Some(RequestError::ClockRange));
    let last = build_signed_request_at(&credentials(), ENDPOINT, 0, LAST_SECOND).ok().unwrap();
    assert_eq!(last.entries()[0].1, b"19700101T000000Z".to_vec());
    assert_eq!(last.entries()[2].1, b"9999-12-31T23:59:59Z".to_vec());
}

#[test]
fn credentials_have_to_fit_headers() {
    let mut broken = credentials();
    broken.key = "AK\nID".to_owned();
    assert_eq!(error_of(&broken, ENDPOINT, SECONDS), Some(RequestError::Credentials));
    let mut broken = credentials();
    broken.region = "us\u{7f}".to_owned();
    assert_eq!(error_of(&broken, ENDPOINT, SECONDS), Some(RequestError::Credentials));
    let mut broken = credentials();
    broken.stream_arn = "arn\nx".to_owned();
    assert_eq!(error_of(&broken, ENDPOINT, SECONDS), Some(RequestError::Signing));
    broken.key = "AK\nID".to_owned();
    assert_eq!(error_of(&broken, ENDPOINT, SECONDS), Some(RequestError::Signing));
}

#[test]
fn headers_have_to_be_visible_to_be_written_out() {
    let mut accented = credentials();
    accented.stream_arn = "arn:\u{e9}".to_owned();
    let request = build_signed_request_at(&accented, ENDPOINT, SECONDS, SECONDS).ok().unwrap();
    assert_eq!(request.entries()[4].1, vec![b'a', b'r', b'n', b':', 0xc3, 0xa9]);
    assert_eq!(write_handshake(&request), Err(HandshakeError::NotVisible));
}

#[test]
fn request_is_put_together_in_order() {
    let signature = pairs(&[("x-amz-date", "d"), ("authorization", "a")]);
    let host = Some(Some("h".to_owned()));
    let headers = pairs(&[("x-amzn-stream-arn", "s"), ("authorization", "b")]);
    let request = assemble(Some(signature.clone()), host.clone(), &headers).ok().unwrap();
    let expected = entries(&[("x-amz-date", "d"), ("authorization", "b"), ("x-amzn-stream-arn", "s")]);
    assert_eq!(request.entries(), expected);
    assert_eq!(assemble(None, host.clone(), &headers).err(), Some(RequestError::Signing));
    assert_eq!(assemble(None, None, &headers).err(), Some(RequestError::Signing));
    assert_eq!(
        assemble(Some(signature.clone()), None, &headers).err(),
        Some(RequestError::StreamingUrl)
    );
    let unsafe_headers = pairs(&[("x-amzn-stream-arn", "a\r\nb")]);
    assert_eq!(
        assemble(Some(signature.clone()), host, &unsafe_headers).err(),
        Some(RequestError::Header)
    );
    let nowhere = assemble(Some(signature), Some(None), &headers).ok().unwrap();
    assert_eq!(nowhere.host(), None);
    assert_eq!(write_handshake(&nowhere), Err(HandshakeError::NoHost));
}

#[test]
fn some_text_fits_headers() {
    assert!(is_header_safe(""));
    assert!(is_header_safe("a b\t~\u{e9}"));
    assert!(!is_header_safe("a\u{7f}"));
    assert!(!is_header_safe("a\r"));
    assert!(!is_header_safe("\u{1f}"));
}

#[test]
fn first_missing_variable_is_named() {
    let load = |name: bool, arn: bool, secret: bool, key: bool, region: bool| {
        let value = |there: bool, value: &str| if there { Some(value.to_owned()) } else { None };
        KVSCredentials::from_env(
            value(name, "n"),
            value(arn, "a"),
            value(secret, "s"),
            value(key, "k"),
            value(region, "r"),
        )
    };
    assert_eq!(load(false, false, false, false, false).err(), Some(MissingVariable::StreamName));
    assert_eq!(load(true, false, false, false, false).err(), Some(MissingVariable::StreamArn));
    assert_eq!(load(true, true, false, false, false).err(), Some(MissingVariable::SecretKey));
    assert_eq!(load(true, true, true, false, false).err(), Some(MissingVariable::AccessKey));
    assert_eq!(load(true, true, true, true, false).err(), Some(MissingVariable::Region));
    let loaded = load(true, true, true, true, true).unwrap();
    assert_eq!(loaded.stream_name, "n");
    assert_eq!(loaded.stream_arn, "a");
    assert_eq!(loaded.secret, "s");
    assert_eq!(loaded.key, "k");
    assert_eq!(loaded.region, "r");
    assert_eq!(MissingVariable::StreamName.message(), "missing AWS_STREAM_NAME in env");
    assert_eq!(MissingVariable::StreamArn.name(), "AWS_STREAM_ARN");
    assert_eq!(MissingVariable::SecretKey.name(), "AWS_STREAM_SECRET_KEY");
    assert_eq!(MissingVariable::AccessKey.name(), "AWS_STREAM_ACCESS_KEY");
    assert_eq!(MissingVariable::Region.name(), "AWS_STREAM_REGION");
}

#[test]
fn response_has_an_event() {
    let response = KVSResponse { event_type: "BUFFERING".to_owned() };
    assert_eq!(response.event_type, "BUFFERING");
}

#[test]
fn request_without_signed_headers_is_written_out() {
    let request = write_request("h", &entries(&[("a", "1")]));
    let expected = "POST /putMedia HTTP/1.1\r\nHost: h\r\nConnection: keep-alive\r\nAccept: */*\r\n\
Accept-Encoding: deflate, gzip\r\nTransfer-Encoding: chunked\r\na: 1\r\n\r\n";
    assert_eq!(request, expected.as_bytes());
}

#[test]
fn only_two_hundred_opens_a_stream() {
    assert_eq!(check_status(None), Err(HandshakeError::Unparsable));
    assert_eq!(check_status(Some(None)), Err(HandshakeError::Refused));
    assert_eq!(check_status(Some(Some(204))), Err(HandshakeError::Refused));
    assert_eq!(check_status(Some(Some(200))), Ok(()));
    assert_eq!(check_response(b"HTTP/1.1 200 OK\r\nServer: x\r\n\r\n"), Ok(()));
    assert_eq!(check_response(b"HTTP/1.1 200 OK\r\nServer: "), Ok(()));
    assert_eq!(check_response(b"HTTP/1.1 403 Forbidden\r\n\r\n"), Err(HandshakeError::Refused));
    assert_eq!(check_response(b"HTTP/1."), Err(HandshakeError::Refused));
    assert_eq!(check_response(b"SMTP ready\r\n"), Err(HandshakeError::Unparsable));
    let many = "a: b\r\n".repeat(11);
    let crowded = format!("HTTP/1.1 200 OK\r\n{many}\r\n");
    assert_eq!(check_response(crowded.as_bytes()), Err(HandshakeError::Unparsable));
}

#[test]
fn data_is_sent_in_chunks() {
    assert_eq!(frame_chunk(&[]), None);
    assert_eq!(frame_chunk(b"hello"), Some(b"5\r\nhello\r\n".to_vec()));
    assert_eq!(frame_chunk(&[7; 10]).unwrap()[..3], *b"A\r\n");
    assert_eq!(frame_chunk(&[7; 0xabc]).unwrap()[..5], *b"ABC\r\n");
    assert_eq!(frame_chunk(&[7; 0x10000]).unwrap()[..7], *b"10000\r\n");
}

#[test]
fn chunks_can_be_read_back() {
    let parts: [&[u8]; 3] = [&[1; 17], b"\r\n", &[0xff; 300]];
    let mut stream: Vec<u8> = parts.iter().flat_map(|part| frame_chunk(part).unwrap()).collect();
    let mut read = Vec::new();
    while !stream.is_empty() {
        let end = stream.windows(2).position(|pair| pair == b"\r\n").unwrap();
        let digits = String::from_utf8(stream[..end].to_vec()).unwrap();
        let size = usize::from_str_radix(&digits, 16).unwrap();
        read.push(stream[end + 2..end + 2 + size].to_vec());
        assert_eq!(stream[end + 2 + size..end + 4 + size], *b"\r\n");
        stream.drain(..end + 4 + size);
    }
    assert_eq!(read, parts.map(|part| part.to_vec()));
}

#[test]
fn messages_have_a_size_and_a_payload() {
    assert_eq!(read_response(b"12\r\n{\"a\":1}\r\n0\r\n"), Ok(b"{\"a\":1}".to_vec()));
    assert_eq!(read_response(b"+7\r\npayload"), Ok(b"payload".to_vec()));
    assert_eq!(read_response(b"0\r\n"), Ok(Vec::new()));
    assert_eq!(read_response(b"18446744073709551615\r\n\r\nx"), Ok(Vec::new()));
    assert_eq!(read_response(b"00000000000000000000000000007\r\nx"), Ok(b"x".to_vec()));
    assert_eq!(read_response("1\r\n\u{e9}".as_bytes()), Ok("\u{e9}".as_bytes().to_vec()));
    assert_eq!(read_response(b"1\r\na\r\r\nb"), Ok(b"a\r".to_vec()));
}

#[test]
fn messages_can_be_broken() {
    assert_eq!(read_response(&[0x31, 0xff]), Err(ResponseError::NotText));
    assert_eq!(read_response(b""), Err(ResponseError::Size));
    assert_eq!(read_response(b"+\r\nx"), Err(ResponseError::Size));
    assert_eq!(read_response(b"-1\r\nx"), Err(ResponseError::Size));
    assert_eq!(read_response(b"1F\r\nx"), Err(ResponseError::Size));
    assert_eq!(read_response(b" 1\r\nx"), Err(ResponseError::Size));
    assert_eq!(read_response(b"18446744073709551616\r\nx"), Err(ResponseError::Size));
    assert_eq!(read_response(b"99999999999999999999999999\r\nx"), Err(ResponseError::Size));
    assert_eq!(read_response(b"7"), Err(ResponseError::MissingPayload));
    assert_eq!(read_response(b"7\n"), Err(ResponseError::Size));
}
