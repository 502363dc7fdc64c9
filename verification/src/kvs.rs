//! Kinesis Video Streams: credentials, and the signed request that opens a stream.
use aws_credential_types::Credentials;
use aws_sigv4::http_request::{self, SignableBody, SignableRequest, SigningError, SigningSettings};
use aws_sigv4::sign::v4::SigningParams;
use aws_smithy_runtime_api::client::identity::Identity;
use vstd::prelude::*;
use vstd::string::StringExecFns;

verus! {

/// The header that says when the producer started.
pub const PRODUCER_START_TIMESTAMP_HEADER: &'static str = "x-amzn-producer-start-timestamp";

/// The header that says how the times of fragments are meant.
pub const TIMECODE_TYPE_HEADER: &'static str = "x-amzn-fragment-timecode-type";

/// The header that names the stream.
pub const STREAM_ARN_HEADER: &'static str = "x-amzn-stream-arn";

/// The times of fragments count from the start of the producer.
pub const TIMECODE_TYPE: &'static str = "RELATIVE";

/// The service, as it is named in signatures.
pub const SERVICE_NAME: &'static str = "kinesisvideo";

/// The method of the request that opens a stream.
pub const METHOD: &'static str = "POST";

/// What the service sends while a stream is open.
#[derive(Debug)]
pub struct KVSResponse {
    /// What has happened.
    pub event_type: String,
}

/// What it takes to talk to the service.
#[derive(Debug)]
pub struct KVSCredentials {
    /// The access key.
    pub key: String,
    /// The secret that goes with the key.
    pub secret: String,
    /// The region that the stream is in.
    pub region: String,
    /// The name of the stream.
    pub stream_name: String,
    /// The resource name of the stream.
    pub stream_arn: String,
}

/// A variable that is not set, or is set to something that is no text.
#[derive(Clone, Copy, Debug, PartialEq, Eq, Structural)]
pub enum MissingVariable {
    /// `AWS_STREAM_NAME`
    StreamName,
    /// `AWS_STREAM_ARN`
    StreamArn,
    /// `AWS_STREAM_SECRET_KEY`
    SecretKey,
    /// `AWS_STREAM_ACCESS_KEY`
    AccessKey,
    /// `AWS_STREAM_REGION`
    Region,
}

impl MissingVariable {
    /// The name of the variable.
    pub open spec fn spec_name(self) -> Seq<char> {
        match self {
            MissingVariable::StreamName => "AWS_STREAM_NAME"@,
            MissingVariable::StreamArn => "AWS_STREAM_ARN"@,
            MissingVariable::SecretKey => "AWS_STREAM_SECRET_KEY"@,
            MissingVariable::AccessKey => "AWS_STREAM_ACCESS_KEY"@,
            MissingVariable::Region => "AWS_STREAM_REGION"@,
        }
    }

    /// The name of the variable.
    pub fn name(&self) -> (name: &'static str)
        ensures
            name@ == self.spec_name(),
    {
        match self {
            MissingVariable::StreamName => "AWS_STREAM_NAME",
            MissingVariable::StreamArn => "AWS_STREAM_ARN",
            MissingVariable::SecretKey => "AWS_STREAM_SECRET_KEY",
            MissingVariable::AccessKey => "AWS_STREAM_ACCESS_KEY",
            MissingVariable::Region => "AWS_STREAM_REGION",
        }
    }

    /// What to tell the user.
    pub fn message(&self) -> (message: String)
        ensures
            message@ == "missing "@ + self.spec_name() + " in env"@,
    {
        let mut message = "missing ".to_owned();
        message.append(self.name());
        message.append(" in env");
        message
    }
}

impl KVSCredentials {
    /// Credentials from the values of the environment's variables, of which each may be missing. The first
    /// one that is missing, in the order of the arguments, is the one that is named.
    pub fn from_env(
        stream_name: Option<String>,
        stream_arn: Option<String>,
        secret_key: Option<String>,
        access_key: Option<String>,
        region: Option<String>,
    ) -> (loaded: Result<KVSCredentials, MissingVariable>)
        ensures
            loaded == (if stream_name is None {
                Err::<KVSCredentials, MissingVariable>(MissingVariable::StreamName)
            } else if stream_arn is None {
                Err::<KVSCredentials, MissingVariable>(MissingVariable::StreamArn)
            } else if secret_key is None {
                Err::<KVSCredentials, MissingVariable>(MissingVariable::SecretKey)
            } else if access_key is None {
                Err::<KVSCredentials, MissingVariable>(MissingVariable::AccessKey)
            } else if region is None {
                Err::<KVSCredentials, MissingVariable>(MissingVariable::Region)
            } else {
                Ok::<KVSCredentials, MissingVariable>(
                    KVSCredentials {
                        key: access_key->0,
                        secret: secret_key->0,
                        region: region->0,
                        stream_name: stream_name->0,
                        stream_arn: stream_arn->0,
                    },
                )
            }),
    {
        let stream_name = stream_name.ok_or(MissingVariable::StreamName)?;
        let stream_arn = stream_arn.ok_or(MissingVariable::StreamArn)?;
        let secret = secret_key.ok_or(MissingVariable::SecretKey)?;
        let key = access_key.ok_or(MissingVariable::AccessKey)?;
        let region = region.ok_or(MissingVariable::Region)?;
        Ok(KVSCredentials { key, secret, region, stream_name, stream_arn })
    }
}

/// Can this byte stand in the value of a header?
pub open spec fn header_byte(byte: u8) -> bool {
    byte >= 32 && byte != 127 || byte == 9
}

/// Can this text be the value of a header?
pub open spec fn header_safe(text: Seq<char>) -> bool {
    let bytes = vstd::utf8::encode_utf8(text);
    forall|i: int| 0 <= i < bytes.len() ==> header_byte(#[trigger] bytes[i])
}

/// Can this text be the value of a header?
pub fn is_header_safe(text: &str) -> (safe: bool)
    ensures
        safe == header_safe(text@),
{
    let bytes = text.as_bytes();
    let mut i: usize = 0;
    while i < bytes.len()
        invariant
            i <= bytes@.len(),
            bytes@ == vstd::utf8::encode_utf8(text@),
            forall|j: int| 0 <= j < i ==> header_byte(#[trigger] bytes@[j]),
        decreases bytes.len() - i,
    {
        let byte: u8 = bytes[i];
        if !(byte >= 32 && byte != 127 || byte == 9) {
            assert(!header_byte(bytes@[i as int]));
            return false;
        }
        i += 1;
    }
    true
}

/// Is this the name of a header, in lower case?
pub open spec fn header_name(name: Seq<char>) -> bool {
    &&& 0 < name.len() < 1000
    &&& forall|i: int|
        #![trigger name[i]]
        0 <= i < name.len() ==> 'a' <= name[i] <= 'z' || name[i] == '-'
}

/// The headers of a request, in order: names, and the bytes of the values.
pub type Entries = Seq<(Seq<char>, Seq<u8>)>;

/// No header stands among these twice.
pub open spec fn names_distinct(entries: Entries) -> bool {
    forall|i: int, j: int|
        0 <= i < j < entries.len() ==> (#[trigger] entries[i]).0 != (#[trigger] entries[j]).0
}

/// Is there a header of this name?
pub open spec fn has_name(entries: Entries, name: Seq<char>) -> bool {
    exists|i: int| 0 <= i < entries.len() && (#[trigger] entries[i]).0 == name
}

/// The headers with one more. A header that was there keeps its place and gets the new value.
pub open spec fn with_header(entries: Entries, name: Seq<char>, value: Seq<char>) -> Entries {
    let bytes = vstd::utf8::encode_utf8(value);
    if has_name(entries, name) {
        entries.map_values(
            |entry: (Seq<char>, Seq<u8>)|
                if entry.0 == name {
                    (name, bytes)
                } else {
                    entry
                },
        )
    } else {
        entries.push((name, bytes))
    }
}

/// The headers with some more, one after the other.
pub open spec fn with_headers(entries: Entries, headers: Seq<(Seq<char>, Seq<char>)>) -> Entries
    decreases headers.len(),
{
    if headers.len() == 0 {
        entries
    } else {
        with_header(with_headers(entries, headers.drop_last()), headers.last().0, headers.last().1)
    }
}

/// Some headers, over mathematical values.
pub open spec fn header_views(headers: Seq<(String, String)>) -> Seq<(Seq<char>, Seq<char>)> {
    headers.map_values(|header: (String, String)| (header.0@, header.1@))
}

/// The value of a header.
#[verifier::external_type_specification]
#[verifier::external_body]
pub struct ExHeaderValue(http::HeaderValue);

/// Why a text cannot be the value of a header.
#[verifier::external_type_specification]
#[verifier::external_body]
pub struct ExInvalidHeaderValue(http::header::InvalidHeaderValue);

/// The headers of a request.
#[verifier::external_type_specification]
#[verifier::external_body]
#[verifier::reject_recursive_types(T)]
pub struct ExHeaderMap<T>(http::HeaderMap<T>);

/// The headers in a `http::HeaderMap`, in the order in which they are walked.
pub uninterp spec fn header_entries(headers: http::HeaderMap<http::HeaderValue>) -> Seq<(Seq<char>, Seq<u8>)>;

/// `http::HeaderMap::new`: no headers.
#[verifier::external_body]
fn new_headers() -> (headers: http::HeaderMap<http::HeaderValue>)
    ensures
        header_entries(headers) == Seq::<(Seq<char>, Seq<u8>)>::empty(),
{
    http::HeaderMap::new()
}

/// `http::HeaderValue::from_str` and `http::HeaderMap::insert`: a text that can be the value of a header is
/// put behind the others, or in the place of the header that has this name already. A text that cannot be
/// one is refused. A name in lower case stays as it is.
#[verifier::external_body]
fn insert_header(headers: &mut http::HeaderMap<http::HeaderValue>, name: &str, value: &str) -> (inserted: Result<
    (),
    http::header::InvalidHeaderValue,
>)
    requires
        header_name(name@),
        names_distinct(header_entries(*old(headers))),
        header_entries(*old(headers)).len() < 1000,
    ensures
        inserted is Ok <==> header_safe(value@),
        inserted is Ok ==> header_entries(*final(headers)) == with_header(
            header_entries(*old(headers)),
            name@,
            value@,
        ),
        inserted is Err ==> header_entries(*final(headers)) == header_entries(*old(headers)),
{
    let value = http::HeaderValue::from_str(value)?;
    let name = http::header::HeaderName::from_bytes(name.as_bytes()).unwrap();
    headers.insert(name, value);
    Ok(())
}

/// `http::HeaderMap::iter`: the headers in order.
#[verifier::external_body]
fn walk_headers(headers: &http::HeaderMap<http::HeaderValue>) -> (entries: Vec<(String, Vec<u8>)>)
    ensures
        entry_views(entries@) == header_entries(*headers),
{
    headers.iter().map(|(name, value)| (name.as_str().to_owned(), value.as_bytes().to_vec())).collect()
}

/// Some headers, over mathematical values.
pub open spec fn entry_views(entries: Seq<(String, Vec<u8>)>) -> Seq<(Seq<char>, Seq<u8>)> {
    entries.map_values(|entry: (String, Vec<u8>)| (entry.0@, entry.1@))
}

/// What `http::Uri` finds in a text: none where the text is no URI, and else the host, if there is an
/// authority.
pub uninterp spec fn uri_host(uri: Seq<char>) -> Option<Option<Seq<char>>>;

/// What [`uri_host`] says, over executable values.
pub open spec fn host_view(found: Option<Option<String>>) -> Option<Option<Seq<char>>> {
    match found {
        Some(Some(host)) => Some(Some(host@)),
        Some(None) => Some(None),
        None => None,
    }
}

/// `http::Uri`, parsed from a text, and the host of its `authority`.
#[verifier::external_body]
fn find_host(uri: &str) -> (found: Option<Option<String>>)
    ensures
        host_view(found) == uri_host(uri@),
{
    let parsed: Result<http::Uri, _> = uri.parse();
    parsed.ok().map(|uri| uri.authority().map(|authority| authority.host().to_owned()))
}

/// Is `SignableRequest::new` satisfied with this URI?
pub uninterp spec fn signable_uri(uri: Seq<char>) -> bool;

/// `aws_sigv4::http_request::SignableRequest::new`, on a request without headers. It fails where the URI is none,
/// whatever the method and the body are.
#[verifier::external_body]
fn is_signable(method: &str, uri: &str, body: &[u8]) -> (signable: bool)
    ensures
        signable == signable_uri(uri@),
{
    SignableRequest::new(method, uri, std::iter::empty(), SignableBody::Bytes(body)).is_ok()
}

/// The first second that a request can be signed in: the year -9999 begins.
pub const FIRST_SECOND: i64 = -377_705_116_800;

/// The last second that a request can be signed in: the year 9999 ends.
pub const LAST_SECOND: i64 = 253_402_300_799;

/// Can a request be signed in this second, counted from the start of 1970?
pub open spec fn in_calendar(seconds: i64) -> bool {
    FIRST_SECOND <= seconds <= LAST_SECOND
}

/// What a signature is made of.
pub struct SigningKey<'a> {
    /// The access key.
    pub key: &'a str,
    /// The secret that goes with the key.
    pub secret: &'a str,
    /// The region.
    pub region: &'a str,
    /// The service.
    pub service: &'a str,
}

/// A [`SigningKey`], over mathematical values.
pub struct KeyView {
    pub key: Seq<char>,
    pub secret: Seq<char>,
    pub region: Seq<char>,
    pub service: Seq<char>,
}

impl<'a> View for SigningKey<'a> {
    type V = KeyView;

    open spec fn view(&self) -> KeyView {
        KeyView {
            key: self.key@,
            secret: self.secret@,
            region: self.region@,
            service: self.service@,
        }
    }
}

/// Why a request could not be signed.
#[verifier::external_type_specification]
#[verifier::external_body]
pub struct ExSigningError(SigningError);

/// The headers that `aws_sigv4::http_request::sign` tells to add to a request with some headers and a body, at
/// a time in seconds since the start of 1970; none where it fails.
pub uninterp spec fn signature_headers(
    key: KeyView,
    seconds: i64,
    method: Seq<char>,
    uri: Seq<char>,
    headers: Seq<(Seq<char>, Seq<char>)>,
    body: Seq<u8>,
) -> Option<Seq<(Seq<char>, Seq<char>)>>;

/// Some borrowed headers, over mathematical values.
pub open spec fn pair_views(headers: Seq<(&str, &str)>) -> Seq<(Seq<char>, Seq<char>)> {
    headers.map_values(|header: (&str, &str)| (header.0@, header.1@))
}

/// Borrows headers.
fn borrow_pairs<'a>(headers: &'a Vec<(String, String)>) -> (pairs: Vec<(&'a str, &'a str)>)
    ensures
        pair_views(pairs@) == header_views(headers@),
{
    let mut pairs: Vec<(&'a str, &'a str)> = Vec::new();
    let mut i: usize = 0;
    while i < headers.len()
        invariant
            i <= headers.len(),
            pair_views(pairs@) == header_views(headers@).take(i as int),
        decreases headers.len() - i,
    {
        let (name, value) = &headers[i];
        let ghost before = pairs@;
        pairs.push((name.as_str(), value.as_str()));
        proof {
            assert(pair_views(pairs@) =~= pair_views(before).push((name@, value@)));
            assert(header_views(headers@).take(i + 1) =~= header_views(headers@).take(i as int).push(
                (name@, value@),
            ));
        }
        i += 1;
    }
    assert(header_views(headers@).take(i as int) =~= header_views(headers@));
    pairs
}

/// The headers of a signature, if there is one.
pub open spec fn signature_view(signed: Result<Vec<(String, String)>, SigningError>) -> Option<
    Seq<(Seq<char>, Seq<char>)>,
> {
    match signed {
        Ok(headers) => Some(header_views(headers@)),
        Err(_) => None,
    }
}

/// `aws_sigv4::http_request::sign`, with the default settings: the headers to add to a request.
/// They are the date and the authorization, in this order. The authorization repeats the access key, the
/// region and the service; apart from these, all of it can be the value of a header. The signer only works on
/// a URI with an authority, and on as many headers as a request can have.
#[verifier::external_body]
fn sign(
    key: &SigningKey,
    seconds: i64,
    method: &str,
    uri: &str,
    headers: Vec<(&str, &str)>,
    body: &[u8],
) -> (signed: Result<Vec<(String, String)>, SigningError>)
    requires
        in_calendar(seconds),
        uri@.len() > 0,
        uri@[0] != '/',
        uri@ != "*"@,
        headers@.len() < 1000,
    ensures
        signature_view(signed) == signature_headers(
            key@,
            seconds,
            method@,
            uri@,
            pair_views(headers@),
            body@,
        ),
        signed is Ok ==> signed->Ok_0@.len() == 2,
        signed is Ok ==> signed->Ok_0@[0].0@ == "x-amz-date"@ && signed->Ok_0@[1].0@ == "authorization"@,
        signed is Ok ==> header_safe(signed->Ok_0@[0].1@),
        signed is Ok ==> header_safe(signed->Ok_0@[1].1@) == (header_safe(key.key@) && header_safe(
            key.region@,
        ) && header_safe(key.service@)),
{
    let identity = Identity::from(Credentials::new(key.key, key.secret, None, None, ""));
    let time = chrono::DateTime::from_timestamp(seconds, 0).unwrap();
    let builder = SigningParams::builder().identity(&identity).region(key.region).name(key.service);
    let params = builder.time(time.into()).settings(SigningSettings::default()).build().unwrap();
    let request = SignableRequest::new(method, uri, headers.into_iter(), SignableBody::Bytes(body))?;
    let signed = http_request::sign(request, &params.into())?;
    let added = signed.output().headers();
    Ok(added.map(|(name, value)| (name.to_owned(), value.to_owned())).collect())
}

/// `chrono::Utc::now`: the seconds since the start of 1970. Nothing is known of what the clock shows.
#[verifier::external_body]
fn read_utc() -> i64 {
    chrono::Utc::now().timestamp()
}

/// A time in seconds since the start of 1970, as `chrono::DateTime::to_rfc3339_opts` writes it, to the
/// second and with `Z` for the time zone.
pub uninterp spec fn rfc3339(seconds: i64) -> Seq<char>;

/// `chrono::DateTime::to_rfc3339_opts`, to the second and with `Z` for the time zone. All of the text can be
/// the value of a header. In the years from 1970 on it has 20 characters, of which the last is `Z`.
#[verifier::external_body]
fn write_rfc3339(seconds: i64) -> (text: String)
    requires
        in_calendar(seconds),
    ensures
        text@ == rfc3339(seconds),
        header_safe(text@),
        seconds >= 0 ==> text@.len() == 20 && text@[19] == 'Z',
{
    let time = chrono::DateTime::from_timestamp(seconds, 0).unwrap();
    time.to_rfc3339_opts(chrono::SecondsFormat::Secs, true)
}

/// Why there is no signed request.
#[derive(Clone, Copy, Debug, PartialEq, Eq, Structural)]
pub enum RequestError {
    /// The endpoint does not make a URI that can be signed.
    NotSignable,
    /// The endpoint has no host in it.
    NoAuthority,
    /// The clock shows a time that no request can be signed in.
    ClockRange,
    /// The request could not be signed.
    Signing,
    /// The endpoint does not make a URI that can be requested.
    StreamingUrl,
    /// The access key or the region cannot stand in a header.
    Credentials,
    /// The resource name of the stream cannot stand in a header.
    Header,
}

/// A request that has been signed, as far as it takes to send it.
pub struct SignedRequest {
    /// The host that it goes to.
    host: Option<String>,
    /// Its headers.
    headers: http::HeaderMap<http::HeaderValue>,
}

/// A [`SignedRequest`], over mathematical values.
#[verifier::ext_equal]
pub struct RequestView {
    pub host: Option<Seq<char>>,
    pub headers: Entries,
}

impl View for SignedRequest {
    type V = RequestView;

    closed spec fn view(&self) -> RequestView {
        RequestView {
            host: match self.host {
                Some(host) => Some(host@),
                None => None,
            },
            headers: header_entries(self.headers),
        }
    }
}

impl SignedRequest {
    /// The host that the request goes to.
    pub fn host(&self) -> (host: Option<&String>)
        ensures
            match host {
                Some(host) => self@.host == Some(host@),
                None => self@.host is None,
            },
    {
        self.host.as_ref()
    }

    /// The headers, in order: names, and the bytes of the values.
    pub fn entries(&self) -> (entries: Vec<(String, Vec<u8>)>)
        ensures
            entry_views(entries@) == self@.headers,
    {
        walk_headers(&self.headers)
    }
}

/// Where an endpoint is asked to take a stream.
pub open spec fn put_media_uri(endpoint: Seq<char>) -> Seq<char> {
    endpoint + "/putMedia"@
}

/// The headers that are signed: when the producer started, how times are meant, and which stream it is.
pub open spec fn producer_headers(timestamp: Seq<char>, stream_arn: Seq<char>) -> Seq<(Seq<char>, Seq<char>)> {
    seq![
        (PRODUCER_START_TIMESTAMP_HEADER@, timestamp),
        (TIMECODE_TYPE_HEADER@, TIMECODE_TYPE@),
        (STREAM_ARN_HEADER@, stream_arn),
    ]
}

/// Can each of these be put into a request?
pub open spec fn all_safe(headers: Seq<(Seq<char>, Seq<char>)>) -> bool {
    forall|i: int| 0 <= i < headers.len() ==> header_safe((#[trigger] headers[i]).1)
}

/// Do all of these have proper names, and are there not too many?
pub open spec fn all_named(headers: Seq<(Seq<char>, Seq<char>)>) -> bool {
    &&& headers.len() < 100
    &&& forall|i: int| 0 <= i < headers.len() ==> header_name((#[trigger] headers[i]).0)
}

/// The signed request, given the headers of the signature and the host.
pub open spec fn assembled(
    signature: Option<Seq<(Seq<char>, Seq<char>)>>,
    host: Option<Option<Seq<char>>>,
    headers: Seq<(Seq<char>, Seq<char>)>,
) -> Result<RequestView, RequestError> {
    match (signature, host) {
        (None, _) => Err(RequestError::Signing),
        (_, None) => Err(RequestError::StreamingUrl),
        (Some(added), Some(host)) => {
            if all_safe(headers) {
                Ok(RequestView { host, headers: with_headers(with_headers(seq![], added), headers) })
            } else {
                Err(RequestError::Header)
            }
        },
    }
}

/// The signed request that opens a stream at `endpoint`, signed at one time and stamped with another, both
/// in seconds since the start of 1970; or why there is none.
pub open spec fn signed_request(
    key: KeyView,
    stream_arn: Seq<char>,
    endpoint: Seq<char>,
    seconds: i64,
    stamp: i64,
) -> Result<RequestView, RequestError> {
    let uri = put_media_uri(endpoint);
    let headers = producer_headers(rfc3339(stamp), stream_arn);
    let signature = signature_headers(key, seconds, METHOD@, uri, headers, seq![]);
    let host = uri_host(uri);
    if !signable_uri(uri) {
        Err(RequestError::NotSignable)
    } else if uri[0] == '/' {
        Err(RequestError::NoAuthority)
    } else if !in_calendar(seconds) || !in_calendar(stamp) {
        Err(RequestError::ClockRange)
    } else if signature is Some && host is Some && !(header_safe(key.key) && header_safe(key.region)) {
        Err(RequestError::Credentials)
    } else {
        assembled(signature, host, headers)
    }
}

/// Does the request carry its five headers: the two of the signature, and behind them the three that were
/// signed?
pub open spec fn carries(request: RequestView, timestamp: Seq<char>, stream_arn: Seq<char>) -> bool {
    let headers = request.headers;
    &&& headers.len() == 5
    &&& headers[0].0 == "x-amz-date"@
    &&& headers[1].0 == "authorization"@
    &&& headers[2] == ("x-amzn-producer-start-timestamp"@, vstd::utf8::encode_utf8(timestamp))
    &&& headers[3] == ("x-amzn-fragment-timecode-type"@, vstd::utf8::encode_utf8("RELATIVE"@))
    &&& headers[4] == ("x-amzn-stream-arn"@, vstd::utf8::encode_utf8(stream_arn))
}

/// Are the first two headers of the request those of a signature, with its values?
pub open spec fn bears(request: RequestView, signature: Option<Seq<(Seq<char>, Seq<char>)>>) -> bool {
    signature matches Some(added) && {
        &&& added.len() == 2
        &&& added[0].0 == "x-amz-date"@
        &&& added[1].0 == "authorization"@
        &&& request.headers.len() >= 2
        &&& request.headers[0] == (added[0].0, vstd::utf8::encode_utf8(added[0].1))
        &&& request.headers[1] == (added[1].0, vstd::utf8::encode_utf8(added[1].1))
    }
}

/// Is this the outcome, over executable values?
pub open spec fn is_outcome(
    made: Result<SignedRequest, RequestError>,
    outcome: Result<RequestView, RequestError>,
) -> bool {
    match made {
        Ok(request) => outcome == Ok::<RequestView, RequestError>(request@),
        Err(error) => outcome == Err::<RequestView, RequestError>(error),
    }
}

impl KVSCredentials {
    /// The part of the credentials that a request is signed with.
    pub open spec fn key_view(self) -> KeyView {
        KeyView {
            key: self.key@,
            secret: self.secret@,
            region: self.region@,
            service: SERVICE_NAME@,
        }
    }
}

/// One more header keeps the names distinct.
proof fn lemma_with_header(entries: Entries, name: Seq<char>, value: Seq<char>)
    requires
        names_distinct(entries),
    ensures
        names_distinct(with_header(entries, name, value)),
        with_header(entries, name, value).len() <= entries.len() + 1,
{
    let after = with_header(entries, name, value);
    assert forall|i: int, j: int| 0 <= i < j < after.len() implies (#[trigger] after[i]).0 != (
    #[trigger] after[j]).0 by {
        assert(after[i].0 == entries[i].0);
        if j < entries.len() {
            assert(after[j].0 == entries[j].0);
        }
    }
}

/// Puts headers into a request, up to the first whose value cannot stand there.
fn insert_headers(headers: &mut http::HeaderMap<http::HeaderValue>, added: &Vec<(String, String)>) -> (all: bool)
    requires
        all_named(header_views(added@)),
        names_distinct(header_entries(*old(headers))),
        header_entries(*old(headers)).len() < 500,
    ensures
        all == all_safe(header_views(added@)),
        all ==> header_entries(*final(headers)) == with_headers(
            header_entries(*old(headers)),
            header_views(added@),
        ),
        all ==> names_distinct(header_entries(*final(headers))),
        all ==> header_entries(*final(headers)).len() <= header_entries(*old(headers)).len() + added@.len(),
{
    let ghost views = header_views(added@);
    let ghost before = header_entries(*headers);
    let mut i: usize = 0;
    assert(views.take(0) =~= seq![]);
    while i < added.len()
        invariant
            i <= added.len(),
            views == header_views(added@),
            all_named(views),
            before.len() < 500,
            names_distinct(header_entries(*headers)),
            header_entries(*headers).len() <= before.len() + i,
            header_entries(*headers) == with_headers(before, views.take(i as int)),
            forall|j: int| 0 <= j < i ==> header_safe((#[trigger] views[j]).1),
        decreases added.len() - i,
    {
        let ghost middle = header_entries(*headers);
        assert(views[i as int] == (added@[i as int].0@, added@[i as int].1@));
        if insert_header(headers, added[i].0.as_str(), added[i].1.as_str()).is_err() {
            assert(!header_safe(views[i as int].1));
            return false;
        }
        proof {
            lemma_with_header(middle, views[i as int].0, views[i as int].1);
            assert(views.take(i + 1).drop_last() =~= views.take(i as int));
        }
        i += 1;
    }
    assert(views.take(i as int) =~= views);
    true
}

/// Puts a signed request together from the headers of the signature, which come first, the host, and the
/// headers that were signed.
pub fn assemble(
    signature: Option<Vec<(String, String)>>,
    host: Option<Option<String>>,
    headers: &Vec<(String, String)>,
) -> (made: Result<SignedRequest, RequestError>)
    requires
        signature is Some && host is Some ==> all_named(header_views(signature->0@)) && all_safe(
            header_views(signature->0@),
        ),
        all_named(header_views(headers@)),
    ensures
        is_outcome(
            made,
            assembled(
                match signature {
                    Some(added) => Some(header_views(added@)),
                    None => None,
                },
                host_view(host),
                header_views(headers@),
            ),
        ),
{
    let added = match signature {
        Some(added) => added,
        None => {
            return Err(RequestError::Signing);
        },
    };
    let host = match host {
        Some(host) => host,
        None => {
            return Err(RequestError::StreamingUrl);
        },
    };
    let mut map = new_headers();
    insert_headers(&mut map, &added);
    if !insert_headers(&mut map, headers) {
        return Err(RequestError::Header);
    }
    Ok(SignedRequest { host, headers: map })
}

/// Are all values among these such that they can stand in a header?
fn are_safe(headers: &Vec<(String, String)>) -> (safe: bool)
    ensures
        safe == all_safe(header_views(headers@)),
{
    let ghost views = header_views(headers@);
    let mut i: usize = 0;
    while i < headers.len()
        invariant
            i <= headers.len(),
            views == header_views(headers@),
            forall|j: int| 0 <= j < i ==> header_safe((#[trigger] views[j]).1),
        decreases headers.len() - i,
    {
        assert(views[i as int] == (headers@[i as int].0@, headers@[i as int].1@));
        if !is_header_safe(headers[i].1.as_str()) {
            assert(!header_safe(views[i as int].1));
            return false;
        }
        i += 1;
    }
    true
}

/// The names that are used here are proper names.
proof fn lemma_names(timestamp: Seq<char>, stream_arn: Seq<char>)
    ensures
        all_named(producer_headers(timestamp, stream_arn)),
        header_name("x-amz-date"@),
        header_name("authorization"@),
        header_safe(SERVICE_NAME@),
{
    reveal_strlit("x-amzn-producer-start-timestamp");
    reveal_strlit("x-amzn-fragment-timecode-type");
    reveal_strlit("x-amzn-stream-arn");
    reveal_strlit("x-amz-date");
    reveal_strlit("authorization");
    reveal_strlit("kinesisvideo");
    vstd::utf8::is_ascii_chars_encode_utf8(SERVICE_NAME@);
}

/// The signed request that opens a stream at an endpoint, signed at one time and stamped with another, both
/// in seconds since the start of 1970.
pub fn build_signed_request_at(kvs_credentials: &KVSCredentials, endpoint: &str, seconds: i64, stamp: i64) -> (made:
    Result<SignedRequest, RequestError>)
    ensures
        is_outcome(
            made,
            signed_request(
                kvs_credentials.key_view(),
                kvs_credentials.stream_arn@,
                endpoint@,
                seconds,
                stamp,
            ),
        ),
        made is Ok ==> carries(made->Ok_0@, rfc3339(stamp), kvs_credentials.stream_arn@),
        made is Ok ==> bears(
            made->Ok_0@,
            signature_headers(
                kvs_credentials.key_view(),
                seconds,
                METHOD@,
                put_media_uri(endpoint@),
                producer_headers(rfc3339(stamp), kvs_credentials.stream_arn@),
                seq![],
            ),
        ),
{
    let mut uri = endpoint.to_owned();
    uri.append("/putMedia");
    let body: Vec<u8> = Vec::new();
    assert(body@ =~= seq![]);
    if !is_signable(METHOD, uri.as_str(), body.as_slice()) {
        return Err(RequestError::NotSignable);
    }
    proof {
        reveal_strlit("/putMedia");
        reveal_strlit("*");
        assert(uri@.len() >= 9);
    }
    if vstd::string::StrSliceExecFns::get_char(uri.as_str(), 0) == '/' {
        return Err(RequestError::NoAuthority);
    }
    if seconds < FIRST_SECOND || seconds > LAST_SECOND || stamp < FIRST_SECOND || stamp > LAST_SECOND {
        return Err(RequestError::ClockRange);
    }
    let timestamp = write_rfc3339(stamp);
    let headers: Vec<(String, String)> = vec![
        (PRODUCER_START_TIMESTAMP_HEADER.to_owned(), timestamp),
        (TIMECODE_TYPE_HEADER.to_owned(), TIMECODE_TYPE.to_owned()),
        (STREAM_ARN_HEADER.to_owned(), kvs_credentials.stream_arn.clone()),
    ];
    let key = SigningKey {
        key: kvs_credentials.key.as_str(),
        secret: kvs_credentials.secret.as_str(),
        region: kvs_credentials.region.as_str(),
        service: SERVICE_NAME,
    };
    proof {
        assert(header_views(headers@) =~= producer_headers(rfc3339(stamp), kvs_credentials.stream_arn@));
        lemma_names(rfc3339(stamp), kvs_credentials.stream_arn@);
    }
    let pairs = borrow_pairs(&headers);
    assert(pair_views(pairs@).len() == 3);
    let signed = sign(&key, seconds, METHOD, uri.as_str(), pairs, body.as_slice());
    let host = find_host(uri.as_str());
    let signature = match signed {
        Ok(added) => {
            proof {
                let views = header_views(added@);
                assert(views[0] == (added@[0].0@, added@[0].1@));
                assert(views[1] == (added@[1].0@, added@[1].1@));
                assert(views =~= seq![("x-amz-date"@, views[0].1), ("authorization"@, views[1].1)]);
                let stream_arn = kvs_credentials.stream_arn@;
                if let Some(found) = host_view(host) {
                    if header_safe(stream_arn) {
                        law_request_headers(views[0].1, views[1].1, found, rfc3339(stamp), stream_arn);
                    } else {
                        assert(!header_safe(header_views(headers@)[2].1));
                    }
                }
            }
            if host.is_some() && !are_safe(&added) {
                return Err(RequestError::Credentials);
            }
            Some(added)
        },
        Err(_) => None,
    };
    assemble(signature, host, &headers)
}

/// The signed request that opens a stream at an endpoint, signed and stamped with the time that the clock
/// shows.
pub fn build_signed_request(kvs_credentials: &KVSCredentials, endpoint: &str) -> (made: Result<
    SignedRequest,
    RequestError,
>)
    ensures
        exists|seconds: i64, stamp: i64|
            {
                &&& is_outcome(
                    made,
                    #[trigger] signed_request(
                        kvs_credentials.key_view(),
                        kvs_credentials.stream_arn@,
                        endpoint@,
                        seconds,
                        stamp,
                    ),
                )
                &&& made is Ok ==> carries(made->Ok_0@, rfc3339(stamp), kvs_credentials.stream_arn@)
                &&& made is Ok ==> bears(
                    made->Ok_0@,
                    signature_headers(
                        kvs_credentials.key_view(),
                        seconds,
                        METHOD@,
                        put_media_uri(endpoint@),
                        producer_headers(rfc3339(stamp), kvs_credentials.stream_arn@),
                        seq![],
                    ),
                )
            },
{
    let seconds: i64 = read_utc();
    let stamp: i64 = read_utc();
    build_signed_request_at(kvs_credentials, endpoint, seconds, stamp)
}

/// A signed request has five headers: the two of the signature, and behind them the three that were signed.
pub proof fn law_request_headers(
    date: Seq<char>,
    authorization: Seq<char>,
    host: Option<Seq<char>>,
    timestamp: Seq<char>,
    stream_arn: Seq<char>,
)
    requires
        header_safe(timestamp),
        header_safe(stream_arn),
    ensures
        assembled(
            Some(seq![("x-amz-date"@, date), ("authorization"@, authorization)]),
            Some(host),
            producer_headers(timestamp, stream_arn),
        ) == Ok::<RequestView, RequestError>(
            RequestView {
                host,
                headers: seq![
                    ("x-amz-date"@, vstd::utf8::encode_utf8(date)),
                    ("authorization"@, vstd::utf8::encode_utf8(authorization)),
                    ("x-amzn-producer-start-timestamp"@, vstd::utf8::encode_utf8(timestamp)),
                    ("x-amzn-fragment-timecode-type"@, vstd::utf8::encode_utf8("RELATIVE"@)),
                    ("x-amzn-stream-arn"@, vstd::utf8::encode_utf8(stream_arn)),
                ],
            },
        ),
{
    reveal_strlit("x-amz-date");
    reveal_strlit("authorization");
    reveal_strlit("x-amzn-producer-start-timestamp");
    reveal_strlit("x-amzn-fragment-timecode-type");
    reveal_strlit("x-amzn-stream-arn");
    reveal_strlit("RELATIVE");
    reveal_with_fuel(with_headers, 4);
    vstd::utf8::is_ascii_chars_encode_utf8("RELATIVE"@);
    let added = seq![("x-amz-date"@, date), ("authorization"@, authorization)];
    let headers = producer_headers(timestamp, stream_arn);
    assert(added.drop_last() =~= seq![("x-amz-date"@, date)]);
    assert(added.drop_last().drop_last() =~= seq![]);
    assert(headers.drop_last() =~= seq![headers[0], headers[1]]);
    assert(headers.drop_last().drop_last() =~= seq![headers[0]]);
    assert(headers.drop_last().drop_last().drop_last() =~= seq![]);
    assert(all_safe(headers));
    let none: Entries = seq![];
    let one = none.push(("x-amz-date"@, vstd::utf8::encode_utf8(date)));
    assert(with_headers(none, added.drop_last()) == one);
    let two = one.push(("authorization"@, vstd::utf8::encode_utf8(authorization)));
    assert("x-amz-date"@.len() == 10);
    assert("authorization"@.len() == 13);
    assert(headers[0].0.len() == 31);
    assert(headers[1].0.len() == 29);
    assert(headers[2].0.len() == 17);
    assert(!has_name(one, "authorization"@));
    assert(with_headers(none, added) == two);
    let three = two.push((headers[0].0, vstd::utf8::encode_utf8(timestamp)));
    assert(!has_name(two, headers[0].0));
    assert(with_headers(two, headers.drop_last().drop_last()) == three);
    let four = three.push((headers[1].0, vstd::utf8::encode_utf8("RELATIVE"@)));
    assert(three[0].0.len() == 10 && three[1].0.len() == 13 && three[2].0.len() == 31);
    assert(!has_name(three, headers[1].0));
    assert(with_headers(two, headers.drop_last()) == four);
    assert(four[0] == three[0] && four[1] == three[1] && four[2] == three[2] && four[3].0.len() == 29);
    assert(!has_name(four, headers[2].0));
    let five = four.push((headers[2].0, vstd::utf8::encode_utf8(stream_arn)));
    assert(with_headers(two, headers) == five);
    assert(five =~= seq![
        ("x-amz-date"@, vstd::utf8::encode_utf8(date)),
        ("authorization"@, vstd::utf8::encode_utf8(authorization)),
        ("x-amzn-producer-start-timestamp"@, vstd::utf8::encode_utf8(timestamp)),
        ("x-amzn-fragment-timecode-type"@, vstd::utf8::encode_utf8("RELATIVE"@)),
        ("x-amzn-stream-arn"@, vstd::utf8::encode_utf8(stream_arn)),
    ]);
}

/// Is every byte of a text such that it can stand in the value of a header: a visible one, a space, a tab, or
/// part of a character beyond ASCII?
pub open spec fn stands_in_header(text: Seq<char>) -> bool {
    let bytes = vstd::utf8::encode_utf8(text);
    forall|i: int| 0 <= i < bytes.len() ==> #[trigger] bytes[i] == 9 || (32 <= bytes[i] && bytes[i] != 127)
}

/// A text can be the value of a header just where each of its bytes can.
pub proof fn law_header_value(text: &str, safe: bool)
    requires
        call_ensures(is_header_safe, (text,), safe),
    ensures
        safe == stands_in_header(text@),
{
    lemma_stands(text@);
}

/// The two ways to say that a text can be the value of a header.
proof fn lemma_stands(text: Seq<char>)
    ensures
        header_safe(text) == stands_in_header(text),
{
    let bytes = vstd::utf8::encode_utf8(text);
    if header_safe(text) {
        assert forall|i: int| 0 <= i < bytes.len() implies #[trigger] bytes[i] == 9 || (32 <= bytes[i] && bytes[i]
            != 127) by {
            assert(header_byte(bytes[i]));
        }
    }
}

/// Is this what comes of credentials and an endpoint, signed in one second and stamped with another? The request
/// goes to the host of the endpoint. It is signed for the path `/putMedia` there, with the key, the secret and the
/// region of the credentials, for the service `kinesisvideo`, as a POST without a body that has three headers:
/// when the producer started, that times are relative, and the name of the stream. It has the two headers of
/// that signature and behind them these three. There is one just where the URI can be signed and has an
/// authority and a host, both seconds are between the years -9999 and 9999, the signer signs, and all that goes
/// into headers can stand there.
pub open spec fn opens_stream(
    credentials: KVSCredentials,
    endpoint: Seq<char>,
    seconds: i64,
    stamp: i64,
    made: Result<SignedRequest, RequestError>,
) -> bool {
    let uri = endpoint + "/putMedia"@;
    let headers = seq![
        ("x-amzn-producer-start-timestamp"@, rfc3339(stamp)),
        ("x-amzn-fragment-timecode-type"@, "RELATIVE"@),
        ("x-amzn-stream-arn"@, credentials.stream_arn@),
    ];
    let key = KeyView {
        key: credentials.key@,
        secret: credentials.secret@,
        region: credentials.region@,
        service: "kinesisvideo"@,
    };
    let signature = signature_headers(key, seconds, "POST"@, uri, headers, seq![]);
    let in_range = -377_705_116_800 <= seconds <= 253_402_300_799 && -377_705_116_800 <= stamp <= 253_402_300_799;
    let signable = signable_uri(uri) && uri[0] != '/';
    match made {
        Ok(request) => {
            &&& signable
            &&& in_range
            &&& uri_host(uri) == Some(request@.host)
            &&& stands_in_header(credentials.key@)
            &&& stands_in_header(credentials.region@)
            &&& signature matches Some(added) && {
                &&& added.len() == 2
                &&& request@.headers == seq![
                    ("x-amz-date"@, vstd::utf8::encode_utf8(added[0].1)),
                    ("authorization"@, vstd::utf8::encode_utf8(added[1].1)),
                    ("x-amzn-producer-start-timestamp"@, vstd::utf8::encode_utf8(rfc3339(stamp))),
                    ("x-amzn-fragment-timecode-type"@, vstd::utf8::encode_utf8("RELATIVE"@)),
                    ("x-amzn-stream-arn"@, vstd::utf8::encode_utf8(credentials.stream_arn@)),
                ]
            }
        },
        Err(RequestError::NotSignable) => !signable_uri(uri),
        Err(RequestError::NoAuthority) => signable_uri(uri) && uri[0] == '/',
        Err(RequestError::ClockRange) => signable && !in_range,
        Err(RequestError::Signing) => signable && in_range && signature is None,
        Err(RequestError::StreamingUrl) => signable && in_range && signature is Some && uri_host(uri) is None,
        Err(RequestError::Credentials) => signable && in_range && signature is Some && uri_host(uri) is Some && !(
        stands_in_header(credentials.key@) && stands_in_header(credentials.region@)),
        Err(RequestError::Header) => signable && in_range && signature is Some && uri_host(uri) is Some
            && stands_in_header(credentials.key@) && stands_in_header(credentials.region@) && !(stands_in_header(
            rfc3339(stamp),
        ) && stands_in_header(credentials.stream_arn@)),
    }
}

/// What was put together is what opens a stream.
proof fn lemma_opens_stream(
    credentials: KVSCredentials,
    endpoint: Seq<char>,
    seconds: i64,
    stamp: i64,
    made: Result<SignedRequest, RequestError>,
)
    requires
        is_outcome(
            made,
            signed_request(credentials.key_view(), credentials.stream_arn@, endpoint, seconds, stamp),
        ),
        made is Ok ==> carries(made->Ok_0@, rfc3339(stamp), credentials.stream_arn@),
        made is Ok ==> bears(
            made->Ok_0@,
            signature_headers(
                credentials.key_view(),
                seconds,
                METHOD@,
                put_media_uri(endpoint),
                producer_headers(rfc3339(stamp), credentials.stream_arn@),
                seq![],
            ),
        ),
    ensures
        opens_stream(credentials, endpoint, seconds, stamp, made),
{
    let headers = producer_headers(rfc3339(stamp), credentials.stream_arn@);
    reveal_strlit("RELATIVE");
    vstd::utf8::is_ascii_chars_encode_utf8("RELATIVE"@);
    assert(header_safe("RELATIVE"@));
    lemma_stands(credentials.key@);
    lemma_stands(credentials.region@);
    lemma_stands(credentials.stream_arn@);
    lemma_stands(rfc3339(stamp));
    if header_safe(rfc3339(stamp)) && header_safe(credentials.stream_arn@) {
        assert(all_safe(headers));
    }
    if let Ok(request) = made {
        let added = signature_headers(
            credentials.key_view(),
            seconds,
            METHOD@,
            put_media_uri(endpoint),
            headers,
            seq![],
        )->0;
        assert(request@.headers =~= seq![
            ("x-amz-date"@, vstd::utf8::encode_utf8(added[0].1)),
            ("authorization"@, vstd::utf8::encode_utf8(added[1].1)),
            ("x-amzn-producer-start-timestamp"@, vstd::utf8::encode_utf8(rfc3339(stamp))),
            ("x-amzn-fragment-timecode-type"@, vstd::utf8::encode_utf8("RELATIVE"@)),
            ("x-amzn-stream-arn"@, vstd::utf8::encode_utf8(credentials.stream_arn@)),
        ]);
    }
}

/// The request is signed with the credentials, for their region, and carries the name of their stream.
pub proof fn law_request_is_signed(
    credentials: KVSCredentials,
    endpoint: &str,
    seconds: i64,
    stamp: i64,
    made: Result<SignedRequest, RequestError>,
)
    requires
        call_ensures(build_signed_request_at, (&credentials, endpoint, seconds, stamp), made),
    ensures
        opens_stream(credentials, endpoint@, seconds, stamp, made),
{
    lemma_opens_stream(credentials, endpoint@, seconds, stamp, made);
}

/// The same holds of a request that is signed and stamped now, whatever the clock shows.
pub proof fn law_request_is_signed_now(
    credentials: KVSCredentials,
    endpoint: &str,
    made: Result<SignedRequest, RequestError>,
)
    requires
        call_ensures(build_signed_request, (&credentials, endpoint), made),
    ensures
        exists|seconds: i64, stamp: i64| #[trigger] opens_stream(credentials, endpoint@, seconds, stamp, made),
{
    let (seconds, stamp) = choose|seconds: i64, stamp: i64|
        {
            &&& is_outcome(
                made,
                #[trigger] signed_request(
                    credentials.key_view(),
                    credentials.stream_arn@,
                    endpoint@,
                    seconds,
                    stamp,
                ),
            )
            &&& made is Ok ==> carries(made->Ok_0@, rfc3339(stamp), credentials.stream_arn@)
            &&& made is Ok ==> bears(
                made->Ok_0@,
                signature_headers(
                    credentials.key_view(),
                    seconds,
                    METHOD@,
                    put_media_uri(endpoint@),
                    producer_headers(rfc3339(stamp), credentials.stream_arn@),
                    seq![],
                ),
            )
        };
    lemma_opens_stream(credentials, endpoint@, seconds, stamp, made);
}

/// Each variable of the environment ends up in its place, and the first that is missing is named.
pub proof fn law_credentials_from_env(
    stream_name: Option<String>,
    stream_arn: Option<String>,
    secret_key: Option<String>,
    access_key: Option<String>,
    region: Option<String>,
    loaded: Result<KVSCredentials, MissingVariable>,
)
    requires
        call_ensures(
            KVSCredentials::from_env,
            (stream_name, stream_arn, secret_key, access_key, region),
            loaded,
        ),
    ensures
        match loaded {
            Ok(credentials) => {
                &&& stream_name matches Some(given) && credentials.stream_name@ == given@
                &&& stream_arn matches Some(given) && credentials.stream_arn@ == given@
                &&& secret_key matches Some(given) && credentials.secret@ == given@
                &&& access_key matches Some(given) && credentials.key@ == given@
                &&& region matches Some(given) && credentials.region@ == given@
            },
            Err(MissingVariable::StreamName) => stream_name is None,
            Err(MissingVariable::StreamArn) => stream_name is Some && stream_arn is None,
            Err(MissingVariable::SecretKey) => stream_name is Some && stream_arn is Some && secret_key is None,
            Err(MissingVariable::AccessKey) => stream_name is Some && stream_arn is Some && secret_key is Some
                && access_key is None,
            Err(MissingVariable::Region) => stream_name is Some && stream_arn is Some && secret_key is Some
                && access_key is Some && region is None,
        },
{
}

/// The user is told the name of the variable that is missing, and no two have the same name.
pub proof fn law_missing_variable(
    variable: MissingVariable,
    other: MissingVariable,
    name: &'static str,
    other_name: &'static str,
    message: String,
)
    requires
        call_ensures(MissingVariable::name, (&variable,), name),
        call_ensures(MissingVariable::name, (&other,), other_name),
        call_ensures(MissingVariable::message, (&variable,), message),
    ensures
        message@ == "missing "@ + name@ + " in env"@,
        name@ == other_name@ <==> variable == other,
        name@ == (match variable {
            MissingVariable::StreamName => "AWS_STREAM_NAME"@,
            MissingVariable::StreamArn => "AWS_STREAM_ARN"@,
            MissingVariable::SecretKey => "AWS_STREAM_SECRET_KEY"@,
            MissingVariable::AccessKey => "AWS_STREAM_ACCESS_KEY"@,
            MissingVariable::Region => "AWS_STREAM_REGION"@,
        }),
{
    reveal_strlit("AWS_STREAM_NAME");
    reveal_strlit("AWS_STREAM_ARN");
    reveal_strlit("AWS_STREAM_SECRET_KEY");
    reveal_strlit("AWS_STREAM_ACCESS_KEY");
    reveal_strlit("AWS_STREAM_REGION");
    assert("AWS_STREAM_NAME"@.len() == 15);
    assert("AWS_STREAM_ARN"@.len() == 14);
    assert("AWS_STREAM_SECRET_KEY"@.len() == 21);
    assert("AWS_STREAM_ACCESS_KEY"@.len() == 21);
    assert("AWS_STREAM_REGION"@.len() == 17);
    assert("AWS_STREAM_SECRET_KEY"@[11] == 'S');
    assert("AWS_STREAM_ACCESS_KEY"@[11] == 'A');
}

/// Headers with names that are not there yet are put behind the others, in order.
proof fn lemma_all_new(entries: Entries, headers: Seq<(Seq<char>, Seq<char>)>)
    requires
        forall|i: int, j: int|
            0 <= i < entries.len() && 0 <= j < headers.len() ==> (#[trigger] entries[i]).0 != (
            #[trigger] headers[j]).0,
        forall|i: int, j: int|
            0 <= i < j < headers.len() ==> (#[trigger] headers[i]).0 != (#[trigger] headers[j]).0,
    ensures
        with_headers(entries, headers) == entries + Seq::new(
            headers.len(),
            |i: int| (headers[i].0, vstd::utf8::encode_utf8(headers[i].1)),
        ),
    decreases headers.len(),
{
    let added = Seq::new(headers.len(), |i: int| (headers[i].0, vstd::utf8::encode_utf8(headers[i].1)));
    if headers.len() == 0 {
        assert(entries + added =~= entries);
    } else {
        let rest = headers.drop_last();
        let last = headers.last();
        assert(last == headers[headers.len() - 1]);
        assert forall|i: int, j: int| 0 <= i < entries.len() && 0 <= j < rest.len() implies (
        #[trigger] entries[i]).0 != (#[trigger] rest[j]).0 by {
            assert(rest[j] == headers[j]);
        }
        assert forall|i: int, j: int| 0 <= i < j < rest.len() implies (#[trigger] rest[i]).0 != (
        #[trigger] rest[j]).0 by {
            assert(rest[i] == headers[i] && rest[j] == headers[j]);
        }
        lemma_all_new(entries, rest);
        let before = with_headers(entries, rest);
        assert(!has_name(before, last.0)) by {
            if has_name(before, last.0) {
                let i = choose|i: int| 0 <= i < before.len() && (#[trigger] before[i]).0 == last.0;
                if i < entries.len() {
                    assert(before[i] == entries[i]);
                } else {
                    assert(before[i].0 == headers[i - entries.len()].0);
                }
            }
        }
        assert(before.push((last.0, vstd::utf8::encode_utf8(last.1))) =~= entries + added);
    }
}

/// A request that is put together has the headers of the signature and then the others, all of them in order and
/// with their values, and goes to the host.
pub proof fn law_assembled(
    added: Vec<(String, String)>,
    host: Option<String>,
    headers: Vec<(String, String)>,
    made: Result<SignedRequest, RequestError>,
)
    requires
        call_ensures(assemble, (Some(added), Some(host), &headers), made),
        forall|i: int, j: int|
            0 <= i < j < (added@ + headers@).len() ==> (#[trigger] (added@ + headers@)[i]).0@ != (
            #[trigger] (added@ + headers@)[j]).0@,
        forall|i: int| 0 <= i < headers@.len() ==> stands_in_header((#[trigger] headers@[i]).1@),
    ensures
        made matches Ok(request) && {
            let all = added@ + headers@;
            &&& request@.headers == Seq::new(
                all.len(),
                |i: int| (all[i].0@, vstd::utf8::encode_utf8(all[i].1@)),
            )
            &&& match host {
                Some(host) => request@.host == Some(host@),
                None => request@.host is None,
            }
        },
{
    let all = added@ + headers@;
    let first = header_views(added@);
    let second = header_views(headers@);
    let none: Entries = seq![];
    assert forall|i: int| 0 <= i < second.len() implies header_safe((#[trigger] second[i]).1) by {
        assert(stands_in_header(headers@[i].1@));
        lemma_stands(second[i].1);
    }
    assert forall|i: int, j: int| 0 <= i < j < first.len() implies (#[trigger] first[i]).0 != (
    #[trigger] first[j]).0 by {
        assert(all[i].0@ != all[j].0@);
    }
    assert forall|i: int, j: int| 0 <= i < j < second.len() implies (#[trigger] second[i]).0 != (
    #[trigger] second[j]).0 by {
        assert(all[first.len() + i].0@ != all[first.len() + j].0@);
    }
    lemma_all_new(none, first);
    let middle = with_headers(none, first);
    assert forall|i: int, j: int| 0 <= i < middle.len() && 0 <= j < second.len() implies (
    #[trigger] middle[i]).0 != (#[trigger] second[j]).0 by {
        assert(middle[i].0 == all[i].0@);
        assert(second[j].0 == all[first.len() + j].0@);
    }
    lemma_all_new(middle, second);
    let request = made->Ok_0;
    assert(request@.headers =~= Seq::new(all.len(), |i: int| (all[i].0@, vstd::utf8::encode_utf8(all[i].1@))));
}

/// A request that cannot be put together says why: there is no signature, or no host, or a header that cannot stand
/// in a request.
pub proof fn law_not_assembled(
    signature: Option<Vec<(String, String)>>,
    host: Option<Option<String>>,
    headers: Vec<(String, String)>,
    made: Result<SignedRequest, RequestError>,
)
    requires
        call_ensures(assemble, (signature, host, &headers), made),
    ensures
        ({
            let unsafe_header = exists|i: int| 0 <= i < headers@.len() && !stands_in_header((#[trigger] headers@[i]).1@);
            match made {
                Ok(_) => signature is Some && host is Some && !unsafe_header,
                Err(RequestError::Signing) => signature is None,
                Err(RequestError::StreamingUrl) => signature is Some && host is None,
                Err(RequestError::Header) => signature is Some && host is Some && unsafe_header,
                Err(_) => false,
            }
        }),
{
    let views = header_views(headers@);
    assert forall|i: int| 0 <= i < headers@.len() implies stands_in_header((#[trigger] headers@[i]).1@)
        == header_safe(views[i].1) by {
        lemma_stands(views[i].1);
    }
    if !all_safe(views) {
        let i = choose|i: int| 0 <= i < views.len() && !header_safe((#[trigger] views[i]).1);
        assert(!stands_in_header(headers@[i].1@));
    }
}

/// A request tells the host that it goes to, and all its headers in order.
pub proof fn law_request_parts(request: SignedRequest, host: Option<&String>, entries: Vec<(String, Vec<u8>)>)
    requires
        call_ensures(SignedRequest::host, (&request,), host),
        call_ensures(SignedRequest::entries, (&request,), entries),
    ensures
        match host {
            Some(host) => request@.host == Some(host@),
            None => request@.host is None,
        },
        entries@.len() == request@.headers.len(),
        forall|i: int|
            #![trigger entries@[i]]
            0 <= i < entries@.len() ==> entries@[i].0@ == request@.headers[i].0 && entries@[i].1@
                == request@.headers[i].1,
{
    let views = entry_views(entries@);
    assert(views.len() == entries@.len());
    assert forall|i: int|
        #![trigger entries@[i]]
        0 <= i < entries@.len() implies entries@[i].0@ == request@.headers[i].0 && entries@[i].1@
        == request@.headers[i].1 by {
        assert(views[i] == (entries@[i].0@, entries@[i].1@));
    }
}

} // verus!
