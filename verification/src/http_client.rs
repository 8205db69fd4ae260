//! The rules of a minimal HTTP/1.1 client: URLs, requests, responses, redirects and retries.
//!
//! Features:
//!   * HTTP/1.1 GET with `Host`, `User-Agent`, `Accept-Encoding: identity`
//!   * `Content-Length` and `Transfer-Encoding: chunked` response bodies
//!   * Up to 5 redirect hops
//!   * 3 retries with exponential backoff
//!
//! Sockets and TLS are left to the caller, who hands in the bytes of a response and is told what
//! to do next.

use vstd::prelude::*;
use vstd::slice::slice_subrange;
use vstd::utf8::{decode_utf8, encode_utf8, valid_utf8};

use crate::bytes::{append_bytes, is_at, stands_at};
use crate::text::{
    as_text, before, begins_with, char_views, chars_of, decimal, decimal_text, find_char, find_last_char,
    find_part, first_place, is_text, joined, last_place, lines, lossy_text, lowered, next_part,
    parse_number, parsed, part_before, push_text, same_letters, same_text, split_lines,
    split_words, starts_with, string_of, to_lowered, trim, trimmed, utf8_text, words,
};
use crate::types::text_view;

verus! {

/// Per-request timeout in seconds (connect + read).
pub const TIMEOUT_SECS: u64 = 15;

/// Maximum redirect hops before giving up.
pub const MAX_REDIRECTS: u32 = 5;

/// How many times to retry a transiently-failed request.
pub const MAX_RETRIES: u32 = 3;

/// Base backoff in seconds (1s, 2s, 4s).
pub const BASE_BACKOFF_SECS: u64 = 1;

/// What the client calls itself.
pub open spec fn user_agent() -> Seq<char> {
    "synclyr2metadata-rs (https://github.com/newtonsart/synclyr2metadata)"@
}

/// An HTTP response: status code, header map and decoded body.
#[derive(Debug, Clone)]
pub struct HttpResponse {
    pub status_code: u16,
    /// Lowercased header name → value. Last value wins on duplicates.
    pub headers: Vec<(String, String)>,
    pub body: String,
}

/// What an [`HttpResponse`] holds.
pub struct Response {
    pub status: int,
    pub headers: Seq<(Seq<char>, Seq<char>)>,
    pub body: Seq<char>,
}

/// What a list of headers holds.
pub open spec fn header_views(headers: Seq<(String, String)>) -> Seq<(Seq<char>, Seq<char>)> {
    headers.map_values(|h: (String, String)| (h.0@, h.1@))
}

impl View for HttpResponse {
    type V = Response;

    open spec fn view(&self) -> Response {
        Response {
            status: self.status_code as int,
            headers: header_views(self.headers@),
            body: self.body@,
        }
    }
}

/// The value of the last header with a name, whatever the case of its letters.
pub open spec fn header_value(headers: Seq<(Seq<char>, Seq<char>)>, name: Seq<char>) -> Option<
    Seq<char>,
>
    decreases headers.len(),
{
    if headers.len() == 0 {
        None
    } else if lowered(headers.last().0) == lowered(name) {
        Some(headers.last().1)
    } else {
        header_value(headers.drop_last(), name)
    }
}

impl HttpResponse {
    /// Case-insensitive header lookup. The last value wins on duplicates.
    pub fn header(&self, name: &str) -> (r: Option<&str>)
        ensures
            match r {
                Some(v) => header_value(self@.headers, name@) == Some(v@),
                None => header_value(self@.headers, name@) is None,
            },
    {
        let ghost all = header_views(self.headers@);
        let mut i: usize = self.headers.len();
        assert(all.take(i as int) =~= all);
        while i > 0
            invariant
                i <= self.headers@.len(),
                all == header_views(self.headers@),
                header_value(all, name@) == header_value(all.take(i as int), name@),
            decreases i,
        {
            assert(all.take(i as int).last() == all[i - 1]);
            assert(all.take(i as int).drop_last() =~= all.take(i - 1));
            if same_letters(&self.headers[i - 1].0, name) {
                return Some(self.headers[i - 1].1.as_str());
            }
            i = i - 1;
        }
        assert(all.take(0) =~= seq![]);
        None
    }
}

/// Errors produced by the HTTP client.
#[derive(Debug, Clone)]
pub enum HttpError {
    /// URL was malformed or used an unsupported scheme.
    BadUrl(String),
    /// DNS resolution or TCP connection failure.
    Connect(String),
    /// TLS handshake / negotiation failure.
    Tls(String),
    /// The server closed early or sent malformed HTTP.
    Protocol(String),
    /// Reading the body exceeded the deadline.
    Timeout,
}

/// What an [`HttpError`] tells.
pub enum Trouble {
    BadUrl(Seq<char>),
    Connect(Seq<char>),
    Tls(Seq<char>),
    Protocol(Seq<char>),
    Timeout,
}

impl View for HttpError {
    type V = Trouble;

    open spec fn view(&self) -> Trouble {
        match self {
            HttpError::BadUrl(m) => Trouble::BadUrl(m@),
            HttpError::Connect(m) => Trouble::Connect(m@),
            HttpError::Tls(m) => Trouble::Tls(m@),
            HttpError::Protocol(m) => Trouble::Protocol(m@),
            HttpError::Timeout => Trouble::Timeout,
        }
    }
}

impl Trouble {
    /// The error as it is shown.
    pub open spec fn text(self) -> Seq<char> {
        match self {
            Trouble::BadUrl(m) => "bad url: "@ + m,
            Trouble::Connect(m) => "connect: "@ + m,
            Trouble::Tls(m) => "tls: "@ + m,
            Trouble::Protocol(m) => "protocol: "@ + m,
            Trouble::Timeout => "timeout"@,
        }
    }

    /// Whether the failure is worth retrying (transient network/TLS issues).
    pub open spec fn transient(self) -> bool {
        self is Connect || self is Tls || self is Timeout
    }
}

impl HttpError {
    /// The error as it is shown.
    pub fn message(&self) -> (r: String)
        ensures
            r@ == self@.text(),
    {
        match self {
            HttpError::BadUrl(m) => joined("bad url: ", m),
            HttpError::Connect(m) => joined("connect: ", m),
            HttpError::Tls(m) => joined("tls: ", m),
            HttpError::Protocol(m) => joined("protocol: ", m),
            HttpError::Timeout => "timeout".to_owned(),
        }
    }
}

/// Makes a protocol error.
fn protocol(message: &str) -> (r: HttpError)
    ensures
        r@ == Trouble::Protocol(message@),
{
    HttpError::Protocol(message.to_owned())
}

/// Makes a URL error.
fn bad_url(message: &str) -> (r: HttpError)
    ensures
        r@ == Trouble::BadUrl(message@),
{
    HttpError::BadUrl(message.to_owned())
}

/// Decides whether a failure is worth retrying (transient network/TLS issues).
pub fn is_retryable(e: &HttpError) -> (r: bool)
    ensures
        r == e@.transient(),
{
    match e {
        HttpError::Connect(_) | HttpError::Tls(_) | HttpError::Timeout => true,
        _ => false,
    }
}

/// The seconds to wait before a further attempt, after attempt number `attempt` (from zero on)
/// failed; none where no further attempt is due.
pub open spec fn backoff(attempt: int, trouble: Trouble) -> Option<int> {
    if attempt < MAX_RETRIES && trouble.transient() {
        Some(
            BASE_BACKOFF_SECS * (if attempt == 0 {
                1int
            } else if attempt == 1 {
                2
            } else {
                4
            }),
        )
    } else {
        None
    }
}

/// Decides whether, and after how many seconds, a request is tried again.
pub fn retry_delay(attempt: u32, e: &HttpError) -> (r: Option<u64>)
    ensures
        match r {
            Some(secs) => backoff(attempt as int, e@) == Some(secs as int),
            None => backoff(attempt as int, e@) is None,
        },
{
    if attempt < MAX_RETRIES && is_retryable(e) {
        let factor: u64 = if attempt == 0 {
            1
        } else if attempt == 1 {
            2
        } else {
            4
        };
        Some(BASE_BACKOFF_SECS * factor)
    } else {
        None
    }
}

/// The warning before a retry.
pub open spec fn retry_notice(trouble: Trouble, secs: int, attempt: int) -> Seq<char> {
    "warning: "@ + trouble.text() + ", retrying in "@ + decimal(secs as nat) + "s ("@ + decimal(
        (attempt + 1) as nat,
    ) + "/"@ + decimal(MAX_RETRIES as nat) + ")"@
}

/// Words the warning before a retry.
pub fn retry_warning(e: &HttpError, secs: u64, attempt: u32) -> (r: String)
    ensures
        r@ == retry_notice(e@, secs as int, attempt as int),
{
    let mut r = joined("warning: ", &e.message());
    push_text(&mut r, ", retrying in ");
    push_text(&mut r, &decimal_text(secs));
    push_text(&mut r, "s (");
    push_text(&mut r, &decimal_text(attempt as u64 + 1));
    push_text(&mut r, "/");
    push_text(&mut r, &decimal_text(MAX_RETRIES as u64));
    push_text(&mut r, ")");
    r
}

/// A host, with its port where that is not a default one.
pub open spec fn authority_of(host: Seq<char>, port: int) -> Seq<char> {
    if port == 443 || port == 80 {
        host
    } else {
        host + ":"@ + decimal(port as nat)
    }
}

/// The host as the `Host` header has it: the default ports of HTTP and HTTPS are not sent,
/// other ports must be there.
pub fn host_with_port(host: &str, port: u16) -> (r: String)
    ensures
        r@ == authority_of(host@, port as int),
{
    if port == 443 || port == 80 {
        host.to_owned()
    } else {
        let mut r = joined(host, ":");
        push_text(&mut r, &decimal_text(port as u64));
        r
    }
}

/// Parsed components of a URL. Only what HTTP/HTTPS GETs need.
#[derive(Debug)]
pub struct ParsedUrl {
    pub host: String,
    pub port: u16,
    pub path: String,
}

/// What a [`ParsedUrl`] holds.
pub struct Address {
    pub host: Seq<char>,
    pub port: int,
    pub path: Seq<char>,
}

impl View for ParsedUrl {
    type V = Address;

    open spec fn view(&self) -> Address {
        Address { host: self.host@, port: self.port as int, path: self.path@ }
    }
}

/// The host and the port in an authority, the port after the last colon.
pub open spec fn host_and_port(authority: Seq<char>, default_port: int) -> Result<
    (Seq<char>, int),
    Trouble,
> {
    match last_place(authority, ':') {
        Some(i) => {
            let text = authority.subrange(i + 1, authority.len() as int);
            match parsed(text, 10, u16::MAX as int) {
                Some(port) => Ok((authority.subrange(0, i), port)),
                None => Err(Trouble::BadUrl("invalid port '"@ + text + "'"@)),
            }
        },
        None => Ok((authority, default_port)),
    }
}

/// The components of an `http(s)://host[:port]/path?query` URL.
pub open spec fn address_of(url: Seq<char>) -> Result<Address, Trouble> {
    match next_part(url, 0, "://"@) {
        None => Err(Trouble::BadUrl("missing scheme"@)),
        Some(i) => {
            let scheme = url.subrange(0, i);
            let rest = url.subrange(i + 3, url.len() as int);
            if scheme != "https"@ && scheme != "http"@ {
                Err(Trouble::BadUrl("unsupported scheme '"@ + scheme + "'"@))
            } else {
                let default_port = if scheme == "https"@ {
                    443int
                } else {
                    80
                };
                let authority = before(rest, '/');
                let path = match first_place(rest, '/') {
                    Some(k) => rest.subrange(k, rest.len() as int),
                    None => "/"@,
                };
                match host_and_port(authority, default_port) {
                    Err(trouble) => Err(trouble),
                    Ok((host, port)) => if host.len() == 0 {
                        Err(Trouble::BadUrl("empty host"@))
                    } else {
                        Ok(Address { host, port, path })
                    },
                }
            }
        },
    }
}

/// Reads the host and the port in an authority.
fn split_authority(authority: &[char], default_port: u16) -> (r: Result<(String, u16), HttpError>)
    ensures
        match (r, host_and_port(authority@, default_port as int)) {
            (Ok((h, p)), Ok((host, port))) => h@ == host && p == port,
            (Err(e), Err(trouble)) => e@ == trouble,
            _ => false,
        },
{
    match find_last_char(authority, ':') {
        Some(i) => {
            let text = slice_subrange(authority, i + 1, authority.len());
            match parse_number(text, 10, u16::MAX as u64) {
                Some(port) => Ok((string_of(slice_subrange(authority, 0, i)), port as u16)),
                None => {
                    let mut m = joined("invalid port '", &string_of(text));
                    push_text(&mut m, "'");
                    Err(HttpError::BadUrl(m))
                },
            }
        },
        None => Ok((string_of(authority), default_port)),
    }
}

/// Parses an `http(s)://host[:port]/path?query` URL.
pub fn parse_url(url: &str) -> (r: Result<ParsedUrl, HttpError>)
    ensures
        match (r, address_of(url@)) {
            (Ok(p), Ok(a)) => p@ == a,
            (Err(e), Err(trouble)) => e@ == trouble,
            _ => false,
        },
{
    let chars = chars_of(url);
    proof {
        reveal_strlit("://");
    }
    let i: usize = match find_part(&chars, &chars_of("://")) {
        Some(i) => i,
        None => return Err(bad_url("missing scheme")),
    };
    let scheme = slice_subrange(&chars, 0, i);
    let rest = slice_subrange(&chars, i + 3, chars.len());
    let default_port: u16 = if is_text(scheme, "https") {
        443
    } else if is_text(scheme, "http") {
        80
    } else {
        let mut m = joined("unsupported scheme '", &string_of(scheme));
        push_text(&mut m, "'");
        return Err(HttpError::BadUrl(m));
    };
    let authority = part_before(rest, '/');
    let path = match find_char(rest, '/') {
        Some(k) => string_of(slice_subrange(rest, k, rest.len())),
        None => "/".to_owned(),
    };
    match split_authority(authority, default_port) {
        Err(e) => Err(e),
        Ok((host, port)) => if chars_of(&host).len() == 0 {
            Err(bad_url("empty host"))
        } else {
            Ok(ParsedUrl { host, port, path })
        },
    }
}

/// The URL that a `Location` stands for, seen from the URL `base`.
pub open spec fn resolved(base: Seq<char>, location: Seq<char>) -> Result<Seq<char>, Trouble> {
    if begins_with(location, "http://"@) || begins_with(location, "https://"@) {
        Ok(location)
    } else if begins_with(location, "//"@) {
        let scheme = match next_part(base, 0, "://"@) {
            Some(i) => base.subrange(0, i),
            None => base,
        };
        Ok(scheme + ":"@ + location)
    } else {
        match address_of(base) {
            Err(trouble) => Err(trouble),
            Ok(a) => {
                let site = "https://"@ + authority_of(a.host, a.port);
                if begins_with(location, "/"@) {
                    Ok(site + location)
                } else {
                    let dir = match last_place(a.path, '/') {
                        Some(i) => a.path.subrange(0, i),
                        None => seq![],
                    };
                    Ok(site + dir + "/"@ + location)
                }
            },
        }
    }
}

/// Resolves a possibly-relative redirect `Location` against the request URL.
pub fn resolve_relative(base: &str, location: &str) -> (r: Result<String, HttpError>)
    ensures
        match (r, resolved(base@, location@)) {
            (Ok(u), Ok(url)) => u@ == url,
            (Err(e), Err(trouble)) => e@ == trouble,
            _ => false,
        },
{
    let loc = chars_of(location);
    if starts_with(&loc, "http://") || starts_with(&loc, "https://") {
        return Ok(location.to_owned());
    }
    if starts_with(&loc, "//") {
        let chars = chars_of(base);
        let scheme = match find_part(&chars, &chars_of("://")) {
            Some(i) => slice_subrange(&chars, 0, i),
            None => &chars,
        };
        let mut r = string_of(scheme);
        push_text(&mut r, ":");
        push_text(&mut r, location);
        return Ok(r);
    }
    let parsed_base = match parse_url(base) {
        Ok(p) => p,
        Err(e) => return Err(e),
    };
    let mut r = joined("https://", &host_with_port(&parsed_base.host, parsed_base.port));
    if starts_with(&loc, "/") {
        push_text(&mut r, location);
        return Ok(r);
    }
    let path = chars_of(&parsed_base.path);
    if let Some(i) = find_last_char(&path, '/') {
        push_text(&mut r, &string_of(slice_subrange(&path, 0, i)));
    } else {
        assert(r@ + Seq::<char>::empty() =~= r@);
    }
    push_text(&mut r, "/");
    push_text(&mut r, location);
    Ok(r)
}

/// The text of a GET request.
pub open spec fn request_of(host: Seq<char>, port: int, path: Seq<char>) -> Seq<char> {
    "GET "@ + path + " HTTP/1.1\r\nHost: "@ + authority_of(host, port) + "\r\nUser-Agent: "@
        + user_agent()
        + "\r\nAccept: application/json\r\nAccept-Encoding: identity\r\nConnection: close\r\n\r\n"@
}

/// Builds a GET request.
pub fn build_request(host: &str, port: u16, path: &str) -> (r: String)
    ensures
        r@ == request_of(host@, port as int, path@),
{
    let mut r = joined("GET ", path);
    push_text(&mut r, " HTTP/1.1\r\nHost: ");
    push_text(&mut r, &host_with_port(host, port));
    push_text(&mut r, "\r\nUser-Agent: ");
    push_text(&mut r, "synclyr2metadata-rs (https://github.com/newtonsart/synclyr2metadata)");
    push_text(
        &mut r,
        "\r\nAccept: application/json\r\nAccept-Encoding: identity\r\nConnection: close\r\n\r\n",
    );
    r
}

/// The text of the server name that a host is for TLS, where it is a DNS name or an IP address.
pub uninterp spec fn server_name_text(host: Seq<char>) -> Option<Seq<char>>;

/// `rustls::pki_types::ServerName::try_from` accepts a host that is a syntactically valid DNS name
/// or an IP address; `ServerName::to_str` gives its text. Both depend on the host alone.
#[verifier::external_body]
fn server_name(host: &str) -> (r: Option<String>)
    ensures
        text_view(r) == server_name_text(host@),
{
    match rustls::pki_types::ServerName::try_from(host.to_owned()) {
        Ok(name) => Some(name.to_str().into_owned()),
        Err(_) => None,
    }
}

/// What a TLS handshake with a host starts from: the name of the server, or the error.
pub open spec fn name_outcome(name: Option<Seq<char>>) -> Result<Seq<char>, Trouble> {
    match name {
        Some(n) => Ok(n),
        None => Err(Trouble::Tls("invalid server name: invalid dns name"@)),
    }
}

/// Takes the outcome of looking at a host as a server name.
pub fn name_result(name: Option<String>) -> (r: Result<String, HttpError>)
    ensures
        match (r, name_outcome(text_view(name))) {
            (Ok(n), Ok(expected)) => n@ == expected,
            (Err(e), Err(trouble)) => e@ == trouble,
            _ => false,
        },
{
    match name {
        Some(n) => Ok(n),
        None => Err(HttpError::Tls("invalid server name: invalid dns name".to_owned())),
    }
}

/// Gives the server name with which TLS is to be spoken to a host.
pub fn tls_name(host: &str) -> (r: Result<String, HttpError>)
    ensures
        match (r, name_outcome(server_name_text(host@))) {
            (Ok(n), Ok(expected)) => n@ == expected,
            (Err(e), Err(trouble)) => e@ == trouble,
            _ => false,
        },
{
    name_result(server_name(host))
}

/// A carriage return and a line feed.
pub open spec fn line_end() -> Seq<u8> {
    seq![0x0du8, 0x0a]
}

/// The end of the headers: a line end and an empty line.
pub open spec fn header_end() -> Seq<u8> {
    seq![0x0du8, 0x0a, 0x0d, 0x0a]
}

/// The first place at or after `at` where `mark` stands in `b`.
pub open spec fn next_mark(b: Seq<u8>, at: int, mark: Seq<u8>) -> Option<int>
    decreases b.len() - at + 1,
{
    if at + mark.len() > b.len() {
        None
    } else if stands_at(b, at, mark) {
        Some(at)
    } else {
        next_mark(b, at + 1, mark)
    }
}

/// Finds the first place at or after `from` where `mark` stands in `b`.
fn find_mark(b: &[u8], from: usize, mark: &[u8]) -> (r: Option<usize>)
    requires
        from <= b.len(),
        mark@.len() > 0,
    ensures
        match r {
            Some(i) => next_mark(b@, from as int, mark@) == Some(i as int) && from <= i && i
                + mark@.len() <= b.len(),
            None => next_mark(b@, from as int, mark@) is None,
        },
{
    let mut at: usize = from;
    while at < b.len() && b.len() - at >= mark.len()
        invariant
            from <= at <= b.len(),
            mark@.len() > 0,
            next_mark(b@, from as int, mark@) == next_mark(b@, at as int, mark@),
        decreases b.len() - at,
    {
        if is_at(b, at, mark) {
            return Some(at);
        }
        at = at + 1;
    }
    None
}

/// What comes of decoding a body.
pub enum Decoded<T> {
    /// It was decoded.
    Whole(T),
    /// It is refused.
    Refused(Trouble),
    /// A chunk is announced that reaches past the largest offset.
    Overrun,
}

/// The text of a chunk size line, without extensions.
pub open spec fn size_text(line: Seq<u8>) -> Seq<char> {
    trimmed(before(decode_utf8(line), ';'))
}

/// The data of the chunks from `pos` on, up to an empty chunk or the end.
pub open spec fn chunks_at(data: Seq<u8>, pos: int) -> Decoded<Seq<u8>>
    decreases data.len() - pos,
{
    if pos < 0 || pos >= data.len() {
        Decoded::Whole(seq![])
    } else {
        match next_mark(data, pos, line_end()) {
            None => Decoded::Refused(Trouble::Protocol("chunk size line truncated"@)),
            Some(end) => {
                let line = data.subrange(pos, end);
                let from = end + 2;
                if !valid_utf8(line) {
                    Decoded::Refused(Trouble::Protocol("non-utf8 chunk size"@))
                } else {
                    match parsed(size_text(line), 16, usize::MAX as int) {
                        None => Decoded::Refused(
                            Trouble::Protocol("bad chunk size '"@ + size_text(line) + "'"@),
                        ),
                        Some(size) => if size == 0 {
                            Decoded::Whole(seq![])
                        } else if from + size > usize::MAX {
                            Decoded::Overrun
                        } else if from + size > data.len() {
                            Decoded::Refused(Trouble::Protocol("chunk body truncated"@))
                        } else {
                            let to = from + size;
                            let next = if stands_at(data, to, line_end()) {
                                to + 2
                            } else {
                                to
                            };
                            if next <= pos {
                                Decoded::Overrun
                            } else {
                                after_chunk(data.subrange(from, to), chunks_at(data, next))
                            }
                        },
                    }
                }
            },
        }
    }
}

/// `rest`, where there is one, with a chunk before it.
pub open spec fn after_chunk(chunk: Seq<u8>, rest: Decoded<Seq<u8>>) -> Decoded<Seq<u8>> {
    match rest {
        Decoded::Whole(data) => Decoded::Whole(chunk + data),
        Decoded::Refused(trouble) => Decoded::Refused(trouble),
        Decoded::Overrun => Decoded::Overrun,
    }
}

/// The text of a chunked body.
pub open spec fn chunked_text(data: Seq<u8>) -> Decoded<Seq<char>> {
    match chunks_at(data, 0) {
        Decoded::Whole(bytes) => if valid_utf8(bytes) {
            Decoded::Whole(decode_utf8(bytes))
        } else {
            Decoded::Refused(Trouble::Protocol("non-utf8 chunk body"@))
        },
        Decoded::Refused(trouble) => Decoded::Refused(trouble),
        Decoded::Overrun => Decoded::Overrun,
    }
}

/// Why a body was not decoded.
enum Undecoded {
    Refused(HttpError),
    Overrun,
}

/// Reads the size in a chunk size line.
fn chunk_size(line: &[u8]) -> (r: Result<usize, HttpError>)
    ensures
        match r {
            Ok(n) => valid_utf8(line@) && parsed(size_text(line@), 16, usize::MAX as int) == Some(
                n as int,
            ),
            Err(e) => if !valid_utf8(line@) {
                e@ == Trouble::Protocol("non-utf8 chunk size"@)
            } else {
                parsed(size_text(line@), 16, usize::MAX as int) is None && e@ == Trouble::Protocol(
                    "bad chunk size '"@ + size_text(line@) + "'"@,
                )
            },
        },
{
    let text = match utf8_text(line) {
        Some(text) => text,
        None => return Err(protocol("non-utf8 chunk size")),
    };
    let chars = chars_of(&text);
    let hex = trim(part_before(&chars, ';'));
    match parse_number(hex, 16, usize::MAX as u64) {
        Some(n) => Ok(n as usize),
        None => {
            let mut m = joined("bad chunk size '", &string_of(hex));
            push_text(&mut m, "'");
            Err(HttpError::Protocol(m))
        },
    }
}

/// Decodes the chunks of a body.
fn decode_chunks(data: &[u8]) -> (r: Result<Vec<u8>, Undecoded>)
    ensures
        match (r, chunks_at(data@, 0)) {
            (Ok(b), Decoded::Whole(bytes)) => b@ == bytes,
            (Err(Undecoded::Refused(e)), Decoded::Refused(trouble)) => e@ == trouble,
            (Err(Undecoded::Overrun), Decoded::Overrun) => true,
            _ => false,
        },
{
    let mark: Vec<u8> = vec![0x0d, 0x0a];
    assert(mark@ =~= line_end());
    let mut out: Vec<u8> = Vec::new();
    let mut pos: usize = 0;
    let n: usize = data.len();
    proof {
        if let Decoded::Whole(bytes) = chunks_at(data@, 0) {
            assert(out@ + bytes =~= bytes);
        }
    }
    while pos < n
        invariant
            pos <= n,
            n == data.len(),
            mark@ == line_end(),
            after_chunk(out@, chunks_at(data@, pos as int)) == chunks_at(data@, 0),
        decreases n - pos,
    {
        let ghost done = out@;
        assert(done + Seq::<u8>::empty() =~= done);
        let end: usize = match find_mark(data, pos, &mark) {
            Some(end) => end,
            None => return Err(Undecoded::Refused(protocol("chunk size line truncated"))),
        };
        let size: usize = match chunk_size(slice_subrange(data, pos, end)) {
            Ok(size) => size,
            Err(e) => return Err(Undecoded::Refused(e)),
        };
        let from: usize = end + 2;
        if size == 0 {
            return Ok(out);
        }
        if size > usize::MAX - from {
            return Err(Undecoded::Overrun);
        }
        if size > n - from {
            return Err(Undecoded::Refused(protocol("chunk body truncated")));
        }
        let to: usize = from + size;
        let chunk = slice_subrange(data, from, to);
        append_bytes(&mut out, chunk);
        pos = if is_at(data, to, &mark) {
            to + 2
        } else {
            to
        };
        proof {
            if let Decoded::Whole(bytes) = chunks_at(data@, pos as int) {
                assert(done + (chunk@ + bytes) =~= out@ + bytes);
            }
        }
    }
    assert(out@ + Seq::<u8>::empty() =~= out@);
    Ok(out)
}

/// Decodes an HTTP/1.1 chunked transfer-encoding body.
fn decode_body(data: &[u8]) -> (r: Result<String, Undecoded>)
    ensures
        match (r, chunked_text(data@)) {
            (Ok(s), Decoded::Whole(text)) => s@ == text,
            (Err(Undecoded::Refused(e)), Decoded::Refused(trouble)) => e@ == trouble,
            (Err(Undecoded::Overrun), Decoded::Overrun) => true,
            _ => false,
        },
{
    match decode_chunks(data) {
        Ok(bytes) => match utf8_text(&bytes) {
            Some(s) => Ok(s),
            None => Err(Undecoded::Refused(protocol("non-utf8 chunk body"))),
        },
        Err(e) => Err(e),
    }
}

/// Decodes an HTTP/1.1 chunked transfer-encoding body whose chunks stay below the largest offset.
pub fn decode_chunked(data: &[u8]) -> (r: Result<String, HttpError>)
    requires
        chunked_text(data@) !is Overrun,
    ensures
        match (r, chunked_text(data@)) {
            (Ok(s), Decoded::Whole(text)) => s@ == text,
            (Err(e), Decoded::Refused(trouble)) => e@ == trouble,
            _ => false,
        },
{
    match decode_body(data) {
        Ok(s) => Ok(s),
        Err(Undecoded::Refused(e)) => Err(e),
        Err(Undecoded::Overrun) => Err(HttpError::Timeout),
    }
}

/// The header in a line with a colon: the name before it in small letters, the value after it,
/// both without white space around them.
pub open spec fn header_of(line: Seq<char>) -> Option<(Seq<char>, Seq<char>)> {
    match first_place(line, ':') {
        Some(i) => Some(
            (
                lowered(trimmed(line.subrange(0, i))),
                trimmed(line.subrange(i + 1, line.len() as int)),
            ),
        ),
        None => None,
    }
}

/// The headers in lines; a line without a colon holds none.
pub open spec fn headers_in(list: Seq<Seq<char>>) -> Seq<(Seq<char>, Seq<char>)>
    decreases list.len(),
{
    if list.len() == 0 {
        seq![]
    } else {
        match header_of(list[0]) {
            Some(h) => seq![h] + headers_in(list.drop_first()),
            None => headers_in(list.drop_first()),
        }
    }
}

/// Whether a header announces a chunked body.
pub open spec fn announces_chunks(h: (Seq<char>, Seq<char>)) -> bool {
    h.0 == "transfer-encoding"@ && lowered(h.1) == lowered("chunked"@)
}

/// Whether any header announces a chunked body.
pub open spec fn chunked(headers: Seq<(Seq<char>, Seq<char>)>) -> bool {
    exists|i: int| 0 <= i < headers.len() && announces_chunks(#[trigger] headers[i])
}

/// The length of the body that the last `content-length` header tells, where it is a number.
pub open spec fn content_length(headers: Seq<(Seq<char>, Seq<char>)>) -> Option<int>
    decreases headers.len(),
{
    if headers.len() == 0 {
        None
    } else if headers.last().0 == "content-length"@ {
        parsed(headers.last().1, 10, usize::MAX as int)
    } else {
        content_length(headers.drop_last())
    }
}

/// The status code in a status line: its second word.
pub open spec fn status_of(line: Seq<char>) -> Option<int> {
    if words(line).len() >= 2 {
        parsed(words(line)[1], 10, u16::MAX as int)
    } else {
        None
    }
}

/// The text of a body, by what the headers say of it: chunked, of some length, or to the end.
pub open spec fn body_of(headers: Seq<(Seq<char>, Seq<char>)>, body: Seq<u8>) -> Decoded<Seq<char>> {
    if chunked(headers) {
        chunked_text(body)
    } else {
        match content_length(headers) {
            Some(n) => Decoded::Whole(
                as_text(
                    if n < body.len() {
                        body.subrange(0, n)
                    } else {
                        body
                    },
                ),
            ),
            None => Decoded::Whole(as_text(body)),
        }
    }
}

/// The response in a buffer.
pub open spec fn response_of(raw: Seq<u8>) -> Decoded<Response> {
    match next_mark(raw, 0, header_end()) {
        None => Decoded::Refused(Trouble::Protocol("no header terminator"@)),
        Some(split) => {
            let head = raw.subrange(0, split);
            let list = lines(decode_utf8(head));
            if !valid_utf8(head) {
                Decoded::Refused(Trouble::Protocol("non-utf8 headers"@))
            } else if list.len() == 0 {
                Decoded::Refused(Trouble::Protocol("empty header section"@))
            } else {
                match status_of(list[0]) {
                    None => Decoded::Refused(Trouble::Protocol("bad status line"@)),
                    Some(status) => {
                        let headers = headers_in(list.drop_first());
                        match body_of(headers, raw.subrange(split + 4, raw.len() as int)) {
                            Decoded::Whole(body) => Decoded::Whole(
                                Response { status, headers, body },
                            ),
                            Decoded::Refused(trouble) => Decoded::Refused(trouble),
                            Decoded::Overrun => Decoded::Overrun,
                        }
                    },
                }
            }
        },
    }
}

/// Reads the header in a line.
fn parse_header(line: &Vec<char>) -> (r: Option<(String, String)>)
    ensures
        match (r, header_of(line@)) {
            (Some(h), Some(header)) => h.0@ == header.0 && h.1@ == header.1,
            (None, None) => true,
            _ => false,
        },
{
    match find_char(line, ':') {
        Some(i) => {
            let name = to_lowered(trim(slice_subrange(line, 0, i)));
            let value = string_of(trim(slice_subrange(line, i + 1, line.len())));
            Some((string_of(&name), value))
        },
        None => None,
    }
}

/// Reads the headers in the lines after the first.
fn parse_headers(list: &Vec<Vec<char>>) -> (r: Vec<(String, String)>)
    requires
        list@.len() > 0,
    ensures
        header_views(r@) == headers_in(char_views(list@).drop_first()),
{
    let ghost all = char_views(list@).drop_first();
    let mut r: Vec<(String, String)> = Vec::new();
    let mut i: usize = 1;
    assert(all.skip(0) =~= all);
    assert(header_views(r@) + headers_in(all) =~= headers_in(all));
    while i < list.len()
        invariant
            1 <= i <= list@.len(),
            all == char_views(list@).drop_first(),
            header_views(r@) + headers_in(all.skip(i - 1)) == headers_in(all),
        decreases list@.len() - i,
    {
        let ghost rest = all.skip(i - 1);
        let ghost done = header_views(r@);
        assert(rest[0] == list@[i as int]@);
        assert(rest.drop_first() =~= all.skip(i as int));
        if let Some(h) = parse_header(&list[i]) {
            let ghost view = (h.0@, h.1@);
            r.push(h);
            assert(header_views(r@) =~= done.push(view));
            assert(done + (seq![view] + headers_in(all.skip(i as int))) =~= done.push(view)
                + headers_in(all.skip(i as int)));
        }
        i = i + 1;
    }
    assert(all.skip(i - 1) =~= seq![]);
    assert(header_views(r@) + Seq::<(Seq<char>, Seq<char>)>::empty() =~= header_views(r@));
    r
}

/// Tells whether any header announces a chunked body.
fn is_chunked(headers: &Vec<(String, String)>) -> (r: bool)
    ensures
        r == chunked(header_views(headers@)),
{
    let ghost all = header_views(headers@);
    let mut i: usize = 0;
    while i < headers.len()
        invariant
            i <= headers@.len(),
            all == header_views(headers@),
            forall|j: int| 0 <= j < i ==> !announces_chunks(#[trigger] all[j]),
        decreases headers@.len() - i,
    {
        assert(all[i as int] == (headers@[i as int].0@, headers@[i as int].1@));
        if same_text(&headers[i].0, "transfer-encoding") && same_letters(&headers[i].1, "chunked") {
            return true;
        }
        i = i + 1;
    }
    false
}

/// Reads the length of the body in the headers.
fn told_length(headers: &Vec<(String, String)>) -> (r: Option<usize>)
    ensures
        match r {
            Some(n) => content_length(header_views(headers@)) == Some(n as int),
            None => content_length(header_views(headers@)) is None,
        },
{
    let ghost all = header_views(headers@);
    let mut i: usize = headers.len();
    assert(all.take(i as int) =~= all);
    while i > 0
        invariant
            i <= headers@.len(),
            all == header_views(headers@),
            content_length(all) == content_length(all.take(i as int)),
        decreases i,
    {
        assert(all.take(i as int).last() == all[i - 1]);
        assert(all.take(i as int).drop_last() =~= all.take(i - 1));
        if same_text(&headers[i - 1].0, "content-length") {
            return match parse_number(&chars_of(&headers[i - 1].1), 10, usize::MAX as u64) {
                Some(n) => Some(n as usize),
                None => None,
            };
        }
        i = i - 1;
    }
    assert(all.take(0) =~= seq![]);
    None
}

/// Decodes a body by what the headers say of it.
fn read_body(headers: &Vec<(String, String)>, body: &[u8]) -> (r: Result<String, Undecoded>)
    ensures
        match (r, body_of(header_views(headers@), body@)) {
            (Ok(s), Decoded::Whole(text)) => s@ == text,
            (Err(Undecoded::Refused(e)), Decoded::Refused(trouble)) => e@ == trouble,
            (Err(Undecoded::Overrun), Decoded::Overrun) => true,
            _ => false,
        },
{
    if is_chunked(headers) {
        return decode_body(body);
    }
    match told_length(headers) {
        Some(n) => if n < body.len() {
            Ok(lossy_text(slice_subrange(body, 0, n)))
        } else {
            Ok(lossy_text(body))
        },
        None => Ok(lossy_text(body)),
    }
}

/// Reads the status code in a status line.
fn parse_status(line: &Vec<char>) -> (r: Option<u16>)
    ensures
        match r {
            Some(n) => status_of(line@) == Some(n as int),
            None => status_of(line@) is None,
        },
{
    let parts = split_words(line);
    if parts.len() < 2 {
        return None;
    }
    assert(char_views(parts@)[1] == parts@[1]@);
    match parse_number(&parts[1], 10, u16::MAX as u64) {
        Some(n) => Some(n as u16),
        None => None,
    }
}

/// Reads the response in a buffer, as far as offsets allow.
fn read_response(raw: &[u8]) -> (r: Result<HttpResponse, Undecoded>)
    ensures
        match (r, response_of(raw@)) {
            (Ok(resp), Decoded::Whole(expected)) => resp@ == expected,
            (Err(Undecoded::Refused(e)), Decoded::Refused(trouble)) => e@ == trouble,
            (Err(Undecoded::Overrun), Decoded::Overrun) => true,
            _ => false,
        },
{
    let mark: Vec<u8> = vec![0x0d, 0x0a, 0x0d, 0x0a];
    assert(mark@ =~= header_end());
    let split: usize = match find_mark(raw, 0, &mark) {
        Some(i) => i,
        None => return Err(Undecoded::Refused(protocol("no header terminator"))),
    };
    let head = match utf8_text(slice_subrange(raw, 0, split)) {
        Some(text) => text,
        None => return Err(Undecoded::Refused(protocol("non-utf8 headers"))),
    };
    let list = split_lines(&chars_of(&head));
    if list.len() == 0 {
        return Err(Undecoded::Refused(protocol("empty header section")));
    }
    assert(char_views(list@)[0] == list@[0]@);
    let status_code: u16 = match parse_status(&list[0]) {
        Some(n) => n,
        None => return Err(Undecoded::Refused(protocol("bad status line"))),
    };
    let headers = parse_headers(&list);
    match read_body(&headers, slice_subrange(raw, split + 4, raw.len())) {
        Ok(body) => Ok(HttpResponse { status_code, headers, body }),
        Err(e) => Err(e),
    }
}

/// Tells whether [`parse_response`] may be called.
pub fn can_parse_response(raw: &[u8]) -> (r: bool)
    ensures
        r == (response_of(raw@) !is Overrun),
{
    match read_response(raw) {
        Err(Undecoded::Overrun) => false,
        _ => true,
    }
}

/// Parses a raw HTTP/1.1 response buffer into status + headers + body.
pub fn parse_response(raw: &[u8]) -> (r: Result<HttpResponse, HttpError>)
    requires
        response_of(raw@) !is Overrun,
    ensures
        match (r, response_of(raw@)) {
            (Ok(resp), Decoded::Whole(expected)) => resp@ == expected,
            (Err(e), Decoded::Refused(trouble)) => e@ == trouble,
            _ => false,
        },
{
    match read_response(raw) {
        Ok(resp) => Ok(resp),
        Err(Undecoded::Refused(e)) => Err(e),
        Err(Undecoded::Overrun) => Err(HttpError::Timeout),
    }
}

/// Parses a raw HTTP/1.1 response buffer, or gives nothing where [`parse_response`] may not be
/// called.
pub fn parse_checked(raw: &[u8]) -> (r: Option<Result<HttpResponse, HttpError>>)
    ensures
        match (r, response_of(raw@)) {
            (Some(Ok(resp)), Decoded::Whole(expected)) => resp@ == expected,
            (Some(Err(e)), Decoded::Refused(trouble)) => e@ == trouble,
            (None, Decoded::Overrun) => true,
            _ => false,
        },
{
    if can_parse_response(raw) {
        Some(parse_response(raw))
    } else {
        None
    }
}

/// Whether a byte stands for itself in a URL: `A-Z a-z 0-9 - _ . ~`.
pub open spec fn unreserved(b: u8) -> bool {
    ||| 0x41 <= b <= 0x5a
    ||| 0x61 <= b <= 0x7a
    ||| 0x30 <= b <= 0x39
    ||| b == 0x2d
    ||| b == 0x5f
    ||| b == 0x2e
    ||| b == 0x7e
}

/// The upper-case hexadecimal digit with a value below sixteen.
pub open spec fn hex_char(d: int) -> char {
    if d < 10 {
        (0x30 + d) as char
    } else {
        (0x41 + d - 10) as char
    }
}

/// Bytes percent-encoded.
pub open spec fn percent_encoded(b: Seq<u8>) -> Seq<char>
    decreases b.len(),
{
    if b.len() == 0 {
        seq![]
    } else {
        percent_encoded(b.drop_last()) + (if unreserved(b.last()) {
            seq![b.last() as char]
        } else {
            seq!['%', hex_char(b.last() as int / 16), hex_char(b.last() as int % 16)]
        })
    }
}

/// Gives the upper-case hexadecimal digit with a value below sixteen.
fn hex_digit_char(d: u8) -> (r: char)
    requires
        d < 16,
    ensures
        r == hex_char(d as int),
{
    if d < 10 {
        (0x30 + d) as char
    } else {
        (0x41 + (d - 10)) as char
    }
}

/// Percent-encodes a string for use in a URL query parameter.
///
/// Encodes everything except unreserved characters (`A-Z a-z 0-9 - _ . ~`)
/// as `%HH`. Spaces become `%20` (not `+`), matching the behaviour of
/// libcurl's `curl_easy_escape`.
pub fn url_encode(input: &str) -> (r: String)
    ensures
        r@ == percent_encoded(encode_utf8(input@)),
{
    let bytes = input.as_bytes();
    let mut out = String::new();
    let mut i: usize = 0;
    assert(bytes@.take(0) =~= seq![]);
    while i < bytes.len()
        invariant
            i <= bytes@.len(),
            out@ == percent_encoded(bytes@.take(i as int)),
        decreases bytes@.len() - i,
    {
        let b: u8 = bytes[i];
        let ghost done = out@;
        assert(bytes@.take(i + 1).drop_last() =~= bytes@.take(i as int));
        assert(bytes@.take(i + 1).last() == b);
        if (0x41 <= b && b <= 0x5a) || (0x61 <= b && b <= 0x7a) || (0x30 <= b && b <= 0x39) || b
            == 0x2d || b == 0x5f || b == 0x2e || b == 0x7e {
            out.push(b as char);
            assert(out@ =~= done + seq![b as char]);
        } else {
            out.push('%');
            out.push(hex_digit_char(b / 16));
            out.push(hex_digit_char(b % 16));
            assert(out@ =~= done + seq!['%', hex_char(b as int / 16), hex_char(b as int % 16)]);
        }
        i = i + 1;
    }
    assert(bytes@.take(i as int) =~= bytes@);
    out
}

/// The bytes that a percent-encoded text stands for, read from its end.
pub open spec fn percent_decoded(s: Seq<char>) -> Seq<u8>
    decreases s.len(),
{
    let n = s.len() as int;
    if n == 0 {
        seq![]
    } else if n >= 3 && s[n - 3] == '%' {
        percent_decoded(s.subrange(0, n - 3)).push(
            (crate::text::digit_value(s[n - 2]) * 16 + crate::text::digit_value(s[n - 1])) as u8,
        )
    } else {
        percent_decoded(s.subrange(0, n - 1)).push(s[n - 1] as u8)
    }
}

/// Whether a character may stand in a query parameter as it is.
pub open spec fn url_safe(c: char) -> bool {
    c == '%' || ((c as u32) < 0x80 && unreserved(c as u8))
}

proof fn lemma_hex_char(d: int)
    requires
        0 <= d < 16,
    ensures
        crate::text::digit_value(hex_char(d)) == d,
        hex_char(d) != '%',
        url_safe(hex_char(d)),
        upper_hex(hex_char(d)),
{
}

/// An encoded text holds only characters that may stand in a query parameter, and stands for the
/// bytes it was made of.
#[verifier::spinoff_prover]
#[verifier::rlimit(40)]
pub proof fn law_url_round_trip(b: Seq<u8>)
    ensures
        percent_decoded(percent_encoded(b)) == b,
        forall|i: int|
            0 <= i < percent_encoded(b).len() ==> url_safe(#[trigger] percent_encoded(b)[i]),
    decreases b.len(),
{
    if b.len() > 0 {
        let part = b.drop_last();
        let last = b.last();
        let done = percent_encoded(part);
        let all = percent_encoded(b);
        let n = all.len() as int;
        law_url_round_trip(part);
        assert(part.push(last) =~= b);
        if unreserved(last) {
            assert(all =~= done.push(last as char));
            assert(all.subrange(0, n - 1) =~= done);
            assert(all[n - 1] == last as char);
            if n >= 3 && all[n - 3] == '%' {
                lemma_no_open_escape(part);
            }
        } else {
            lemma_hex_char(last as int / 16);
            lemma_hex_char(last as int % 16);
            assert(all.subrange(0, n - 3) =~= done);
            assert(all[n - 3] == '%');
            assert(all[n - 2] == hex_char(last as int / 16));
            assert(all[n - 1] == hex_char(last as int % 16));
        }
        assert forall|i: int| 0 <= i < n implies url_safe(#[trigger] all[i]) by {
            if i < done.len() {
                assert(all[i] == done[i]);
            }
        }
    }
}

/// Encoding goes part by part.
pub proof fn law_url_parts(a: Seq<u8>, b: Seq<u8>)
    ensures
        percent_encoded(a + b) == percent_encoded(a) + percent_encoded(b),
    decreases b.len(),
{
    if b.len() == 0 {
        assert(a + b =~= a);
        assert(percent_encoded(a) + percent_encoded(b) =~= percent_encoded(a));
    } else {
        let part = b.drop_last();
        law_url_parts(a, part);
        assert((a + b).drop_last() =~= a + part);
        assert((a + b).last() == b.last());
        assert(percent_encoded(a + b) =~= percent_encoded(a) + percent_encoded(b));
    }
}

/// Whether a character is an upper-case hexadecimal digit.
pub open spec fn upper_hex(c: char) -> bool {
    '0' <= c <= '9' || 'A' <= c <= 'F'
}

/// Each percent sign in an encoded text is followed by two upper-case hexadecimal digits.
pub proof fn law_url_escapes(b: Seq<u8>, i: int)
    requires
        0 <= i < percent_encoded(b).len(),
        percent_encoded(b)[i] == '%',
    ensures
        i + 2 < percent_encoded(b).len(),
        upper_hex(percent_encoded(b)[i + 1]),
        upper_hex(percent_encoded(b)[i + 2]),
    decreases b.len(),
{
    if b.len() > 0 {
        let last = b.last();
        let done = percent_encoded(b.drop_last());
        let all = percent_encoded(b);
        let n = done.len() as int;
        if i < n {
            assert(all[i] == done[i]);
            law_url_escapes(b.drop_last(), i);
            assert(all[i + 1] == done[i + 1] && all[i + 2] == done[i + 2]);
        } else if unreserved(last) {
            assert(all[n] == last as char);
        } else {
            lemma_hex_char(last as int / 16);
            lemma_hex_char(last as int % 16);
            assert(all[n] == '%');
            assert(all[n + 1] == hex_char(last as int / 16));
            assert(all[n + 2] == hex_char(last as int % 16));
        }
    }
}

/// An encoded text does not end in the middle of an escape.
#[verifier::spinoff_prover]
#[verifier::rlimit(40)]
proof fn lemma_no_open_escape(b: Seq<u8>)
    ensures
        ({
            let s = percent_encoded(b);
            let n = s.len() as int;
            &&& n >= 1 ==> s[n - 1] != '%'
            &&& n >= 2 ==> s[n - 2] != '%'
        }),
    decreases b.len(),
{
    if b.len() > 0 {
        let part = b.drop_last();
        let last = b.last();
        let done = percent_encoded(part);
        let s = percent_encoded(b);
        let n = s.len() as int;
        lemma_no_open_escape(part);
        if unreserved(last) {
            assert(s =~= done.push(last as char));
            assert(s[n - 1] == last as char);
            assert((last as char) != '%');
            if n >= 2 {
                assert(s[n - 2] == done[n - 2]);
            }
        } else {
            lemma_hex_char(last as int / 16);
            lemma_hex_char(last as int % 16);
            assert(s[n - 1] == hex_char(last as int % 16));
            assert(s[n - 2] == hex_char(last as int / 16));
        }
    }
}

/// A request that follows redirects.
#[derive(Debug)]
pub struct Fetch {
    /// The URL to be requested.
    pub url: String,
    /// How many redirects led to it.
    pub hops: u32,
}

impl Fetch {
    /// Whether the number of redirects is one that may occur.
    pub open spec fn wf(&self) -> bool {
        self.hops <= MAX_REDIRECTS
    }

    /// Starts with a URL.
    pub fn new(url: &str) -> (r: Self)
        ensures
            r.wf(),
            r.url@ == url@,
            r.hops == 0,
    {
        Fetch { url: url.to_owned(), hops: 0 }
    }
}

/// What is to be done after a response.
#[derive(Debug)]
pub enum Follow {
    /// The response is the final one.
    Done,
    /// Another URL is to be requested.
    Request(Fetch),
    /// The request has failed.
    Failed(HttpError),
}

/// What is to be done after a response to the request of `url`, which `hops` redirects led to: the
/// URL to be requested next, nothing, or an error.
pub open spec fn next_url(url: Seq<char>, hops: int, resp: Response) -> Result<
    Option<Seq<char>>,
    Trouble,
> {
    if !(300 <= resp.status < 400) {
        Ok(None)
    } else {
        match header_value(resp.headers, "location"@) {
            None => Err(
                Trouble::Protocol(
                    "redirect "@ + decimal(resp.status as nat) + " without Location"@,
                ),
            ),
            Some(location) => match resolved(url, location) {
                Err(trouble) => Err(trouble),
                Ok(next) => if hops < MAX_REDIRECTS {
                    Ok(Some(next))
                } else {
                    Err(Trouble::Protocol("too many redirects"@))
                },
            },
        }
    }
}

/// Decides what is to be done after a response. At most five redirects are followed.
pub fn follow(fetch: &Fetch, resp: &HttpResponse) -> (r: Follow)
    requires
        fetch.wf(),
    ensures
        match (r, next_url(fetch.url@, fetch.hops as int, resp@)) {
            (Follow::Done, Ok(None)) => true,
            (Follow::Request(next), Ok(Some(url))) => next.wf() && next.url@ == url && next.hops
                == fetch.hops + 1,
            (Follow::Failed(e), Err(trouble)) => e@ == trouble,
            _ => false,
        },
{
    if resp.status_code < 300 || resp.status_code >= 400 {
        return Follow::Done;
    }
    match resp.header("location") {
        None => {
            let mut m = joined("redirect ", &decimal_text(resp.status_code as u64));
            push_text(&mut m, " without Location");
            Follow::Failed(HttpError::Protocol(m))
        },
        Some(location) => match resolve_relative(&fetch.url, location) {
            Err(e) => Follow::Failed(e),
            Ok(url) => if fetch.hops < MAX_REDIRECTS {
                Follow::Request(Fetch { url, hops: fetch.hops + 1 })
            } else {
                Follow::Failed(protocol("too many redirects"))
            },
        },
    }
}

/// What comes of a request when the responses are those in a list, one after the other: the
/// number of the final response, or the error.
pub open spec fn followed(url: Seq<char>, hops: int, responses: Seq<Response>) -> Option<
    Result<int, Trouble>,
>
    decreases responses.len(),
{
    if responses.len() == 0 {
        None
    } else {
        match next_url(url, hops, responses[0]) {
            Ok(None) => Some(Ok(hops)),
            Err(trouble) => Some(Err(trouble)),
            Ok(Some(next)) => followed(next, hops + 1, responses.drop_first()),
        }
    }
}

/// However a server redirects, six requests settle the outcome.
pub proof fn law_redirects_end(url: Seq<char>, hops: int, responses: Seq<Response>)
    requires
        0 <= hops <= MAX_REDIRECTS,
        responses.len() >= MAX_REDIRECTS + 1 - hops,
    ensures
        followed(url, hops, responses) is Some,
        followed(url, hops, responses) matches Some(Ok(n)) ==> hops <= n <= MAX_REDIRECTS && !(300
            <= responses[n - hops].status < 400),
    decreases responses.len(),
{
    if let Ok(Some(next)) = next_url(url, hops, responses[0]) {
        law_redirects_end(next, hops + 1, responses.drop_first());
        if let Some(Ok(n)) = followed(next, hops + 1, responses.drop_first()) {
            assert(responses.drop_first()[n - hops - 1] == responses[n - hops]);
        }
    }
}

/// The seconds to wait before each further attempt when attempts from number `attempt` on fail
/// with these errors.
pub open spec fn delays(attempt: int, troubles: Seq<Trouble>) -> Seq<int>
    decreases troubles.len(),
{
    if troubles.len() == 0 {
        seq![]
    } else {
        match backoff(attempt, troubles[0]) {
            Some(secs) => seq![secs] + delays(attempt + 1, troubles.drop_first()),
            None => seq![],
        }
    }
}

/// A request is retried at most three times, after one, two and four seconds.
pub proof fn law_retries_end(troubles: Seq<Trouble>)
    ensures
        delays(0, troubles).len() <= 3,
        delays(0, troubles) == seq![1int, 2, 4].take(delays(0, troubles).len() as int),
{
    reveal_with_fuel(delays, 5);
    let all = seq![1int, 2, 4];
    let d = delays(0, troubles);
    assert(d.len() == 0 || d.len() == 1 || d.len() == 2 || d.len() == 3);
    assert(d =~= all.take(d.len() as int));
}

/// A number in hexadecimal digits.
pub open spec fn hex_digits(n: nat) -> Seq<char>
    decreases n,
{
    if n < 16 {
        seq![hex_char(n as int)]
    } else {
        hex_digits(n / 16).push(hex_char(n as int % 16))
    }
}

/// A chunk as it is sent: its size, a line end, its data and a line end.
pub open spec fn chunk_bytes(chunk: Seq<u8>) -> Seq<u8> {
    encode_utf8(hex_digits(chunk.len())) + line_end() + chunk + line_end()
}

/// A chunked body as it is sent: the chunks, and an empty one.
pub open spec fn chunk_stream(chunks: Seq<Seq<u8>>) -> Seq<u8>
    decreases chunks.len(),
{
    if chunks.len() == 0 {
        chunk_bytes(seq![])
    } else {
        chunk_bytes(chunks[0]) + chunk_stream(chunks.drop_first())
    }
}

/// Byte strings one after the other.
pub open spec fn concatenated(chunks: Seq<Seq<u8>>) -> Seq<u8>
    decreases chunks.len(),
{
    if chunks.len() == 0 {
        seq![]
    } else {
        chunks[0] + concatenated(chunks.drop_first())
    }
}

/// Whether a character is an upper-case hexadecimal digit.
pub open spec fn is_hex(c: char) -> bool {
    '0' <= c <= '9' || 'A' <= c <= 'F'
}

pub proof fn lemma_hex_digits(n: nat)
    ensures
        hex_digits(n).len() > 0,
        crate::text::number_of(hex_digits(n), 16) == n,
        forall|i: int| 0 <= i < hex_digits(n).len() ==> is_hex(#[trigger] hex_digits(n)[i]),
    decreases n,
{
    let s = hex_digits(n);
    if n < 16 {
        lemma_hex_char(n as int);
        assert(s.drop_last() =~= seq![]);
        assert(crate::text::number_of(s.drop_last(), 16) == 0);
    } else {
        lemma_hex_digits(n / 16);
        lemma_hex_char(n as int % 16);
        assert(s.drop_last() =~= hex_digits(n / 16));
        assert forall|i: int| 0 <= i < s.len() implies is_hex(#[trigger] s[i]) by {
            if i < s.len() - 1 {
                assert(s[i] == hex_digits(n / 16)[i]);
            }
        }
    }
}

/// A text of hexadecimal digits is read as the number it writes.
pub proof fn lemma_hex_read(n: nat)
    requires
        n <= usize::MAX,
    ensures
        valid_utf8(encode_utf8(hex_digits(n))),
        parsed(size_text(encode_utf8(hex_digits(n))), 16, usize::MAX as int) == Some(n as int),
{
    let s = hex_digits(n);
    lemma_hex_digits(n);
    crate::text::lemma_as_text(s);
    crate::text::lemma_first_place(s, ';');
    if let Some(i) = first_place(s, ';') {
        assert(is_hex(s[i]));
    }
    assert(before(s, ';') == s);
    assert(is_hex(s[0]) && is_hex(s[s.len() - 1]));
    assert(trimmed(s) == s);
    assert(crate::text::all_digits(s, 16)) by {
        assert forall|i: int| 0 <= i < s.len() implies crate::text::digit_value(#[trigger] s[i])
            < 16 by {
            assert(is_hex(s[i]));
        }
    }
}

/// A line is found up to its line end.
proof fn lemma_mark_found(b: Seq<u8>, pos: int, end: int)
    requires
        0 <= pos <= end,
        end + 2 <= b.len(),
        stands_at(b, end, line_end()),
        forall|k: int| pos <= k < end ==> #[trigger] b[k] != 0x0d,
    ensures
        next_mark(b, pos, line_end()) == Some(end),
    decreases end - pos,
{
    if pos < end {
        assert(b.subrange(pos, pos + 2)[0] == b[pos]);
        assert(!stands_at(b, pos, line_end()));
        lemma_mark_found(b, pos + 1, end);
    }
}

/// A chunk is decoded where it stands.
#[verifier::spinoff_prover]
#[verifier::rlimit(40)]
proof fn lemma_chunk_read(ahead: Seq<u8>, chunk: Seq<u8>, rest: Seq<u8>)
    requires
        (ahead + chunk_bytes(chunk) + rest).len() <= usize::MAX,
    ensures
        chunks_at(ahead + chunk_bytes(chunk) + rest, ahead.len() as int) == (if chunk.len() == 0 {
            Decoded::Whole(seq![])
        } else {
            after_chunk(
                chunk,
                chunks_at(
                    ahead + chunk_bytes(chunk) + rest,
                    (ahead.len() + chunk_bytes(chunk).len()) as int,
                ),
            )
        }),
{
    let b = ahead + chunk_bytes(chunk) + rest;
    let hex = hex_digits(chunk.len());
    let line = encode_utf8(hex);
    let pos = ahead.len() as int;
    let end = pos + line.len();
    let from = end + 2;
    let to = from + chunk.len();
    lemma_hex_digits(chunk.len());
    assert forall|i: int| 0 <= i < hex.len() implies #[trigger] hex[i] != '\r' by {
        assert(is_hex(hex[i]));
    }
    crate::text::lemma_utf8_lacks(hex, '\r');
    assert(b.subrange(end, end + 2) =~= line_end());
    assert forall|k: int| pos <= k < end implies #[trigger] b[k] != 0x0d by {
        assert(b[k] == line[k - pos]);
    }
    lemma_mark_found(b, pos, end);
    assert(b.subrange(pos, end) =~= line);
    lemma_hex_read(chunk.len());
    assert(b.subrange(from, to) =~= chunk);
    assert(b.subrange(to, to + 2) =~= line_end());
}

/// A body that is sent in chunks is decoded to the data of the chunks, whatever may follow it.
pub proof fn law_chunks_decoded(ahead: Seq<u8>, chunks: Seq<Seq<u8>>, rest: Seq<u8>)
    requires
        (ahead + chunk_stream(chunks) + rest).len() <= usize::MAX,
        forall|i: int| 0 <= i < chunks.len() ==> (#[trigger] chunks[i]).len() > 0,
    ensures
        chunks_at(ahead + chunk_stream(chunks) + rest, ahead.len() as int) == Decoded::Whole(
            concatenated(chunks),
        ),
    decreases chunks.len(),
{
    if chunks.len() == 0 {
        lemma_chunk_read(ahead, seq![], rest);
    } else {
        let first = chunk_bytes(chunks[0]);
        let others = chunks.drop_first();
        let b = ahead + chunk_stream(chunks) + rest;
        assert(b =~= ahead + first + (chunk_stream(others) + rest));
        assert(b =~= (ahead + first) + chunk_stream(others) + rest);
        lemma_chunk_read(ahead, chunks[0], chunk_stream(others) + rest);
        assert forall|i: int| 0 <= i < others.len() implies (#[trigger] others[i]).len() > 0 by {
            assert(others[i] == chunks[i + 1]);
        }
        law_chunks_decoded(ahead + first, others, rest);
    }
}

} // verus!
