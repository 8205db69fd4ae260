//! What is requested over HTTP, and what is read from the response.

use vstd::prelude::*;
use vstd::utf8::{encode_utf8, valid_utf8};

use crate::bytes::stands_at;
use crate::http_client::{
    address_of, authority_of, backoff, chunk_stream, chunked, chunked_text, chunks_at, concatenated,
    content_length, header_end, header_of, header_value, headers_in, hex_digits, host_and_port,
    line_end, next_mark, next_url, percent_encoded, request_of, resolved, response_of, size_text,
    status_of, Address, Decoded, HttpResponse, ParsedUrl, Response, Trouble,
};
use crate::laws::formats::{lemma_spelled, spells};
use crate::laws::text::{
    all_white, law_decimal, law_decimal_read_back, law_first_place, law_first_word, law_last_place,
    law_line, law_next_part, law_trimmed, lemma_encode_parts, one_line, tight,
};
use crate::text::{before, decimal, first_place, is_white, lines, lowered, next_part, parsed, words};

verus! {

/// A header that was read: a name and a value.
pub type Header = (Seq<char>, Seq<char>);

/// A header as it is sent: a name, and a value with white space on its sides or without.
pub struct Line {
    pub name: Seq<char>,
    pub left: Seq<char>,
    pub value: Seq<char>,
    pub right: Seq<char>,
}

/// Whether a header can be sent on a line of its own: no line ends, no colon in the name, and no
/// white space at the ends of name and value.
pub open spec fn writable(h: Line) -> bool {
    &&& h.name.len() > 0
    &&& one_line(h.name) && one_line(h.left) && one_line(h.value) && one_line(h.right)
    &&& tight(h.name) && tight(h.value)
    &&& all_white(h.left) && all_white(h.right)
    &&& forall|i: int| 0 <= i < h.name.len() ==> #[trigger] h.name[i] != ':'
}

/// The line of a header.
pub open spec fn header_line(h: Line) -> Seq<char> {
    h.name + seq![':'] + (h.left + h.value + h.right)
}

/// The lines of headers, with a line end before each.
pub open spec fn header_lines(headers: Seq<Line>) -> Seq<char>
    decreases headers.len(),
{
    if headers.len() == 0 {
        seq![]
    } else {
        seq!['\r', '\n'] + header_line(headers[0]) + header_lines(headers.drop_first())
    }
}

/// What a server sends: a status line, headers, an empty line and a body.
pub open spec fn sent(first: Seq<char>, headers: Seq<Line>, body: Seq<u8>) -> Seq<u8> {
    encode_utf8(first + header_lines(headers)) + seq![0x0du8, 0x0a, 0x0d, 0x0a] + body
}

/// Whether a line is a status line that tells this status: a word, the number, and whatever may
/// follow behind white space.
pub open spec fn tells_status(
    first: Seq<char>,
    version: Seq<char>,
    status: nat,
    reason: Seq<char>,
) -> bool {
    &&& first == version + seq![' '] + decimal(status) + reason
    &&& version.len() > 0
    &&& forall|i: int| 0 <= i < version.len() ==> !is_white(#[trigger] version[i])
    &&& reason.len() == 0 || is_white(reason[0])
    &&& one_line(reason)
    &&& status <= u16::MAX
}

/// Headers with their names in small letters.
pub open spec fn read_headers(headers: Seq<Line>) -> Seq<Header> {
    headers.map_values(|h: Line| (lowered(h.name), h.value))
}

#[verifier::spinoff_prover]
#[verifier::rlimit(40)]
proof fn lemma_status(first: Seq<char>, version: Seq<char>, status: nat, reason: Seq<char>)
    requires
        tells_status(first, version, status, reason),
    ensures
        status_of(first) == Some(status as int),
        one_line(first),
        first.len() > 0,
{
    let d = decimal(status);
    law_decimal(status);
    law_decimal_read_back(status, u16::MAX as int);
    assert forall|i: int| 0 <= i < d.len() implies !is_white(#[trigger] d[i]) by {
        assert('0' <= d[i] <= '9');
    }
    let none = Seq::<char>::empty();
    let tail = seq![' '] + d + reason;
    assert(first =~= none + version + tail);
    law_first_word(none, version, tail);
    law_first_word(seq![' '], d, reason);
    assert(words(first) == seq![version] + (seq![d] + words(reason)));
    assert(words(first)[1] == d);
    assert forall|i: int| 0 <= i < first.len() implies #[trigger] first[i] != '\n' && first[i]
        != '\r' by {
        if i < version.len() {
            assert(first[i] == version[i]);
        } else if i == version.len() {
            assert(first[i] == ' ');
        } else if i < version.len() + 1 + d.len() {
            assert(first[i] == d[i - version.len() - 1]);
        } else {
            assert(first[i] == reason[i - version.len() - 1 - d.len()]);
        }
    }
}

proof fn lemma_header_line(h: Line)
    requires
        writable(h),
    ensures
        header_of(header_line(h)) == Some((lowered(h.name), h.value)),
        one_line(header_line(h)),
        header_line(h).len() > 0,
{
    let line = header_line(h);
    let none = Seq::<char>::empty();
    let tail = h.left + h.value + h.right;
    let n = h.name.len() as int;
    law_first_place(h.name, ':', tail);
    assert(line.subrange(0, n) =~= h.name);
    assert(line.subrange(n + 1, line.len() as int) =~= tail);
    law_trimmed(none, h.name, none);
    assert(none + h.name + none =~= h.name);
    law_trimmed(h.left, h.value, h.right);
    assert forall|i: int| 0 <= i < line.len() implies #[trigger] line[i] != '\n' && line[i] != '\r' by {
        if i < n {
            assert(line[i] == h.name[i]);
        } else if i > n {
            let k = i - n - 1;
            assert(line[i] == tail[k]);
            if k < h.left.len() {
                assert(tail[k] == h.left[k]);
            } else if k < h.left.len() + h.value.len() {
                assert(tail[k] == h.value[k - h.left.len()]);
            } else {
                assert(tail[k] == h.right[k - h.left.len() - h.value.len()]);
            }
        }
    }
}

/// The lines of a status line and headers.
#[verifier::spinoff_prover]
#[verifier::rlimit(40)]
proof fn lemma_head_lines(first: Seq<char>, headers: Seq<Line>)
    requires
        one_line(first),
        first.len() > 0,
        forall|i: int| 0 <= i < headers.len() ==> writable(#[trigger] headers[i]),
    ensures
        ({
            let list = lines(first + header_lines(headers));
            &&& list.len() > 0
            &&& list[0] == first
            &&& headers_in(list.drop_first()) == read_headers(headers)
        }),
    decreases headers.len(),
{
    let list = lines(first + header_lines(headers));
    if headers.len() == 0 {
        assert(first + header_lines(headers) =~= first);
        law_line(first, Seq::empty());
        assert(list.drop_first() =~= Seq::empty());
        assert(headers_in(Seq::empty()) =~= Seq::<Header>::empty());
        assert(read_headers(headers) =~= Seq::empty());
    } else {
        let line = header_line(headers[0]);
        let rest = headers.drop_first();
        assert(writable(headers[0]));
        lemma_header_line(headers[0]);
        assert forall|i: int| 0 <= i < rest.len() implies writable(#[trigger] rest[i]) by {
            assert(rest[i] == headers[i + 1]);
        }
        lemma_head_lines(line, rest);
        let tail = line + header_lines(rest);
        assert(first + header_lines(headers) =~= first + seq!['\r', '\n'] + tail);
        law_line(first, tail);
        let others = lines(tail);
        assert(list == seq![first] + others);
        assert(list.drop_first() =~= others);
        assert(headers_in(others) == seq![(lowered(headers[0].name), headers[0].value)] + headers_in(
            others.drop_first(),
        ));
        assert(read_headers(headers) =~= seq![(lowered(headers[0].name), headers[0].value)] + read_headers(
            rest,
        ));
    }
}

proof fn lemma_skip(b: Seq<u8>, from: int, to: int, mark: Seq<u8>)
    requires
        0 <= from <= to,
        mark.len() > 0,
        to + mark.len() <= b.len(),
        forall|k: int| from <= k < to ==> #[trigger] b[k] != mark[0],
    ensures
        next_mark(b, from, mark) == next_mark(b, to, mark),
    decreases to - from,
{
    if from < to {
        assert(!stands_at(b, from, mark)) by {
            assert(b.subrange(from, from + mark.len())[0] == b[from]);
        }
        lemma_skip(b, from + 1, to, mark);
    }
}

/// The empty line is found behind the last header.
#[verifier::spinoff_prover]
#[verifier::rlimit(40)]
proof fn lemma_head_end(ahead: Seq<u8>, headers: Seq<Line>, body: Seq<u8>)
    requires
        forall|i: int| 0 <= i < headers.len() ==> writable(#[trigger] headers[i]),
    ensures
        next_mark(
            ahead + encode_utf8(header_lines(headers)) + header_end() + body,
            ahead.len() as int,
            header_end(),
        ) == Some((ahead.len() + encode_utf8(header_lines(headers)).len()) as int),
    decreases headers.len(),
{
    let block = encode_utf8(header_lines(headers));
    let b = ahead + block + header_end() + body;
    let p = ahead.len() as int;
    if headers.len() == 0 {
        assert(block =~= Seq::<u8>::empty());
        assert(b.subrange(p, p + 4) =~= header_end());
        assert(stands_at(b, p, header_end()));
    } else {
        let line = header_line(headers[0]);
        let rest = headers.drop_first();
        let text = encode_utf8(line);
        let others = encode_utf8(header_lines(rest));
        assert(writable(headers[0]));
        lemma_header_line(headers[0]);
        assert forall|i: int| 0 <= i < rest.len() implies writable(#[trigger] rest[i]) by {
            assert(rest[i] == headers[i + 1]);
        }
        assert(block == line_end() + text + others) by {
            lemma_encode_parts(seq!['\r', '\n'] + line, header_lines(rest));
            lemma_encode_parts(seq!['\r', '\n'], line);
            lemma_crlf();
        }
        assert forall|i: int| 0 <= i < line.len() implies #[trigger] line[i] != '\r' by {}
        crate::text::lemma_utf8_lacks(line, '\r');
        assert('\r' as u8 == 0x0du8);
        lemma_encode_filled(line);
        let next = ahead + line_end() + text;
        assert(b =~= next + others + header_end() + body);
        lemma_head_end(next, rest, body);
        assert(b[p] == 0x0d && b[p + 1] == 0x0a);
        assert(b[p + 2] == text[0]);
        assert(!stands_at(b, p, header_end())) by {
            assert(b.subrange(p, p + 4)[2] == b[p + 2]);
        }
        let q = next.len() as int;
        assert forall|k: int| p + 1 <= k < q implies #[trigger] b[k] != header_end()[0] by {
            if k >= p + 2 {
                assert(b[k] == text[k - p - 2]);
            }
        }
        lemma_skip(b, p + 1, q, header_end());
    }
}

proof fn lemma_crlf()
    ensures
        encode_utf8(seq!['\r', '\n']) == line_end(),
{
    vstd::utf8::is_ascii_chars_encode_utf8(seq!['\r', '\n']);
    assert(encode_utf8(seq!['\r', '\n']) =~= line_end());
}

pub proof fn lemma_encode_filled(s: Seq<char>)
    requires
        s.len() > 0,
    ensures
        encode_utf8(s).len() > 0,
{
    if encode_utf8(s).len() == 0 {
        crate::text::lemma_as_text(s);
        crate::text::lemma_as_text(Seq::empty());
        assert(encode_utf8(Seq::<char>::empty()) =~= Seq::<u8>::empty());
        assert(encode_utf8(s) =~= Seq::<u8>::empty());
        assert(s == Seq::<char>::empty());
    }
}

/// What is read of a response is what was sent, up to its body.
#[verifier::spinoff_prover]
#[verifier::rlimit(40)]
proof fn lemma_head_read(
    first: Seq<char>,
    version: Seq<char>,
    status: nat,
    reason: Seq<char>,
    headers: Seq<Line>,
    body: Seq<u8>,
)
    requires
        tells_status(first, version, status, reason),
        forall|i: int| 0 <= i < headers.len() ==> writable(#[trigger] headers[i]),
    ensures
        response_of(sent(first, headers, body)) == (match crate::http_client::body_of(
            read_headers(headers),
            body,
        ) {
            Decoded::Whole(text) => Decoded::Whole(
                Response { status: status as int, headers: read_headers(headers), body: text },
            ),
            Decoded::Refused(trouble) => Decoded::Refused(trouble),
            Decoded::Overrun => Decoded::Overrun,
        }),
{
    let raw = sent(first, headers, body);
    let text = first + header_lines(headers);
    let head = encode_utf8(text);
    let ahead = encode_utf8(first);
    let block = encode_utf8(header_lines(headers));
    lemma_status(first, version, status, reason);
    lemma_encode_parts(first, header_lines(headers));
    assert(header_end() =~= seq![0x0du8, 0x0a, 0x0d, 0x0a]);
    assert(raw == ahead + block + header_end() + body);
    lemma_head_end(ahead, headers, body);
    assert forall|i: int| 0 <= i < first.len() implies #[trigger] first[i] != '\r' by {}
    crate::text::lemma_utf8_lacks(first, '\r');
    assert('\r' as u8 == 0x0du8);
    assert forall|k: int| 0 <= k < ahead.len() implies #[trigger] raw[k] != header_end()[0] by {
        assert(raw[k] == ahead[k]);
    }
    lemma_skip(raw, 0, ahead.len() as int, header_end());
    let split = head.len() as int;
    assert(next_mark(raw, 0, header_end()) == Some(split));
    assert(raw.subrange(0, split) =~= head);
    assert(raw.subrange(split + 4, raw.len() as int) =~= body);
    crate::text::lemma_as_text(text);
    lemma_head_lines(first, headers);
}

/// Whether no header announces chunks.
pub open spec fn unchunked(headers: Seq<Line>) -> bool {
    forall|i: int|
        0 <= i < headers.len() ==> !(spells((#[trigger] headers[i]).name, "transfer-encoding"@)
            && spells(headers[i].value, "chunked"@))
}

/// Whether header `k` is the last one that tells the length of the body.
pub open spec fn last_length(headers: Seq<Line>, k: int) -> bool {
    &&& 0 <= k < headers.len()
    &&& spells(headers[k].name, "content-length"@)
    &&& forall|i: int|
        k < i < headers.len() ==> !spells((#[trigger] headers[i]).name, "content-length"@)
}

proof fn lemma_names(name: Seq<char>)
    ensures
        lowered(name) == "transfer-encoding"@ <==> spells(name, "transfer-encoding"@),
        lowered(name) == "chunked"@ <==> spells(name, "chunked"@),
        lowered("chunked"@) == "chunked"@,
        lowered(name) == "content-length"@ <==> spells(name, "content-length"@),
        lowered(name) == "location"@ <==> spells(name, "location"@),
        lowered("location"@) == "location"@,
{
    reveal_strlit("transfer-encoding");
    reveal_strlit("chunked");
    reveal_strlit("content-length");
    reveal_strlit("location");
    lemma_spelled(name, "transfer-encoding"@);
    lemma_spelled(name, "chunked"@);
    lemma_spelled(name, "content-length"@);
    lemma_spelled(name, "location"@);
    assert(lowered("chunked"@) =~= "chunked"@);
    assert(lowered("location"@) =~= "location"@);
}

proof fn lemma_unchunked(headers: Seq<Line>)
    ensures
        chunked(read_headers(headers)) <==> !unchunked(headers),
{
    let read = read_headers(headers);
    if chunked(read) {
        let i = choose|i: int|
            0 <= i < read.len() && crate::http_client::announces_chunks(#[trigger] read[i]);
        lemma_names(headers[i].name);
        lemma_names(headers[i].value);
        assert(spells(headers[i].name, "transfer-encoding"@) && spells(headers[i].value, "chunked"@));
    }
    if !unchunked(headers) {
        let i = choose|i: int|
            0 <= i < headers.len() && (spells((#[trigger] headers[i]).name, "transfer-encoding"@)
                && spells(headers[i].value, "chunked"@));
        lemma_names(headers[i].name);
        lemma_names(headers[i].value);
        assert(crate::http_client::announces_chunks(read[i]));
    }
}

proof fn lemma_length(headers: Seq<Line>, k: int)
    requires
        last_length(headers, k),
    ensures
        content_length(read_headers(headers)) == parsed(headers[k].value, 10, usize::MAX as int),
    decreases headers.len(),
{
    let read = read_headers(headers);
    let part = headers.drop_last();
    assert(read.drop_last() =~= read_headers(part));
    lemma_names(headers.last().name);
    if k < headers.len() - 1 {
        assert(!spells(headers[headers.len() - 1].name, "content-length"@));
        assert forall|i: int| k < i < part.len() implies !spells(
            (#[trigger] part[i]).name,
            "content-length"@,
        ) by {
            assert(part[i] == headers[i]);
        }
        lemma_length(part, k);
    }
}

proof fn lemma_no_length(headers: Seq<Line>)
    requires
        forall|i: int|
            0 <= i < headers.len() ==> !spells((#[trigger] headers[i]).name, "content-length"@),
    ensures
        content_length(read_headers(headers)) is None,
    decreases headers.len(),
{
    if headers.len() > 0 {
        let part = headers.drop_last();
        assert(read_headers(headers).drop_last() =~= read_headers(part));
        lemma_names(headers.last().name);
        assert(!spells(headers[headers.len() - 1].name, "content-length"@));
        assert forall|i: int| 0 <= i < part.len() implies !spells(
            (#[trigger] part[i]).name,
            "content-length"@,
        ) by {
            assert(part[i] == headers[i]);
        }
        lemma_no_length(part);
    }
}

/// A response with a `Content-Length` is read back as it was sent: the status, each header with its
/// name in small letters, and exactly the text of which the length was told, whatever follows it.
pub proof fn law_response_with_length(
    first: Seq<char>,
    version: Seq<char>,
    status: nat,
    reason: Seq<char>,
    headers: Seq<Line>,
    k: int,
    text: Seq<char>,
    more: Seq<u8>,
)
    requires
        tells_status(first, version, status, reason),
        forall|i: int| 0 <= i < headers.len() ==> writable(#[trigger] headers[i]),
        unchunked(headers),
        last_length(headers, k),
        headers[k].value == decimal(encode_utf8(text).len()),
        encode_utf8(text).len() <= usize::MAX,
    ensures
        response_of(sent(first, headers, encode_utf8(text) + more)) matches Decoded::Whole(r) && {
            &&& r.status == status
            &&& r.headers == read_headers(headers)
            &&& r.body == text
        },
        response_of(sent(first, headers, encode_utf8(text))) matches Decoded::Whole(r) && {
            &&& r.status == status
            &&& r.headers == read_headers(headers)
            &&& r.body == text
        },
{
    let body = encode_utf8(text);
    lemma_head_read(first, version, status, reason, headers, body + more);
    lemma_head_read(first, version, status, reason, headers, body);
    lemma_unchunked(headers);
    lemma_length(headers, k);
    law_decimal_read_back(body.len(), usize::MAX as int);
    crate::text::lemma_as_text(text);
    assert((body + more).subrange(0, body.len() as int) =~= body);
    if more.len() == 0 {
        assert(body + more =~= body);
    }
}

/// A response that ends before the length it tells is read as far as it goes.
pub proof fn law_response_cut_short(
    first: Seq<char>,
    version: Seq<char>,
    status: nat,
    reason: Seq<char>,
    headers: Seq<Line>,
    k: int,
    n: nat,
    text: Seq<char>,
)
    requires
        tells_status(first, version, status, reason),
        forall|i: int| 0 <= i < headers.len() ==> writable(#[trigger] headers[i]),
        unchunked(headers),
        last_length(headers, k),
        headers[k].value == decimal(n),
        n >= encode_utf8(text).len(),
    ensures
        response_of(sent(first, headers, encode_utf8(text))) matches Decoded::Whole(r) && {
            &&& r.status == status
            &&& r.headers == read_headers(headers)
            &&& r.body == text
        },
{
    let body = encode_utf8(text);
    lemma_head_read(first, version, status, reason, headers, body);
    lemma_unchunked(headers);
    lemma_length(headers, k);
    law_decimal_read_back(n, usize::MAX as int);
    crate::text::lemma_as_text(text);
}

/// A response that does not tell the length of its body is read to its end.
pub proof fn law_response_to_the_end(
    first: Seq<char>,
    version: Seq<char>,
    status: nat,
    reason: Seq<char>,
    headers: Seq<Line>,
    text: Seq<char>,
)
    requires
        tells_status(first, version, status, reason),
        forall|i: int| 0 <= i < headers.len() ==> writable(#[trigger] headers[i]),
        unchunked(headers),
        forall|i: int|
            0 <= i < headers.len() ==> !spells((#[trigger] headers[i]).name, "content-length"@),
    ensures
        response_of(sent(first, headers, encode_utf8(text))) matches Decoded::Whole(r) && {
            &&& r.status == status
            &&& r.headers == read_headers(headers)
            &&& r.body == text
        },
{
    lemma_head_read(first, version, status, reason, headers, encode_utf8(text));
    lemma_unchunked(headers);
    lemma_no_length(headers);
    crate::text::lemma_as_text(text);
}

/// A response that is sent in chunks is read back with the text that the chunks make up, whatever
/// other length it tells.
pub proof fn law_response_in_chunks(
    first: Seq<char>,
    version: Seq<char>,
    status: nat,
    reason: Seq<char>,
    headers: Seq<Line>,
    chunks: Seq<Seq<u8>>,
    text: Seq<char>,
    more: Seq<u8>,
)
    requires
        tells_status(first, version, status, reason),
        forall|i: int| 0 <= i < headers.len() ==> writable(#[trigger] headers[i]),
        !unchunked(headers),
        forall|i: int| 0 <= i < chunks.len() ==> (#[trigger] chunks[i]).len() > 0,
        concatenated(chunks) == encode_utf8(text),
        (chunk_stream(chunks) + more).len() <= usize::MAX,
    ensures
        response_of(sent(first, headers, chunk_stream(chunks) + more)) matches Decoded::Whole(r) && {
            &&& r.status == status
            &&& r.headers == read_headers(headers)
            &&& r.body == text
        },
{
    let body = chunk_stream(chunks) + more;
    let none = Seq::<u8>::empty();
    lemma_head_read(first, version, status, reason, headers, body);
    lemma_unchunked(headers);
    assert(none + chunk_stream(chunks) + more =~= body);
    crate::http_client::law_chunks_decoded(none, chunks, more);
    crate::text::lemma_as_text(text);
}

/// A length that is no number counts as none: the response is read to its end.
pub proof fn law_response_with_bad_length(
    first: Seq<char>,
    version: Seq<char>,
    status: nat,
    reason: Seq<char>,
    headers: Seq<Line>,
    k: int,
    text: Seq<char>,
)
    requires
        tells_status(first, version, status, reason),
        forall|i: int| 0 <= i < headers.len() ==> writable(#[trigger] headers[i]),
        unchunked(headers),
        last_length(headers, k),
        parsed(headers[k].value, 10, usize::MAX as int) is None,
    ensures
        response_of(sent(first, headers, encode_utf8(text))) matches Decoded::Whole(r) && r.body
            == text,
{
    lemma_head_read(first, version, status, reason, headers, encode_utf8(text));
    lemma_unchunked(headers);
    lemma_length(headers, k);
    crate::text::lemma_as_text(text);
}

/// A line without a colon is no header and is passed over.
pub proof fn law_no_header(line: Seq<char>, rest: Seq<Seq<char>>)
    requires
        forall|i: int| 0 <= i < line.len() ==> #[trigger] line[i] != ':',
    ensures
        headers_in(seq![line] + rest) == headers_in(rest),
        headers_in(Seq::empty()) == Seq::<Header>::empty(),
{
    law_first_place(line, ':', Seq::empty());
    assert((seq![line] + rest).drop_first() =~= rest);
}

/// The line end behind the data of a chunk may be missing, and so may the chunk that ends a body.
pub proof fn law_chunk_without_line_end(n: nat, chunk: Seq<u8>, rest: Seq<u8>)
    requires
        chunk.len() == n,
        n > 0,
        rest.len() < 2 || rest[0] != 0x0d || rest[1] != 0x0a,
        (encode_utf8(hex_digits(n)) + seq![0x0du8, 0x0a] + chunk + rest).len() <= usize::MAX,
    ensures
        ({
            let b = encode_utf8(hex_digits(n)) + seq![0x0du8, 0x0a] + chunk + rest;
            let at = b.len() - rest.len();
            &&& chunks_at(b, at) matches Decoded::Whole(more) ==> chunks_at(b, 0) == Decoded::Whole(
                chunk + more,
            )
            &&& chunks_at(b, b.len() as int) == Decoded::Whole(Seq::<u8>::empty())
        }),
{
    let line = encode_utf8(hex_digits(n));
    let b = line + seq![0x0du8, 0x0a] + chunk + rest;
    let end = line.len() as int;
    let to = end + 2 + n;
    crate::http_client::lemma_hex_digits(n);
    crate::http_client::lemma_hex_read(n);
    lemma_hex_line(n);
    lemma_encode_filled(hex_digits(n));
    assert(b.subrange(end, end + 2) =~= line_end());
    assert(stands_at(b, end, line_end()));
    assert forall|k: int| 0 <= k < end implies #[trigger] b[k] != line_end()[0] by {
        assert(b[k] == line[k]);
    }
    lemma_skip(b, 0, end, line_end());
    assert(b.subrange(0, end) =~= line);
    assert(b.subrange(end + 2, to) =~= chunk);
    assert(!stands_at(b, to, line_end())) by {
        if to + 2 <= b.len() {
            assert(b.subrange(to, to + 2)[0] == rest[0] && b.subrange(to, to + 2)[1] == rest[1]);
        }
    }
}

proof fn lemma_hex_line(n: nat)
    ensures
        forall|k: int|
            0 <= k < encode_utf8(hex_digits(n)).len() ==> #[trigger] encode_utf8(hex_digits(n))[k]
                != 0x0d,
{
    crate::http_client::lemma_hex_digits(n);
    assert forall|i: int| 0 <= i < hex_digits(n).len() implies #[trigger] hex_digits(n)[i] != '\r' by {
        assert(crate::http_client::is_hex(hex_digits(n)[i]));
    }
    crate::text::lemma_utf8_lacks(hex_digits(n), '\r');
    assert('\r' as u8 == 0x0du8);
}

/// A body in chunks that is no UTF-8 is refused.
pub proof fn law_chunks_of_text(chunks: Seq<Seq<u8>>, more: Seq<u8>)
    requires
        forall|i: int| 0 <= i < chunks.len() ==> (#[trigger] chunks[i]).len() > 0,
        (chunk_stream(chunks) + more).len() <= usize::MAX,
        !valid_utf8(concatenated(chunks)),
    ensures
        chunked_text(chunk_stream(chunks) + more) is Refused,
{
    let none = Seq::<u8>::empty();
    crate::http_client::law_chunks_decoded(none, chunks, more);
    assert(none + chunk_stream(chunks) + more =~= chunk_stream(chunks) + more);
}

/// Chunks one after another make up a body.
pub proof fn law_concatenated(chunks: Seq<Seq<u8>>, chunk: Seq<u8>)
    ensures
        concatenated(chunks.push(chunk)) == concatenated(chunks) + chunk,
        concatenated(Seq::empty()) == Seq::<u8>::empty(),
    decreases chunks.len(),
{
    let all = chunks.push(chunk);
    if chunks.len() == 0 {
        assert(all.drop_first() =~= chunks);
        assert(concatenated(all) =~= concatenated(chunks) + chunk);
    } else {
        law_concatenated(chunks.drop_first(), chunk);
        assert(all.drop_first() =~= chunks.drop_first().push(chunk));
        assert(concatenated(all) =~= concatenated(chunks) + chunk);
    }
}

/// A failure is told with its kind before it.
pub proof fn law_failures_told(message: Seq<char>)
    ensures
        Trouble::BadUrl(message).text() == "bad url: "@ + message,
        Trouble::Connect(message).text() == "connect: "@ + message,
        Trouble::Tls(message).text() == "tls: "@ + message,
        Trouble::Protocol(message).text() == "protocol: "@ + message,
        Trouble::Timeout.text() == "timeout"@,
{
}

/// Bytes without an empty line are no response.
pub proof fn law_no_response(raw: Seq<u8>)
    requires
        forall|i: int| 0 <= i < raw.len() ==> #[trigger] raw[i] != 0x0d,
    ensures
        response_of(raw) == Decoded::<Response>::Refused(
            Trouble::Protocol("no header terminator"@),
        ),
{
    lemma_no_mark(raw, 0);
}

proof fn lemma_no_mark(raw: Seq<u8>, at: int)
    requires
        0 <= at,
        forall|i: int| 0 <= i < raw.len() ==> #[trigger] raw[i] != 0x0d,
    ensures
        next_mark(raw, at, header_end()) is None,
    decreases raw.len() - at + 1,
{
    if at + 4 <= raw.len() {
        assert(!stands_at(raw, at, header_end())) by {
            assert(raw.subrange(at, at + 4)[0] == raw[at]);
        }
        lemma_no_mark(raw, at + 1);
    }
}

/// The size of a chunk stands before a semicolon, with white space round it or without.
pub proof fn law_chunk_size(left: Seq<char>, size: Seq<char>, right: Seq<char>, extension: Seq<char>)
    requires
        all_white(left) && all_white(right) && tight(size),
        forall|i: int| 0 <= i < size.len() ==> #[trigger] size[i] != ';',
    ensures
        size_text(encode_utf8(left + size + right)) == size,
        size_text(encode_utf8(left + size + right + seq![';'] + extension)) == size,
{
    let s = left + size + right;
    assert forall|i: int| 0 <= i < s.len() implies #[trigger] s[i] != ';' by {
        if i < left.len() {
            assert(is_white(left[i]));
        } else if i < left.len() + size.len() {
            assert(s[i] == size[i - left.len()]);
        } else {
            assert(is_white(right[i - left.len() - size.len()]));
        }
    }
    law_first_place(s, ';', extension);
    law_trimmed(left, size, right);
    crate::text::lemma_as_text(s);
    crate::text::lemma_as_text(s + seq![';'] + extension);
}

/// A chunk that announces more bytes than there are is refused.
pub proof fn law_chunk_cut_short(n: nat, part: Seq<u8>)
    requires
        part.len() < n,
        n + part.len() + encode_utf8(hex_digits(n)).len() + 2 <= usize::MAX,
    ensures
        chunks_at(encode_utf8(hex_digits(n)) + seq![0x0du8, 0x0a] + part, 0) is Refused,
        chunked_text(encode_utf8(hex_digits(n)) + seq![0x0du8, 0x0a] + part) is Refused,
        chunked_text(encode_utf8(hex_digits(n))) is Refused,
{
    let line = encode_utf8(hex_digits(n));
    let b = line + seq![0x0du8, 0x0a] + part;
    let end = line.len() as int;
    crate::http_client::lemma_hex_digits(n);
    crate::http_client::lemma_hex_read(n);
    lemma_encode_filled(hex_digits(n));
    assert forall|i: int| 0 <= i < hex_digits(n).len() implies #[trigger] hex_digits(n)[i] != '\r' by {
        assert(crate::http_client::is_hex(hex_digits(n)[i]));
    }
    crate::text::lemma_utf8_lacks(hex_digits(n), '\r');
    assert('\r' as u8 == 0x0du8);
    assert(b.subrange(end, end + 2) =~= line_end());
    assert(stands_at(b, end, line_end()));
    assert forall|k: int| 0 <= k < end implies #[trigger] b[k] != line_end()[0] by {
        assert(b[k] == line[k]);
    }
    lemma_skip(b, 0, end, line_end());
    assert(b.subrange(0, end) =~= line);
    lemma_no_line(line, 0);
}

proof fn lemma_no_line(raw: Seq<u8>, at: int)
    requires
        0 <= at,
        forall|i: int| 0 <= i < raw.len() ==> #[trigger] raw[i] != 0x0d,
    ensures
        next_mark(raw, at, line_end()) is None,
    decreases raw.len() - at + 1,
{
    if at + 2 <= raw.len() {
        assert(!stands_at(raw, at, line_end())) by {
            assert(raw.subrange(at, at + 2)[0] == raw[at]);
        }
        lemma_no_line(raw, at + 1);
    }
}

/// A response holds what its fields hold, and so does a URL that was taken apart.
pub proof fn law_response_held(r: HttpResponse, u: ParsedUrl)
    ensures
        r@.status == r.status_code,
        r@.body == r.body@,
        r@.headers.len() == r.headers@.len(),
        forall|i: int|
            0 <= i < r.headers@.len() ==> #[trigger] r@.headers[i] == (
            r.headers@[i].0@,
            r.headers@[i].1@,
        ),
        u@.host == u.host@,
        u@.port == u.port,
        u@.path == u.path@,
{
}

/// A header is found by its name in any case of letters, and of several the last one counts.
pub proof fn law_header_found(headers: Seq<Header>, k: int, name: Seq<char>)
    requires
        0 <= k < headers.len(),
        lowered(headers[k].0) == lowered(name),
        forall|i: int| k < i < headers.len() ==> lowered((#[trigger] headers[i]).0) != lowered(name),
    ensures
        header_value(headers, name) == Some(headers[k].1),
    decreases headers.len(),
{
    if k < headers.len() - 1 {
        let part = headers.drop_last();
        assert(lowered(headers[headers.len() - 1].0) != lowered(name));
        assert forall|i: int| k < i < part.len() implies lowered((#[trigger] part[i]).0) != lowered(
            name,
        ) by {
            assert(part[i] == headers[i]);
        }
        law_header_found(part, k, name);
    }
}

/// A header that is not there is not found.
pub proof fn law_header_missing(headers: Seq<Header>, name: Seq<char>)
    requires
        forall|i: int| 0 <= i < headers.len() ==> lowered((#[trigger] headers[i]).0) != lowered(name),
    ensures
        header_value(headers, name) is None,
    decreases headers.len(),
{
    if headers.len() > 0 {
        let part = headers.drop_last();
        assert(lowered(headers[headers.len() - 1].0) != lowered(name));
        assert forall|i: int| 0 <= i < part.len() implies lowered((#[trigger] part[i]).0) != lowered(
            name,
        ) by {
            assert(part[i] == headers[i]);
        }
        law_header_missing(part, name);
    }
}

/// A response other than a redirect is final. A redirect is followed to where its last `Location`
/// header leads, as long as fewer than five were followed before it.
#[verifier::spinoff_prover]
#[verifier::rlimit(40)]
pub proof fn law_redirects(url: Seq<char>, hops: int, response: Response, k: int, next: Seq<char>)
    requires
        0 <= hops <= 5,
    ensures
        response.status < 300 || response.status >= 400 ==> next_url(url, hops, response) == Ok::<
            Option<Seq<char>>,
            Trouble,
        >(None),
        300 <= response.status < 400 && 0 <= k < response.headers.len() && spells(
            response.headers[k].0,
            "location"@,
        ) && (forall|i: int|
            k < i < response.headers.len() ==> !spells(
                (#[trigger] response.headers[i]).0,
                "location"@,
            )) && resolved(url, response.headers[k].1) == Ok::<Seq<char>, Trouble>(next)
            ==> next_url(url, hops, response) == (if hops < 5 {
            Ok(Some(next))
        } else {
            Err(Trouble::Protocol("too many redirects"@))
        }),
        300 <= response.status < 400 && (forall|i: int|
            0 <= i < response.headers.len() ==> !spells(
                (#[trigger] response.headers[i]).0,
                "location"@,
            )) ==> next_url(url, hops, response) is Err,
{
    let headers = response.headers;
    if 0 <= k < headers.len() && spells(headers[k].0, "location"@) && (forall|i: int|
        k < i < headers.len() ==> !spells((#[trigger] headers[i]).0, "location"@)) {
        lemma_names(headers[k].0);
        assert forall|i: int| k < i < headers.len() implies lowered((#[trigger] headers[i]).0)
            != lowered("location"@) by {
            lemma_names(headers[i].0);
        }
        law_header_found(headers, k, "location"@);
    }
    if forall|i: int|
        0 <= i < headers.len() ==> !spells((#[trigger] headers[i]).0, "location"@) {
        assert forall|i: int| 0 <= i < headers.len() implies lowered((#[trigger] headers[i]).0)
            != lowered("location"@) by {
            lemma_names(headers[i].0);
        }
        law_header_missing(headers, "location"@);
    }
}

/// A failure to connect, a failed TLS handshake and a timeout are worth another try, after one,
/// two and four seconds; a bad URL and a malformed response are not, nor is anything after that.
pub proof fn law_retries(message: Seq<char>, attempt: int)
    ensures
        backoff(0, Trouble::Connect(message)) == Some(1int),
        backoff(1, Trouble::Connect(message)) == Some(2int),
        backoff(2, Trouble::Connect(message)) == Some(4int),
        backoff(0, Trouble::Tls(message)) == Some(1int),
        backoff(1, Trouble::Tls(message)) == Some(2int),
        backoff(2, Trouble::Tls(message)) == Some(4int),
        backoff(0, Trouble::Timeout) == Some(1int),
        backoff(1, Trouble::Timeout) == Some(2int),
        backoff(2, Trouble::Timeout) == Some(4int),
        backoff(attempt, Trouble::BadUrl(message)) is None,
        backoff(attempt, Trouble::Protocol(message)) is None,
        attempt >= 3 ==> backoff(attempt, Trouble::Connect(message)) is None && backoff(
            attempt,
            Trouble::Tls(message),
        ) is None && backoff(attempt, Trouble::Timeout) is None,
{
}

/// Whether a name can be the host in a URL.
pub open spec fn host_name(host: Seq<char>) -> bool {
    &&& host.len() > 0
    &&& forall|i: int| 0 <= i < host.len() ==> #[trigger] host[i] != ':' && host[i] != '/'
}

/// Whether a text is empty or a path, which starts with a slash.
pub open spec fn path_or_none(path: Seq<char>) -> bool {
    path.len() == 0 || path[0] == '/'
}

proof fn lemma_scheme(scheme: Seq<char>, rest: Seq<char>)
    requires
        forall|i: int| 0 <= i < scheme.len() ==> #[trigger] scheme[i] != ':',
    ensures
        ({
            let url = scheme + seq![':', '/', '/'] + rest;
            &&& next_part(url, 0, "://"@) == Some(scheme.len() as int)
            &&& url.subrange(0, scheme.len() as int) == scheme
            &&& url.subrange((scheme.len() + 3) as int, url.len() as int) == rest
        }),
{
    reveal_strlit("://");
    let url = scheme + seq![':', '/', '/'] + rest;
    let at = scheme.len() as int;
    assert("://"@ =~= seq![':', '/', '/']);
    assert(url.subrange(at, at + 3) =~= "://"@);
    assert forall|j: int| 0 <= j < at implies #[trigger] url.subrange(j, j + 3) != "://"@ by {
        assert(url.subrange(j, j + 3)[0] == scheme[j]);
    }
    law_next_part(url, "://"@, 0, at);
    assert(url.subrange(0, at) =~= scheme);
    assert(url.subrange(at + 3, url.len() as int) =~= rest);
}

proof fn lemma_authority(authority: Seq<char>, path: Seq<char>)
    requires
        forall|i: int| 0 <= i < authority.len() ==> #[trigger] authority[i] != '/',
        path_or_none(path),
    ensures
        before(authority + path, '/') == authority,
        first_place(authority + path, '/') == (if path.len() == 0 {
            None
        } else {
            Some(authority.len() as int)
        }),
        (authority + path).subrange(authority.len() as int, (authority + path).len() as int)
            == path,
{
    let rest = authority + path;
    if path.len() == 0 {
        assert(rest =~= authority);
        law_first_place(authority, '/', Seq::empty());
    } else {
        let tail = path.drop_first();
        assert(rest =~= authority + seq!['/'] + tail);
        law_first_place(authority, '/', tail);
    }
    assert(rest.subrange(authority.len() as int, rest.len() as int) =~= path);
}

/// A URL is taken apart into host, port and path. The port is 443 for `https` and 80 for `http`
/// where it is not given, and the path is `/` where there is none.
#[verifier::spinoff_prover]
#[verifier::rlimit(40)]
pub proof fn law_url_parsed(https: bool, host: Seq<char>, port: u16, path: Seq<char>)
    requires
        host_name(host),
        path_or_none(path),
    ensures
        ({
            let start = if https {
                "https"@
            } else {
                "http"@
            } + seq![':', '/', '/'] + host;
            let shown = if path.len() == 0 {
                seq!['/']
            } else {
                path
            };
            let usual = if https {
                443int
            } else {
                80
            };
            &&& address_of(start + path) == Ok::<Address, Trouble>(
                Address { host, port: usual, path: shown },
            )
            &&& address_of(start + seq![':'] + decimal(port as nat) + path) == Ok::<
                Address,
                Trouble,
            >(Address { host, port: port as int, path: shown })
        }),
{
    reveal_strlit("https");
    reveal_strlit("http");
    let scheme = if https {
        "https"@
    } else {
        "http"@
    };
    let start = scheme + seq![':', '/', '/'] + host;
    let digits = decimal(port as nat);
    let full = host + seq![':'] + digits;
    assert forall|i: int| 0 <= i < scheme.len() implies #[trigger] scheme[i] != ':' by {}
    assert(start + path =~= scheme + seq![':', '/', '/'] + (host + path));
    assert(start + seq![':'] + digits + path =~= scheme + seq![':', '/', '/'] + (full + path));
    lemma_host(host, if https {
        443
    } else {
        80
    });
    lemma_host_and_port(host, port, if https {
        443
    } else {
        80
    });
    lemma_address(https, host, path);
    lemma_address(https, full, path);
}

proof fn lemma_host(host: Seq<char>, usual: int)
    requires
        host_name(host),
    ensures
        host_and_port(host, usual) == Ok::<(Seq<char>, int), Trouble>((host, usual)),
{
    law_last_place(Seq::empty(), ':', host);
}

proof fn lemma_host_and_port(host: Seq<char>, port: u16, usual: int)
    requires
        host_name(host),
    ensures
        ({
            let full = host + seq![':'] + decimal(port as nat);
            &&& host_and_port(full, usual) == Ok::<(Seq<char>, int), Trouble>((host, port as int))
            &&& forall|i: int| 0 <= i < full.len() ==> #[trigger] full[i] != '/'
        }),
{
    let digits = decimal(port as nat);
    let full = host + seq![':'] + digits;
    law_decimal(port as nat);
    law_decimal_read_back(port as nat, u16::MAX as int);
    assert forall|i: int| 0 <= i < full.len() implies #[trigger] full[i] != '/' by {
        if i < host.len() {
            assert(full[i] == host[i]);
        } else if i > host.len() {
            assert('0' <= digits[i - host.len() - 1] <= '9');
        }
    }
    assert forall|i: int| 0 <= i < digits.len() implies #[trigger] digits[i] != ':' by {
        assert('0' <= digits[i] <= '9');
    }
    law_last_place(host, ':', digits);
    assert(full.subrange((host.len() + 1) as int, full.len() as int) =~= digits);
    assert(full.subrange(0, host.len() as int) =~= host);
}

/// The address in a URL, if its authority is what it should be.
proof fn lemma_address(https: bool, authority: Seq<char>, path: Seq<char>)
    requires
        path_or_none(path),
        forall|i: int| 0 <= i < authority.len() ==> #[trigger] authority[i] != '/',
        host_and_port(authority, if https {
            443
        } else {
            80
        }) matches Ok((host, _)) && host.len() > 0,
    ensures
        ({
            let scheme = if https {
                "https"@
            } else {
                "http"@
            };
            let (host, port) = host_and_port(authority, if https {
                443
            } else {
                80
            })->Ok_0;
            address_of(scheme + seq![':', '/', '/'] + (authority + path)) == Ok::<Address, Trouble>(
                (Address {
                    host,
                    port,
                    path: (if path.len() == 0 {
                        seq!['/']
                    } else {
                        path
                    }),
                }),
            )
        }),
{
    reveal_strlit("https");
    reveal_strlit("http");
    reveal_strlit("/");
    assert("/"@ =~= seq!['/']);
    let scheme = if https {
        "https"@
    } else {
        "http"@
    };
    assert("https"@.len() != "http"@.len());
    assert forall|i: int| 0 <= i < scheme.len() implies #[trigger] scheme[i] != ':' by {}
    lemma_scheme(scheme, authority + path);
    lemma_authority(authority, path);
}

/// A URL with another scheme, without a host or without a scheme is refused.
pub proof fn law_url_refused(scheme: Seq<char>, rest: Seq<char>, path: Seq<char>)
    requires
        forall|i: int| 0 <= i < scheme.len() ==> #[trigger] scheme[i] != ':',
        path_or_none(path),
    ensures
        scheme != "https"@ && scheme != "http"@ ==> address_of(
            scheme + seq![':', '/', '/'] + rest,
        ) is Err,
        address_of(scheme + seq![':', '/', '/'] + path) is Err,
        address_of(scheme) == Err::<Address, Trouble>(Trouble::BadUrl("missing scheme"@)),
{
    lemma_scheme(scheme, rest);
    lemma_scheme(scheme, path);
    let none = Seq::<char>::empty();
    lemma_authority(none, path);
    assert(none + path =~= path);
    law_last_place(none, ':', none);
    lemma_no_scheme(scheme, 0);
}

/// A port that is no number, or too large for one, makes a URL invalid.
pub proof fn law_url_bad_port(host: Seq<char>, port: Seq<char>, path: Seq<char>)
    requires
        host_name(host),
        path_or_none(path),
        forall|i: int| 0 <= i < port.len() ==> #[trigger] port[i] != ':' && port[i] != '/',
        parsed(port, 10, 65535) is None,
    ensures
        address_of("https"@ + seq![':', '/', '/'] + (host + seq![':'] + port + path)) is Err,
        address_of("http"@ + seq![':', '/', '/'] + (host + seq![':'] + port + path)) is Err,
{
    reveal_strlit("https");
    reveal_strlit("http");
    let full = host + seq![':'] + port;
    assert forall|i: int| 0 <= i < full.len() implies #[trigger] full[i] != '/' by {
        if i < host.len() {
            assert(full[i] == host[i]);
        } else if i > host.len() {
            assert(full[i] == port[i - host.len() - 1]);
        }
    }
    lemma_scheme("https"@, full + path);
    lemma_scheme("http"@, full + path);
    lemma_authority(full, path);
    law_last_place(host, ':', port);
    assert(full.subrange((host.len() + 1) as int, full.len() as int) =~= port);
}

proof fn lemma_no_scheme(url: Seq<char>, at: int)
    requires
        0 <= at,
        forall|i: int| 0 <= i < url.len() ==> #[trigger] url[i] != ':',
    ensures
        next_part(url, at, "://"@) is None,
    decreases url.len() - at + 1,
{
    reveal_strlit("://");
    if at + 3 <= url.len() {
        assert(url.subrange(at, at + 3)[0] == url[at]);
        assert("://"@[0] == ':');
        lemma_no_scheme(url, at + 1);
    }
}

/// A redirect to an absolute URL leads there. One that starts with two slashes keeps the scheme,
/// one that starts with a slash keeps the host and port, and any other takes the place of what
/// follows the last slash of the path.
#[verifier::spinoff_prover]
#[verifier::rlimit(40)]
pub proof fn law_redirect_resolved(
    host: Seq<char>,
    port: u16,
    dir: Seq<char>,
    file: Seq<char>,
    location: Seq<char>,
)
    requires
        host_name(host),
        path_or_none(dir),
        forall|i: int| 0 <= i < file.len() ==> #[trigger] file[i] != '/',
        forall|i: int| 0 <= i < location.len() ==> #[trigger] location[i] != ':',
    ensures
        ({
            let site = "https"@ + seq![':', '/', '/'] + host;
            let other = site + seq![':'] + decimal(port as nat);
            let path = dir + seq!['/'] + file;
            let absolute = "https"@ + seq![':', '/', '/'] + location;
            let plain = "http"@ + seq![':', '/', '/'] + location;
            &&& resolved(site + path, absolute) == Ok::<Seq<char>, Trouble>(absolute)
            &&& resolved(site + path, plain) == Ok::<Seq<char>, Trouble>(plain)
            &&& resolved(site + path, seq!['/', '/'] + location) == Ok::<Seq<char>, Trouble>(
                "https"@ + seq![':', '/', '/'] + location,
            )
            &&& location.len() == 0 || location[0] != '/' ==> resolved(
                site + path,
                seq!['/'] + location,
            ) == Ok::<Seq<char>, Trouble>(site + seq!['/'] + location)
            &&& location.len() == 0 || location[0] != '/' ==> resolved(site + path, location) == Ok::<
                Seq<char>,
                Trouble,
            >(site + dir + seq!['/'] + location)
            &&& port != 443 && port != 80 && (location.len() == 0 || location[0] != '/')
                ==> resolved(other + path, location) == Ok::<Seq<char>, Trouble>(
                other + dir + seq!['/'] + location,
            )
        }),
{
    reveal_strlit("https");
    reveal_strlit("https://");
    reveal_strlit("http");
    reveal_strlit("http://");
    reveal_strlit("/");
    reveal_strlit("//");
    reveal_strlit(":");
    assert("/"@ =~= seq!['/']);
    assert(":"@ =~= seq![':']);
    assert("//"@ =~= seq!['/', '/']);
    assert("https://"@ =~= "https"@ + seq![':', '/', '/']);
    assert("http://"@ =~= "http"@ + seq![':', '/', '/']);
    let site = "https"@ + seq![':', '/', '/'] + host;
    let other = site + seq![':'] + decimal(port as nat);
    let path = dir + seq!['/'] + file;
    assert(path_or_none(path)) by {
        if dir.len() > 0 {
            assert(path[0] == dir[0]);
        }
    }
    law_url_parsed(true, host, port, path);
    law_last_place(dir, '/', file);
    assert(path.subrange(0, dir.len() as int) =~= dir);
    assert(site + path =~= "https"@ + seq![':', '/', '/'] + (host + path));
    lemma_scheme("https"@, host + path);
    let absolute = "https"@ + seq![':', '/', '/'] + location;
    let plain = "http"@ + seq![':', '/', '/'] + location;
    assert(absolute.subrange(0, 8) =~= "https://"@);
    assert(plain.subrange(0, 7) =~= "http://"@);
    let double = seq!['/', '/'] + location;
    lemma_relative(double);
    assert(double.subrange(0, 2) =~= "//"@);
    assert("https"@ + ":"@ + double =~= "https"@ + seq![':', '/', '/'] + location);
    let single = seq!['/'] + location;
    lemma_relative(single);
    lemma_relative(location);
    assert(single.subrange(0, 1) =~= "/"@);
    if location.len() == 0 || location[0] != '/' {
        if single.len() >= 2 {
            assert(single.subrange(0, 2)[1] == location[0]);
        }
        if location.len() >= 2 {
            assert(location.subrange(0, 2)[0] == location[0]);
        }
        if location.len() >= 1 {
            assert(location.subrange(0, 1)[0] == location[0]);
        }
        assert("https://"@ + host + single =~= site + seq!['/'] + location);
        assert("https://"@ + host =~= site);
        assert("https://"@ + (host + ":"@ + decimal(port as nat)) =~= other);
        assert(site + dir + "/"@ + location =~= site + dir + seq!['/'] + location);
    }
}

/// A redirect that starts with two slashes keeps the scheme, whichever it is.
pub proof fn law_redirect_scheme(scheme: Seq<char>, rest: Seq<char>, location: Seq<char>)
    requires
        forall|i: int| 0 <= i < scheme.len() ==> #[trigger] scheme[i] != ':',
    ensures
        resolved(scheme + seq![':', '/', '/'] + rest, seq!['/', '/'] + location) == Ok::<
            Seq<char>,
            Trouble,
        >(scheme + seq![':', '/', '/'] + location),
{
    reveal_strlit("https://");
    reveal_strlit("http://");
    reveal_strlit("//");
    reveal_strlit(":");
    let double = seq!['/', '/'] + location;
    lemma_scheme(scheme, rest);
    assert("//"@ =~= seq!['/', '/']);
    assert(":"@ =~= seq![':']);
    assert(double.subrange(0, 2) =~= "//"@);
    if double.len() >= 8 {
        assert(double.subrange(0, 8)[0] == '/');
        assert("https://"@[0] == 'h');
    }
    if double.len() >= 7 {
        assert(double.subrange(0, 7)[0] == '/');
        assert("http://"@[0] == 'h');
    }
    assert(scheme + ":"@ + double =~= scheme + seq![':', '/', '/'] + location);
}

proof fn lemma_relative(location: Seq<char>)
    requires
        forall|i: int| 0 <= i < location.len() ==> #[trigger] location[i] != ':',
    ensures
        !crate::text::begins_with(location, "https://"@),
        !crate::text::begins_with(location, "http://"@),
{
    reveal_strlit("https://");
    reveal_strlit("http://");
    if location.len() >= 8 {
        assert(location.subrange(0, 8)[5] == location[5]);
        assert("https://"@[5] == ':');
    }
    if location.len() >= 7 {
        assert(location.subrange(0, 7)[4] == location[4]);
        assert("http://"@[4] == ':');
    }
}

/// Lines with a line end behind each.
pub open spec fn line_by_line(list: Seq<Seq<char>>) -> Seq<char>
    decreases list.len(),
{
    if list.len() == 0 {
        seq![]
    } else {
        line_by_line(list.drop_last()) + list.last() + seq!['\r', '\n']
    }
}

/// A request asks for the path on its first line and names the host on the second, with the port
/// where it is an unusual one. It asks for JSON that is not compressed, for the connection to be
/// closed, and ends with an empty line.
#[verifier::spinoff_prover]
#[verifier::rlimit(40)]
pub proof fn law_request(host: Seq<char>, port: int, path: Seq<char>)
    ensures
        ({
            let list = seq![
                "GET "@ + path + " HTTP/1.1"@,
                "Host: "@ + (if port == 443 || port == 80 {
                    host
                } else {
                    host + seq![':'] + decimal(port as nat)
                }),
                "User-Agent: synclyr2metadata-rs (https://github.com/newtonsart/synclyr2metadata)"@,
                "Accept: application/json"@,
                "Accept-Encoding: identity"@,
                "Connection: close"@,
                Seq::<char>::empty(),
            ];
            request_of(host, port, path) == line_by_line(list)
        }),
{
    reveal_strlit(":");
    reveal_strlit(" HTTP/1.1");
    reveal_strlit("Host: ");
    reveal_strlit(" HTTP/1.1\r\nHost: ");
    reveal_strlit("User-Agent: synclyr2metadata-rs (https://github.com/newtonsart/synclyr2metadata)");
    reveal_strlit("synclyr2metadata-rs (https://github.com/newtonsart/synclyr2metadata)");
    reveal_strlit("\r\nUser-Agent: ");
    reveal_strlit("Accept: application/json");
    reveal_strlit("Accept-Encoding: identity");
    reveal_strlit("Connection: close");
    reveal_strlit(
        "\r\nAccept: application/json\r\nAccept-Encoding: identity\r\nConnection: close\r\n\r\n",
    );
    let crlf = seq!['\r', '\n'];
    let agent = "User-Agent: synclyr2metadata-rs (https://github.com/newtonsart/synclyr2metadata)"@;
    assert(":"@ =~= seq![':']);
    let authority = authority_of(host, port);
    let list = seq![
        "GET "@ + path + " HTTP/1.1"@,
        "Host: "@ + authority,
        agent,
        "Accept: application/json"@,
        "Accept-Encoding: identity"@,
        "Connection: close"@,
        Seq::<char>::empty(),
    ];
    let l6 = list.drop_last();
    let l5 = l6.drop_last();
    let l4 = l5.drop_last();
    let l3 = l4.drop_last();
    let l2 = l3.drop_last();
    let l1 = l2.drop_last();
    assert(l1.drop_last() =~= Seq::<Seq<char>>::empty());
    assert(line_by_line(l1.drop_last()) =~= Seq::<char>::empty());
    assert(line_by_line(l1) =~= "GET "@ + path + " HTTP/1.1"@ + crlf);
    assert(line_by_line(l2) == line_by_line(l1) + ("Host: "@ + authority) + crlf);
    assert(line_by_line(l3) == line_by_line(l2) + agent + crlf);
    assert(line_by_line(l4) == line_by_line(l3) + "Accept: application/json"@ + crlf);
    assert(line_by_line(l5) == line_by_line(l4) + "Accept-Encoding: identity"@ + crlf);
    assert(line_by_line(l6) == line_by_line(l5) + "Connection: close"@ + crlf);
    assert(line_by_line(list) == line_by_line(l6) + Seq::<char>::empty() + crlf);
    let last = "\r\nAccept: application/json\r\nAccept-Encoding: identity\r\nConnection: close\r\n\r\n"@;
    assert(last =~= crlf + "Accept: application/json"@ + crlf + "Accept-Encoding: identity"@ + crlf
        + "Connection: close"@ + crlf + crlf);
    assert(" HTTP/1.1\r\nHost: "@ =~= " HTTP/1.1"@ + crlf + "Host: "@);
    assert("\r\nUser-Agent: "@ + crate::http_client::user_agent() =~= crlf + agent);
    assert(request_of(host, port, path) =~= line_by_line(list));
}

/// A byte stands for itself in a query exactly if it is an ASCII letter, a digit or one of `-`,
/// `_`, `.` and `~`; any other is written as a percent sign and two hexadecimal digits, the high
/// one first.
pub proof fn law_query_bytes(b: u8)
    ensures
        ({
            let digits = seq![
                '0', '1', '2', '3', '4', '5', '6', '7', '8', '9', 'A', 'B', 'C', 'D', 'E', 'F',
            ];
            let plain = 0x30 <= b <= 0x39 || 0x41 <= b <= 0x5a || 0x61 <= b <= 0x7a || b == 0x2d || b
                == 0x2e || b == 0x5f || b == 0x7e;
            &&& plain ==> percent_encoded(seq![b]) == seq![b as char]
            &&& !plain ==> percent_encoded(seq![b]) == seq![
                '%',
                digits[b as int / 16],
                digits[b as int % 16],
            ]
        }),
        percent_encoded(Seq::empty()) == Seq::<char>::empty(),
{
    assert(seq![b].drop_last() =~= Seq::<u8>::empty());
    assert(percent_encoded(Seq::<u8>::empty()) =~= Seq::<char>::empty());
    assert(seq![b].last() == b);
    let one = percent_encoded(seq![b]);
    let digits = seq![
        '0', '1', '2', '3', '4', '5', '6', '7', '8', '9', 'A', 'B', 'C', 'D', 'E', 'F',
    ];
    if crate::http_client::unreserved(b) {
        assert(one =~= seq![b as char]);
    } else {
        assert(crate::http_client::hex_char(b as int / 16) == digits[b as int / 16]);
        assert(crate::http_client::hex_char(b as int % 16) == digits[b as int % 16]);
        assert(one =~= seq!['%', digits[b as int / 16], digits[b as int % 16]]);
    }
}

} // verus!
