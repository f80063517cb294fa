//! The HTTP side: splitting a raw request into its request line, header
//! fields and body, picking the path or the JSON payload out of it, and
//! framing the responses.

use vstd::prelude::*;
use vstd::slice::slice_subrange;
use vstd::utf8::{decode_utf8, encode_utf8, is_ascii_chars, is_ascii_chars_encode_utf8, valid_utf8};

use crate::encoding::lemma_ascii_split;
use crate::request_laws::{lemma_request_parts_single_line, lemma_single_line_fields, no_line_break};

use crate::text::{
    crlf, line_break, digits_value, is_digit, lemma_decimal_reads_back,
    lemma_pair_occurs, decimal, decimal_string, decode_lossy, find_byte_pair, find_from, find_str, index_view,
    is_white_space, lemma_find_from, lemma_trim_end_nul, lemma_trim_end_ws, lemma_trim_start_ws,
    lossy_utf8, occurs_at, starts_with, starts_with_str, str_equal, trim_end_nul, trim_end_nul_str,
    trim_end_ws, trim_start_ws, trim_str, trim_ws,
};

verus! {

/// What separates a header field's name from its value: a colon and a space.
pub open spec fn name_separator() -> Seq<char> {
    seq![':', ' ']
}

/// Where the first line break of the request starts, and the next one after
/// it: the request line ends at the first, the header section at the second.
/// `None` where the buffer holds fewer than two line breaks.
pub open spec fn request_breaks(buf: Seq<u8>) -> Option<(int, int)> {
    match find_from(buf, 0, crlf()) {
        Some(p1) => match find_from(buf, p1 + 1, crlf()) {
            Some(p2) => Some((p1, p2)),
            None => None,
        },
        None => None,
    }
}

/// A header line cut at the first `": "` into name and value.
pub open spec fn split_field(line: Seq<char>) -> (Seq<char>, Seq<char>) {
    match find_from(line, 0, name_separator()) {
        Some(j) => (line.subrange(0, j), line.subrange(j + 2, line.len() as int)),
        None => (line, Seq::empty()),
    }
}

/// The field of one line of the header section: none for an empty line.
pub open spec fn line_field(line: Seq<char>) -> Seq<(Seq<char>, Seq<char>)> {
    if line.len() == 0 {
        Seq::empty()
    } else {
        seq![split_field(line)]
    }
}

/// A line of the header section that the parser accepts: empty, or holding
/// `": "`.
pub open spec fn line_separated(line: Seq<char>) -> bool {
    line.len() == 0 || find_from(line, 0, name_separator()) is Some
}

/// The header fields of the text `s` from index `start` on: `s` is cut at
/// each line break, empty lines are dropped and each other line is split at
/// its first `": "`.
pub open spec fn field_spans_from(s: Seq<char>, start: int) -> Seq<(Seq<char>, Seq<char>)>
    decreases s.len() + 1 - start,
{
    if start < 0 || start > s.len() {
        Seq::empty()
    } else {
        match find_from(s, start, line_break()) {
            Some(i) => if start <= i && i + 2 <= s.len() {
                line_field(s.subrange(start, i)) + field_spans_from(s, i + 2)
            } else {
                Seq::empty()
            },
            None => line_field(s.subrange(start, s.len() as int)),
        }
    }
}

/// Every line of the text `s` from index `start` on is empty or holds `": "`.
pub open spec fn fields_separated_from(s: Seq<char>, start: int) -> bool
    decreases s.len() + 1 - start,
{
    if start < 0 || start > s.len() {
        true
    } else {
        match find_from(s, start, line_break()) {
            Some(i) => if start <= i && i + 2 <= s.len() {
                line_separated(s.subrange(start, i)) && fields_separated_from(s, i + 2)
            } else {
                true
            },
            None => line_separated(s.subrange(start, s.len() as int)),
        }
    }
}

/// The header fields of a header text.
pub open spec fn header_fields_of(text: Seq<char>) -> Seq<(Seq<char>, Seq<char>)> {
    field_spans_from(text, 0)
}

/// The header section of a request whose line breaks are at `p1` and `p2`.
pub open spec fn header_section(buf: Seq<u8>, p1: int, p2: int) -> Seq<u8> {
    buf.subrange(p1 + 2, p2)
}

/// A request that the parser takes: each line of its decoded header section
/// is empty or holds `": "`.
pub open spec fn request_well_formed(buf: Seq<u8>) -> bool {
    match request_breaks(buf) {
        Some((p1, p2)) => fields_separated_from(lossy_utf8(header_section(buf, p1, p2)), 0),
        None => true,
    }
}

/// A request whose header lines the parser can split, when the buffer is
/// valid UTF-8 and so decodes unchanged.
pub open spec fn decoded_well_formed(buf: Seq<u8>) -> bool {
    match request_breaks(buf) {
        Some((p1, p2)) => fields_separated_from(decode_utf8(header_section(buf, p1, p2)), 0),
        None => true,
    }
}

/// Text fields seen as sequences.
pub open spec fn pairs_view(v: Seq<(String, String)>) -> Seq<(Seq<char>, Seq<char>)> {
    v.map_values(|p: (String, String)| (p.0@, p.1@))
}

/// What parsing `buf` gives: the decoded request line, the header fields of
/// the decoded header section, and the decoded body; `None` where the buffer
/// holds fewer than two line breaks.
pub open spec fn parsed_request(buf: Seq<u8>) -> Option<(Seq<char>, Seq<(Seq<char>, Seq<char>)>, Seq<char>)> {
    match request_breaks(buf) {
        Some((p1, p2)) => Some((
            lossy_utf8(buf.subrange(0, p1)),
            header_fields_of(lossy_utf8(header_section(buf, p1, p2))),
            lossy_utf8(buf.subrange(p2 + 2, buf.len() as int)),
        )),
        None => None,
    }
}

/// What parsing a buffer of valid UTF-8 gives: as `parsed_request`, with
/// each part decoded unchanged.
pub open spec fn decoded_request(buf: Seq<u8>) -> Option<(Seq<char>, Seq<(Seq<char>, Seq<char>)>, Seq<char>)> {
    match request_breaks(buf) {
        Some((p1, p2)) => Some((
            decode_utf8(buf.subrange(0, p1)),
            header_fields_of(decode_utf8(header_section(buf, p1, p2))),
            decode_utf8(buf.subrange(p2 + 2, buf.len() as int)),
        )),
        None => None,
    }
}

/// In a valid buffer with two line breaks, the request line, the header
/// section and the body are each valid.
pub proof fn lemma_request_parts_valid(buf: Seq<u8>)
    requires
        valid_utf8(buf),
        request_breaks(buf) is Some,
    ensures
        ({
            let (p1, p2) = request_breaks(buf).unwrap();
            &&& valid_utf8(buf.subrange(0, p1))
            &&& valid_utf8(header_section(buf, p1, p2))
            &&& valid_utf8(buf.subrange(p2 + 2, buf.len() as int))
        }),
{
    let (p1, p2) = request_breaks(buf).unwrap();
    lemma_find_from(buf, 0, crlf());
    lemma_find_from(buf, p1 + 1, crlf());
    lemma_pair_occurs(buf, p1, 13u8, 10u8);
    lemma_pair_occurs(buf, p2, 13u8, 10u8);
    lemma_ascii_split(buf, p1);
    lemma_ascii_split(buf, p2);
    lemma_ascii_split(buf, p2 + 2);
    let head = buf.subrange(0, p2);
    assert(head[p1 + 1] == buf[p1 + 1]);
    lemma_ascii_split(head, p1 + 2);
    assert(head.subrange(p1 + 2, head.len() as int) =~= header_section(buf, p1, p2));
}

/// The parse result seen as sequences.
pub open spec fn request_view(r: Option<(String, Vec<(String, String)>, String)>) -> Option<(Seq<char>, Seq<(Seq<char>, Seq<char>)>, Seq<char>)> {
    match r {
        Some(req) => Some((req.0@, pairs_view(req.1@), req.2@)),
        None => None,
    }
}

/// Finds the first line break of the request and the next one after it.
pub fn locate_request_breaks(buffer: &[u8]) -> (r: Option<(usize, usize)>)
    ensures
        match r {
            Some((p1, p2)) => request_breaks(buffer@) == Some((p1 as int, p2 as int)),
            None => request_breaks(buffer@) is None,
        },
{
    match find_byte_pair(buffer, 0, 13u8, 10u8) {
        Some(p1) => {
            proof {
                lemma_find_from(buffer@, 0, crlf());
                assert(buffer@.len() == buffer.len());
            }
            match find_byte_pair(buffer, p1 + 1, 13u8, 10u8) {
                Some(p2) => Some((p1, p2)),
                None => None,
            }
        },
        None => None,
    }
}

/// Cuts a header line at its first `": "` into name and value.
pub fn split_field_text(line: &str) -> (r: (String, String))
    requires
        find_from(line@, 0, name_separator()) is Some,
    ensures
        (r.0@, r.1@) == split_field(line@),
{
    let sep = ": ";
    proof {
        reveal_strlit(": ");
        assert(sep@ =~= name_separator());
        lemma_find_from(line@, 0, name_separator());
    }
    let n = line.unicode_len();
    match find_str(line, 0, sep) {
        Some(j) => (
            String::from_str(line.substring_char(0, j)),
            String::from_str(line.substring_char(j + 2, n)),
        ),
        None => (String::from_str(line), String::new()),
    }
}

/// The header fields of a header text: it is cut at each line break, empty
/// lines are dropped and each other line is split at its first `": "`.
pub fn header_fields(section: &str) -> (r: Vec<(String, String)>)
    requires
        fields_separated_from(section@, 0),
    ensures
        pairs_view(r@) == header_fields_of(section@),
{
    let brk = "\r\n";
    proof {
        reveal_strlit("\r\n");
        assert(brk@ =~= line_break());
    }
    let n = section.unicode_len();
    let mut out: Vec<(String, String)> = Vec::new();
    let mut start: usize = 0;
    loop
        invariant
            start <= n,
            n == section@.len(),
            brk@ == line_break(),
            field_spans_from(section@, 0) == pairs_view(out@) + field_spans_from(section@, start as int),
            fields_separated_from(section@, start as int),
        decreases n - start,
    {
        proof { lemma_find_from(section@, start as int, line_break()); }
        let found = find_str(section, start, brk);
        let end = match found {
            Some(i) => i,
            None => n,
        };
        let line = section.substring_char(start, end);
        let ghost before = out@;
        if end > start {
            let field = split_field_text(line);
            out.push(field);
            assert(pairs_view(out@) =~= pairs_view(before) + line_field(line@));
        } else {
            assert(line_field(line@) =~= Seq::empty());
            assert(pairs_view(out@) =~= pairs_view(before) + line_field(line@));
        }
        match found {
            Some(i) => {
                start = i + 2;
            },
            None => {
                return out;
            },
        }
    }
}

/// Whether each nonempty line of a header text holds `": "`.
pub fn header_fields_separated(section: &str) -> (r: bool)
    ensures
        r == fields_separated_from(section@, 0),
{
    let brk = "\r\n";
    let sep = ": ";
    proof {
        reveal_strlit("\r\n");
        reveal_strlit(": ");
        assert(brk@ =~= line_break());
        assert(sep@ =~= name_separator());
    }
    let n = section.unicode_len();
    let mut start: usize = 0;
    loop
        invariant
            start <= n,
            n == section@.len(),
            brk@ == line_break(),
            sep@ == name_separator(),
            fields_separated_from(section@, 0) == fields_separated_from(section@, start as int),
        decreases n - start,
    {
        proof { lemma_find_from(section@, start as int, line_break()); }
        let found = find_str(section, start, brk);
        let end = match found {
            Some(i) => i,
            None => n,
        };
        let line = section.substring_char(start, end);
        if end > start && find_str(line, 0, sep).is_none() {
            return false;
        }
        match found {
            Some(i) => {
                start = i + 2;
            },
            None => {
                return true;
            },
        }
    }
}

/// Whether the parser takes `buffer`: each nonempty line of its decoded
/// header section holds `": "`.
pub fn is_well_formed_request(buffer: &[u8]) -> (r: bool)
    ensures
        r == request_well_formed(buffer@),
        valid_utf8(buffer@) ==> r == decoded_well_formed(buffer@),
{
    match locate_request_breaks(buffer) {
        Some((p1, p2)) => {
            proof {
                lemma_find_from(buffer@, 0, crlf());
                lemma_find_from(buffer@, p1 + 1, crlf());
                assert(buffer@.len() == buffer.len());
                if valid_utf8(buffer@) {
                    lemma_request_parts_valid(buffer@);
                }
            }
            let section = decode_lossy(slice_subrange(buffer, p1 + 2, p2));
            header_fields_separated(section.as_str())
        },
        None => true,
    }
}

/// Splits a raw HTTP request into its request line, its header fields and its
/// body. The request line ends at the first line break and the header section
/// at the next one; the body is all that follows. Each part is decoded with
/// `String::from_utf8_lossy`; the decoded header section is then cut at each
/// line break, empty lines are dropped and each other line is split at its
/// first `": "`, which it must hold. `None` where the buffer holds fewer than
/// two line breaks.
pub fn parse_http_request(buffer: &[u8]) -> (r: Option<(String, Vec<(String, String)>, String)>)
    requires
        request_well_formed(buffer@),
    ensures
        request_view(r) == parsed_request(buffer@),
        valid_utf8(buffer@) ==> request_view(r) == decoded_request(buffer@),
        r matches Some(req) ==> no_line_break(req.0@) && req.1@.len() <= 1,
{
    match locate_request_breaks(buffer) {
        Some((p1, p2)) => {
            proof {
                lemma_find_from(buffer@, 0, crlf());
                lemma_find_from(buffer@, p1 + 1, crlf());
                if valid_utf8(buffer@) {
                    lemma_request_parts_valid(buffer@);
                }
                lemma_request_parts_single_line(buffer@);
            }
            let n = buffer.len();
            let request_line = decode_lossy(slice_subrange(buffer, 0, p1));
            let section = decode_lossy(slice_subrange(buffer, p1 + 2, p2));
            proof {
                assert(no_line_break(request_line@));
                assert(no_line_break(section@));
                lemma_single_line_fields(section@);
            }
            let headers = header_fields(section.as_str());
            let body = decode_lossy(slice_subrange(buffer, p2 + 2, n));
            Some((request_line, headers, body))
        },
        None => None,
    }
}

/// How a raw request parses.
pub enum RequestParse {
    /// Request line, header fields and body.
    Parsed(String, Vec<(String, String)>, String),
    /// The buffer holds fewer than two line breaks.
    Incomplete,
    /// A nonempty line of the header section holds no `": "`, so it has no
    /// value to take.
    MalformedHeader,
}

/// A parse outcome seen as sequences: `None` for a malformed header.
pub open spec fn outcome_view(r: RequestParse) -> Option<Option<(Seq<char>, Seq<(Seq<char>, Seq<char>)>, Seq<char>)>> {
    match r {
        RequestParse::Parsed(line, headers, body) => Some(Some((line@, pairs_view(headers@), body@))),
        RequestParse::Incomplete => Some(None),
        RequestParse::MalformedHeader => None,
    }
}

/// Parses any buffer: where a header line has no `": "` it says so, where it
/// has, it gives what `parse_http_request` gives.
pub fn parse_request_checked(buffer: &[u8]) -> (r: RequestParse)
    ensures
        request_well_formed(buffer@) ==> outcome_view(r) == Some(parsed_request(buffer@)),
        !request_well_formed(buffer@) ==> r is MalformedHeader,
        valid_utf8(buffer@) && decoded_well_formed(buffer@) ==> outcome_view(r) == Some(
            decoded_request(buffer@),
        ),
        valid_utf8(buffer@) && !decoded_well_formed(buffer@) ==> r is MalformedHeader,
        r matches RequestParse::Parsed(line, headers, _) ==> no_line_break(line@) && headers@.len() <= 1,
{
    if !is_well_formed_request(buffer) {
        return RequestParse::MalformedHeader;
    }
    match parse_http_request(buffer) {
        Some((line, headers, body)) => RequestParse::Parsed(line, headers, body),
        None => RequestParse::Incomplete,
    }
}

/// The path of a request line: what stands between its first space and the
/// next space after it (or the end of the line).
pub open spec fn request_path(line: Seq<char>) -> Seq<char> {
    match find_from(line, 0, seq![' ']) {
        Some(i) => match find_from(line, i + 1, seq![' ']) {
            Some(j) => line.subrange(i + 1, j),
            None => line.subrange(i + 1, line.len() as int),
        },
        None => Seq::empty(),
    }
}

/// A request line from which a path can be taken: it holds a space.
pub open spec fn has_path(line: Seq<char>) -> bool {
    find_from(line, 0, seq![' ']) is Some
}

/// Takes the path out of a request line such as `GET /index HTTP/1.1`: the
/// second of the fields that single spaces separate. The line must hold a
/// space.
pub fn get_path_from_request_line(request_line: &str) -> (r: Option<&str>)
    requires
        has_path(request_line@),
    ensures
        r matches Some(path) && path@ == request_path(request_line@),
{
    let space = " ";
    proof {
        reveal_strlit(" ");
        assert(space@ =~= seq![' ']);
    }
    let n = request_line.unicode_len();
    match find_str(request_line, 0, space) {
        Some(i) => {
            proof { lemma_find_from(request_line@, 0, seq![' ']); }
            let end = match find_str(request_line, i + 1, space) {
                Some(j) => {
                    proof { lemma_find_from(request_line@, i + 1, seq![' ']); }
                    j
                },
                None => n,
            };
            Some(request_line.substring_char(i + 1, end))
        },
        None => None,
    }
}

/// Law: the path is the text right after the first space of the line, up to
/// the next space or the end; it holds no space, and neither does the method
/// before it.
pub proof fn lemma_request_path_shape(line: Seq<char>)
    requires
        has_path(line),
    ensures
        ({
            let i = find_from(line, 0, seq![' ']).unwrap();
            let path = request_path(line);
            let end = i + 1 + path.len();
            &&& line[i] == ' '
            &&& forall|k: int| 0 <= k < i ==> line[k] != ' '
            &&& end <= line.len()
            &&& line.subrange(i + 1, end) == path
            &&& forall|k: int| 0 <= k < path.len() ==> path[k] != ' '
            &&& (end == line.len() || line[end] == ' ')
        }),
{
    let sp = seq![' '];
    lemma_find_from(line, 0, sp);
    let i = find_from(line, 0, sp).unwrap();
    assert(line.subrange(i, i + 1) == sp);
    assert(line[i] == line.subrange(i, i + 1)[0]);
    assert forall|k: int| 0 <= k < i implies line[k] != ' ' by {
        if line[k] == ' ' {
            assert(line.subrange(k, k + 1) =~= sp);
            assert(occurs_at(line, k, sp));
        }
    }
    lemma_find_from(line, i + 1, sp);
    let path = request_path(line);
    let end = i + 1 + path.len();
    match find_from(line, i + 1, sp) {
        Some(j) => {
            assert(line.subrange(j, j + 1) == sp);
            assert(line[j] == line.subrange(j, j + 1)[0]);
            assert(end == j);
        },
        None => {},
    }
    assert forall|k: int| 0 <= k < path.len() implies path[k] != ' ' by {
        assert(path[k] == line[i + 1 + k]);
        if line[i + 1 + k] == ' ' {
            assert(line.subrange(i + 1 + k, i + 2 + k) =~= sp);
            assert(occurs_at(line, i + 1 + k, sp));
        }
    }
}

/// The blank line that ends the head of a message: two line breaks.
pub open spec fn blank_line() -> Seq<char> {
    seq!['\r', '\n', '\r', '\n']
}

/// What follows the first blank line of `body`, or nothing where it has none.
pub open spec fn after_blank_line(body: Seq<char>) -> Seq<char> {
    match find_from(body, 0, blank_line()) {
        Some(k) => body.subrange(k + 4, body.len() as int),
        None => Seq::empty(),
    }
}

/// The JSON payload of a body: what follows its first blank line, without
/// leading and trailing white space, then without trailing NUL characters.
pub open spec fn json_payload(body: Seq<char>) -> Seq<char> {
    trim_end_nul(trim_ws(after_blank_line(body)))
}

/// Law: the JSON payload is a piece of what follows the blank line of the
/// body; it neither starts with white space nor ends with a NUL character.
pub proof fn lemma_json_payload_shape(body: Seq<char>)
    ensures
        ({
            let after = after_blank_line(body);
            let payload = json_payload(body);
            &&& exists|k: int| 0 <= k && k + payload.len() <= after.len()
                && #[trigger] after.subrange(k, k + payload.len()) == payload
            &&& payload.len() > 0 ==> !is_white_space(payload[0])
            &&& payload.len() > 0 ==> payload.last() != '\0'
        }),
{
    let after = after_blank_line(body);
    let u = trim_start_ws(after);
    let t = trim_end_ws(u);
    let payload = trim_end_nul(t);
    lemma_trim_start_ws(after);
    lemma_trim_end_ws(u);
    lemma_trim_end_nul(t);
    let k = after.len() - u.len();
    assert(after.subrange(k, k + payload.len()) =~= payload);
    assert(payload == json_payload(body));
    if payload.len() > 0 {
        assert(payload[0] == t[0]);
        assert(t[0] == u[0]);
        assert(!is_white_space(payload[0]));
        assert(payload.last() != '\0');
    }
}

/// Takes the JSON payload out of a request body: the text after its first
/// blank line (`"\r\n\r\n"`), trimmed of white space, then of the NUL
/// bytes that pad a fixed-size read buffer. Empty where the body has no blank
/// line.
pub fn get_json_from_body(body: &str) -> (r: &str)
    ensures
        r@ == json_payload(body@),
{
    let blank = "\r\n\r\n";
    proof {
        reveal_strlit("\r\n\r\n");
        assert(blank@ =~= blank_line());
    }
    let n = body.unicode_len();
    let start = match find_str(body, 0, blank) {
        Some(k) => {
            proof { lemma_find_from(body@, 0, blank_line()); }
            k + 4
        },
        None => n,
    };
    let after = body.substring_char(start, n);
    assert(after@ =~= after_blank_line(body@));
    trim_end_nul_str(trim_str(after))
}

/// The length of a text in UTF-8 bytes, as `str::len` reports it.
pub open spec fn byte_len(text: Seq<char>) -> usize {
    encode_utf8(text).len() as usize
}

/// A response: the status line and headers up to `Content-Length: `, the
/// decimal byte length of the body, a blank line, then the body.
pub open spec fn framed(head: Seq<char>, body: Seq<char>) -> Seq<char> {
    head + decimal(byte_len(body) as nat) + seq!['\n', '\n'] + body
}

/// `r` is a response made of `head`, a `Content-Length` value, a blank line
/// and `body`, where the value is written in decimal digits, with no leading
/// zero, and equals the length of `body` in UTF-8 bytes.
pub open spec fn carries_content_length(r: Seq<char>, head: Seq<char>, body: Seq<char>) -> bool {
    let k = r.len() - body.len() - 2;
    &&& head.len() < k
    &&& r.subrange(0, head.len() as int) == head
    &&& forall|i: int| head.len() <= i < k ==> is_digit(#[trigger] r[i])
    &&& (k - head.len() > 1 ==> r[head.len() as int] != '0')
    &&& digits_value(r.subrange(head.len() as int, k)) == encode_utf8(body).len()
    &&& r.subrange(k, r.len() as int) == seq!['\n', '\n'] + body
}

/// Law: a framed response is the head, then the body's length in UTF-8 bytes
/// (not in characters) as decimal digits with no leading zero, then a blank
/// line, then the body, whatever the body holds.
pub proof fn lemma_framed_content_length(head: Seq<char>, body: Seq<char>)
    requires
        encode_utf8(body).len() <= usize::MAX,
    ensures
        ({
            let r = framed(head, body);
            let k = r.len() - body.len() - 2;
            &&& head.len() < k
            &&& r.subrange(0, head.len() as int) == head
            &&& forall|i: int| head.len() <= i < k ==> is_digit(#[trigger] r[i])
            &&& (k - head.len() > 1 ==> r[head.len() as int] != '0')
            &&& digits_value(r.subrange(head.len() as int, k)) == encode_utf8(body).len()
            &&& r.subrange(k, r.len() as int) == seq!['\n', '\n'] + body
        }),
        carries_content_length(framed(head, body), head, body),
{
    let n = encode_utf8(body).len();
    assert(byte_len(body) as nat == n);
    let d = decimal(n);
    lemma_decimal_reads_back(n);
    let r = framed(head, body);
    assert(r == head + d + seq!['\n', '\n'] + body);
    let k = r.len() - body.len() - 2;
    assert(k == head.len() + d.len());
    assert(r.subrange(0, head.len() as int) =~= head);
    assert(r.subrange(head.len() as int, k) =~= d);
    assert(r.subrange(k, r.len() as int) =~= seq!['\n', '\n'] + body);
    assert forall|i: int| head.len() <= i < k implies is_digit(#[trigger] r[i]) by {
        assert(r[i] == d[i - head.len()]);
    }
    assert(r[head.len() as int] == d[0]);
}

/// The head of a page that was found.
pub open spec fn html_ok_head() -> Seq<char> {
    "HTTP/1.1 200 OK\nContent-Type: text/html\nContent-Length: "@
}

/// The head of the answer to a page that was not found.
pub open spec fn html_not_found_head() -> Seq<char> {
    "HTTP/1.1 404 Not Found\nContent-Type: text/html\nContent-Length: "@
}

/// The head of a JSON answer.
pub open spec fn json_ok_head() -> Seq<char> {
    "HTTP/1.1 200 OK\nContent-Type: application/json\nContent-Length: "@
}

/// Frames `body` under `head` with its byte length.
fn frame(head: &str, body: &str) -> (r: String)
    ensures
        r@ == framed(head@, body@),
        carries_content_length(r@, head@, body@),
{
    let bytes = body.as_bytes();
    let count: usize = bytes.len();
    assert(count == encode_utf8(body@).len());
    proof { lemma_framed_content_length(head@, body@); }
    let mut r = String::from_str(head);
    let length = decimal_string(body.len());
    r.append(length.as_str());
    let blank = "\n\n";
    proof {
        reveal_strlit("\n\n");
        assert(blank@ =~= seq!['\n', '\n']);
    }
    r.append(blank);
    r.append(body);
    r
}

/// The file that holds the page at `path` under `root`: `index.html` for
/// `/`, else the path with `.html` appended.
pub open spec fn page_file(root: Seq<char>, path: Seq<char>) -> Seq<char> {
    if path == seq!['/'] {
        root + "/index.html"@
    } else {
        root + path + ".html"@
    }
}

/// The file of the page under `root` that a request for `path` reads.
pub fn html_file_path(root: &str, path: &str) -> (r: String)
    ensures
        r@ == page_file(root@, path@),
        path@ == "/"@ ==> r@ == root@ + "/index.html"@,
        path@ != "/"@ ==> r@ == root@ + path@ + ".html"@,
{
    let slash = "/";
    proof {
        reveal_strlit("/");
        assert(slash@ =~= seq!['/']);
    }
    let mut r = String::from_str(root);
    if str_equal(path, slash) {
        r.append("/index.html");
    } else {
        r.append(path);
        r.append(".html");
    }
    r
}

/// The file of the page under `root` that answers a request for a page that
/// does not exist.
pub fn not_found_file_path(root: &str) -> (r: String)
    ensures
        r@ == root@ + "/404.html"@,
{
    let mut r = String::from_str(root);
    r.append("/404.html");
    r
}

/// Text seen as a sequence, where there is one.
pub open spec fn text_view(t: Option<String>) -> Option<Seq<char>> {
    match t {
        Some(s) => Some(s@),
        None => None,
    }
}

/// The answer to a page request: the page, where it could be read, with
/// status 200; else status 404 with the not-found page, or with the text
/// `404 Not Found` where that could not be read either.
pub open spec fn page_response(page: Option<Seq<char>>, not_found_page: Option<Seq<char>>) -> Seq<char> {
    match page {
        Some(body) => framed(html_ok_head(), body),
        None => match not_found_page {
            Some(body) => framed(html_not_found_head(), body),
            None => framed(html_not_found_head(), "404 Not Found"@),
        },
    }
}

/// Law: every page answer carries as its `Content-Length` the UTF-8 byte
/// length of the body it sends: the page under status 200, else the
/// not-found page, else the text `404 Not Found`, under status 404.
pub proof fn lemma_page_response_content_length(page: Option<Seq<char>>, not_found_page: Option<Seq<char>>)
    requires
        page matches Some(b) ==> encode_utf8(b).len() <= usize::MAX,
        not_found_page matches Some(b) ==> encode_utf8(b).len() <= usize::MAX,
    ensures
        match page {
            Some(body) => carries_content_length(page_response(page, not_found_page), html_ok_head(), body),
            None => match not_found_page {
                Some(body) => carries_content_length(
                    page_response(page, not_found_page),
                    html_not_found_head(),
                    body,
                ),
                None => carries_content_length(
                    page_response(page, not_found_page),
                    html_not_found_head(),
                    "404 Not Found"@,
                ),
            },
        },
{
    match page {
        Some(body) => lemma_framed_content_length(html_ok_head(), body),
        None => match not_found_page {
            Some(body) => lemma_framed_content_length(html_not_found_head(), body),
            None => {
                reveal_strlit("404 Not Found");
                let t = "404 Not Found"@;
                assert(encode_utf8(t).len() == t.len()) by {
                    assert(is_ascii_chars(t));
                    is_ascii_chars_encode_utf8(t);
                }
                lemma_framed_content_length(html_not_found_head(), t);
            },
        },
    }
}

/// Builds the answer to a page request from what reading the page and the
/// not-found page gave.
pub fn html_response(page: Option<String>, not_found_page: Option<String>) -> (r: String)
    ensures
        r@ == page_response(text_view(page), text_view(not_found_page)),
        match page {
            Some(body) => carries_content_length(r@, html_ok_head(), body@),
            None => match not_found_page {
                Some(body) => carries_content_length(r@, html_not_found_head(), body@),
                None => carries_content_length(r@, html_not_found_head(), "404 Not Found"@),
            },
        },
{
    match page {
        Some(body) => frame("HTTP/1.1 200 OK\nContent-Type: text/html\nContent-Length: ", body.as_str()),
        None => {
            let head = "HTTP/1.1 404 Not Found\nContent-Type: text/html\nContent-Length: ";
            match not_found_page {
                Some(body) => frame(head, body.as_str()),
                None => frame(head, "404 Not Found"),
            }
        },
    }
}

/// The answer that carries a JSON document.
pub fn json_response(json: &str) -> (r: String)
    ensures
        r@ == framed(json_ok_head(), json@),
        carries_content_length(r@, json_ok_head(), json@),
{
    frame("HTTP/1.1 200 OK\nContent-Type: application/json\nContent-Length: ", json)
}

/// The answer to a request that cannot be served.
pub fn bad_request_response() -> (r: String)
    ensures
        r@ == "HTTP/1.1 400 Bad Request"@,
{
    String::from_str("HTTP/1.1 400 Bad Request")
}

/// What a request asks for.
pub enum Route {
    /// A page, by its path.
    Page(String),
    /// The posting of a JSON message, by its payload.
    Post(String),
    /// Nothing this server serves.
    BadRequest,
}

/// A request line that routing takes without panicking: a `GET` line holds a
/// space, so that a path can be taken from it.
pub open spec fn routable(request_line: Seq<char>) -> bool {
    starts_with(request_line, "GET"@) ==> has_path(request_line)
}

/// What a request with this request line and body asks for: a page where the
/// line starts with `GET`, a posting where it starts with `POST`, else
/// nothing.
pub open spec fn route_of(request_line: Seq<char>, body: Seq<char>) -> (Option<Seq<char>>, Option<Seq<char>>) {
    if starts_with(request_line, "GET"@) {
        (Some(request_path(request_line)), None)
    } else if starts_with(request_line, "POST"@) {
        (None, Some(json_payload(body)))
    } else {
        (None, None)
    }
}

/// A route seen as (page path, posted payload).
pub open spec fn route_view(r: Route) -> (Option<Seq<char>>, Option<Seq<char>>) {
    match r {
        Route::Page(path) => (Some(path@), None),
        Route::Post(json) => (None, Some(json@)),
        Route::BadRequest => (None, None),
    }
}

/// Law: no request line starts with both `GET` and `POST`.
proof fn lemma_methods_exclusive(line: Seq<char>)
    ensures
        !(starts_with(line, "GET"@) && starts_with(line, "POST"@)),
{
    reveal_strlit("GET");
    reveal_strlit("POST");
    if starts_with(line, "GET"@) && starts_with(line, "POST"@) {
        assert(line[0] == line.subrange(0, 3)[0]);
        assert(line[0] == line.subrange(0, 4)[0]);
    }
}

/// Law: a request line that starts with `POST` always routes to the posting of
/// the body's JSON payload, whatever the body holds (an empty payload too); one
/// that starts with `GET` routes to the page at its path; any other routes to
/// nothing. So a page is routed only for a `GET` line, a posting only for a
/// `POST` line.
pub proof fn lemma_route_by_method(request_line: Seq<char>, body: Seq<char>)
    ensures
        starts_with(request_line, "POST"@) ==> route_of(request_line, body) == (
        None::<Seq<char>>,
        Some(json_payload(body)),
        ),
        starts_with(request_line, "GET"@) ==> route_of(request_line, body) == (
        Some(request_path(request_line)),
        None::<Seq<char>>,
        ),
        route_of(request_line, body).0 is Some ==> starts_with(request_line, "GET"@),
        route_of(request_line, body).1 is Some ==> starts_with(request_line, "POST"@),
        (!starts_with(request_line, "GET"@) && !starts_with(request_line, "POST"@)) ==> route_of(
            request_line,
            body,
        ) == (None::<Seq<char>>, None::<Seq<char>>),
{
    lemma_methods_exclusive(request_line);
}

/// Decides what a parsed request asks for, from its request line and body.
pub fn route_request(request_line: &str, body: &str) -> (r: Route)
    requires
        routable(request_line@),
    ensures
        route_view(r) == route_of(request_line@, body@),
        starts_with(request_line@, "POST"@) ==> (r matches Route::Post(json) && json@ == json_payload(
            body@,
        )),
        starts_with(request_line@, "GET"@) ==> (r matches Route::Page(path) && path@ == request_path(
            request_line@,
        )),
        r is Page ==> starts_with(request_line@, "GET"@),
        r is Post ==> starts_with(request_line@, "POST"@),
        r is BadRequest <==> (!starts_with(request_line@, "GET"@) && !starts_with(
            request_line@,
            "POST"@,
        )),
{
    proof { lemma_methods_exclusive(request_line@); }
    if starts_with_str(request_line, "GET") {
        match get_path_from_request_line(request_line) {
            Some(path) => Route::Page(String::from_str(path)),
            None => Route::BadRequest,
        }
    } else if starts_with_str(request_line, "POST") {
        Route::Post(String::from_str(get_json_from_body(body)))
    } else {
        Route::BadRequest
    }
}

/// A guest-book entry as a request posts it: the message and who left it.
pub struct Message {
    message: String,
    guest: String,
}

impl View for Message {
    type V = (Seq<char>, Seq<char>);

    closed spec fn view(&self) -> (Seq<char>, Seq<char>) {
        (self.message@, self.guest@)
    }
}

impl Message {
    /// An entry with this message, left by this guest.
    pub fn new(message: String, guest: String) -> (r: Message)
        ensures
            r@ == (message@, guest@),
    {
        Message { message, guest }
    }

    /// The message.
    pub fn message(&self) -> (r: &str)
        ensures
            r@ == self@.0,
    {
        self.message.as_str()
    }

    /// Who left it.
    pub fn guest(&self) -> (r: &str)
        ensures
            r@ == self@.1,
    {
        self.guest.as_str()
    }
}

} // verus!
