//! Laws of request parsing: what the cuts keep, what the parts cannot hold,
//! and what a request built from known parts parses back to.

use vstd::prelude::*;
use vstd::utf8::{char_u32_cast, decode_utf8, decode_utf8_encode_utf8, encode_scalar, encode_utf8, valid_utf8};

use crate::encoding::{
    lemma_decode_concat, lemma_encode_concat, lemma_encode_first_byte, lemma_encode_round_trip,
    lemma_encode_scalar_bytes,
};
use crate::http::{
    after_blank_line, blank_line, json_payload,
    decoded_request, decoded_well_formed, field_spans_from, header_fields_of, header_section,
    fields_separated_from, line_field, name_separator, request_breaks, split_field,
    lemma_request_parts_valid,
};
use crate::text::{
    crlf, line_break,
    is_white_space, trim_end_nul, trim_end_ws, trim_start_ws,
    find_from, lemma_find_from, lemma_find_from_first, lemma_occurs_in_subrange, lemma_pair_occurs,
    occurs_at,
};

verus! {

/// Law: cutting a request at its two line breaks loses nothing: the request
/// line, a line break, the header section, a line break and the body make up
/// the buffer again.
pub proof fn lemma_request_split_lossless(buf: Seq<u8>)
    requires
        request_breaks(buf) is Some,
    ensures
        ({
            let (p1, p2) = request_breaks(buf).unwrap();
            buf == buf.subrange(0, p1) + crlf() + header_section(buf, p1, p2) + crlf()
                + buf.subrange(p2 + 2, buf.len() as int)
        }),
{
    let (p1, p2) = request_breaks(buf).unwrap();
    lemma_find_from(buf, 0, crlf());
    lemma_find_from(buf, p1 + 1, crlf());
    assert(buf.subrange(p1, p1 + 2) == crlf());
    assert(buf.subrange(p2, p2 + 2) == crlf());
    assert(buf =~= buf.subrange(0, p1) + buf.subrange(p1, p1 + 2) + buf.subrange(p1 + 2, p2)
        + buf.subrange(p2, p2 + 2) + buf.subrange(p2 + 2, buf.len() as int));
}

/// Law: a buffer splits into request line, header section and body exactly
/// when it holds two line breaks, and then the request line ends at the
/// first line break and the header section at the second.
pub proof fn lemma_request_breaks_exist(buf: Seq<u8>)
    ensures
        request_breaks(buf) is Some <==> exists|i: int, j: int|
            i < j && #[trigger] occurs_at(buf, i, crlf()) && #[trigger] occurs_at(buf, j, crlf()),
        request_breaks(buf) matches Some((p1, p2)) ==> {
            &&& p1 < p2
            &&& occurs_at(buf, p1, crlf())
            &&& occurs_at(buf, p2, crlf())
            &&& forall|k: int| 0 <= k < p2 && k != p1 ==> !#[trigger] occurs_at(buf, k, crlf())
        },
{
    lemma_find_from(buf, 0, crlf());
    if let Some(p1) = find_from(buf, 0, crlf()) {
        lemma_find_from(buf, p1 + 1, crlf());
        if let Some(p2) = find_from(buf, p1 + 1, crlf()) {
            assert(occurs_at(buf, p1, crlf()) && occurs_at(buf, p2, crlf()));
            assert forall|k: int| 0 <= k < p2 && k != p1 implies !#[trigger] occurs_at(buf, k, crlf()) by {
                if k == p1 + 1 {
                    lemma_pair_occurs(buf, p1, 13u8, 10u8);
                    lemma_pair_occurs(buf, k, 13u8, 10u8);
                }
            }
        } else {
            assert forall|i: int, j: int|
                i < j && #[trigger] occurs_at(buf, i, crlf()) implies !#[trigger] occurs_at(buf, j, crlf()) by {
                assert(p1 <= i);
            }
        }
    }
}

/// Law: a header field cuts its line losslessly: the name, `": "` and the
/// value make up the line again, and the name holds no `": "`.
pub proof fn lemma_field_split_lossless(line: Seq<char>)
    requires
        find_from(line, 0, name_separator()) is Some,
    ensures
        split_field(line).0 + name_separator() + split_field(line).1 == line,
        forall|i: int| !#[trigger] occurs_at(split_field(line).0, i, name_separator()),
{
    lemma_find_from(line, 0, name_separator());
    let j = find_from(line, 0, name_separator()).unwrap();
    let name = line.subrange(0, j);
    assert(line.subrange(j, j + 2) == name_separator());
    assert(line =~= name + line.subrange(j, j + 2) + line.subrange(j + 2, line.len() as int));
    assert forall|i: int| !#[trigger] occurs_at(name, i, name_separator()) by {
        if occurs_at(name, i, name_separator()) {
            lemma_occurs_in_subrange(line, 0, j, i, name_separator());
        }
    }
}

/// A text holds no line break.
pub open spec fn no_line_break(s: Seq<char>) -> bool {
    forall|i: int| !#[trigger] occurs_at(s, i, line_break())
}

/// A header field whose name holds neither `": "` nor a line break, and whose
/// value holds no line break.
pub open spec fn field_shaped(field: (Seq<char>, Seq<char>)) -> bool {
    &&& forall|i: int| !#[trigger] occurs_at(field.0, i, name_separator())
    &&& no_line_break(field.0)
    &&& no_line_break(field.1)
}

/// A piece of a text without line breaks has none either.
proof fn lemma_no_line_break_subrange(s: Seq<char>, lo: int, hi: int)
    requires
        no_line_break(s),
        0 <= lo <= hi <= s.len(),
    ensures
        no_line_break(s.subrange(lo, hi)),
{
    assert forall|i: int| !#[trigger] occurs_at(s.subrange(lo, hi), i, line_break()) by {
        if occurs_at(s.subrange(lo, hi), i, line_break()) {
            lemma_occurs_in_subrange(s, lo, hi, i, line_break());
        }
    }
}

/// The field of a line without line breaks is well shaped.
proof fn lemma_line_field_shaped(line: Seq<char>)
    requires
        no_line_break(line),
    ensures
        forall|k: int| 0 <= k < line_field(line).len() ==> field_shaped(#[trigger] line_field(line)[k]),
{
    if line.len() > 0 {
        lemma_find_from(line, 0, name_separator());
        match find_from(line, 0, name_separator()) {
            Some(j) => {
                lemma_field_split_lossless(line);
                lemma_no_line_break_subrange(line, 0, j);
                lemma_no_line_break_subrange(line, j + 2, line.len() as int);
            },
            None => {},
        }
        assert(line_field(line)[0] == split_field(line));
    }
}

proof fn lemma_fields_from_shaped(s: Seq<char>, start: int)
    ensures
        forall|k: int| 0 <= k < field_spans_from(s, start).len() ==> field_shaped(
            #[trigger] field_spans_from(s, start)[k],
        ),
    decreases s.len() + 1 - start,
{
    if 0 <= start <= s.len() {
        lemma_find_from(s, start, line_break());
        match find_from(s, start, line_break()) {
            Some(i) => {
                if start <= i && i + 2 <= s.len() {
                    let line = s.subrange(start, i);
                    assert forall|t: int| !#[trigger] occurs_at(line, t, line_break()) by {
                        if occurs_at(line, t, line_break()) {
                            lemma_occurs_in_subrange(s, start, i, t, line_break());
                        }
                    }
                    lemma_line_field_shaped(line);
                    lemma_fields_from_shaped(s, i + 2);
                    let first = line_field(line);
                    let rest = field_spans_from(s, i + 2);
                    assert forall|k: int| 0 <= k < (first + rest).len() implies field_shaped(
                        #[trigger] (first + rest)[k],
                    ) by {
                        if k < first.len() {
                            assert((first + rest)[k] == first[k]);
                        } else {
                            assert((first + rest)[k] == rest[k - first.len()]);
                        }
                    }
                }
            },
            None => {
                let line = s.subrange(start, s.len() as int);
                assert forall|t: int| !#[trigger] occurs_at(line, t, line_break()) by {
                    if occurs_at(line, t, line_break()) {
                        lemma_occurs_in_subrange(s, start, s.len() as int, t, line_break());
                    }
                }
                lemma_line_field_shaped(line);
            },
        }
    }
}

/// Law: in the header fields of any text, a name holds neither `": "` nor a
/// line break, and a value holds no line break.
pub proof fn lemma_header_fields_shaped(text: Seq<char>)
    ensures
        forall|k: int| 0 <= k < header_fields_of(text).len() ==> field_shaped(
            #[trigger] header_fields_of(text)[k],
        ),
{
    lemma_fields_from_shaped(text, 0);
}

/// A text without line breaks gives at most one header field.
pub proof fn lemma_single_line_fields(text: Seq<char>)
    requires
        no_line_break(text),
    ensures
        header_fields_of(text) == line_field(text),
        header_fields_of(text).len() <= 1,
{
    lemma_find_from(text, 0, line_break());
    assert(text.subrange(0, text.len() as int) =~= text);
}

/// The bytes of a line break.
proof fn lemma_encode_line_break()
    ensures
        encode_utf8(line_break()) == crlf(),
{
    lemma_encode_scalar_bytes('\r');
    lemma_encode_scalar_bytes('\n');
    let lb = line_break();
    let nl = seq!['\n'];
    assert(('\n' as u32) == 10u32);
    assert(('\r' as u32) == 13u32);
    assert(lb.drop_first() =~= nl);
    assert(nl.drop_first() =~= Seq::<char>::empty());
    assert(nl[0] == '\n');
    assert(lb[0] == '\r');
    assert(encode_utf8(Seq::<char>::empty()) =~= Seq::<u8>::empty());
    assert(encode_scalar('\n' as u32) =~= seq![10u8]);
    assert(encode_scalar('\r' as u32) =~= seq![13u8]);
    assert(encode_utf8(nl) =~= seq![10u8]);
    assert(encode_utf8(lb) =~= crlf());
}

/// A valid sequence without the line-break bytes decodes to a text without
/// line breaks.
pub proof fn lemma_decoded_no_line_break(x: Seq<u8>)
    requires
        valid_utf8(x),
        forall|i: int| !#[trigger] occurs_at(x, i, crlf()),
    ensures
        no_line_break(decode_utf8(x)),
{
    let d = decode_utf8(x);
    decode_utf8_encode_utf8(x);
    assert forall|j: int| !#[trigger] occurs_at(d, j, line_break()) by {
        if occurs_at(d, j, line_break()) {
            let a = d.subrange(0, j);
            let b = d.subrange(j + 2, d.len() as int);
            assert(d =~= a + line_break() + b);
            lemma_encode_concat(a + line_break(), b);
            lemma_encode_concat(a, line_break());
            lemma_encode_line_break();
            let ea = encode_utf8(a);
            assert(x == ea + crlf() + encode_utf8(b));
            assert((ea + crlf() + encode_utf8(b)).subrange(ea.len() as int, ea.len() as int + 2) =~= crlf());
            assert(occurs_at(x, ea.len() as int, crlf()));
        }
    }
}

/// Law: neither the request line nor the header section holds the bytes of a
/// line break. Where the buffer is valid UTF-8, neither does the decoded
/// request line or header section, so the header fields number at most one,
/// and no name holds `": "` nor any name or value a line break.
pub proof fn lemma_request_parts_single_line(buf: Seq<u8>)
    requires
        request_breaks(buf) is Some,
    ensures
        ({
            let (p1, p2) = request_breaks(buf).unwrap();
            &&& forall|i: int| !#[trigger] occurs_at(buf.subrange(0, p1), i, crlf())
            &&& forall|i: int| !#[trigger] occurs_at(header_section(buf, p1, p2), i, crlf())
            &&& valid_utf8(buf) ==> {
                &&& no_line_break(decode_utf8(buf.subrange(0, p1)))
                &&& no_line_break(decode_utf8(header_section(buf, p1, p2)))
                &&& decoded_request(buf) matches Some((line, fields, body)) && {
                    &&& fields.len() <= 1
                    &&& no_line_break(line)
                    &&& forall|k: int| 0 <= k < fields.len() ==> field_shaped(#[trigger] fields[k])
                }
            }
        }),
{
    let (p1, p2) = request_breaks(buf).unwrap();
    lemma_find_from(buf, 0, crlf());
    lemma_find_from(buf, p1 + 1, crlf());
    let line = buf.subrange(0, p1);
    let section = header_section(buf, p1, p2);
    assert forall|i: int| !#[trigger] occurs_at(line, i, crlf()) by {
        if occurs_at(line, i, crlf()) {
            lemma_occurs_in_subrange(buf, 0, p1, i, crlf());
        }
    }
    assert forall|i: int| !#[trigger] occurs_at(section, i, crlf()) by {
        if occurs_at(section, i, crlf()) {
            lemma_occurs_in_subrange(buf, p1 + 2, p2, i, crlf());
        }
    }
    if valid_utf8(buf) {
        lemma_request_parts_valid(buf);
        lemma_decoded_no_line_break(line);
        lemma_decoded_no_line_break(section);
        lemma_single_line_fields(decode_utf8(section));
        lemma_header_fields_shaped(decode_utf8(section));
    }
}

/// A text without line breaks encodes without the line-break bytes.
pub proof fn lemma_encoded_no_crlf(s: Seq<char>)
    requires
        no_line_break(s),
    ensures
        forall|i: int| !#[trigger] occurs_at(encode_utf8(s), i, crlf()),
    decreases s.len(),
{
    if s.len() > 0 {
        let rest = s.drop_first();
        assert forall|j: int| !#[trigger] occurs_at(rest, j, line_break()) by {
            if occurs_at(rest, j, line_break()) {
                lemma_pair_occurs(rest, j, '\r', '\n');
                lemma_pair_occurs(s, j + 1, '\r', '\n');
                assert(occurs_at(s, j + 1, line_break()));
            }
        }
        lemma_encoded_no_crlf(rest);
        let e0 = encode_scalar(s[0] as u32);
        let er = encode_utf8(rest);
        let e = encode_utf8(s);
        assert(e == e0 + er);
        lemma_encode_scalar_bytes(s[0]);
        assert forall|i: int| !#[trigger] occurs_at(e, i, crlf()) by {
            lemma_pair_occurs(e, i, 13u8, 10u8);
            if occurs_at(e, i, crlf()) {
                if i < e0.len() {
                    if (s[0] as u32) < 0x80 {
                        assert(e[0] == e0[0]);
                        assert((s[0] as u32) == 13u32);
                        char_u32_cast(s[0], 13u32);
                        char_u32_cast('\r', 13u32);
                        assert(s[0] == '\r');
                        if rest.len() == 0 {
                            assert(er.len() == 0);
                        }
                        lemma_encode_first_byte(rest, 10u8);
                        assert(e[1] == er[0]);
                        assert((rest[0] as u32) == 10u32);
                        char_u32_cast(rest[0], 10u32);
                        char_u32_cast('\n', 10u32);
                        assert(rest[0] == '\n');
                        assert(s[1] == rest[0]);
                        lemma_pair_occurs(s, 0, '\r', '\n');
                        assert(occurs_at(s, 0, line_break()));
                    } else {
                        assert(e[i] == e0[i]);
                        assert(e0[i] >= 0x80);
                    }
                } else {
                    assert(e[i] == er[i - e0.len()]);
                    assert(e[i + 1] == er[i - e0.len() + 1]);
                    lemma_pair_occurs(er, i - e0.len(), 13u8, 10u8);
                    assert(occurs_at(er, i - e0.len(), crlf()));
                }
            }
        }
    }
}

/// The bytes of a request built from a request line, a header line and a
/// body, all as text.
pub open spec fn request_bytes(line: Seq<char>, header: Seq<char>, body: Seq<char>) -> Seq<u8> {
    encode_utf8(line + line_break() + header + line_break() + body)
}

/// Law: a request built from a request line and a header line without line
/// breaks, and any body, parses back to that request line, the header fields
/// of that header line, and that body; the parser takes it exactly when the
/// header line is empty or holds `": "`.
pub proof fn lemma_request_round_trip(line: Seq<char>, header: Seq<char>, body: Seq<char>)
    requires
        no_line_break(line),
        no_line_break(header),
    ensures
        valid_utf8(request_bytes(line, header, body)),
        request_breaks(request_bytes(line, header, body)) == Some((
            encode_utf8(line).len() as int,
            encode_utf8(line).len() + 2 + encode_utf8(header).len() as int,
        )),
        decoded_request(request_bytes(line, header, body)) == Some((line, header_fields_of(header), body)),
        decoded_well_formed(request_bytes(line, header, body)) == fields_separated_from(header, 0),
{
    let lb = line_break();
    let el = encode_utf8(line);
    let eh = encode_utf8(header);
    let eb = encode_utf8(body);
    let buf = request_bytes(line, header, body);
    lemma_encode_concat(line + lb + header + lb, body);
    lemma_encode_concat(line + lb + header, lb);
    lemma_encode_concat(line + lb, header);
    lemma_encode_concat(line, lb);
    lemma_encode_line_break();
    assert(buf == el + crlf() + eh + crlf() + eb);
    lemma_encode_round_trip(line + lb + header + lb + body);
    lemma_encode_round_trip(line);
    lemma_encode_round_trip(header);
    lemma_encode_round_trip(body);
    lemma_encoded_no_crlf(line);
    lemma_encoded_no_crlf(header);
    let p1 = el.len() as int;
    let p2 = p1 + 2 + eh.len();
    assert(buf.len() == p2 + 2 + eb.len());
    assert forall|k: int| 0 <= k < p1 implies buf[k] == el[k] by {}
    assert forall|k: int| 0 <= k < eh.len() implies buf[p1 + 2 + k] == eh[k] by {}
    assert(buf[p1] == 13u8 && buf[p1 + 1] == 10u8);
    assert(buf[p2] == 13u8 && buf[p2 + 1] == 10u8);
    lemma_pair_occurs(buf, p1, 13u8, 10u8);
    lemma_pair_occurs(buf, p2, 13u8, 10u8);
    assert forall|i: int| 0 <= i < p1 implies !#[trigger] occurs_at(buf, i, crlf()) by {
        lemma_pair_occurs(buf, i, 13u8, 10u8);
        if i + 1 < p1 {
            lemma_pair_occurs(el, i, 13u8, 10u8);
        }
    }
    lemma_find_from_first(buf, 0, p1, crlf());
    assert forall|i: int| p1 + 1 <= i < p2 implies !#[trigger] occurs_at(buf, i, crlf()) by {
        lemma_pair_occurs(buf, i, 13u8, 10u8);
        if p1 + 2 <= i && i + 1 < p2 {
            assert(buf[i] == eh[i - p1 - 2]);
            assert(buf[i + 1] == eh[i - p1 - 1]);
            lemma_pair_occurs(eh, i - p1 - 2, 13u8, 10u8);
        }
    }
    lemma_find_from_first(buf, p1 + 1, p2, crlf());
    assert(buf.subrange(0, p1) =~= el);
    assert(header_section(buf, p1, p2) =~= eh);
    assert(buf.subrange(p2 + 2, buf.len() as int) =~= eb);
}

/// Law: a request built from a request line, one header field and a body,
/// where neither the request line, the name nor the value holds a line break
/// and the name holds no `": "`, parses back to exactly those parts.
pub proof fn lemma_request_field_round_trip(line: Seq<char>, name: Seq<char>, value: Seq<char>, body: Seq<char>)
    requires
        no_line_break(line),
        no_line_break(name),
        no_line_break(value),
        forall|i: int| !#[trigger] occurs_at(name, i, name_separator()),
    ensures
        decoded_well_formed(request_bytes(line, name + name_separator() + value, body)),
        decoded_request(request_bytes(line, name + name_separator() + value, body)) == Some((
            line,
            seq![(name, value)],
            body,
        )),
{
    let sep = name_separator();
    let header = name + sep + value;
    let n = name.len() as int;
    assert(header.len() == n + 2 + value.len());
    assert forall|k: int| 0 <= k < n implies header[k] == name[k] by {}
    assert(header[n] == ':' && header[n + 1] == ' ');
    assert forall|k: int| 0 <= k < value.len() implies header[n + 2 + k] == value[k] by {}
    assert forall|i: int| !#[trigger] occurs_at(header, i, line_break()) by {
        lemma_pair_occurs(header, i, '\r', '\n');
        if occurs_at(header, i, line_break()) {
            if i + 1 < n {
                lemma_pair_occurs(name, i, '\r', '\n');
            } else if i >= n + 2 {
                assert(header[i] == value[i - n - 2]);
                assert(header[i + 1] == value[i - n - 1]);
                lemma_pair_occurs(value, i - n - 2, '\r', '\n');
            }
        }
    }
    lemma_request_round_trip(line, header, body);
    lemma_pair_occurs(header, n, ':', ' ');
    assert forall|i: int| 0 <= i < n implies !#[trigger] occurs_at(header, i, sep) by {
        lemma_pair_occurs(header, i, ':', ' ');
        if i + 1 < n {
            lemma_pair_occurs(name, i, ':', ' ');
        }
    }
    lemma_find_from_first(header, 0, n, sep);
    assert(header.subrange(0, n) =~= name);
    assert(header.subrange(n + 2, header.len() as int) =~= value);
    lemma_single_line_fields(header);
    lemma_find_from(header, 0, line_break());
    assert(header.subrange(0, header.len() as int) =~= header);
    assert(line_field(header) =~= seq![(name, value)]);
}

/// Law: bytes of valid UTF-8 appended to a valid request with two line
/// breaks only extend its body: the request line and the header fields stay,
/// and the decoded appendix follows the body.
pub proof fn lemma_request_append_body(buf: Seq<u8>, extra: Seq<u8>)
    requires
        valid_utf8(buf),
        valid_utf8(extra),
        request_breaks(buf) is Some,
    ensures
        request_breaks(buf + extra) == request_breaks(buf),
        decoded_well_formed(buf + extra) == decoded_well_formed(buf),
        ({
            let (line, fields, body) = decoded_request(buf).unwrap();
            decoded_request(buf + extra) == Some((line, fields, body + decode_utf8(extra)))
        }),
{
    let (p1, p2) = request_breaks(buf).unwrap();
    let all = buf + extra;
    lemma_find_from(buf, 0, crlf());
    lemma_find_from(buf, p1 + 1, crlf());
    assert forall|i: int| 0 <= i && i + 1 < buf.len() implies (occurs_at(all, i, crlf()) <==> #[trigger] occurs_at(buf, i, crlf())) by {
        lemma_pair_occurs(all, i, 13u8, 10u8);
        lemma_pair_occurs(buf, i, 13u8, 10u8);
        assert(all[i] == buf[i] && all[i + 1] == buf[i + 1]);
    }
    lemma_pair_occurs(buf, p1, 13u8, 10u8);
    lemma_pair_occurs(buf, p2, 13u8, 10u8);
    assert(occurs_at(all, p1, crlf()));
    assert(occurs_at(all, p2, crlf()));
    assert forall|i: int| 0 <= i < p1 implies !#[trigger] occurs_at(all, i, crlf()) by {
        assert(!occurs_at(buf, i, crlf()));
    }
    lemma_find_from_first(all, 0, p1, crlf());
    assert forall|i: int| p1 + 1 <= i < p2 implies !#[trigger] occurs_at(all, i, crlf()) by {
        assert(!occurs_at(buf, i, crlf()));
    }
    lemma_find_from_first(all, p1 + 1, p2, crlf());
    assert(all.subrange(0, p1) =~= buf.subrange(0, p1));
    assert(header_section(all, p1, p2) =~= header_section(buf, p1, p2));
    assert(all.subrange(p2 + 2, all.len() as int) =~= buf.subrange(p2 + 2, buf.len() as int) + extra);
    lemma_request_parts_valid(buf);
    lemma_decode_concat(buf.subrange(p2 + 2, buf.len() as int), extra);
}

/// `n` NUL characters, as a zero-filled read buffer decodes.
pub open spec fn nul_padding(n: nat) -> Seq<char> {
    Seq::new(n, |i: int| '\0')
}

/// Lines joined by line breaks.
pub open spec fn joined_lines(lines: Seq<Seq<char>>) -> Seq<char>
    decreases lines.len(),
{
    if lines.len() == 0 {
        Seq::empty()
    } else if lines.len() == 1 {
        lines[0]
    } else {
        joined_lines(lines.drop_last()) + line_break() + lines.last()
    }
}

/// Every carriage return of `s` has, two places on, a character that is
/// not a carriage return.
pub open spec fn returns_spaced(s: Seq<char>) -> bool {
    forall|i: int| 0 <= i < s.len() && #[trigger] s[i] == '\r' ==> i + 2 < s.len() && s[i + 2] != '\r'
}

proof fn lemma_joined_lines_spaced(lines: Seq<Seq<char>>)
    requires
        lines.len() >= 1,
        forall|k: int| 0 <= k < lines.len() ==> (#[trigger] lines[k]).len() > 0,
        forall|k: int, t: int| 0 <= k < lines.len() && 0 <= t < lines[k].len() ==> #[trigger] lines[k][t] != '\r',
    ensures
        returns_spaced(joined_lines(lines)),
    decreases lines.len(),
{
    if lines.len() > 1 {
        let front = lines.drop_last();
        assert forall|k: int| 0 <= k < front.len() implies (#[trigger] front[k]).len() > 0 by {
            assert(front[k] == lines[k]);
        }
        assert forall|k: int, t: int| 0 <= k < front.len() && 0 <= t < front[k].len() implies #[trigger] front[k][t] != '\r' by {
            assert(front[k] == lines[k]);
        }
        lemma_joined_lines_spaced(front);
        let j = joined_lines(front);
        let last = lines.last();
        assert(last.len() > 0);
        let l = joined_lines(lines);
        assert(l == j + line_break() + last);
        assert forall|i: int| 0 <= i < l.len() && #[trigger] l[i] == '\r' implies i + 2 < l.len() && l[i + 2] != '\r' by {
            if i < j.len() {
                assert(l[i] == j[i]);
                assert(l[i + 2] == j[i + 2]);
            } else if i == j.len() {
                assert(l[i + 2] == last[0]);
                assert(lines[lines.len() - 1][0] != '\r');
            } else if i == j.len() + 1 {
                assert(l[i] == '\n');
            } else {
                assert(l[i] == last[i - j.len() - 2]);
                assert(lines[lines.len() - 1][i - j.len() - 2] != '\r');
            }
        }
    }
}

/// NUL characters encode as zero bytes.
proof fn lemma_encode_nul_padding(n: nat)
    ensures
        encode_utf8(nul_padding(n)) == Seq::new(n, |i: int| 0u8),
    decreases n,
{
    if n == 0 {
        assert(encode_utf8(nul_padding(n)) =~= Seq::new(n, |i: int| 0u8));
    } else {
        lemma_encode_nul_padding((n - 1) as nat);
        lemma_encode_scalar_bytes('\0');
        assert(('\0' as u32) == 0u32);
        assert(nul_padding(n).drop_first() =~= nul_padding((n - 1) as nat));
        assert(nul_padding(n)[0] == '\0');
        assert(encode_utf8(nul_padding(n)) =~= Seq::new(n, |i: int| 0u8));
    }
}

/// Trailing NULs come off a text that does not itself end with one.
proof fn lemma_trim_nul_padding(json: Seq<char>, n: nat)
    requires
        json.len() > 0 ==> json.last() != '\0',
    ensures
        trim_end_nul(json + nul_padding(n)) == json,
    decreases n,
{
    if n == 0 {
        assert(json + nul_padding(n) =~= json);
    } else {
        let s = json + nul_padding(n);
        assert(s.last() == '\0');
        assert(s.drop_last() =~= json + nul_padding((n - 1) as nat));
        lemma_trim_nul_padding(json, (n - 1) as nat);
    }
}

/// Law: the JSON payload of a posted message survives parsing and
/// extraction. A request is built from a request line and a header line
/// without line breaks (the header line holding `": "`), then further header
/// lines (none empty, none holding a carriage return), a blank line and the
/// JSON text, which neither starts nor ends with white space nor ends with
/// NUL, and it is padded with zero bytes to fill a read buffer. The body of
/// that request gives back the JSON text.
pub proof fn lemma_json_round_trip(
    line: Seq<char>,
    header: Seq<char>,
    lines: Seq<Seq<char>>,
    json: Seq<char>,
    padding: nat,
)
    requires
        no_line_break(line),
        no_line_break(header),
        find_from(header, 0, name_separator()) is Some,
        lines.len() >= 1,
        forall|k: int| 0 <= k < lines.len() ==> (#[trigger] lines[k]).len() > 0,
        forall|k: int, t: int| 0 <= k < lines.len() && 0 <= t < lines[k].len() ==> #[trigger] lines[k][t] != '\r',
        json.len() > 0 ==> !is_white_space(json[0]) && !is_white_space(json.last()) && json.last() != '\0',
    ensures
        ({
            let buf = encode_utf8(line + line_break() + header + line_break() + joined_lines(lines)
                + blank_line() + json) + Seq::new(padding, |i: int| 0u8);
            &&& valid_utf8(buf)
            &&& decoded_well_formed(buf)
            &&& decoded_request(buf) matches Some((_, _, body)) && json_payload(body) == json
        }),
{
    let lb = line_break();
    let joined = joined_lines(lines);
    let tail = json + nul_padding(padding);
    let body = joined + blank_line() + tail;
    let text = line + lb + header + lb + joined + blank_line() + json;
    lemma_encode_nul_padding(padding);
    lemma_encode_concat(text, nul_padding(padding));
    assert(text + nul_padding(padding) =~= line + lb + header + lb + body);
    lemma_request_round_trip(line, header, body);
    // the header line is accepted
    lemma_find_from(header, 0, lb);
    assert(header.subrange(0, header.len() as int) =~= header);
    // the blank line is found right after the joined lines
    lemma_joined_lines_spaced(lines);
    let jl = joined.len() as int;
    assert(body.subrange(jl, jl + 4) =~= blank_line());
    assert forall|i: int| 0 <= i < jl implies !#[trigger] occurs_at(body, i, blank_line()) by {
        if occurs_at(body, i, blank_line()) {
            assert(body.subrange(i, i + 4)[0] == body[i]);
            assert(body.subrange(i, i + 4)[2] == body[i + 2]);
            assert(body[i] == joined[i]);
            assert(joined[i] == '\r');
            assert(body[i + 2] == joined[i + 2]);
        }
    }
    lemma_find_from_first(body, 0, jl, blank_line());
    assert(after_blank_line(body) =~= tail);
    // trimming leaves the padded JSON text as it is
    if tail.len() > 0 {
        assert(tail[0] == if json.len() > 0 { json[0] } else { '\0' });
        assert(tail.last() == if padding > 0 { '\0' } else { json.last() });
        assert(('\0' as u32) == 0u32);
    }
    assert(trim_start_ws(tail) == tail);
    assert(trim_end_ws(tail) == tail);
    lemma_trim_nul_padding(json, padding);
}

} // verus!
