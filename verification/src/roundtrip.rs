//! The serializer and the parser are inverses over the header block and
//! the body: a response built from the same entries a request was
//! serialized from parses back to them unchanged.

use vstd::prelude::*;

use crate::http::{
    dec_value, distinct_names, find_header, header_block, header_line, header_match,
    is_name_char, lemma_find_header_props, lookup_header, parse_headers_walk, parse_response_spec,
    skip_name_chars, status_capture, store_all, store_header, valid_header_name,
    valid_header_value, valid_headers,
};
use crate::text::{
    crlf, crlf_at, lemma_join_split_crlf, lemma_split_crlf_concat, no_crlf, split_crlf,
};

verus! {

/// The serialized header lines, one per entry.
pub open spec fn header_lines(hs: Seq<(Seq<char>, Seq<char>)>) -> Seq<Seq<char>> {
    hs.map_values(|p: (Seq<char>, Seq<char>)| header_line(p))
}

/// The wire text of a response: status line, header block, blank line,
/// body. Past the status line this is byte-identical to what
/// `gen_request_string` writes past the request line from the same
/// entries and body.
pub open spec fn response_wire(
    status_line: Seq<char>,
    hs: Seq<(Seq<char>, Seq<char>)>,
    body: Seq<char>,
) -> Seq<char> {
    status_line + crlf() + header_block(hs) + crlf() + body
}

/// A serialized header line holds no line feed, hence no CRLF, and is
/// never empty.
proof fn lemma_header_line_clean(p: (Seq<char>, Seq<char>))
    requires
        valid_header_name(p.0),
        valid_header_value(p.1),
    ensures
        forall|j: int| 0 <= j < header_line(p).len() ==> #[trigger] header_line(p)[j] != '\n',
        header_line(p).len() >= 3,
        no_crlf(header_line(p)),
{
    reveal_strlit(": ");
    let line = header_line(p);
    assert(": "@.len() == 2);
    assert(line.len() == p.0.len() + 2 + p.1.len());
    assert forall|j: int| 0 <= j < line.len() implies #[trigger] line[j] != '\n' by {
        if j < p.0.len() {
            assert(line[j] == p.0[j]);
            assert(is_name_char(p.0[j]));
        } else if j < p.0.len() + 2 {
            assert(line[j] == ": "@[j - p.0.len()]);
        } else {
            assert(line[j] == p.1[j - p.0.len() - 2]);
            assert(p.1[j - p.0.len() - 2] != '\n');
        }
    }
    assert forall|i: int| !#[trigger] crlf_at(line, i) by {
        if crlf_at(line, i) {
            assert(line[i + 1] == '\n');
        }
    }
}

/// Splitting a serialized header block followed by the blank line and the
/// body yields the header lines, one empty line, and the body's own split.
proof fn lemma_split_wire_tail(hs: Seq<(Seq<char>, Seq<char>)>, body: Seq<char>)
    requires
        valid_headers(hs),
    ensures
        split_crlf(header_block(hs) + crlf() + body) == header_lines(hs) + seq![
            Seq::<char>::empty(),
        ] + split_crlf(body),
    decreases hs.len(),
{
    if hs.len() == 0 {
        assert(header_block(hs) + crlf() + body =~= Seq::<char>::empty() + crlf() + body);
        assert(no_crlf(Seq::<char>::empty()));
        lemma_split_crlf_concat(Seq::<char>::empty(), body);
        assert(header_lines(hs) + seq![Seq::<char>::empty()] + split_crlf(body) =~= seq![
            Seq::<char>::empty(),
        ] + split_crlf(body));
    } else {
        let line0 = header_line(hs[0]);
        let tail = hs.drop_first();
        assert(valid_header_name(hs[0].0) && valid_header_value(hs[0].1));
        lemma_header_line_clean(hs[0]);
        assert forall|i: int|
            0 <= i < tail.len() implies valid_header_name((#[trigger] tail[i]).0)
            && valid_header_value(tail[i].1) by {
            assert(tail[i] == hs[i + 1]);
        }
        lemma_split_wire_tail(tail, body);
        assert(header_block(hs) + crlf() + body =~= line0 + crlf() + (header_block(tail) + crlf()
            + body));
        lemma_split_crlf_concat(line0, header_block(tail) + crlf() + body);
        assert(split_crlf(header_block(hs) + crlf() + body) == seq![line0] + (header_lines(tail)
            + seq![Seq::<char>::empty()] + split_crlf(body)));
        assert(seq![line0] + (header_lines(tail) + seq![Seq::<char>::empty()] + split_crlf(body))
            =~= header_lines(hs) + seq![Seq::<char>::empty()] + split_crlf(body));
    }
}

/// `skip_name_chars` stops exactly at the first non-name character.
proof fn lemma_skip_name_chars_stops(s: Seq<char>, a: int, b: int)
    requires
        0 <= a <= b <= s.len(),
        forall|j: int| a <= j < b ==> is_name_char(#[trigger] s[j]),
        b == s.len() || !is_name_char(s[b]),
    ensures
        skip_name_chars(s, a) == b,
    decreases b - a,
{
    if a == b {
    } else {
        assert(is_name_char(s[a]));
        lemma_skip_name_chars_stops(s, a + 1, b);
    }
}

/// A serialized header line parses back to its own name and value.
proof fn lemma_header_match_serialized(name: Seq<char>, value: Seq<char>)
    requires
        valid_header_name(name),
        valid_header_value(value),
    ensures
        header_match(header_line((name, value))) == Some((name, value)),
{
    reveal_strlit(": ");
    let line = header_line((name, value));
    assert(": "@.len() == 2);
    assert(": "@[0] == ':' && ": "@[1] == ' ');
    assert(line.len() == name.len() + 2 + value.len());
    assert forall|j: int| 0 <= j < name.len() implies is_name_char(#[trigger] line[j]) by {
        assert(line[j] == name[j]);
        assert(is_name_char(name[j]));
    }
    assert(line[name.len() as int] == ':');
    assert(!is_name_char(':'));
    lemma_skip_name_chars_stops(line, 0, name.len() as int);
    let e = name.len() as int;
    assert(line[e + 1] == ' ');
    assert forall|j: int| e + 2 <= j < line.len() implies #[trigger] line[j] != '\n' by {
        assert(line[j] == value[j - e - 2]);
        assert(value[j - e - 2] != '\n');
    }
    assert(line.subrange(0, e) =~= name);
    assert(line.subrange(e + 2, line.len() as int) =~= value);
}

/// Walking the serialized header lines, the blank line and the split
/// body recovers the entries and the body.
proof fn lemma_walk_serialized(hs: Seq<(Seq<char>, Seq<char>)>, body: Seq<char>)
    requires
        valid_headers(hs),
    ensures
        parse_headers_walk(header_lines(hs) + seq![Seq::<char>::empty()] + split_crlf(body))
            == Ok::<(Seq<(Seq<char>, Seq<char>)>, Seq<char>), crate::errors::ProtocolErrorKind>(
            (hs, body),
        ),
    decreases hs.len(),
{
    let parts = header_lines(hs) + seq![Seq::<char>::empty()] + split_crlf(body);
    if hs.len() == 0 {
        assert(parts[0].len() == 0);
        assert(parts.drop_first() =~= split_crlf(body));
        lemma_join_split_crlf(body);
        assert(hs =~= Seq::<(Seq<char>, Seq<char>)>::empty());
    } else {
        let line0 = header_line(hs[0]);
        assert(valid_header_name(hs[0].0) && valid_header_value(hs[0].1));
        lemma_header_line_clean(hs[0]);
        assert(parts[0] == line0);
        assert(line0.len() >= 3);
        assert(hs[0] == (hs[0].0, hs[0].1));
        lemma_header_match_serialized(hs[0].0, hs[0].1);
        assert(header_match(parts[0]) == Some(hs[0]));
        let tail = hs.drop_first();
        assert forall|i: int|
            0 <= i < tail.len() implies valid_header_name((#[trigger] tail[i]).0)
            && valid_header_value(tail[i].1) by {
            assert(tail[i] == hs[i + 1]);
        }
        lemma_walk_serialized(tail, body);
        assert(parts.drop_first() =~= header_lines(tail) + seq![Seq::<char>::empty()]
            + split_crlf(body));
        assert(seq![hs[0]] + tail =~= hs);
    }
}

/// Storing entries with pairwise distinct names into a map that shares no
/// name with them appends them unchanged.
proof fn lemma_store_all_fresh(
    acc: Seq<(Seq<char>, Seq<char>)>,
    hs: Seq<(Seq<char>, Seq<char>)>,
)
    requires
        distinct_names(acc + hs),
    ensures
        store_all(acc, hs) == acc + hs,
    decreases hs.len(),
{
    if hs.len() == 0 {
        assert(acc + hs =~= acc);
    } else {
        let x = hs[0];
        assert forall|j: int| 0 <= j < acc.len() implies (#[trigger] acc[j]).0 != x.0 by {
            assert((acc + hs)[j] == acc[j]);
            assert((acc + hs)[acc.len() as int] == x);
        }
        lemma_find_header_props(acc, x.0);
        if find_header(acc, x.0) >= 0 {
            assert(acc[find_header(acc, x.0)].0 == x.0);
        }
        assert(find_header(acc, x.0) == -1);
        assert(store_header(acc, x.0, x.1) == acc.push((x.0, x.1)));
        assert(acc.push((x.0, x.1)) =~= acc + seq![x]);
        let acc1 = acc.push((x.0, x.1));
        let tail = hs.drop_first();
        assert(acc1 + tail =~= acc + hs);
        lemma_store_all_fresh(acc1, tail);
        assert(store_all(acc, hs) == store_all(acc1, tail));
    }
}

/// The round trip. A response carrying the same header entries and body
/// a request was serialized from — its wire text past the status line is
/// byte-identical to the request's past the request line — parses back
/// to the same entries, name for name and value for value, and to the
/// same body. The entries must be well-formed and pairwise distinct, and
/// must not declare the body chunked, for then the parser would rightly
/// transform it.
pub proof fn lemma_response_round_trip(
    status_line: Seq<char>,
    digits: Seq<char>,
    hs: Seq<(Seq<char>, Seq<char>)>,
    body: Seq<char>,
)
    requires
        no_crlf(status_line),
        status_capture(status_line) == Some(digits),
        0 < dec_value(digits) <= 65535,
        valid_headers(hs),
        distinct_names(hs),
        lookup_header(hs, "Transfer-Encoding"@) != Some("chunked"@),
    ensures
        parse_response_spec(response_wire(status_line, hs, body)) == Ok::<
            (int, Seq<(Seq<char>, Seq<char>)>, Seq<char>),
            crate::errors::ProtocolErrorKind,
        >((dec_value(digits), hs, body)),
{
    let w = response_wire(status_line, hs, body);
    assert(w =~= status_line + crlf() + (header_block(hs) + crlf() + body));
    lemma_split_crlf_concat(status_line, header_block(hs) + crlf() + body);
    lemma_split_wire_tail(hs, body);
    let parts = split_crlf(w);
    assert(parts == seq![status_line] + (header_lines(hs) + seq![Seq::<char>::empty()]
        + split_crlf(body)));
    assert(parts[0] == status_line);
    lemma_walk_serialized(hs, body);
    assert(parts.drop_first() =~= header_lines(hs) + seq![Seq::<char>::empty()] + split_crlf(
        body,
    ));
    assert(Seq::<(Seq<char>, Seq<char>)>::empty() + hs =~= hs);
    lemma_store_all_fresh(Seq::<(Seq<char>, Seq<char>)>::empty(), hs);
}

/// The round trip over a request value: for any request whose headers
/// are well-formed, serialization writes them and the body into the wire
/// text, and parsing a response built around that same text hands them
/// back unchanged.
pub proof fn lemma_request_round_trip(
    req: crate::http::Request,
    status_line: Seq<char>,
    digits: Seq<char>,
)
    requires
        no_crlf(status_line),
        status_capture(status_line) == Some(digits),
        0 < dec_value(digits) <= 65535,
        valid_headers(req.headers@),
        req.headers.wf(),
        lookup_header(req.headers@, "Transfer-Encoding"@) != Some("chunked"@),
    ensures
        parse_response_spec(
            response_wire(status_line, req.headers@, crate::http::body_chars(req.body)),
        ) == Ok::<(int, Seq<(Seq<char>, Seq<char>)>, Seq<char>), crate::errors::ProtocolErrorKind>(
            (dec_value(digits), req.headers@, crate::http::body_chars(req.body)),
        ),
{
    lemma_response_round_trip(status_line, digits, req.headers@, crate::http::body_chars(req.body));
}

} // verus!
