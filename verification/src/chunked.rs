//! Decoding a chunked transfer-encoded body.
//!
//! The body is a sequence of CRLF-delimited records: a hexadecimal chunk
//! length, then that many bytes of data, until a length of zero ends the
//! body (trailers after the terminator are ignored). Because chunk data
//! may itself contain CRLF, the decoder walks the CRLF-split lines in two
//! alternating modes, counting how many bytes of the current chunk it has
//! seen and reinserting the CRLF pairs the split took out of a chunk.

use vstd::prelude::*;
use vstd::string::*;

use crate::errors::Error;
use crate::errors::ProtocolErrorKind;
use crate::text::{crlf, join_crlf, lemma_crlf_literal, split_crlf, split_crlf_exec, views_of};

verus! {

/// A hexadecimal digit, in either case.
pub open spec fn is_hex_digit(c: char) -> bool {
    (48 <= c as u32 && c as u32 <= 57) || (97 <= c as u32 && c as u32 <= 102) || (65 <= c as u32
        && c as u32 <= 70)
}

/// The value of one hexadecimal digit.
pub open spec fn hex_digit_value(c: char) -> int {
    if 48 <= c as u32 && c as u32 <= 57 {
        c as u32 - 48
    } else if 97 <= c as u32 && c as u32 <= 102 {
        c as u32 - 87
    } else {
        c as u32 - 55
    }
}

/// Whether every character of `tok` is a hexadecimal digit.
pub open spec fn all_hex(tok: Seq<char>) -> bool {
    forall|j: int| 0 <= j < tok.len() ==> is_hex_digit(#[trigger] tok[j])
}

/// The number a run of hexadecimal digits denotes.
pub open spec fn hex_value(tok: Seq<char>) -> int
    decreases tok.len(),
{
    if tok.len() == 0 {
        0
    } else {
        hex_value(tok.drop_last()) * 16 + hex_digit_value(tok.last())
    }
}

/// The chunk length a length line denotes: it must be nonempty, all
/// hexadecimal, and fit the 32-bit counter the decoder runs.
pub open spec fn chunk_size_of(tok: Seq<char>) -> Option<int> {
    if tok.len() == 0 || !all_hex(tok) {
        None
    } else if hex_value(tok) > 0xffff_ffffu32 {
        None
    } else {
        Some(hex_value(tok))
    }
}

/// How many bytes a split part counts against the current chunk length:
/// the length of its UTF-8 encoding, as `str::len` reports it.
pub open spec fn data_len(part: Seq<char>) -> int {
    vstd::utf8::encode_utf8(part).len() as usize as int
}

/// The decoder's walk over the remaining split parts. Outside a chunk the
/// next part must be a chunk length, and zero ends the walk; inside a
/// chunk, parts are data, counted in bytes plus two for each CRLF the
/// split removed, until the current chunk's length is reached.
pub open spec fn decode_chunked_from(
    parts: Seq<Seq<char>>,
    in_chunk: bool,
    length: int,
    current: int,
) -> Result<Seq<char>, ProtocolErrorKind>
    decreases parts.len(),
{
    if parts.len() == 0 {
        Ok(Seq::empty())
    } else if !in_chunk {
        match chunk_size_of(parts[0]) {
            None => Err(ProtocolErrorKind::InvalidChunkLength),
            Some(n) => if n == 0 {
                Ok(Seq::empty())
            } else {
                decode_chunked_from(parts.drop_first(), true, n, 0)
            },
        }
    } else {
        let dl = data_len(parts[0]);
        if current + dl >= length {
            match decode_chunked_from(parts.drop_first(), false, 0, 0) {
                Ok(rest) => Ok(parts[0] + rest),
                Err(e) => Err(e),
            }
        } else {
            match decode_chunked_from(parts.drop_first(), true, length, current + dl + 2) {
                Ok(rest) => Ok(parts[0] + crlf() + rest),
                Err(e) => Err(e),
            }
        }
    }
}

/// What decoding a whole chunked body yields.
pub open spec fn decode_chunked_spec(body: Seq<char>) -> Result<Seq<char>, ProtocolErrorKind> {
    decode_chunked_from(split_crlf(body), false, 0, 0)
}

/// UTF-8 encoding distributes over concatenation.
proof fn lemma_encode_utf8_concat(a: Seq<char>, b: Seq<char>)
    ensures
        vstd::utf8::encode_utf8(a + b) == vstd::utf8::encode_utf8(a) + vstd::utf8::encode_utf8(b),
    decreases a.len(),
{
    if a.len() == 0 {
        assert(a + b =~= b);
        assert(vstd::utf8::encode_utf8(a) + vstd::utf8::encode_utf8(b) =~= vstd::utf8::encode_utf8(
            b,
        ));
    } else {
        assert((a + b)[0] == a[0]);
        assert((a + b).drop_first() =~= a.drop_first() + b);
        lemma_encode_utf8_concat(a.drop_first(), b);
        assert(vstd::utf8::encode_scalar(a[0] as u32) + (vstd::utf8::encode_utf8(a.drop_first())
            + vstd::utf8::encode_utf8(b)) =~= (vstd::utf8::encode_scalar(a[0] as u32)
            + vstd::utf8::encode_utf8(a.drop_first())) + vstd::utf8::encode_utf8(b));
    }
}

/// The bytes a chunk's data costs on the wire once it is CRLF-split:
/// each part's own encoding plus two for every CRLF between two parts.
spec fn chunk_bytes(ds: Seq<Seq<char>>) -> int
    decreases ds.len(),
{
    if ds.len() <= 1 {
        vstd::utf8::encode_utf8(ds[0]).len() as int
    } else {
        vstd::utf8::encode_utf8(ds[0]).len() + 2 + chunk_bytes(ds.drop_first())
    }
}

/// Those bytes are exactly the encoding of the rejoined data.
proof fn lemma_chunk_bytes_join(ds: Seq<Seq<char>>)
    requires
        ds.len() >= 1,
    ensures
        chunk_bytes(ds) == vstd::utf8::encode_utf8(join_crlf(ds)).len(),
    decreases ds.len(),
{
    if ds.len() == 1 {
        assert(join_crlf(ds) == ds[0]);
    } else {
        lemma_chunk_bytes_join(ds.drop_first());
        assert(join_crlf(ds) == ds[0] + crlf() + join_crlf(ds.drop_first()));
        lemma_encode_utf8_concat(ds[0] + crlf(), join_crlf(ds.drop_first()));
        lemma_encode_utf8_concat(ds[0], crlf());
        assert(vstd::utf8::encode_utf8(crlf()).len() == 2) by {
            let lf = seq!['\n'];
            assert(lf[0] == '\n');
            assert(lf.drop_first() =~= Seq::<char>::empty());
            assert(vstd::utf8::encode_utf8(Seq::<char>::empty()).len() == 0);
            assert(vstd::utf8::encode_utf8(lf) == vstd::utf8::encode_scalar('\n' as u32)
                + vstd::utf8::encode_utf8(lf.drop_first()));
            assert(vstd::utf8::has_width_1_encoding('\n' as u32));
            assert(vstd::utf8::encode_scalar('\n' as u32).len() == 1);
            assert(crlf()[0] == '\r');
            assert(crlf().drop_first() =~= lf);
            assert(vstd::utf8::encode_utf8(crlf()) == vstd::utf8::encode_scalar('\r' as u32)
                + vstd::utf8::encode_utf8(crlf().drop_first()));
            assert(vstd::utf8::has_width_1_encoding('\r' as u32));
            assert(vstd::utf8::encode_scalar('\r' as u32).len() == 1);
        }
        assert((ds[0] + crlf()) + join_crlf(ds.drop_first()) =~= join_crlf(ds));
    }
}

proof fn lemma_chunk_bytes_nonneg(ds: Seq<Seq<char>>)
    ensures
        chunk_bytes(ds) >= 0,
    decreases ds.len(),
{
    if ds.len() > 1 {
        lemma_chunk_bytes_nonneg(ds.drop_first());
    }
}

/// The data phase of the walk: given split parts whose wire cost closes
/// the current chunk exactly, the walk reassembles them and goes on with
/// the remainder in expect-length mode.
proof fn lemma_walk_data_parts(ds: Seq<Seq<char>>, rest: Seq<char>, length: int, current: int)
    requires
        ds.len() >= 1,
        0 <= current,
        current + chunk_bytes(ds) == length,
        length <= 0xffff_ffffu32,
    ensures
        decode_chunked_from(ds + split_crlf(rest), true, length, current) == (
        match decode_chunked_from(split_crlf(rest), false, 0, 0) {
            Ok(r) => Ok::<Seq<char>, ProtocolErrorKind>(join_crlf(ds) + r),
            Err(e) => Err::<Seq<char>, ProtocolErrorKind>(e),
        }),
    decreases ds.len(),
{
    let parts = ds + split_crlf(rest);
    crate::text::lemma_split_crlf_nonempty(rest);
    assert(parts[0] == ds[0]);
    assert(vstd::utf8::encode_utf8(ds[0]).len() <= length) by {
        if ds.len() > 1 {
            lemma_chunk_bytes_nonneg(ds.drop_first());
        }
    }
    assert(data_len(ds[0]) == vstd::utf8::encode_utf8(ds[0]).len());
    if ds.len() == 1 {
        assert(current + data_len(ds[0]) >= length);
        assert(parts.drop_first() =~= split_crlf(rest));
        assert(join_crlf(ds) == ds[0]);
    } else {
        lemma_chunk_bytes_nonneg(ds.drop_first());
        assert(current + data_len(ds[0]) < length);
        assert(parts.drop_first() =~= ds.drop_first() + split_crlf(rest));
        lemma_walk_data_parts(
            ds.drop_first(),
            rest,
            length,
            current + data_len(ds[0]) + 2,
        );
        match decode_chunked_from(split_crlf(rest), false, 0, 0) {
            Ok(r) => {
                assert(ds[0] + crlf() + (join_crlf(ds.drop_first()) + r) =~= (ds[0] + crlf()
                    + join_crlf(ds.drop_first())) + r);
                assert(join_crlf(ds) == ds[0] + crlf() + join_crlf(ds.drop_first()));
            },
            Err(_) => {},
        }
    }
}

/// No hexadecimal digit is part of a CRLF pair.
proof fn lemma_hex_token_no_crlf(tok: Seq<char>)
    requires
        all_hex(tok),
    ensures
        crate::text::no_crlf(tok),
{
    assert forall|i: int| !#[trigger] crate::text::crlf_at(tok, i) by {
        if crate::text::crlf_at(tok, i) {
            assert(is_hex_digit(tok[i + 1]));
        }
    }
}

/// One complete chunk record — a length line denoting exactly the
/// data's byte length, then the data — prepended to a chunked body
/// decodes to the data followed by whatever the remainder decodes to.
/// Applied once per chunk, this composes a whole well-formed body.
pub proof fn lemma_chunk_record_composes(tok: Seq<char>, data: Seq<char>, rest: Seq<char>)
    requires
        chunk_size_of(tok) == Some(vstd::utf8::encode_utf8(data).len() as int),
        vstd::utf8::encode_utf8(data).len() > 0,
    ensures
        decode_chunked_spec(tok + crlf() + data + crlf() + rest) == (
        match decode_chunked_spec(rest) {
            Ok(d) => Ok::<Seq<char>, ProtocolErrorKind>(data + d),
            Err(e) => Err::<Seq<char>, ProtocolErrorKind>(e),
        }),
{
    let n = vstd::utf8::encode_utf8(data).len() as int;
    assert(all_hex(tok) && hex_value(tok) == n && n <= 0xffff_ffffu32);
    lemma_hex_token_no_crlf(tok);
    let w = tok + crlf() + data + crlf() + rest;
    assert(w =~= tok + crlf() + (data + crlf() + rest));
    crate::text::lemma_split_crlf_concat(tok, data + crlf() + rest);
    crate::text::lemma_split_crlf_append(data, rest);
    let ds = split_crlf(data);
    assert(split_crlf(w) == seq![tok] + (ds + split_crlf(rest)));
    crate::text::lemma_split_crlf_nonempty(data);
    crate::text::lemma_join_split_crlf(data);
    lemma_chunk_bytes_join(ds);
    assert(split_crlf(w).drop_first() =~= ds + split_crlf(rest));
    lemma_walk_data_parts(ds, rest, n, 0);
}

/// A terminating zero-length line ends the decode at once: whatever
/// trailers follow it are ignored.
pub proof fn lemma_terminator_ignores_trailers(tok: Seq<char>, trailers: Seq<char>)
    requires
        chunk_size_of(tok) == Some(0int),
    ensures
        decode_chunked_spec(tok + crlf() + trailers) == Ok::<Seq<char>, ProtocolErrorKind>(
            Seq::<char>::empty(),
        ),
{
    assert(all_hex(tok));
    lemma_hex_token_no_crlf(tok);
    crate::text::lemma_split_crlf_concat(tok, trailers);
}

/// Whatever state the walk carries when it expects a length — at the
/// first length line or any later one it reaches — a token that is not
/// a valid chunk length fails the decode with the invalid-chunk-length
/// error.
pub proof fn lemma_bad_chunk_length_any_state(parts: Seq<Seq<char>>, length: int, current: int)
    requires
        parts.len() > 0,
        chunk_size_of(parts[0]) is None,
    ensures
        decode_chunked_from(parts, false, length, current) == Err::<Seq<char>, ProtocolErrorKind>(
            ProtocolErrorKind::InvalidChunkLength,
        ),
{
}

/// A body whose first length line is not a valid chunk length — not all
/// hexadecimal, empty, or too large for the decoder's counter — fails to
/// decode with the invalid-chunk-length error.
pub proof fn lemma_bad_chunk_length(body: Seq<char>)
    requires
        chunk_size_of(split_crlf(body)[0]) is None,
    ensures
        decode_chunked_spec(body) == Err::<Seq<char>, ProtocolErrorKind>(
            ProtocolErrorKind::InvalidChunkLength,
        ),
{
    crate::text::lemma_split_crlf_nonempty(body);
}

proof fn lemma_hex_value_nonneg(tok: Seq<char>)
    requires
        all_hex(tok),
    ensures
        hex_value(tok) >= 0,
    decreases tok.len(),
{
    if tok.len() > 0 {
        assert forall|j: int| 0 <= j < tok.drop_last().len() implies is_hex_digit(
            #[trigger] tok.drop_last()[j],
        ) by {
            assert(tok.drop_last()[j] == tok[j]);
        }
        lemma_hex_value_nonneg(tok.drop_last());
    }
}

/// A hexadecimal run denotes at least as much as any of its prefixes.
proof fn lemma_hex_prefix_le(tok: Seq<char>, i: int)
    requires
        0 <= i <= tok.len(),
        all_hex(tok),
    ensures
        hex_value(tok.subrange(0, i)) <= hex_value(tok),
    decreases tok.len() - i,
{
    if i == tok.len() {
        assert(tok.subrange(0, i) =~= tok);
    } else {
        assert forall|j: int| 0 <= j < tok.subrange(0, i).len() implies is_hex_digit(
            #[trigger] tok.subrange(0, i)[j],
        ) by {
            assert(tok.subrange(0, i)[j] == tok[j]);
        }
        lemma_hex_value_nonneg(tok.subrange(0, i));
        assert(tok.subrange(0, i + 1).drop_last() =~= tok.subrange(0, i));
        assert(tok.subrange(0, i + 1).last() == tok[i]);
        assert(hex_value(tok.subrange(0, i + 1)) == hex_value(tok.subrange(0, i)) * 16
            + hex_digit_value(tok[i]));
        lemma_hex_prefix_le(tok, i + 1);
    }
}

fn is_hex_digit_exec(c: char) -> (r: bool)
    ensures
        r == is_hex_digit(c),
{
    let u = c as u32;
    (48 <= u && u <= 57) || (97 <= u && u <= 102) || (65 <= u && u <= 70)
}

fn hex_digit_value_exec(c: char) -> (r: u32)
    requires
        is_hex_digit(c),
    ensures
        r as int == hex_digit_value(c),
        r <= 15,
{
    let u = c as u32;
    if 48 <= u && u <= 57 {
        u - 48
    } else if 97 <= u && u <= 102 {
        u - 87
    } else {
        u - 55
    }
}

/// Parse a chunk-length line, or report that it is not a chunk length.
fn parse_chunk_size(tok: &str) -> (r: Option<u32>)
    ensures
        match chunk_size_of(tok@) {
            None => r is None,
            Some(v) => r matches Some(x) && x as int == v,
        },
{
    let n = tok.unicode_len();
    if n == 0 {
        return None;
    }
    let mut acc: u64 = 0;
    let mut i: usize = 0;
    proof {
        assert(tok@.subrange(0, 0).len() == 0);
    }
    while i < n
        invariant
            n == tok@.len(),
            i <= n,
            acc <= 0xffff_ffffu32,
            acc as int == hex_value(tok@.subrange(0, i as int)),
            forall|j: int| 0 <= j < i ==> is_hex_digit(#[trigger] tok@[j]),
        decreases n - i,
    {
        let c = tok.get_char(i);
        if !is_hex_digit_exec(c) {
            return None;
        }
        let d = hex_digit_value_exec(c);
        let v = acc * 16 + d as u64;
        proof {
            assert(tok@.subrange(0, i + 1).drop_last() =~= tok@.subrange(0, i as int));
            assert(tok@.subrange(0, i + 1).last() == tok@[i as int]);
            assert(v as int == hex_value(tok@.subrange(0, i + 1)));
        }
        if v > 0xffff_ffff {
            proof {
                if all_hex(tok@) {
                    lemma_hex_prefix_le(tok@, i + 1);
                }
            }
            return None;
        }
        acc = v;
        i = i + 1;
    }
    proof {
        assert(tok@.subrange(0, n as int) =~= tok@);
    }
    Some(acc as u32)
}

/// Decode a chunked body into the bytes its chunks carry.
///
/// Fails with an invalid-chunk-length error exactly when the walk reaches
/// a length line that is not valid hexadecimal.
pub fn parse_chunked(body: &str) -> (r: Result<String, Error>)
    ensures
        r matches Ok(s) ==> decode_chunked_spec(body@) == Ok::<Seq<char>, ProtocolErrorKind>(s@),
        r matches Err(e) ==> decode_chunked_spec(body@) matches Err(k) && e
            == Error::ProtocolError(k),
{
    let parts = split_crlf_exec(body);
    let ghost vs = views_of(parts@);
    let n = parts.len();
    let mut parsed = String::new();
    let mut in_chunk = false;
    let mut length: u32 = 0;
    let mut current: u64 = 0;
    let mut k: usize = 0;
    proof {
        assert(vs.subrange(0, n as int) =~= vs);
    }
    while k < n
        invariant
            n == parts@.len(),
            k <= n,
            vs == views_of(parts@),
            vs == split_crlf(body@),
            in_chunk ==> current <= length as u64 + 1,
            decode_chunked_from(vs, false, 0, 0) == (match decode_chunked_from(
                vs.subrange(k as int, n as int),
                in_chunk,
                length as int,
                current as int,
            ) {
                Ok(rest) => Ok::<Seq<char>, ProtocolErrorKind>(parsed@ + rest),
                Err(e) => Err::<Seq<char>, ProtocolErrorKind>(e),
            }),
        decreases n - k,
    {
        let ghost pending = vs.subrange(k as int, n as int);
        proof {
            assert(pending[0] == vs[k as int]);
            assert(pending.drop_first() =~= vs.subrange(k + 1, n as int));
        }
        if !in_chunk {
            match parse_chunk_size(parts[k].as_str()) {
                None => {
                    return Err(Error::ProtocolError(ProtocolErrorKind::InvalidChunkLength));
                },
                Some(size) => {
                    if size == 0 {
                        proof {
                            assert(parsed@ + Seq::<char>::empty() =~= parsed@);
                        }
                        return Ok(parsed);
                    }
                    length = size;
                    in_chunk = true;
                    current = 0;
                },
            }
        } else {
            let p_len = parts[k].as_str().len();
            let done = p_len as u64 >= length as u64 || current + p_len as u64 >= length as u64;
            let ghost parsed0 = parsed@;
            proof {
                assert(vs[k as int] == parts@[k as int]@);
                assert(data_len(vs[k as int]) == p_len as int);
                lemma_crlf_literal();
            }
            if done {
                parsed.append(parts[k].as_str());
                in_chunk = false;
                current = 0;
                proof {
                    let rest_parts = vs.subrange(k + 1, n as int);
                    assert(parsed@ == parsed0 + vs[k as int]);
                    match decode_chunked_from(rest_parts, false, 0, 0) {
                        Ok(rest) => {
                            assert(parsed@ + rest =~= parsed0 + (vs[k as int] + rest));
                        },
                        Err(_) => {},
                    }
                }
            } else {
                parsed.append(parts[k].as_str());
                parsed.append("\r\n");
                current = current + p_len as u64 + 2;
                proof {
                    let rest_parts = vs.subrange(k + 1, n as int);
                    assert(parsed@ == parsed0 + vs[k as int] + crlf());
                    match decode_chunked_from(rest_parts, true, length as int, current as int) {
                        Ok(rest) => {
                            assert(parsed@ + rest =~= parsed0 + ((vs[k as int] + crlf()) + rest));
                        },
                        Err(_) => {},
                    }
                }
            }
        }
        k = k + 1;
    }
    proof {
        assert(vs.subrange(n as int, n as int).len() == 0);
        assert(parsed@ + Seq::<char>::empty() =~= parsed@);
    }
    Ok(parsed)
}

} // verus!
