//! The HTTP/1.1 codec: request serialization and response parsing.
//!
//! Requests are serialized byte-exactly as
//! `<METHOD> <PATH> HTTP/1.1\r\n` followed by one `<Name>: <Value>\r\n`
//! line per header, a blank line, and the body, if any. Responses are
//! split at CRLF; the first line must carry
//! `HTTP/<digits>.<digits> <status> <word>`, the following lines up to the
//! first blank line must each be `<token>: <value>` headers, and the rest
//! is the body, rejoined with the CRLF pairs the split took out.

use vstd::prelude::*;
use vstd::string::*;

use crate::errors::Error;
use crate::errors::ProtocolErrorKind;
use crate::text::{crlf, join_crlf, lemma_join_crlf_push, split_crlf, split_crlf_exec, views_of};

verus! {

// ---------------------------------------------------------------------------
// Header maps
// ---------------------------------------------------------------------------

/// The position of the first entry named `name`, or -1 if there is none.
pub open spec fn find_header(hs: Seq<(Seq<char>, Seq<char>)>, name: Seq<char>) -> int
    decreases hs.len(),
{
    if hs.len() == 0 {
        -1
    } else if hs[0].0 == name {
        0
    } else {
        let r = find_header(hs.drop_first(), name);
        if r < 0 {
            -1
        } else {
            r + 1
        }
    }
}

/// The value stored under `name`, if any.
pub open spec fn lookup_header(hs: Seq<(Seq<char>, Seq<char>)>, name: Seq<char>) -> Option<
    Seq<char>,
> {
    let i = find_header(hs, name);
    if i < 0 {
        None
    } else {
        Some(hs[i].1)
    }
}

/// Whether an entry named `name` exists.
pub open spec fn has_header(hs: Seq<(Seq<char>, Seq<char>)>, name: Seq<char>) -> bool {
    find_header(hs, name) >= 0
}

/// No two entries share a name.
pub open spec fn distinct_names(hs: Seq<(Seq<char>, Seq<char>)>) -> bool {
    forall|i: int, j: int| 0 <= i < j < hs.len() ==> (#[trigger] hs[i]).0 != (#[trigger] hs[j]).0
}

/// What storing `name: value` does to a header map: the existing entry is
/// overwritten in place, a new name is appended.
pub open spec fn store_header(
    hs: Seq<(Seq<char>, Seq<char>)>,
    name: Seq<char>,
    value: Seq<char>,
) -> Seq<(Seq<char>, Seq<char>)> {
    let i = find_header(hs, name);
    if i < 0 {
        hs.push((name, value))
    } else {
        hs.update(i, (name, value))
    }
}

/// Storing every entry of `raw` in order, later values winning.
pub open spec fn store_all(
    hs: Seq<(Seq<char>, Seq<char>)>,
    raw: Seq<(Seq<char>, Seq<char>)>,
) -> Seq<(Seq<char>, Seq<char>)>
    decreases raw.len(),
{
    if raw.len() == 0 {
        hs
    } else {
        store_all(store_header(hs, raw[0].0, raw[0].1), raw.drop_first())
    }
}

/// What `find_header` finds: a position in range that carries `name`,
/// before which no entry does, or -1 when no entry does at all.
pub proof fn lemma_find_header_props(hs: Seq<(Seq<char>, Seq<char>)>, name: Seq<char>)
    ensures
        -1 <= find_header(hs, name) < hs.len(),
        find_header(hs, name) >= 0 ==> hs[find_header(hs, name)].0 == name,
        forall|j: int|
            0 <= j < hs.len() && j < find_header(hs, name) ==> (#[trigger] hs[j]).0 != name,
        find_header(hs, name) == -1 ==> forall|j: int|
            0 <= j < hs.len() ==> (#[trigger] hs[j]).0 != name,
    decreases hs.len(),
{
    if hs.len() == 0 {
    } else if hs[0].0 == name {
    } else {
        lemma_find_header_props(hs.drop_first(), name);
        assert forall|j: int|
            0 <= j < hs.len() && j < find_header(hs, name) implies (#[trigger] hs[j]).0
            != name by {
            if j > 0 {
                assert(hs.drop_first()[j - 1] == hs[j]);
            }
        }
        if find_header(hs, name) == -1 {
            assert forall|j: int| 0 <= j < hs.len() implies (#[trigger] hs[j]).0 != name by {
                if j > 0 {
                    assert(hs.drop_first()[j - 1] == hs[j]);
                }
            }
        }
    }
}

/// The first index whose entry is named `name` is what `find_header` finds.
proof fn lemma_find_header_at(hs: Seq<(Seq<char>, Seq<char>)>, name: Seq<char>, i: int)
    requires
        0 <= i < hs.len(),
        hs[i].0 == name,
        forall|j: int| 0 <= j < i ==> (#[trigger] hs[j]).0 != name,
    ensures
        find_header(hs, name) == i,
    decreases hs.len(),
{
    if i == 0 {
    } else {
        assert(hs[0].0 != name);
        assert(hs.drop_first()[i - 1] == hs[i]);
        assert forall|j: int| 0 <= j < i - 1 implies (#[trigger] hs.drop_first()[j]).0 != name by {
            assert(hs.drop_first()[j] == hs[j + 1]);
        }
        lemma_find_header_at(hs.drop_first(), name, i - 1);
    }
}

/// An insertion-ordered header map with unique names, the verified stand-in
/// for the hash map the wire protocol neither orders nor needs ordered.
#[derive(Debug)]
pub struct Headers {
    entries: Vec<(String, String)>,
}

impl View for Headers {
    type V = Seq<(Seq<char>, Seq<char>)>;

    closed spec fn view(&self) -> Seq<(Seq<char>, Seq<char>)> {
        self.entries@.map_values(|p: (String, String)| (p.0@, p.1@))
    }
}

impl Headers {
    /// Well-formed: no two entries share a name.
    pub open spec fn wf(&self) -> bool {
        distinct_names(self@)
    }

    /// An empty header map.
    pub fn new() -> (r: Headers)
        ensures
            r@ == Seq::<(Seq<char>, Seq<char>)>::empty(),
            r.wf(),
    {
        let r = Headers { entries: Vec::new() };
        proof {
            assert(r@ =~= Seq::<(Seq<char>, Seq<char>)>::empty());
        }
        r
    }

    /// How many entries the map holds.
    pub fn len(&self) -> (r: usize)
        ensures
            r == self@.len(),
    {
        self.entries.len()
    }

    /// Store `name: value`, overwriting an entry of the same name.
    pub fn insert(&mut self, name: String, value: String)
        ensures
            final(self)@ == store_header(old(self)@, name@, value@),
            old(self).wf() ==> final(self).wf(),
    {
        let ghost hs = self@;
        let n = self.entries.len();
        let mut i: usize = 0;
        while i < n
            invariant
                n == self.entries@.len(),
                i <= n,
                self@ == hs,
                old(self)@ == hs,
                forall|j: int| 0 <= j < i ==> (#[trigger] hs[j]).0 != name@,
            decreases n - i,
        {
            if self.entries[i].0 == name {
                proof {
                    assert(hs[i as int].0 == name@);
                    lemma_find_header_at(hs, name@, i as int);
                }
                self.entries.set(i, (name, value));
                proof {
                    assert(self@ =~= hs.update(i as int, (name@, value@)));
                    if distinct_names(hs) {
                        assert forall|a: int, b: int|
                            0 <= a < b < self@.len() implies (#[trigger] self@[a]).0 != (
                        #[trigger] self@[b]).0 by {
                            assert(hs[a].0 == if a == i {
                                name@
                            } else {
                                self@[a].0
                            });
                            assert(hs[b].0 == if b == i {
                                name@
                            } else {
                                self@[b].0
                            });
                        }
                    }
                }
                return ;
            }
            proof {
                assert(hs[i as int] == (self.entries@[i as int].0@, self.entries@[i as int].1@));
            }
            i = i + 1;
        }
        proof {
            lemma_find_header_props(hs, name@);
            if find_header(hs, name@) >= 0 {
                assert(hs[find_header(hs, name@)].0 == name@);
            }
            assert(find_header(hs, name@) == -1);
        }
        self.entries.push((name, value));
        proof {
            assert(self@ =~= hs.push((name@, value@)));
            if distinct_names(hs) {
                assert forall|a: int, b: int|
                    0 <= a < b < self@.len() implies (#[trigger] self@[a]).0 != (
                #[trigger] self@[b]).0 by {
                    if b < hs.len() {
                        assert(self@[a] == hs[a] && self@[b] == hs[b]);
                    } else {
                        assert(self@[b].0 == name@);
                        assert(self@[a] == hs[a]);
                    }
                }
            }
        }
    }

    /// The value stored under `name`, if any.
    pub fn get(&self, name: &str) -> (r: Option<String>)
        ensures
            match lookup_header(self@, name@) {
                None => r is None,
                Some(v) => r matches Some(s) && s@ == v,
            },
    {
        let key = String::from_str(name);
        let n = self.entries.len();
        let mut i: usize = 0;
        while i < n
            invariant
                n == self.entries@.len(),
                i <= n,
                key@ == name@,
                forall|j: int| 0 <= j < i ==> (#[trigger] self@[j]).0 != name@,
            decreases n - i,
        {
            if self.entries[i].0 == key {
                proof {
                    assert(self@[i as int].0 == name@);
                    lemma_find_header_at(self@, name@, i as int);
                }
                return Some(self.entries[i].1.clone());
            }
            proof {
                assert(self@[i as int] == (self.entries@[i as int].0@, self.entries@[i as int].1@));
            }
            i = i + 1;
        }
        proof {
            lemma_find_header_props(self@, name@);
            if find_header(self@, name@) >= 0 {
                assert(self@[find_header(self@, name@)].0 == name@);
            }
        }
        None
    }

    /// Whether an entry named `name` exists.
    pub fn contains_key(&self, name: &str) -> (r: bool)
        ensures
            r == has_header(self@, name@),
    {
        let found = self.get(name);
        proof {
            lemma_find_header_props(self@, name@);
        }
        found.is_some()
    }
}

// ---------------------------------------------------------------------------
// Requests and their wire form
// ---------------------------------------------------------------------------

/// One HTTP request: method, absolute path, headers, optional body.
#[derive(Debug)]
pub struct Request {
    pub method: String,
    pub path: String,
    pub headers: Headers,
    pub body: Option<String>,
}

/// One parsed HTTP response. A body that arrived chunked is already
/// decoded.
#[derive(Debug)]
pub struct Response {
    pub status_code: u16,
    pub headers: Headers,
    pub body: String,
}

/// The bytes an optional body contributes to the wire: none for `None`.
pub open spec fn body_chars(body: Option<String>) -> Seq<char> {
    match body {
        None => Seq::empty(),
        Some(b) => b@,
    }
}

/// A name the header serializer and parser round-trip: a nonempty run of
/// name characters.
pub open spec fn valid_header_name(name: Seq<char>) -> bool {
    name.len() >= 1 && forall|j: int| 0 <= j < name.len() ==> is_name_char(#[trigger] name[j])
}

/// A value the header serializer and parser round-trip: anything without
/// a line feed.
pub open spec fn valid_header_value(value: Seq<char>) -> bool {
    forall|j: int| 0 <= j < value.len() ==> #[trigger] value[j] != '\n'
}

/// Every entry has a round-trippable name and value.
pub open spec fn valid_headers(hs: Seq<(Seq<char>, Seq<char>)>) -> bool {
    forall|i: int|
        0 <= i < hs.len() ==> valid_header_name((#[trigger] hs[i]).0) && valid_header_value(
            hs[i].1,
        )
}

/// One serialized header line, without its CRLF.
pub open spec fn header_line(p: (Seq<char>, Seq<char>)) -> Seq<char> {
    p.0 + ": "@ + p.1
}

/// All header lines in order, each closed by CRLF.
pub open spec fn header_block(hs: Seq<(Seq<char>, Seq<char>)>) -> Seq<char>
    decreases hs.len(),
{
    if hs.len() == 0 {
        Seq::empty()
    } else {
        header_line(hs[0]) + crlf() + header_block(hs.drop_first())
    }
}

/// The exact wire form of a request.
pub open spec fn request_wire(
    method: Seq<char>,
    path: Seq<char>,
    hs: Seq<(Seq<char>, Seq<char>)>,
    body: Seq<char>,
) -> Seq<char> {
    method + " "@ + path + " HTTP/1.1\r\n"@ + header_block(hs) + "\r\n"@ + body
}

/// The header block grows at its end when the entry sequence does.
proof fn lemma_header_block_snoc(hs: Seq<(Seq<char>, Seq<char>)>)
    requires
        hs.len() >= 1,
    ensures
        header_block(hs) == header_block(hs.drop_last()) + header_line(hs.last()) + crlf(),
    decreases hs.len(),
{
    if hs.len() == 1 {
        assert(hs.drop_first().len() == 0);
        assert(hs.drop_last().len() == 0);
        assert(header_block(hs.drop_first()) == Seq::<char>::empty());
        assert(header_block(hs.drop_last()) == Seq::<char>::empty());
        assert(hs.last() == hs[0]);
        assert(header_block(hs) == header_line(hs[0]) + crlf() + header_block(hs.drop_first()));
        assert(header_block(hs) =~= header_block(hs.drop_last()) + header_line(hs.last())
            + crlf());
    } else {
        lemma_header_block_snoc(hs.drop_first());
        assert(hs.drop_first().drop_last() =~= hs.drop_last().drop_first());
        assert(hs.drop_first().last() == hs.last());
        assert(hs.drop_last()[0] == hs[0]);
        assert(header_block(hs.drop_last()) == header_line(hs[0]) + crlf() + header_block(
            hs.drop_last().drop_first(),
        ));
        assert(header_line(hs[0]) + crlf() + (header_block(hs.drop_first().drop_last())
            + header_line(hs.last()) + crlf()) =~= (header_line(hs[0]) + crlf() + header_block(
            hs.drop_first().drop_last(),
        )) + header_line(hs.last()) + crlf());
    }
}

// ---------------------------------------------------------------------------
// Character classes and digit runs
// ---------------------------------------------------------------------------

/// A decimal digit.
pub open spec fn is_digit(c: char) -> bool {
    48 <= c as u32 && c as u32 <= 57
}

/// A word character of the status-line pattern: letter, digit or underscore.
pub open spec fn is_word_char(c: char) -> bool {
    is_digit(c) || (65 <= c as u32 && c as u32 <= 90) || (97 <= c as u32 && c as u32 <= 122) || c
        == '_'
}

/// A character a header name may hold: letter, digit or hyphen.
pub open spec fn is_name_char(c: char) -> bool {
    is_digit(c) || (65 <= c as u32 && c as u32 <= 90) || (97 <= c as u32 && c as u32 <= 122) || c
        == '-'
}

fn is_digit_exec(c: char) -> (r: bool)
    ensures
        r == is_digit(c),
{
    let u = c as u32;
    48 <= u && u <= 57
}

fn is_word_char_exec(c: char) -> (r: bool)
    ensures
        r == is_word_char(c),
{
    let u = c as u32;
    (48 <= u && u <= 57) || (65 <= u && u <= 90) || (97 <= u && u <= 122) || c == '_'
}

fn is_name_char_exec(c: char) -> (r: bool)
    ensures
        r == is_name_char(c),
{
    let u = c as u32;
    (48 <= u && u <= 57) || (65 <= u && u <= 90) || (97 <= u && u <= 122) || c == '-'
}

/// The end of the digit run that starts at `i`.
pub open spec fn skip_digits(s: Seq<char>, i: int) -> int
    decreases s.len() - i,
{
    if i < 0 || i >= s.len() {
        i
    } else if is_digit(s[i]) {
        skip_digits(s, i + 1)
    } else {
        i
    }
}

/// The end of the header-name run that starts at `i`.
pub open spec fn skip_name_chars(s: Seq<char>, i: int) -> int
    decreases s.len() - i,
{
    if i < 0 || i >= s.len() {
        i
    } else if is_name_char(s[i]) {
        skip_name_chars(s, i + 1)
    } else {
        i
    }
}

proof fn lemma_skip_digits_props(s: Seq<char>, i: int)
    requires
        0 <= i <= s.len(),
    ensures
        i <= skip_digits(s, i) <= s.len(),
        forall|j: int| i <= j < skip_digits(s, i) ==> is_digit(#[trigger] s[j]),
        skip_digits(s, i) < s.len() ==> !is_digit(s[skip_digits(s, i)]),
    decreases s.len() - i,
{
    if i < s.len() && is_digit(s[i]) {
        lemma_skip_digits_props(s, i + 1);
    }
}

proof fn lemma_skip_name_chars_props(s: Seq<char>, i: int)
    requires
        0 <= i <= s.len(),
    ensures
        i <= skip_name_chars(s, i) <= s.len(),
        forall|j: int| i <= j < skip_name_chars(s, i) ==> is_name_char(#[trigger] s[j]),
        skip_name_chars(s, i) < s.len() ==> !is_name_char(s[skip_name_chars(s, i)]),
    decreases s.len() - i,
{
    if i < s.len() && is_name_char(s[i]) {
        lemma_skip_name_chars_props(s, i + 1);
    }
}

fn skip_digits_exec(s: &str, from: usize, n: usize) -> (r: usize)
    requires
        n == s@.len(),
        from <= n,
    ensures
        r == skip_digits(s@, from as int),
        from <= r <= n,
    decreases n - from,
{
    let mut j = from;
    while j < n
        invariant
            n == s@.len(),
            from <= j <= n,
            skip_digits(s@, from as int) == skip_digits(s@, j as int),
        decreases n - j,
    {
        if !is_digit_exec(s.get_char(j)) {
            return j;
        }
        j = j + 1;
    }
    j
}

fn skip_name_chars_exec(s: &str, from: usize, n: usize) -> (r: usize)
    requires
        n == s@.len(),
        from <= n,
    ensures
        r == skip_name_chars(s@, from as int),
        from <= r <= n,
    decreases n - from,
{
    let mut j = from;
    while j < n
        invariant
            n == s@.len(),
            from <= j <= n,
            skip_name_chars(s@, from as int) == skip_name_chars(s@, j as int),
        decreases n - j,
    {
        if !is_name_char_exec(s.get_char(j)) {
            return j;
        }
        j = j + 1;
    }
    j
}

// ---------------------------------------------------------------------------
// The status line
// ---------------------------------------------------------------------------

/// The digits captured by matching
/// `HTTP/<digits>.<digits> <digits> <word-char>` at position `i`: the
/// greedy reading of the status-line pattern, which has the same matches
/// as its backtracking reading because no digit is a dot or a space.
pub open spec fn status_match_at(s: Seq<char>, i: int) -> Option<Seq<char>> {
    if !(0 <= i && i + 5 <= s.len() && s[i] == 'H' && s[i + 1] == 'T' && s[i + 2] == 'T' && s[i + 3]
        == 'P' && s[i + 4] == '/') {
        None
    } else {
        let d1 = skip_digits(s, i + 5);
        if d1 == i + 5 || d1 >= s.len() || s[d1] != '.' {
            None
        } else {
            let d2 = skip_digits(s, d1 + 1);
            if d2 == d1 + 1 || d2 >= s.len() || s[d2] != ' ' {
                None
            } else {
                let d3 = skip_digits(s, d2 + 1);
                if d3 == d2 + 1 || d3 >= s.len() || s[d3] != ' ' {
                    None
                } else if d3 + 1 >= s.len() || !is_word_char(s[d3 + 1]) {
                    None
                } else {
                    Some(s.subrange(d2 + 1, d3))
                }
            }
        }
    }
}

/// The capture of the leftmost status-line match at or after `i`.
pub open spec fn status_search(s: Seq<char>, i: int) -> Option<Seq<char>>
    decreases s.len() - i,
{
    if i < 0 || i >= s.len() {
        None
    } else if status_match_at(s, i) is Some {
        status_match_at(s, i)
    } else {
        status_search(s, i + 1)
    }
}

/// The status code digits of a status line, if the line matches.
pub open spec fn status_capture(s: Seq<char>) -> Option<Seq<char>> {
    status_search(s, 0)
}

/// Whatever the search captures is a nonempty run of digits.
proof fn lemma_status_search_digits(s: Seq<char>, i: int)
    requires
        status_search(s, i) is Some,
    ensures
        status_search(s, i) matches Some(d) ==> d.len() >= 1 && forall|j: int|
            0 <= j < d.len() ==> is_digit(#[trigger] d[j]),
    decreases s.len() - i,
{
    if i < 0 || i >= s.len() {
    } else if status_match_at(s, i) is Some {
        let d1 = skip_digits(s, i + 5);
        let d2 = skip_digits(s, d1 + 1);
        let d3 = skip_digits(s, d2 + 1);
        lemma_skip_digits_props(s, i + 5);
        lemma_skip_digits_props(s, d1 + 1);
        lemma_skip_digits_props(s, d2 + 1);
    } else {
        lemma_status_search_digits(s, i + 1);
    }
}

fn try_status_at(line: &str, i: usize, n: usize) -> (r: Option<String>)
    requires
        n == line@.len(),
        i < n,
    ensures
        match status_match_at(line@, i as int) {
            None => r is None,
            Some(d) => r matches Some(x) && x@ == d,
        },
{
    if n - i < 5 {
        return None;
    }
    if !(line.get_char(i) == 'H' && line.get_char(i + 1) == 'T' && line.get_char(i + 2) == 'T'
        && line.get_char(i + 3) == 'P' && line.get_char(i + 4) == '/') {
        return None;
    }
    let d1 = skip_digits_exec(line, i + 5, n);
    if d1 == i + 5 || d1 >= n || line.get_char(d1) != '.' {
        return None;
    }
    let d2 = skip_digits_exec(line, d1 + 1, n);
    if d2 == d1 + 1 || d2 >= n || line.get_char(d2) != ' ' {
        return None;
    }
    let d3 = skip_digits_exec(line, d2 + 1, n);
    if d3 == d2 + 1 || d3 >= n || line.get_char(d3) != ' ' {
        return None;
    }
    if d3 + 1 >= n || !is_word_char_exec(line.get_char(d3 + 1)) {
        return None;
    }
    Some(String::from_str(line.substring_char(d2 + 1, d3)))
}

/// Search a status line for the pattern and hand back the captured status
/// code digits, as an unanchored leftmost match finds them.
fn status_line_capture(line: &str) -> (r: Option<String>)
    ensures
        match status_capture(line@) {
            None => r is None,
            Some(d) => r matches Some(x) && x@ == d,
        },
{
    let n = line.unicode_len();
    let mut i: usize = 0;
    while i < n
        invariant
            n == line@.len(),
            i <= n,
            status_search(line@, 0) == status_search(line@, i as int),
        decreases n - i,
    {
        let cap = try_status_at(line, i, n);
        if cap.is_some() {
            proof {
                assert(status_search(line@, i as int) == status_match_at(line@, i as int));
            }
            return cap;
        }
        proof {
            assert(status_search(line@, i as int) == status_search(line@, i + 1));
        }
        i = i + 1;
    }
    None
}

// ---------------------------------------------------------------------------
// Decimal status codes
// ---------------------------------------------------------------------------

/// The number a run of decimal digits denotes.
pub open spec fn dec_value(digits: Seq<char>) -> int
    decreases digits.len(),
{
    if digits.len() == 0 {
        0
    } else {
        dec_value(digits.drop_last()) * 10 + (digits.last() as u32 - 48)
    }
}

proof fn lemma_dec_value_nonneg(digits: Seq<char>)
    requires
        forall|j: int| 0 <= j < digits.len() ==> is_digit(#[trigger] digits[j]),
    ensures
        dec_value(digits) >= 0,
    decreases digits.len(),
{
    if digits.len() > 0 {
        lemma_dec_value_nonneg(digits.drop_last());
    }
}

/// A digit run denotes at least as much as any of its prefixes.
proof fn lemma_dec_prefix_le(digits: Seq<char>, i: int)
    requires
        0 <= i <= digits.len(),
        forall|j: int| 0 <= j < digits.len() ==> is_digit(#[trigger] digits[j]),
    ensures
        dec_value(digits.subrange(0, i)) <= dec_value(digits),
    decreases digits.len() - i,
{
    if i == digits.len() {
        assert(digits.subrange(0, i) =~= digits);
    } else {
        assert forall|j: int|
            0 <= j < digits.subrange(0, i).len() implies is_digit(#[trigger] digits.subrange(
            0,
            i,
        )[j]) by {
            assert(digits.subrange(0, i)[j] == digits[j]);
        }
        lemma_dec_value_nonneg(digits.subrange(0, i));
        assert(digits.subrange(0, i + 1).drop_last() =~= digits.subrange(0, i));
        assert(dec_value(digits.subrange(0, i + 1)) == dec_value(digits.subrange(0, i)) * 10 + (
        digits[i] as u32 - 48));
        lemma_dec_prefix_le(digits, i + 1);
    }
}

/// Parse a run of decimal digits as a `u16`, or report that it does not
/// fit, as the status-code parse does.
fn parse_u16_dec(digits: &str) -> (r: Option<u16>)
    requires
        digits@.len() >= 1,
        forall|j: int| 0 <= j < digits@.len() ==> is_digit(#[trigger] digits@[j]),
    ensures
        match r {
            Some(v) => v as int == dec_value(digits@) && dec_value(digits@) <= 65535,
            None => dec_value(digits@) > 65535,
        },
{
    let n = digits.unicode_len();
    let mut acc: u32 = 0;
    let mut i: usize = 0;
    proof {
        assert(digits@.subrange(0, 0).len() == 0);
    }
    while i < n
        invariant
            n == digits@.len(),
            i <= n,
            forall|j: int| 0 <= j < digits@.len() ==> is_digit(#[trigger] digits@[j]),
            acc <= 65535,
            acc as int == dec_value(digits@.subrange(0, i as int)),
        decreases n - i,
    {
        let c = digits.get_char(i);
        let d = c as u32;
        proof {
            assert(is_digit(digits@[i as int]));
        }
        let v = acc * 10 + (d - 48);
        proof {
            assert(digits@.subrange(0, i + 1).drop_last() =~= digits@.subrange(0, i as int));
            assert(digits@.subrange(0, i + 1).last() == digits@[i as int]);
            assert(v as int == dec_value(digits@.subrange(0, i + 1)));
        }
        if v > 65535 {
            proof {
                lemma_dec_prefix_le(digits@, i + 1);
            }
            return None;
        }
        acc = v;
        i = i + 1;
    }
    proof {
        assert(digits@.subrange(0, n as int) =~= digits@);
    }
    Some(acc as u16)
}

// ---------------------------------------------------------------------------
// Header lines
// ---------------------------------------------------------------------------

/// The name and value of a header line of the form `<token>: <value>`,
/// where the token is a nonempty run of name characters and the value may
/// be anything without a line feed.
pub open spec fn header_match(line: Seq<char>) -> Option<(Seq<char>, Seq<char>)> {
    let e = skip_name_chars(line, 0);
    if e == 0 {
        None
    } else if e + 2 > line.len() {
        None
    } else if line[e] != ':' || line[e + 1] != ' ' {
        None
    } else if exists|j: int| e + 2 <= j < line.len() && #[trigger] line[j] == '\n' {
        None
    } else {
        Some((line.subrange(0, e), line.subrange(e + 2, line.len() as int)))
    }
}

/// Parse one header line into its name and value, if it is well-formed.
fn header_line_parse(line: &str) -> (r: Option<(String, String)>)
    ensures
        match header_match(line@) {
            None => r is None,
            Some(p) => r matches Some(q) && q.0@ == p.0 && q.1@ == p.1,
        },
{
    let n = line.unicode_len();
    let e = skip_name_chars_exec(line, 0, n);
    if e == 0 {
        return None;
    }
    if n - e < 2 {
        return None;
    }
    if line.get_char(e) != ':' || line.get_char(e + 1) != ' ' {
        return None;
    }
    let mut j = e + 2;
    while j < n
        invariant
            n == line@.len(),
            e == skip_name_chars(line@, 0),
            1 <= e,
            e + 2 <= j <= n,
            line@[e as int] == ':',
            line@[e + 1] == ' ',
            forall|k: int| e + 2 <= k < j ==> #[trigger] line@[k] != '\n',
        decreases n - j,
    {
        if line.get_char(j) == '\n' {
            return None;
        }
        j = j + 1;
    }
    let name = String::from_str(line.substring_char(0, e));
    let value = String::from_str(line.substring_char(e + 2, n));
    Some((name, value))
}

// ---------------------------------------------------------------------------
// Whole responses
// ---------------------------------------------------------------------------

/// The walk over the lines after the status line: headers until the first
/// blank line, whose malformed lines are errors, then the body, rejoined
/// from the remaining lines. Without a blank line the body is empty.
pub open spec fn parse_headers_walk(parts: Seq<Seq<char>>) -> Result<
    (Seq<(Seq<char>, Seq<char>)>, Seq<char>),
    ProtocolErrorKind,
>
    decreases parts.len(),
{
    if parts.len() == 0 {
        Ok((Seq::empty(), Seq::empty()))
    } else if parts[0].len() == 0 {
        Ok((Seq::empty(), join_crlf(parts.drop_first())))
    } else {
        match header_match(parts[0]) {
            None => Err(ProtocolErrorKind::MalformedHeaderLine),
            Some(p) => match parse_headers_walk(parts.drop_first()) {
                Ok(rest) => Ok((seq![p] + rest.0, rest.1)),
                Err(e) => Err(e),
            },
        }
    }
}

/// What parsing a whole response yields: the status code of the first
/// line, which must match the status pattern, denote at most 65535 and
/// not be the never-valid zero; the header map, later duplicates winning;
/// and the body, chunk-decoded when a `Transfer-Encoding: chunked` header
/// says so.
pub open spec fn parse_response_spec(s: Seq<char>) -> Result<
    (int, Seq<(Seq<char>, Seq<char>)>, Seq<char>),
    ProtocolErrorKind,
> {
    let parts = split_crlf(s);
    match status_capture(parts[0]) {
        None => Err(ProtocolErrorKind::MalformedStatusLine),
        Some(digits) => if dec_value(digits) > 65535 || dec_value(digits) == 0 {
            Err(ProtocolErrorKind::MalformedStatusLine)
        } else {
            match parse_headers_walk(parts.drop_first()) {
                Err(e) => Err(e),
                Ok(hb) => {
                    let hs = store_all(Seq::empty(), hb.0);
                    if lookup_header(hs, "Transfer-Encoding"@) == Some("chunked"@) {
                        match crate::chunked::decode_chunked_spec(hb.1) {
                            Ok(decoded) => Ok((dec_value(digits), hs, decoded)),
                            Err(_) => Err(ProtocolErrorKind::MalformedChunkedBody),
                        }
                    } else {
                        Ok((dec_value(digits), hs, hb.1))
                    }
                },
            }
        },
    }
}

/// A status line that is missing or does not match the pattern yields a
/// protocol error, and a status line whose digits denote zero — the
/// never-valid sentinel — is always an error too, never a response with
/// code zero.
pub proof fn lemma_status_line_errors(s: Seq<char>)
    ensures
        status_capture(split_crlf(s)[0]) is None ==> parse_response_spec(s) == Err::<
            (int, Seq<(Seq<char>, Seq<char>)>, Seq<char>),
            ProtocolErrorKind,
        >(ProtocolErrorKind::MalformedStatusLine),
        (status_capture(split_crlf(s)[0]) matches Some(d) && dec_value(d) == 0)
            ==> parse_response_spec(s) == Err::<
            (int, Seq<(Seq<char>, Seq<char>)>, Seq<char>),
            ProtocolErrorKind,
        >(ProtocolErrorKind::MalformedStatusLine),
{
}

/// Storing one more raw entry stores it into the accumulated map.
proof fn lemma_store_all_snoc(
    hs: Seq<(Seq<char>, Seq<char>)>,
    raw: Seq<(Seq<char>, Seq<char>)>,
    x: (Seq<char>, Seq<char>),
)
    ensures
        store_all(hs, raw.push(x)) == store_header(store_all(hs, raw), x.0, x.1),
    decreases raw.len(),
{
    if raw.len() == 0 {
        assert(raw.push(x)[0] == x);
        assert(raw.push(x).drop_first() =~= raw);
        assert(store_all(store_header(hs, x.0, x.1), raw) == store_header(hs, x.0, x.1));
    } else {
        assert(raw.push(x)[0] == raw[0]);
        assert(raw.push(x).drop_first() =~= raw.drop_first().push(x));
        lemma_store_all_snoc(store_header(hs, raw[0].0, raw[0].1), raw.drop_first(), x);
    }
}

/// Parse a raw response into status code, headers and body.
///
/// Succeeds exactly on the inputs `parse_response_spec` accepts, and
/// reports the same protocol failure it names otherwise.
pub fn parse_response(response: &str) -> (r: Result<Response, Error>)
    ensures
        r matches Ok(resp) ==> resp.headers.wf() && parse_response_spec(response@) == Ok::<
            (int, Seq<(Seq<char>, Seq<char>)>, Seq<char>),
            ProtocolErrorKind,
        >((resp.status_code as int, resp.headers@, resp.body@)),
        r matches Err(e) ==> parse_response_spec(response@) matches Err(k) && e
            == Error::ProtocolError(k),
{
    let parts = split_crlf_exec(response);
    let ghost vs = views_of(parts@);
    let n = parts.len();
    proof {
        assert(vs[0] == parts@[0]@);
    }
    let cap = status_line_capture(parts[0].as_str());
    let digits = match cap {
        None => {
            return Err(Error::ProtocolError(ProtocolErrorKind::MalformedStatusLine));
        },
        Some(d) => d,
    };
    proof {
        lemma_status_search_digits(vs[0], 0);
    }
    let code = match parse_u16_dec(digits.as_str()) {
        None => {
            return Err(Error::ProtocolError(ProtocolErrorKind::MalformedStatusLine));
        },
        Some(c) => c,
    };
    if code == 0 {
        return Err(Error::ProtocolError(ProtocolErrorKind::MalformedStatusLine));
    }
    let mut headers = Headers::new();
    let ghost mut raw: Seq<(Seq<char>, Seq<char>)> = Seq::empty();
    let mut k: usize = 1;
    let mut found_blank = false;
    proof {
        assert(vs.subrange(1, n as int) =~= vs.subrange(1, n as int));
    }
    while k < n && !found_blank
        invariant
            n == parts@.len(),
            n == vs.len(),
            1 <= k <= n,
            vs == views_of(parts@),
            vs == split_crlf(response@),
            status_capture(vs[0]) == Some(digits@),
            dec_value(digits@) == code as int,
            code != 0,
            headers@ == store_all(Seq::empty(), raw),
            headers.wf(),
            found_blank ==> k < n && vs[k as int].len() == 0 && parse_headers_walk(
                vs.subrange(1, n as int),
            ) == Ok::<(Seq<(Seq<char>, Seq<char>)>, Seq<char>), ProtocolErrorKind>(
                (raw, join_crlf(vs.subrange(k + 1, n as int))),
            ),
            !found_blank ==> parse_headers_walk(vs.subrange(1, n as int)) == (
            match parse_headers_walk(vs.subrange(k as int, n as int)) {
                Ok(rest) => Ok::<(Seq<(Seq<char>, Seq<char>)>, Seq<char>), ProtocolErrorKind>(
                    (raw + rest.0, rest.1),
                ),
                Err(e) => Err::<(Seq<(Seq<char>, Seq<char>)>, Seq<char>), ProtocolErrorKind>(e),
            }),
        decreases n - k + if found_blank {
            0int
        } else {
            1int
        },
    {
        let ghost pending = vs.subrange(k as int, n as int);
        proof {
            assert(pending[0] == vs[k as int]);
            assert(vs[k as int] == parts@[k as int]@);
            assert(pending.drop_first() =~= vs.subrange(k + 1, n as int));
        }
        if parts[k].as_str().is_empty() {
            proof {
                assert(parse_headers_walk(pending) == Ok::<
                    (Seq<(Seq<char>, Seq<char>)>, Seq<char>),
                    ProtocolErrorKind,
                >((Seq::empty(), join_crlf(vs.subrange(k + 1, n as int)))));
                assert(raw + Seq::<(Seq<char>, Seq<char>)>::empty() =~= raw);
            }
            found_blank = true;
        } else {
            match header_line_parse(parts[k].as_str()) {
                None => {
                    proof {
                        assert(parse_headers_walk(pending) == Err::<
                            (Seq<(Seq<char>, Seq<char>)>, Seq<char>),
                            ProtocolErrorKind,
                        >(ProtocolErrorKind::MalformedHeaderLine));
                    }
                    return Err(Error::ProtocolError(ProtocolErrorKind::MalformedHeaderLine));
                },
                Some(pair) => {
                    let (name, value) = pair;
                    let ghost p = (name@, value@);
                    proof {
                        assert(header_match(pending[0]) == Some(p));
                        match parse_headers_walk(pending.drop_first()) {
                            Ok(rest) => {
                                assert(raw + (seq![p] + rest.0) =~= raw.push(p) + rest.0);
                            },
                            Err(_) => {},
                        }
                        lemma_store_all_snoc(Seq::empty(), raw, p);
                    }
                    headers.insert(name, value);
                    proof {
                        raw = raw.push(p);
                    }
                    k = k + 1;
                },
            }
        }
    }
    proof {
        if !found_blank {
            assert(vs.subrange(k as int, n as int).len() == 0);
            assert(parse_headers_walk(vs.subrange(k as int, n as int)) == Ok::<
                (Seq<(Seq<char>, Seq<char>)>, Seq<char>),
                ProtocolErrorKind,
            >((Seq::empty(), Seq::empty())));
            assert(raw + Seq::<(Seq<char>, Seq<char>)>::empty() =~= raw);
        }
    }
    let mut body = String::new();
    if found_blank {
        let mut j = k + 1;
        let mut first = true;
        while j < n
            invariant
                n == parts@.len(),
                n == vs.len(),
                vs == views_of(parts@),
                k + 1 <= j <= n,
                first <==> j == k + 1,
                first ==> body@ == Seq::<char>::empty(),
                !first ==> body@ == join_crlf(vs.subrange(k + 1, j as int)),
            decreases n - j,
        {
            proof {
                assert(vs[j as int] == parts@[j as int]@);
            }
            if !first {
                body.append("\r\n");
                proof {
                    crate::text::lemma_crlf_literal();
                    lemma_join_crlf_push(vs.subrange(k + 1, j as int), vs[j as int]);
                    assert(vs.subrange(k + 1, j + 1) =~= vs.subrange(k + 1, j as int).push(
                        vs[j as int],
                    ));
                }
            } else {
                proof {
                    assert(vs.subrange(k + 1, j + 1) =~= seq![vs[j as int]]);
                    assert(join_crlf(seq![vs[j as int]]) == vs[j as int]);
                }
            }
            body.append(parts[j].as_str());
            first = false;
            j = j + 1;
        }
        proof {
            if k + 1 == n {
                assert(vs.subrange(k + 1, n as int).len() == 0);
                assert(join_crlf(vs.subrange(k + 1, n as int)) == Seq::<char>::empty());
            }
            assert(body@ == join_crlf(vs.subrange(k + 1, n as int)));
        }
    }
    let ghost walk_body = body@;
    let chunked_hdr = headers.get("Transfer-Encoding");
    let mut final_body = body;
    match chunked_hdr {
        Some(v) => {
            if v == String::from_str("chunked") {
                match crate::chunked::parse_chunked(final_body.as_str()) {
                    Ok(decoded) => {
                        final_body = decoded;
                    },
                    Err(_) => {
                        return Err(Error::ProtocolError(ProtocolErrorKind::MalformedChunkedBody));
                    },
                }
            }
        },
        None => {},
    }
    Ok(Response { status_code: code, headers, body: final_body })
}

/// Serialize a request into its exact wire form.
pub fn gen_request_string(request: Request) -> (r: String)
    ensures
        r@ == request_wire(
            request.method@,
            request.path@,
            request.headers@,
            body_chars(request.body),
        ),
{
    let ghost hs = request.headers@;
    let mut ret = String::new();
    ret.append(request.method.as_str());
    ret.append(" ");
    ret.append(request.path.as_str());
    ret.append(" HTTP/1.1\r\n");
    let ghost head = request.method@ + " "@ + request.path@ + " HTTP/1.1\r\n"@;
    proof {
        assert(ret@ =~= head + header_block(hs.subrange(0, 0)));
    }
    let n = request.headers.entries.len();
    let mut i: usize = 0;
    while i < n
        invariant
            n == request.headers.entries@.len(),
            i <= n,
            hs == request.headers@,
            ret@ == head + header_block(hs.subrange(0, i as int)),
        decreases n - i,
    {
        ret.append(request.headers.entries[i].0.as_str());
        ret.append(": ");
        ret.append(request.headers.entries[i].1.as_str());
        ret.append("\r\n");
        proof {
            let pre = hs.subrange(0, i as int);
            let cur = hs.subrange(0, i + 1);
            assert(cur.drop_last() =~= pre);
            assert(cur.last() == hs[i as int]);
            assert(hs[i as int] == (request.headers.entries@[i as int].0@,
            request.headers.entries@[i as int].1@));
            lemma_header_block_snoc(cur);
            crate::text::lemma_crlf_literal();
            assert(ret@ =~= head + header_block(cur));
        }
        i = i + 1;
    }
    ret.append("\r\n");
    match &request.body {
        Some(b) => {
            ret.append(b.as_str());
        },
        None => {},
    }
    proof {
        assert(hs.subrange(0, n as int) =~= hs);
        assert(ret@ =~= request_wire(
            request.method@,
            request.path@,
            hs,
            body_chars(request.body),
        ));
    }
    ret
}

} // verus!
