//! Splitting a wire string into CRLF-delimited lines and joining lines
//! back, together with the lemmas that make the two inverses of each other.

use vstd::prelude::*;
use vstd::string::*;

verus! {

/// The two-character line delimiter of the wire format.
pub open spec fn crlf() -> Seq<char> {
    seq!['\r', '\n']
}

/// The literal `"\r\n"` and the delimiter sequence are the same thing.
pub proof fn lemma_crlf_literal()
    ensures
        "\r\n"@ == crlf(),
{
    reveal_strlit("\r\n");
    assert("\r\n"@ =~= crlf());
}

/// Whether a CRLF pair starts at position `i` of `s`.
pub open spec fn crlf_at(s: Seq<char>, i: int) -> bool {
    0 <= i && i + 1 < s.len() && s[i] == '\r' && s[i + 1] == '\n'
}

/// Whether `s` holds no CRLF pair at all.
pub open spec fn no_crlf(s: Seq<char>) -> bool {
    forall|i: int| !#[trigger] crlf_at(s, i)
}

/// Split `s` at every CRLF pair, leftmost first, as `str::split("\r\n")`
/// does: the result always holds at least one part, and the empty string
/// splits into one empty part.
pub open spec fn split_crlf(s: Seq<char>) -> Seq<Seq<char>>
    decreases s.len(),
{
    if s.len() < 2 {
        seq![s]
    } else if s[0] == '\r' && s[1] == '\n' {
        seq![Seq::<char>::empty()] + split_crlf(s.subrange(2, s.len() as int))
    } else {
        let rest = split_crlf(s.drop_first());
        rest.update(0, seq![s[0]] + rest[0])
    }
}

/// Join parts with CRLF between each two of them.
pub open spec fn join_crlf(parts: Seq<Seq<char>>) -> Seq<char>
    decreases parts.len(),
{
    if parts.len() == 0 {
        Seq::empty()
    } else if parts.len() == 1 {
        parts[0]
    } else {
        parts[0] + crlf() + join_crlf(parts.drop_first())
    }
}

pub proof fn lemma_split_crlf_nonempty(s: Seq<char>)
    ensures
        split_crlf(s).len() >= 1,
    decreases s.len(),
{
    if s.len() < 2 {
    } else if s[0] == '\r' && s[1] == '\n' {
    } else {
        lemma_split_crlf_nonempty(s.drop_first());
    }
}

/// A string without CRLF is a single part.
pub proof fn lemma_split_crlf_whole(s: Seq<char>)
    requires
        no_crlf(s),
    ensures
        split_crlf(s) == seq![s],
    decreases s.len(),
{
    if s.len() < 2 {
    } else if s[0] == '\r' && s[1] == '\n' {
        assert(crlf_at(s, 0));
    } else {
        assert forall|i: int| !#[trigger] crlf_at(s.drop_first(), i) by {
            if crlf_at(s.drop_first(), i) {
                assert(crlf_at(s, i + 1));
            }
        }
        lemma_split_crlf_whole(s.drop_first());
        assert(seq![s[0]] + s.drop_first() =~= s);
        assert(split_crlf(s) =~= seq![s]);
    }
}

/// Splitting `a + CRLF + b` where `a` holds no CRLF peels off `a` as the
/// first part.
pub proof fn lemma_split_crlf_concat(a: Seq<char>, b: Seq<char>)
    requires
        no_crlf(a),
    ensures
        split_crlf(a + crlf() + b) == seq![a] + split_crlf(b),
    decreases a.len(),
{
    let s = a + crlf() + b;
    if a.len() == 0 {
        assert(s.len() >= 2);
        assert(s[0] == '\r' && s[1] == '\n');
        assert(s.subrange(2, s.len() as int) =~= b);
        assert(a =~= Seq::<char>::empty());
        assert(seq![Seq::<char>::empty()] + split_crlf(b) =~= seq![a] + split_crlf(b));
    } else {
        assert(s.len() >= 2);
        assert(s[0] == a[0]);
        if a.len() == 1 {
            assert(s[1] == crlf()[0]);
        } else {
            assert(s[1] == a[1]);
            assert(!crlf_at(a, 0));
        }
        assert(!(s[0] == '\r' && s[1] == '\n'));
        let a1 = a.drop_first();
        assert forall|i: int| !#[trigger] crlf_at(a1, i) by {
            if crlf_at(a1, i) {
                assert(crlf_at(a, i + 1));
            }
        }
        lemma_split_crlf_concat(a1, b);
        assert(s.drop_first() =~= a1 + crlf() + b);
        let rest = split_crlf(s.drop_first());
        assert(rest == seq![a1] + split_crlf(b));
        lemma_split_crlf_nonempty(b);
        assert(rest[0] == a1);
        assert(seq![s[0]] + a1 =~= a);
        assert(rest.update(0, seq![s[0]] + rest[0]) =~= seq![a] + split_crlf(b));
    }
}

/// Splitting distributes over an explicit CRLF join of two strings,
/// whatever CRLF pairs the two sides hold themselves.
pub proof fn lemma_split_crlf_append(a: Seq<char>, b: Seq<char>)
    ensures
        split_crlf(a + crlf() + b) == split_crlf(a) + split_crlf(b),
    decreases a.len(),
{
    let s = a + crlf() + b;
    if a.len() < 2 {
        assert forall|i: int| !#[trigger] crlf_at(a, i) by {}
        lemma_split_crlf_concat(a, b);
        assert(seq![a] + split_crlf(b) =~= split_crlf(a) + split_crlf(b));
    } else if a[0] == '\r' && a[1] == '\n' {
        let a1 = a.subrange(2, a.len() as int);
        assert(s.len() >= 2 && s[0] == '\r' && s[1] == '\n');
        assert(s.subrange(2, s.len() as int) =~= a1 + crlf() + b);
        lemma_split_crlf_append(a1, b);
        assert(split_crlf(s) == seq![Seq::<char>::empty()] + (split_crlf(a1) + split_crlf(b)));
        assert(seq![Seq::<char>::empty()] + (split_crlf(a1) + split_crlf(b)) =~= (seq![
            Seq::<char>::empty(),
        ] + split_crlf(a1)) + split_crlf(b));
    } else {
        assert(s[0] == a[0] && s[1] == a[1]);
        let a1 = a.drop_first();
        assert(s.drop_first() =~= a1 + crlf() + b);
        lemma_split_crlf_append(a1, b);
        let rest_a = split_crlf(a1);
        lemma_split_crlf_nonempty(a1);
        let rest_s = split_crlf(s.drop_first());
        assert(rest_s == rest_a + split_crlf(b));
        assert(rest_s[0] == rest_a[0]);
        assert(rest_s.update(0, seq![s[0]] + rest_s[0]) =~= rest_a.update(
            0,
            seq![a[0]] + rest_a[0],
        ) + split_crlf(b));
    }
}

/// Joining the parts of a split gives the string back.
pub proof fn lemma_join_split_crlf(s: Seq<char>)
    ensures
        join_crlf(split_crlf(s)) == s,
    decreases s.len(),
{
    if s.len() < 2 {
    } else if s[0] == '\r' && s[1] == '\n' {
        let tail = s.subrange(2, s.len() as int);
        lemma_join_split_crlf(tail);
        lemma_split_crlf_nonempty(tail);
        let parts = seq![Seq::<char>::empty()] + split_crlf(tail);
        assert(parts.drop_first() =~= split_crlf(tail));
        assert(join_crlf(parts) =~= s);
    } else {
        let rest = split_crlf(s.drop_first());
        lemma_join_split_crlf(s.drop_first());
        lemma_split_crlf_nonempty(s.drop_first());
        let parts = rest.update(0, seq![s[0]] + rest[0]);
        if rest.len() == 1 {
            assert(join_crlf(parts) == parts[0]);
            assert(join_crlf(rest) == rest[0]);
            assert(seq![s[0]] + rest[0] =~= s);
        } else {
            assert(parts.drop_first() =~= rest.drop_first());
            assert(join_crlf(parts) == parts[0] + crlf() + join_crlf(rest.drop_first()));
            assert(join_crlf(rest) == rest[0] + crlf() + join_crlf(rest.drop_first()));
            assert(parts[0] + crlf() + join_crlf(rest.drop_first()) =~= seq![s[0]] + (rest[0]
                + crlf() + join_crlf(rest.drop_first())));
            assert(seq![s[0]] + join_crlf(rest) =~= s);
        }
    }
}

/// Appending one more part appends one more CRLF-prefixed line.
pub proof fn lemma_join_crlf_push(parts: Seq<Seq<char>>, x: Seq<char>)
    requires
        parts.len() >= 1,
    ensures
        join_crlf(parts.push(x)) == join_crlf(parts) + crlf() + x,
    decreases parts.len(),
{
    if parts.len() == 1 {
        let p = parts.push(x);
        assert(p[0] == parts[0]);
        assert(p.drop_first() =~= seq![x]);
        assert(join_crlf(p.drop_first()) == x);
    } else {
        lemma_join_crlf_push(parts.drop_first(), x);
        let p = parts.push(x);
        assert(p[0] == parts[0]);
        assert(p.drop_first() =~= parts.drop_first().push(x));
        assert(join_crlf(p) == parts[0] + crlf() + (join_crlf(parts.drop_first()) + crlf() + x));
        assert(parts[0] + crlf() + (join_crlf(parts.drop_first()) + crlf() + x) =~= (parts[0]
            + crlf() + join_crlf(parts.drop_first())) + crlf() + x);
    }
}

/// The views of a vector of split parts.
pub open spec fn views_of(parts: Seq<String>) -> Seq<Seq<char>> {
    parts.map_values(|p: String| p@)
}

/// Split a string at every CRLF pair, as the response parser needs it.
pub fn split_crlf_exec(s: &str) -> (parts: Vec<String>)
    ensures
        views_of(parts@) == split_crlf(s@),
        parts@.len() >= 1,
{
    let n = s.unicode_len();
    let mut parts: Vec<String> = Vec::new();
    let mut start: usize = 0;
    let mut i: usize = 0;
    proof {
        assert(s@.subrange(0, n as int) =~= s@);
        assert(views_of(parts@) + split_crlf(s@) =~= split_crlf(s@));
    }
    while i < n
        invariant
            n == s@.len(),
            start <= i <= n,
            forall|j: int| 0 <= j < i - start ==> !#[trigger] crlf_at(
                s@.subrange(start as int, n as int),
                j,
            ),
            split_crlf(s@) == views_of(parts@) + split_crlf(s@.subrange(start as int, n as int)),
        decreases n - i,
    {
        let pending = Ghost(s@.subrange(start as int, n as int));
        if s.get_char(i) == '\r' && i + 1 < n && s.get_char(i + 1) == '\n' {
            let part = String::from_str(s.substring_char(start, i));
            proof {
                let a = s@.subrange(start as int, i as int);
                let b = s@.subrange(i + 2, n as int);
                assert forall|j: int| !#[trigger] crlf_at(a, j) by {
                    if crlf_at(a, j) {
                        assert(crlf_at(pending@, j));
                    }
                }
                assert(pending@ =~= a + crlf() + b);
                lemma_split_crlf_concat(a, b);
                assert(views_of(parts@.push(part)) =~= views_of(parts@) + seq![a]);
                assert(views_of(parts@) + (seq![a] + split_crlf(b)) =~= (views_of(parts@) + seq![
                    a,
                ]) + split_crlf(b));
            }
            parts.push(part);
            start = i + 2;
            i = i + 2;
        } else {
            proof {
                if i + 1 < n {
                    assert(pending@[i - start] == s@[i as int]);
                    assert(pending@[i - start + 1] == s@[i + 1]);
                }
                assert(!crlf_at(pending@, i - start));
            }
            i = i + 1;
        }
    }
    let last = String::from_str(s.substring_char(start, n));
    proof {
        let a = s@.subrange(start as int, n as int);
        assert forall|j: int| !#[trigger] crlf_at(a, j) by {
            if crlf_at(a, j) {
                assert(0 <= j < n - start);
            }
        }
        lemma_split_crlf_whole(a);
        assert(views_of(parts@.push(last)) =~= views_of(parts@) + seq![a]);
    }
    parts.push(last);
    parts
}

} // verus!
