//! Bang extraction: finding a `!`-prefixed token at the start or the end of a
//! free-text query, and the search terms that remain.

use vstd::prelude::*;
use vstd::string::*;

verus! {

/// The Unicode white-space characters, the set that trimming removes.
pub open spec fn is_ws(c: char) -> bool {
    let u = c as u32;
    ||| u == 0x20
    ||| (0x09 <= u && u <= 0x0D)
    ||| u == 0x85
    ||| u == 0xA0
    ||| u == 0x1680
    ||| (0x2000 <= u && u <= 0x200A)
    ||| u == 0x2028
    ||| u == 0x2029
    ||| u == 0x202F
    ||| u == 0x205F
    ||| u == 0x3000
}

/// Decides `is_ws` on a concrete character.
pub fn is_whitespace_char(c: char) -> (r: bool)
    ensures
        r == is_ws(c),
{
    let u = c as u32;
    u == 0x20 || (0x09 <= u && u <= 0x0D) || u == 0x85 || u == 0xA0 || u == 0x1680
        || (0x2000 <= u && u <= 0x200A) || u == 0x2028 || u == 0x2029 || u == 0x202F
        || u == 0x205F || u == 0x3000
}

/// The text with its leading white space removed.
pub open spec fn trim_start_spec(s: Seq<char>) -> Seq<char>
    decreases s.len(),
{
    if s.len() == 0 {
        s
    } else if is_ws(s[0]) {
        trim_start_spec(s.drop_first())
    } else {
        s
    }
}

/// The text with its trailing white space removed.
pub open spec fn trim_end_spec(s: Seq<char>) -> Seq<char>
    decreases s.len(),
{
    if s.len() == 0 {
        s
    } else if is_ws(s.last()) {
        trim_end_spec(s.drop_last())
    } else {
        s
    }
}

/// The text with leading and trailing white space removed.
pub open spec fn trim_spec(s: Seq<char>) -> Seq<char> {
    trim_end_spec(trim_start_spec(s))
}

proof fn lemma_trim_start_skip(s: Seq<char>, i: int)
    requires
        0 <= i <= s.len(),
        forall|k: int| 0 <= k < i ==> is_ws(s[k]),
        i < s.len() ==> !is_ws(s[i]),
    ensures
        trim_start_spec(s) == s.skip(i),
    decreases i,
{
    if i == 0 {
        assert(s.skip(0) =~= s);
    } else {
        assert(is_ws(s[0]));
        let d = s.drop_first();
        assert(forall|k: int| 0 <= k < i - 1 ==> is_ws(#[trigger] d[k]));
        lemma_trim_start_skip(d, i - 1);
        assert(d.skip(i - 1) =~= s.skip(i));
    }
}

proof fn lemma_trim_end_take(s: Seq<char>, j: int)
    requires
        0 <= j <= s.len(),
        forall|k: int| j <= k < s.len() ==> is_ws(s[k]),
        j > 0 ==> !is_ws(s[j - 1]),
    ensures
        trim_end_spec(s) == s.take(j),
    decreases s.len() - j,
{
    if j == s.len() {
        assert(s.take(j) =~= s);
    } else {
        assert(is_ws(s.last()));
        let d = s.drop_last();
        assert(forall|k: int| j <= k < d.len() ==> is_ws(#[trigger] d[k]));
        lemma_trim_end_take(d, j);
        assert(d.take(j) =~= s.take(j));
    }
}

/// Removes leading and trailing white space, as `trim_spec` describes.
pub fn trim_str(s: &str) -> (r: String)
    ensures
        r@ == trim_spec(s@),
{
    let n = s.unicode_len();
    let mut i: usize = 0;
    while i < n && is_whitespace_char(s.get_char(i))
        invariant
            0 <= i <= n,
            n == s@.len(),
            forall|k: int| 0 <= k < i ==> is_ws(s@[k]),
        decreases n - i,
    {
        i += 1;
    }
    if i == n {
        proof {
            lemma_trim_start_skip(s@, i as int);
            assert(s@.skip(n as int) =~= Seq::<char>::empty());
        }
        String::new()
    } else {
        let mut j: usize = n;
        while j > i && is_whitespace_char(s.get_char(j - 1))
            invariant
                i <= j <= n,
                n == s@.len(),
                i < n,
                !is_ws(s@[i as int]),
                forall|k: int| j <= k < n ==> is_ws(s@[k]),
            decreases j,
        {
            j -= 1;
        }
        proof {
            if j == i {
                assert(is_ws(s@[i as int]));
            }
            lemma_trim_start_skip(s@, i as int);
            let sk = s@.skip(i as int);
            assert(forall|k: int| j - i <= k < sk.len() ==> is_ws(#[trigger] sk[k]));
            assert(!is_ws(sk[j - i - 1]));
            lemma_trim_end_take(sk, j - i);
            assert(sk.take(j - i) =~= s@.subrange(i as int, j as int));
        }
        String::from_str(s.substring_char(i, j))
    }
}

/// What extraction yields on text that is already trimmed: a prefix bang wins;
/// otherwise the token after the last space is a bang when it starts with `!`.
pub open spec fn extract_from_trimmed(t: Seq<char>) -> (Option<Seq<char>>, Seq<char>) {
    if t.len() > 0 && t[0] == '!' {
        match t.index_of_first(' ') {
            Some(i) => (Some(t.subrange(0, i)), t.subrange(i + 1, t.len() as int)),
            None => (Some(t), Seq::<char>::empty()),
        }
    } else {
        match t.index_of_last(' ') {
            Some(j) => if j + 1 < t.len() && t[j + 1] == '!' {
                (Some(t.subrange(j + 1, t.len() as int)), t.subrange(0, j))
            } else {
                (None, t)
            },
            None => (None, t),
        }
    }
}

/// The bang token (if any) and the remaining search terms of a raw query.
pub open spec fn extract_spec(q: Seq<char>) -> (Option<Seq<char>>, Seq<char>) {
    extract_from_trimmed(trim_spec(q))
}

/// The view of an optional owned string, for stating contracts.
pub open spec fn opt_string_view(o: Option<String>) -> Option<Seq<char>> {
    match o {
        Some(s) => Some(s@),
        None => None,
    }
}

/// Splits a query into an optional bang token and the remaining search terms.
///
/// A query whose trimmed text starts with `!` yields everything before the
/// first space as the bang and everything after it, verbatim, as the
/// remainder. Otherwise, when the token after the last space starts with `!`,
/// that token is the bang and the text before the space is the remainder.
/// Otherwise there is no bang and the remainder is the trimmed query.
pub fn extract_bang(query: &str) -> (r: (Option<String>, String))
    ensures
        opt_string_view(r.0) == extract_spec(query@).0,
        r.1@ == extract_spec(query@).1,
{
    let trimmed = trim_str(query);
    let ghost t = trimmed@;
    let n = trimmed.as_str().unicode_len();
    if n > 0 && trimmed.as_str().get_char(0) == '!' {
        let mut i: usize = 0;
        while i < n && trimmed.as_str().get_char(i) != ' '
            invariant
                0 <= i <= n,
                n == t.len(),
                trimmed@ == t,
                forall|k: int| 0 <= k < i ==> t[k] != ' ',
            decreases n - i,
        {
            i += 1;
        }
        proof {
            t.index_of_first_ensures(' ');
        }
        if i < n {
            proof {
                assert(t.contains(' ')) by {
                    assert(t[i as int] == ' ');
                }
                let idx = t.index_of_first(' ').unwrap();
                if idx < i {
                    assert(t[idx] != ' ');
                }
                if i < idx {
                    assert(t[i as int] != ' ');
                }
                assert(idx == i);
            }
            let bang = String::from_str(trimmed.as_str().substring_char(0, i));
            let rest = String::from_str(trimmed.as_str().substring_char(i + 1, n));
            (Some(bang), rest)
        } else {
            proof {
                assert(!t.contains(' ')) by {
                    if t.contains(' ') {
                        let w = choose|k: int| 0 <= k < t.len() && t[k] == ' ';
                        assert(t[w] != ' ');
                    }
                }
            }
            (Some(trimmed), String::new())
        }
    } else {
        let mut j: usize = n;
        while j > 0 && trimmed.as_str().get_char(j - 1) != ' '
            invariant
                0 <= j <= n,
                n == t.len(),
                trimmed@ == t,
                forall|k: int| j <= k < n ==> t[k] != ' ',
            decreases j,
        {
            j -= 1;
        }
        proof {
            t.index_of_last_ensures(' ');
        }
        if j == 0 {
            proof {
                assert(!t.contains(' ')) by {
                    if t.contains(' ') {
                        let w = choose|k: int| 0 <= k < t.len() && t[k] == ' ';
                        assert(t[w] != ' ');
                    }
                }
            }
            (None, trimmed)
        } else {
            proof {
                assert(t.contains(' ')) by {
                    assert(t[j - 1] == ' ');
                }
                let idx = t.index_of_last(' ').unwrap();
                if idx < j - 1 {
                    assert(t[j - 1] != ' ');
                }
                if j - 1 < idx {
                    assert(t[idx] != ' ');
                }
                assert(idx == j - 1);
            }
            if j < n && trimmed.as_str().get_char(j) == '!' {
                let bang = String::from_str(trimmed.as_str().substring_char(j, n));
                let rest = String::from_str(trimmed.as_str().substring_char(0, j - 1));
                (Some(bang), rest)
            } else {
                (None, trimmed)
            }
        }
    }
}

proof fn lemma_trim_start_is_suffix(s: Seq<char>)
    ensures
        exists|i: int| 0 <= i <= s.len() && trim_start_spec(s) == s.skip(i),
    decreases s.len(),
{
    if s.len() == 0 {
        assert(s.skip(0) =~= s);
    } else if is_ws(s[0]) {
        let d = s.drop_first();
        lemma_trim_start_is_suffix(d);
        let i = choose|i: int| 0 <= i <= d.len() && trim_start_spec(d) == d.skip(i);
        assert(d.skip(i) =~= s.skip(i + 1));
        assert(trim_start_spec(s) == s.skip(i + 1));
    } else {
        assert(s.skip(0) =~= s);
    }
}

proof fn lemma_trim_end_is_prefix(s: Seq<char>)
    ensures
        exists|j: int| 0 <= j <= s.len() && trim_end_spec(s) == s.take(j),
    decreases s.len(),
{
    if s.len() == 0 {
        assert(s.take(0) =~= s);
    } else if is_ws(s.last()) {
        let d = s.drop_last();
        lemma_trim_end_is_prefix(d);
        let j = choose|j: int| 0 <= j <= d.len() && trim_end_spec(d) == d.take(j);
        assert(d.take(j) =~= s.take(j));
        assert(trim_end_spec(s) == s.take(j));
    } else {
        assert(s.take(s.len() as int) =~= s);
    }
}

/// Every character of the trimmed text occurs in the original text.
proof fn lemma_trim_chars_from_source(s: Seq<char>)
    ensures
        forall|k: int|
            0 <= k < trim_spec(s).len() ==> exists|m: int|
                0 <= m < s.len() && s[m] == #[trigger] trim_spec(s)[k],
{
    lemma_trim_start_is_suffix(s);
    let i = choose|i: int| 0 <= i <= s.len() && trim_start_spec(s) == s.skip(i);
    let mid = trim_start_spec(s);
    lemma_trim_end_is_prefix(mid);
    let j = choose|j: int| 0 <= j <= mid.len() && trim_end_spec(mid) == mid.take(j);
    assert forall|k: int| 0 <= k < trim_spec(s).len() implies exists|m: int|
        0 <= m < s.len() && s[m] == #[trigger] trim_spec(s)[k] by {
        assert(trim_spec(s)[k] == s[k + i]);
    }
}

/// Law: a query without any `!` never yields a bang, and its remainder is the
/// trimmed query text.
pub proof fn lemma_extract_no_bang_char(q: Seq<char>)
    requires
        q.len() > 0,
        forall|k: int| 0 <= k < q.len() ==> q[k] != '!',
    ensures
        extract_spec(q) == (None::<Seq<char>>, trim_spec(q)),
{
    let t = trim_spec(q);
    lemma_trim_chars_from_source(q);
    assert(forall|k: int| 0 <= k < t.len() ==> t[k] != '!');
    if t.len() > 0 && t[0] == '!' {
        assert(false);
    }
    t.index_of_last_ensures(' ');
    match t.index_of_last(' ') {
        Some(j) => {
            assert(!(j + 1 < t.len() && t[j + 1] == '!'));
        },
        None => {},
    }
}

/// Law: a single `!`-prefixed token with no white space anywhere is returned
/// whole as the bang, with an empty remainder.
pub proof fn lemma_extract_bang_only_token(q: Seq<char>)
    requires
        q.len() > 0,
        q[0] == '!',
        forall|k: int| 0 <= k < q.len() ==> !is_ws(q[k]),
    ensures
        extract_spec(q) == (Some(q), Seq::<char>::empty()),
{
    assert(!is_ws(q[0]));
    assert(trim_start_spec(q) == q);
    assert(!is_ws(q.last()));
    assert(trim_end_spec(q) == q);
    let t = trim_spec(q);
    assert(t == q);
    t.index_of_first_ensures(' ');
    match t.index_of_first(' ') {
        Some(i) => {
            assert(is_ws(t[i]));
        },
        None => {},
    }
}

} // verus!
