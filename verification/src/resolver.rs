//! Query resolution: extract a bang, consult the registry under the
//! authorization rule, and build the final redirect URL.

use vstd::prelude::*;
use vstd::string::*;
use crate::bangs::{extract_bang, extract_spec, opt_string_view};
use crate::config::{
    authorized_spec, lookup_spec, opt_cred_view, BangDetails, BangDetailsView, Config,
};

verus! {

/// The marker inside a URL template where the encoded search terms go.
pub open spec fn placeholder() -> Seq<char> {
    "{searchTerms}"@
}

/// The fixed template of the default search engine.
pub open spec fn default_template() -> Seq<char> {
    "https://www.google.com/search?q={searchTerms}"@
}

/// The text with every occurrence of `marker`, scanned left to right and
/// without overlap, replaced by `repl`.
pub open spec fn replace_spec(t: Seq<char>, marker: Seq<char>, repl: Seq<char>) -> Seq<char>
    decreases t.len(),
{
    if marker.len() == 0 {
        t
    } else if t.len() < marker.len() {
        t
    } else if t.subrange(0, marker.len() as int) == marker {
        repl + replace_spec(t.skip(marker.len() as int), marker, repl)
    } else {
        seq![t[0]] + replace_spec(t.drop_first(), marker, repl)
    }
}

/// Whether `marker` occurs in `text` starting at position `i`.
fn marker_at(text: &str, marker: &str, i: usize) -> (r: bool)
    requires
        i + marker@.len() <= text@.len(),
        text@.len() <= usize::MAX,
    ensures
        r == (text@.subrange(i as int, i + marker@.len()) == marker@),
{
    let m = marker.unicode_len();
    let mut j: usize = 0;
    while j < m
        invariant
            0 <= j <= m,
            m == marker@.len(),
            i + m <= text@.len(),
            text@.len() <= usize::MAX,
            forall|k: int| 0 <= k < j ==> text@[i + k] == marker@[k],
        decreases m - j,
    {
        if text.get_char(i + j) != marker.get_char(j) {
            proof {
                assert(text@.subrange(i as int, i + marker@.len())[j as int] == text@[i + j]);
            }
            return false;
        }
        j += 1;
    }
    proof {
        assert(text@.subrange(i as int, i + marker@.len()) =~= marker@);
    }
    true
}

/// Replaces every occurrence of `marker` in `text` by `repl`, scanning left
/// to right without overlap.
pub fn replace_all(text: &str, marker: &str, repl: &str) -> (r: String)
    requires
        marker@.len() > 0,
    ensures
        r@ == replace_spec(text@, marker@, repl@),
{
    let n = text.unicode_len();
    let m = marker.unicode_len();
    let mut out = String::new();
    let mut i: usize = 0;
    proof {
        assert(text@.skip(0) =~= text@);
        assert(out@ + replace_spec(text@, marker@, repl@) =~= replace_spec(
            text@,
            marker@,
            repl@,
        ));
    }
    while i < n
        invariant
            0 <= i <= n,
            n == text@.len(),
            m == marker@.len(),
            m > 0,
            replace_spec(text@, marker@, repl@) == out@ + replace_spec(
                text@.skip(i as int),
                marker@,
                repl@,
            ),
        decreases n - i,
    {
        let ghost pre = out@;
        let ghost rest = text@.skip(i as int);
        if m <= n - i && marker_at(text, marker, i) {
            proof {
                assert(rest.subrange(0, m as int) =~= text@.subrange(i as int, i + m as int));
                assert(rest.skip(m as int) =~= text@.skip(i + m as int));
                assert(replace_spec(rest, marker@, repl@) == repl@ + replace_spec(
                    text@.skip(i + m as int),
                    marker@,
                    repl@,
                ));
            }
            out.append(repl);
            proof {
                assert(out@ + replace_spec(text@.skip(i + m as int), marker@, repl@) =~= pre
                    + replace_spec(rest, marker@, repl@));
            }
            i += m;
        } else {
            proof {
                if i + m <= n {
                    assert(rest.subrange(0, m as int) =~= text@.subrange(i as int, i + m as int));
                    assert(rest.subrange(0, m as int) != marker@);
                    assert(rest.drop_first() =~= text@.skip(i + 1));
                    assert(replace_spec(rest, marker@, repl@) == seq![text@[i as int]]
                        + replace_spec(text@.skip(i + 1), marker@, repl@));
                } else {
                    assert(rest.len() < m);
                    assert(replace_spec(rest, marker@, repl@) == rest);
                    let tail = text@.skip(i + 1);
                    assert(tail.len() < m);
                    assert(replace_spec(tail, marker@, repl@) == tail);
                    assert(rest =~= seq![text@[i as int]] + tail);
                }
            }
            out.append(text.substring_char(i, i + 1));
            proof {
                assert(text@.subrange(i as int, i + 1) =~= seq![text@[i as int]]);
                assert(out@ + replace_spec(text@.skip(i + 1), marker@, repl@) =~= pre
                    + replace_spec(rest, marker@, repl@));
            }
            i += 1;
        }
    }
    proof {
        assert(text@.skip(n as int) =~= Seq::<char>::empty());
        assert(replace_spec(Seq::<char>::empty(), marker@, repl@) == Seq::<char>::empty());
        assert(out@ + Seq::<char>::empty() =~= out@);
    }
    out
}

/// What `urlencoding::encode` returns on the given text: its percent-encoded
/// form, a function of the characters alone.
pub uninterp spec fn encoded(s: Seq<char>) -> Seq<char>;

/// Relies on urlencoding::encode: percent-encodes every byte of the UTF-8
/// form except ASCII alphanumerics and `-`, `_`, `.`, `~`; the result depends
/// on the input text alone.
#[verifier::external_body]
fn percent_encode(s: &str) -> (r: String)
    ensures
        r@ == encoded(s@),
{
    urlencoding::encode(s).into_owned()
}

/// The URL a template yields for given search terms: every placeholder is
/// replaced by the percent-encoded terms.
pub open spec fn matched_url(template: Seq<char>, terms: Seq<char>) -> Seq<char> {
    replace_spec(template, placeholder(), encoded(terms))
}

/// Law: URL substitution is deterministic; the matched URL is a function of
/// the template and the search terms alone.
pub proof fn lemma_matched_url_deterministic(
    t1: Seq<char>,
    r1: Seq<char>,
    t2: Seq<char>,
    r2: Seq<char>,
)
    requires
        t1 == t2,
        r1 == r2,
    ensures
        matched_url(t1, r1) == matched_url(t2, r2),
{
}

/// What the resolver decides for one request.
pub enum RedirectDecision {
    /// No query was present at all: the caller redirects to the fixed landing
    /// target, not to a search.
    NoQuery,
    /// A bang was extracted and resolved: redirect to `url`.
    Matched { url: String, bang: String, definition: BangDetails },
    /// No bang, or one that did not resolve: search the full raw query with
    /// the default engine.
    DefaultSearch { url: String },
}

/// The mathematical value of a `RedirectDecision`.
pub enum DecisionView {
    NoQuery,
    Matched { url: Seq<char>, bang: Seq<char>, definition: BangDetailsView },
    DefaultSearch { url: Seq<char> },
}

impl View for RedirectDecision {
    type V = DecisionView;

    open spec fn view(&self) -> DecisionView {
        match self {
            RedirectDecision::NoQuery => DecisionView::NoQuery,
            RedirectDecision::Matched { url, bang, definition } => DecisionView::Matched {
                url: url@,
                bang: bang@,
                definition: definition@,
            },
            RedirectDecision::DefaultSearch { url } => DecisionView::DefaultSearch { url: url@ },
        }
    }
}

/// The view of an optional borrowed query string.
pub open spec fn opt_str_view(o: Option<&str>) -> Option<Seq<char>> {
    match o {
        Some(s) => Some(s@),
        None => None,
    }
}

/// The decision for a raw query and an optional credential: absent query goes
/// to the landing target; an extracted bang that resolves goes to its
/// template with the encoded remainder substituted; anything else goes to the
/// default engine with the encoded full raw query substituted.
pub open spec fn resolve_spec(
    c: Config,
    q: Option<Seq<char>>,
    cred: Option<Seq<char>>,
) -> DecisionView {
    match q {
        None => DecisionView::NoQuery,
        Some(qs) => {
            let authorized = authorized_spec(c.auth_token@, cred);
            let ext = extract_spec(qs);
            match ext.0 {
                Some(bt) => match lookup_spec(c.bangs@, c.private_bangs@, bt, authorized) {
                    Some(def) => DecisionView::Matched {
                        url: matched_url(def.url, ext.1),
                        bang: bt,
                        definition: def,
                    },
                    None => DecisionView::DefaultSearch {
                        url: matched_url(default_template(), qs),
                    },
                },
                None => DecisionView::DefaultSearch { url: matched_url(default_template(), qs) },
            }
        },
    }
}

/// Descriptive metadata for a query: the remaining search terms, and the
/// bang's token, name and icon when it resolved.
pub struct QueryInfo {
    pub query: String,
    pub bang: Option<String>,
    pub bang_name: Option<String>,
    pub bang_icon: Option<String>,
}

/// The mathematical value of a `QueryInfo`.
pub struct QueryInfoView {
    pub query: Seq<char>,
    pub bang: Option<Seq<char>>,
    pub bang_name: Option<Seq<char>>,
    pub bang_icon: Option<Seq<char>>,
}

impl View for QueryInfo {
    type V = QueryInfoView;

    open spec fn view(&self) -> QueryInfoView {
        QueryInfoView {
            query: self.query@,
            bang: opt_string_view(self.bang),
            bang_name: opt_string_view(self.bang_name),
            bang_icon: opt_string_view(self.bang_icon),
        }
    }
}

/// The metadata for a raw query and an optional credential: an absent query
/// counts as empty; the bang fields are filled only when the extracted bang
/// resolves under the same authorization and precedence rules as `resolve`.
pub open spec fn describe_spec(
    c: Config,
    q: Option<Seq<char>>,
    cred: Option<Seq<char>>,
) -> QueryInfoView {
    let qs = match q {
        None => Seq::<char>::empty(),
        Some(s) => s,
    };
    let authorized = authorized_spec(c.auth_token@, cred);
    let ext = extract_spec(qs);
    match ext.0 {
        Some(bt) => match lookup_spec(c.bangs@, c.private_bangs@, bt, authorized) {
            Some(def) => QueryInfoView {
                query: ext.1,
                bang: Some(bt),
                bang_name: Some(def.name),
                bang_icon: Some(def.icon),
            },
            None => QueryInfoView { query: ext.1, bang: None, bang_name: None, bang_icon: None },
        },
        None => QueryInfoView { query: ext.1, bang: None, bang_name: None, bang_icon: None },
    }
}

impl Config {
    /// Describes what a query would resolve to, without building the URL, as
    /// `describe_spec` states.
    pub fn describe(&self, query: Option<&str>, credential: Option<&String>) -> (r: QueryInfo)
        ensures
            r@ == describe_spec(*self, opt_str_view(query), opt_cred_view(credential)),
    {
        let q: &str = match query {
            Some(q) => q,
            None => "",
        };
        proof {
            reveal_strlit("");
            assert(q@ =~= match opt_str_view(query) {
                None => Seq::<char>::empty(),
                Some(s) => s,
            });
        }
        let authorized = self.is_authorized(credential);
        let (bang, terms) = extract_bang(q);
        match bang {
            Some(b) => match self.lookup(b.as_str(), authorized) {
                Some(def) => QueryInfo {
                    query: terms,
                    bang: Some(b),
                    bang_name: Some(def.name.clone()),
                    bang_icon: Some(def.icon.clone()),
                },
                None => QueryInfo { query: terms, bang: None, bang_name: None, bang_icon: None },
            },
            None => QueryInfo { query: terms, bang: None, bang_name: None, bang_icon: None },
        }
    }

    /// Decides the redirect for a raw query and an optional credential, as
    /// `resolve_spec` describes.
    pub fn resolve(&self, query: Option<&str>, credential: Option<&String>) -> (r:
        RedirectDecision)
        ensures
            r@ == resolve_spec(*self, opt_str_view(query), opt_cred_view(credential)),
    {
        let q = match query {
            Some(q) => q,
            None => {
                return RedirectDecision::NoQuery;
            },
        };
        proof {
            reveal_strlit("{searchTerms}");
        }
        let authorized = self.is_authorized(credential);
        let (bang, terms) = extract_bang(q);
        match bang {
            Some(b) => match self.lookup(b.as_str(), authorized) {
                Some(def) => {
                    let enc = percent_encode(terms.as_str());
                    let url = replace_all(def.url.as_str(), "{searchTerms}", enc.as_str());
                    RedirectDecision::Matched { url, bang: b, definition: def.clone() }
                },
                None => {
                    let enc = percent_encode(q);
                    let url = replace_all(
                        "https://www.google.com/search?q={searchTerms}",
                        "{searchTerms}",
                        enc.as_str(),
                    );
                    RedirectDecision::DefaultSearch { url }
                },
            },
            None => {
                let enc = percent_encode(q);
                let url = replace_all(
                    "https://www.google.com/search?q={searchTerms}",
                    "{searchTerms}",
                    enc.as_str(),
                );
                RedirectDecision::DefaultSearch { url }
            },
        }
    }
}

} // verus!
