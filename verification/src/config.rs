//! The registry of configured bangs: a public tier, a private tier, and the
//! shared secret that guards the private tier.

use vstd::prelude::*;
use vstd::string::*;

verus! {

/// One configured search destination.
pub struct BangDetails {
    /// URL template; the substring `{searchTerms}` marks where the encoded
    /// search terms go.
    pub url: String,
    /// Display name; may be empty.
    pub name: String,
    /// Icon reference; may be empty.
    pub icon: String,
}

/// The mathematical value of a `BangDetails`.
pub struct BangDetailsView {
    pub url: Seq<char>,
    pub name: Seq<char>,
    pub icon: Seq<char>,
}

impl View for BangDetails {
    type V = BangDetailsView;

    open spec fn view(&self) -> BangDetailsView {
        BangDetailsView { url: self.url@, name: self.name@, icon: self.icon@ }
    }
}

impl Clone for BangDetails {
    /// The clone reads back equal, field for field.
    fn clone(&self) -> (r: Self)
        ensures
            r@ == self@,
    {
        BangDetails { url: self.url.clone(), name: self.name.clone(), icon: self.icon.clone() }
    }
}

/// Whether some entry of the table carries the key `k`.
pub open spec fn table_has(s: Seq<(String, BangDetails)>, k: Seq<char>) -> bool {
    exists|i: int| 0 <= i < s.len() && s[i].0@ == k
}

/// The index of the first entry carrying the key `k`; meaningful only when
/// `table_has` holds.
pub open spec fn key_index(s: Seq<(String, BangDetails)>, k: Seq<char>) -> int
    decreases s.len(),
{
    if s.len() == 0 {
        0
    } else if s[0].0@ == k {
        0
    } else {
        1 + key_index(s.drop_first(), k)
    }
}

/// The definition stored under the key `k`.
pub open spec fn table_get(s: Seq<(String, BangDetails)>, k: Seq<char>) -> BangDetailsView {
    s[key_index(s, k)].1@
}

/// Where the table has `k`, `key_index` points at its first occurrence.
proof fn lemma_key_index_first(s: Seq<(String, BangDetails)>, k: Seq<char>)
    requires
        table_has(s, k),
    ensures
        0 <= key_index(s, k) < s.len(),
        s[key_index(s, k)].0@ == k,
        forall|j: int| 0 <= j < key_index(s, k) ==> (#[trigger] s[j]).0@ != k,
    decreases s.len(),
{
    if s.len() > 0 && s[0].0@ == k {
    } else {
        let d = s.drop_first();
        assert(table_has(d, k)) by {
            let w = choose|i: int| 0 <= i < s.len() && s[i].0@ == k;
            assert(w > 0);
            assert(d[w - 1].0@ == k);
        }
        lemma_key_index_first(d, k);
        let ki = key_index(s, k);
        assert(s[ki].0@ == d[ki - 1].0@);
        assert forall|j: int| 0 <= j < ki implies (#[trigger] s[j]).0@ != k by {
            if j > 0 {
                assert(d[j - 1].0@ != k);
                assert(s[j].0@ == d[j - 1].0@);
            }
        }
    }
}

/// A mapping from bang token to target definition, with unique keys.
#[derive(Clone)]
pub struct BangTable {
    entries: Vec<(String, BangDetails)>,
}

impl View for BangTable {
    type V = Seq<(String, BangDetails)>;

    closed spec fn view(&self) -> Seq<(String, BangDetails)> {
        self.entries@
    }
}

impl BangTable {
    /// Keys are pairwise distinct; constructors establish it and `insert`
    /// preserves it.
    pub open spec fn wf(&self) -> bool {
        forall|i: int, j: int|
            0 <= i < j < self@.len() ==> (#[trigger] self@[i]).0@ != (#[trigger] self@[j]).0@
    }

    /// An empty table.
    pub fn new() -> (r: Self)
        ensures
            r@ == Seq::<(String, BangDetails)>::empty(),
            r.wf(),
    {
        BangTable { entries: Vec::new() }
    }

    /// The number of entries.
    pub fn len(&self) -> (r: usize)
        ensures
            r == self@.len(),
    {
        self.entries.len()
    }

    /// The entry at a position, for walking the table.
    pub fn entry_at(&self, i: usize) -> (r: &(String, BangDetails))
        requires
            i < self@.len(),
        ensures
            *r == self@[i as int],
    {
        &self.entries[i]
    }

    /// Stores `details` under `token`: the first entry with that key is
    /// replaced, otherwise the entry is appended. Unique keys stay unique.
    #[verifier::loop_isolation(false)]
    pub fn insert(&mut self, token: String, details: BangDetails)
        ensures
            old(self).wf() ==> final(self).wf(),
            table_has(old(self)@, token@) ==> final(self)@ == old(self)@.update(
                key_index(old(self)@, token@),
                (token, details),
            ),
            !table_has(old(self)@, token@) ==> final(self)@ == old(self)@.push((token, details)),
    {
        let ghost prior = self@;
        let n = self.entries.len();
        let mut i: usize = 0;
        while i < n
            invariant
                0 <= i <= n,
                n == prior.len(),
                self@ == prior,
                forall|k: int| 0 <= k < i ==> (#[trigger] prior[k]).0@ != token@,
            decreases n - i,
        {
            if str_eq(self.entries[i].0.as_str(), token.as_str()) {
                proof {
                    assert(table_has(prior, token@)) by {
                        assert(prior[i as int].0@ == token@);
                    }
                    lemma_key_index_first(prior, token@);
                    let idx = key_index(prior, token@);
                    assert(idx == i) by {
                        if idx < i {
                            assert(prior[idx].0@ != token@);
                        }
                        if i < idx {
                            assert(prior[i as int].0@ != token@);
                        }
                    }
                }
                self.entries.remove(i);
                self.entries.insert(i, (token, details));
                proof {
                    assert(self@ =~= prior.update(i as int, (token, details)));
                }
                return ;
            }
            i += 1;
        }
        proof {
            assert(!table_has(prior, token@)) by {
                if table_has(prior, token@) {
                    let w = choose|k: int| 0 <= k < prior.len() && prior[k].0@ == token@;
                    assert(prior[w].0@ != token@);
                }
            }
        }
        self.entries.push((token, details));
    }

    /// Looks the key up; the found reference is the stored definition.
    pub fn get(&self, token: &str) -> (r: Option<&BangDetails>)
        ensures
            match r {
                Some(d) => table_has(self@, token@) && d@ == table_get(self@, token@),
                None => !table_has(self@, token@),
            },
    {
        let n = self.entries.len();
        let mut i: usize = 0;
        while i < n
            invariant
                0 <= i <= n,
                n == self@.len(),
                forall|k: int| 0 <= k < i ==> (#[trigger] self@[k]).0@ != token@,
            decreases n - i,
        {
            if str_eq(self.entries[i].0.as_str(), token) {
                proof {
                    assert(table_has(self@, token@)) by {
                        assert(self@[i as int].0@ == token@);
                    }
                    lemma_key_index_first(self@, token@);
                    let idx = key_index(self@, token@);
                    assert(idx == i) by {
                        if idx < i {
                            assert(self@[idx].0@ != token@);
                        }
                        if i < idx {
                            assert(self@[i as int].0@ != token@);
                        }
                    }
                }
                return Some(&self.entries[i].1);
            }
            i += 1;
        }
        proof {
            if table_has(self@, token@) {
                let w = choose|k: int| 0 <= k < self@.len() && self@[k].0@ == token@;
                assert(self@[w].0@ != token@);
            }
        }
        None
    }

    /// Whether the key is present.
    pub fn contains_key(&self, token: &str) -> (r: bool)
        ensures
            r == table_has(self@, token@),
    {
        match self.get(token) {
            Some(_) => true,
            None => false,
        }
    }
}

/// Whether a presented credential opens the private tier: the shared secret
/// is non-empty, a credential is present, and the two are equal.
pub open spec fn authorized_spec(secret: Seq<char>, cred: Option<Seq<char>>) -> bool {
    match cred {
        Some(c) => secret.len() > 0 && c == secret,
        None => false,
    }
}

/// The view of an optional borrowed credential, for stating contracts.
pub open spec fn opt_cred_view(o: Option<&String>) -> Option<Seq<char>> {
    match o {
        Some(s) => Some(s@),
        None => None,
    }
}

/// What a two-tier lookup returns: the public definition when the public tier
/// has the token; else, only under authorization, the private definition.
pub open spec fn lookup_spec(
    pub_t: Seq<(String, BangDetails)>,
    priv_t: Seq<(String, BangDetails)>,
    token: Seq<char>,
    authorized: bool,
) -> Option<BangDetailsView> {
    if table_has(pub_t, token) {
        Some(table_get(pub_t, token))
    } else if authorized && table_has(priv_t, token) {
        Some(table_get(priv_t, token))
    } else {
        None
    }
}

/// The loaded configuration: a public tier, a private tier, and the shared
/// secret (empty means the private tier is permanently inaccessible).
#[derive(Clone)]
pub struct Config {
    pub bangs: BangTable,
    pub private_bangs: BangTable,
    pub auth_token: String,
}

impl Config {
    /// Both tiers have unique keys.
    pub open spec fn wf(&self) -> bool {
        self.bangs.wf() && self.private_bangs.wf()
    }

    /// Whether the presented credential equals the non-empty shared secret.
    pub fn is_authorized(&self, credential: Option<&String>) -> (r: bool)
        ensures
            r == authorized_spec(self.auth_token@, opt_cred_view(credential)),
    {
        match credential {
            Some(c) => !self.auth_token.as_str().is_empty() && str_eq(
                c.as_str(),
                self.auth_token.as_str(),
            ),
            None => false,
        }
    }

    /// Two-tier lookup: the public tier always answers first; the private
    /// tier answers only under authorization.
    pub fn lookup(&self, token: &str, authorized: bool) -> (r: Option<&BangDetails>)
        ensures
            match r {
                Some(d) => lookup_spec(self.bangs@, self.private_bangs@, token@, authorized)
                    == Some(d@),
                None => lookup_spec(self.bangs@, self.private_bangs@, token@, authorized) is None,
            },
    {
        match self.bangs.get(token) {
            Some(d) => Some(d),
            None => if authorized {
                self.private_bangs.get(token)
            } else {
                None
            },
        }
    }
}

/// Law: without authorization, a token defined only in the private tier is
/// never found.
pub proof fn lemma_lookup_unauthorized_private(
    pub_t: Seq<(String, BangDetails)>,
    priv_t: Seq<(String, BangDetails)>,
    token: Seq<char>,
)
    requires
        table_has(priv_t, token),
        !table_has(pub_t, token),
    ensures
        lookup_spec(pub_t, priv_t, token, false) is None,
{
}

/// Law: a token defined in the public tier resolves to the public definition,
/// with or without authorization, whatever the private tier holds.
pub proof fn lemma_lookup_public_precedence(
    pub_t: Seq<(String, BangDetails)>,
    priv_t: Seq<(String, BangDetails)>,
    token: Seq<char>,
    authorized: bool,
)
    requires
        table_has(pub_t, token),
    ensures
        lookup_spec(pub_t, priv_t, token, authorized) == Some(table_get(pub_t, token)),
{
}

/// Character-for-character string equality.
pub fn str_eq(a: &str, b: &str) -> (r: bool)
    ensures
        r == (a@ == b@),
{
    let na = a.unicode_len();
    let nb = b.unicode_len();
    if na != nb {
        return false;
    }
    let mut i: usize = 0;
    while i < na
        invariant
            0 <= i <= na,
            na == a@.len(),
            na == b@.len(),
            forall|k: int| 0 <= k < i ==> a@[k] == b@[k],
        decreases na - i,
    {
        if a.get_char(i) != b.get_char(i) {
            return false;
        }
        i += 1;
    }
    proof {
        assert(a@ =~= b@);
    }
    true
}

proof fn lemma_table_not_has(s: Seq<(String, BangDetails)>, k: Seq<char>)
    requires
        forall|i: int| 0 <= i < s.len() ==> (#[trigger] s[i]).0@ != k,
    ensures
        !table_has(s, k),
{
    if table_has(s, k) {
        let w = choose|i: int| 0 <= i < s.len() && s[i].0@ == k;
        assert(s[w].0@ != k);
    }
}

/// The built-in registry used when no configuration can be read: six public
/// bangs, no private tier, and an empty shared secret.
pub fn default_config() -> (r: Config)
    ensures
        r.wf(),
        r.auth_token@ == Seq::<char>::empty(),
        r.private_bangs@.len() == 0,
        r.bangs@.len() == 6,
        r.bangs@[0].0@ == "!g"@,
        r.bangs@[0].1@.url == "https://www.google.com/search?q={searchTerms}"@,
        r.bangs@[0].1@.name == "Google"@,
        r.bangs@[0].1@.icon == "google"@,
        r.bangs@[1].0@ == "!ddg"@,
        r.bangs@[1].1@.url == "https://duckduckgo.com/?q={searchTerms}"@,
        r.bangs@[1].1@.name == "DuckDuckGo"@,
        r.bangs@[1].1@.icon == "duck"@,
        r.bangs@[2].0@ == "!yt"@,
        r.bangs@[2].1@.url == "https://www.youtube.com/results?search_query={searchTerms}"@,
        r.bangs@[2].1@.name == "YouTube"@,
        r.bangs@[2].1@.icon == "youtube"@,
        r.bangs@[3].0@ == "!gh"@,
        r.bangs@[3].1@.url == "https://github.com/search?q={searchTerms}"@,
        r.bangs@[3].1@.name == "GitHub"@,
        r.bangs@[3].1@.icon == "github"@,
        r.bangs@[4].0@ == "!w"@,
        r.bangs@[4].1@.url == "https://en.wikipedia.org/wiki/Special:Search?search={searchTerms}"@,
        r.bangs@[4].1@.name == "Wikipedia"@,
        r.bangs@[4].1@.icon == "wikipedia"@,
        r.bangs@[5].0@ == "!maps"@,
        r.bangs@[5].1@.url == "https://www.google.com/maps?q={searchTerms}&source=web"@,
        r.bangs@[5].1@.name == "Google Maps"@,
        r.bangs@[5].1@.icon == "map"@,
{
    proof {
        reveal_strlit("!g");
        reveal_strlit("!ddg");
        reveal_strlit("!yt");
        reveal_strlit("!gh");
        reveal_strlit("!w");
        reveal_strlit("!maps");
    }
    let mut bangs = BangTable::new();
    proof {
        reveal_strlit("!g");
        assert(bangs@.len() == 0);
        assert forall|i: int| 0 <= i < bangs@.len() implies (#[trigger] bangs@[i]).0@ != "!g"@ by {
        }
        lemma_table_not_has(bangs@, "!g"@);
    }
    bangs.insert(
        String::from_str("!g"),
        BangDetails {
            url: String::from_str("https://www.google.com/search?q={searchTerms}"),
            name: String::from_str("Google"),
            icon: String::from_str("google"),
        },
    );
    proof {
        reveal_strlit("!g");
        reveal_strlit("!ddg");
        assert(bangs@.len() == 1);
        assert(bangs@[0].0@ == "!g"@);
        assert forall|i: int| 0 <= i < bangs@.len() implies (#[trigger] bangs@[i]).0@ != "!ddg"@ by {
            if i == 0 {
                assert(bangs@[i].0@ == "!g"@);
            }
        }
        lemma_table_not_has(bangs@, "!ddg"@);
    }
    bangs.insert(
        String::from_str("!ddg"),
        BangDetails {
            url: String::from_str("https://duckduckgo.com/?q={searchTerms}"),
            name: String::from_str("DuckDuckGo"),
            icon: String::from_str("duck"),
        },
    );
    proof {
        reveal_strlit("!g");
        reveal_strlit("!ddg");
        reveal_strlit("!yt");
        assert(bangs@.len() == 2);
        assert(bangs@[0].0@ == "!g"@);
        assert(bangs@[1].0@ == "!ddg"@);
        assert forall|i: int| 0 <= i < bangs@.len() implies (#[trigger] bangs@[i]).0@ != "!yt"@ by {
            if i == 0 {
                assert(bangs@[i].0@ == "!g"@);
            }
            if i == 1 {
                assert(bangs@[i].0@ == "!ddg"@);
            }
        }
        lemma_table_not_has(bangs@, "!yt"@);
    }
    bangs.insert(
        String::from_str("!yt"),
        BangDetails {
            url: String::from_str("https://www.youtube.com/results?search_query={searchTerms}"),
            name: String::from_str("YouTube"),
            icon: String::from_str("youtube"),
        },
    );
    proof {
        reveal_strlit("!g");
        reveal_strlit("!ddg");
        reveal_strlit("!yt");
        reveal_strlit("!gh");
        assert(bangs@.len() == 3);
        assert(bangs@[0].0@ == "!g"@);
        assert(bangs@[1].0@ == "!ddg"@);
        assert(bangs@[2].0@ == "!yt"@);
        assert forall|i: int| 0 <= i < bangs@.len() implies (#[trigger] bangs@[i]).0@ != "!gh"@ by {
            if i == 0 {
                assert(bangs@[i].0@ == "!g"@);
            }
            if i == 1 {
                assert(bangs@[i].0@ == "!ddg"@);
            }
            if i == 2 {
                assert(bangs@[i].0@ == "!yt"@);
                assert("!yt"@[1] != "!gh"@[1]);
            }
        }
        lemma_table_not_has(bangs@, "!gh"@);
    }
    bangs.insert(
        String::from_str("!gh"),
        BangDetails {
            url: String::from_str("https://github.com/search?q={searchTerms}"),
            name: String::from_str("GitHub"),
            icon: String::from_str("github"),
        },
    );
    proof {
        reveal_strlit("!g");
        reveal_strlit("!ddg");
        reveal_strlit("!yt");
        reveal_strlit("!gh");
        reveal_strlit("!w");
        assert(bangs@.len() == 4);
        assert(bangs@[0].0@ == "!g"@);
        assert(bangs@[1].0@ == "!ddg"@);
        assert(bangs@[2].0@ == "!yt"@);
        assert(bangs@[3].0@ == "!gh"@);
        assert forall|i: int| 0 <= i < bangs@.len() implies (#[trigger] bangs@[i]).0@ != "!w"@ by {
            if i == 0 {
                assert(bangs@[i].0@ == "!g"@);
                assert("!g"@[1] != "!w"@[1]);
            }
            if i == 1 {
                assert(bangs@[i].0@ == "!ddg"@);
            }
            if i == 2 {
                assert(bangs@[i].0@ == "!yt"@);
            }
            if i == 3 {
                assert(bangs@[i].0@ == "!gh"@);
            }
        }
        lemma_table_not_has(bangs@, "!w"@);
    }
    bangs.insert(
        String::from_str("!w"),
        BangDetails {
            url: String::from_str("https://en.wikipedia.org/wiki/Special:Search?search={searchTerms}"),
            name: String::from_str("Wikipedia"),
            icon: String::from_str("wikipedia"),
        },
    );
    proof {
        reveal_strlit("!g");
        reveal_strlit("!ddg");
        reveal_strlit("!yt");
        reveal_strlit("!gh");
        reveal_strlit("!w");
        reveal_strlit("!maps");
        assert(bangs@.len() == 5);
        assert(bangs@[0].0@ == "!g"@);
        assert(bangs@[1].0@ == "!ddg"@);
        assert(bangs@[2].0@ == "!yt"@);
        assert(bangs@[3].0@ == "!gh"@);
        assert(bangs@[4].0@ == "!w"@);
        assert forall|i: int| 0 <= i < bangs@.len() implies (#[trigger] bangs@[i]).0@ != "!maps"@ by {
            if i == 0 {
                assert(bangs@[i].0@ == "!g"@);
            }
            if i == 1 {
                assert(bangs@[i].0@ == "!ddg"@);
            }
            if i == 2 {
                assert(bangs@[i].0@ == "!yt"@);
            }
            if i == 3 {
                assert(bangs@[i].0@ == "!gh"@);
            }
            if i == 4 {
                assert(bangs@[i].0@ == "!w"@);
            }
        }
        lemma_table_not_has(bangs@, "!maps"@);
    }
    bangs.insert(
        String::from_str("!maps"),
        BangDetails {
            url: String::from_str("https://www.google.com/maps?q={searchTerms}&source=web"),
            name: String::from_str("Google Maps"),
            icon: String::from_str("map"),
        },
    );
    Config { bangs, private_bangs: BangTable::new(), auth_token: String::new() }
}

} // verus!

