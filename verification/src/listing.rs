//! The listing of available bangs: all public entries plus, under
//! authorization, all private entries, sorted by token.

use vstd::prelude::*;
use vstd::string::*;
use vstd::relations::sorted_by;
use crate::config::{authorized_spec, opt_cred_view, BangDetails, Config};
use crate::order::{
    lemma_lex_le_antisymmetric, lemma_lex_le_refl, lemma_lex_le_total, lemma_lex_le_trans, lex_le,
    str_le,
};

verus! {

broadcast use vstd::seq_lib::group_to_multiset_ensures;

/// One row of the listing: a token and its target definition.
pub struct BangListing {
    pub key: String,
    pub name: String,
    pub icon: String,
    pub url: String,
}

/// The mathematical value of a `BangListing`.
pub struct ListingView {
    pub key: Seq<char>,
    pub name: Seq<char>,
    pub icon: Seq<char>,
    pub url: Seq<char>,
}

impl View for BangListing {
    type V = ListingView;

    open spec fn view(&self) -> ListingView {
        ListingView { key: self.key@, name: self.name@, icon: self.icon@, url: self.url@ }
    }
}

/// The order of the listing: rows sorted by token.
pub open spec fn listing_order() -> spec_fn(ListingView, ListingView) -> bool {
    |a: ListingView, b: ListingView| lex_le(a.key, b.key)
}

/// The values of a sequence of rows.
pub open spec fn views_of(s: Seq<BangListing>) -> Seq<ListingView> {
    s.map_values(|l: BangListing| l@)
}

/// The row a registry entry contributes to the listing.
pub open spec fn listing_of_entry(e: (String, BangDetails)) -> ListingView {
    ListingView { key: e.0@, name: e.1.name@, icon: e.1.icon@, url: e.1.url@ }
}

/// The rows a sequence of registry entries contributes.
pub open spec fn listings_of(s: Seq<(String, BangDetails)>) -> Seq<ListingView> {
    s.map_values(|e: (String, BangDetails)| listing_of_entry(e))
}

/// The entries a caller may see: the public tier, and the private tier only
/// under authorization.
pub open spec fn available_entries(c: Config, cred: Option<Seq<char>>) -> Seq<
    (String, BangDetails),
> {
    if authorized_spec(c.auth_token@, cred) {
        c.bangs@ + c.private_bangs@
    } else {
        c.bangs@
    }
}

/// Sorts rows by token, keeping exactly the given rows.
fn sort_listings(v: Vec<BangListing>) -> (r: Vec<BangListing>)
    ensures
        views_of(r@).to_multiset() == views_of(v@).to_multiset(),
        sorted_by(views_of(r@), listing_order()),
{
    let ghost orig = v@;
    let mut rem = v;
    let mut out: Vec<BangListing> = Vec::new();
    proof {
        assert(views_of(out@) =~= Seq::<ListingView>::empty());
        assert(views_of(out@).to_multiset().add(views_of(rem@).to_multiset()) =~= views_of(
            orig,
        ).to_multiset());
    }
    while rem.len() > 0
        invariant
            views_of(out@).to_multiset().add(views_of(rem@).to_multiset()) == views_of(
                orig,
            ).to_multiset(),
            sorted_by(views_of(out@), listing_order()),
            forall|x: int, y: int|
                0 <= x < out@.len() && 0 <= y < rem@.len() ==> lex_le(
                    (#[trigger] out@[x])@.key,
                    (#[trigger] rem@[y])@.key,
                ),
        decreases rem.len(),
    {
        let n = rem.len();
        let mut mi: usize = 0;
        let mut k: usize = 1;
        proof {
            lemma_lex_le_refl(rem@[0]@.key);
        }
        while k < n
            invariant
                0 <= mi < k <= n,
                n == rem@.len(),
                forall|t: int| 0 <= t < k ==> lex_le(rem@[mi as int]@.key, (#[trigger] rem@[t])@.key),
            decreases n - k,
        {
            if str_le(rem[k].key.as_str(), rem[mi].key.as_str()) {
                proof {
                    assert forall|t: int| 0 <= t < k implies lex_le(
                        rem@[k as int]@.key,
                        (#[trigger] rem@[t])@.key,
                    ) by {
                        lemma_lex_le_trans(rem@[k as int]@.key, rem@[mi as int]@.key, rem@[t]@.key);
                    }
                    lemma_lex_le_refl(rem@[k as int]@.key);
                }
                mi = k;
            } else {
                proof {
                    lemma_lex_le_total(rem@[k as int]@.key, rem@[mi as int]@.key);
                }
            }
            k += 1;
        }
        let ghost before = rem@;
        let ghost outb = out@;
        let ghost xv = before[mi as int]@;
        let x = rem.remove(mi);
        out.push(x);
        proof {
            assert(views_of(before.remove(mi as int)) =~= views_of(before).remove(mi as int));
            assert(views_of(before).remove(mi as int).to_multiset() =~= views_of(
                before,
            ).to_multiset().remove(views_of(before)[mi as int]));
            assert(views_of(before)[mi as int] == xv);
            assert(views_of(outb.push(x)) =~= views_of(outb).push(xv));
            assert(views_of(outb).push(xv).to_multiset() =~= views_of(outb).to_multiset().insert(
                xv,
            ));
            assert(views_of(before).to_multiset().count(xv) > 0) by {
                assert(views_of(before).contains(xv)) by {
                    assert(views_of(before)[mi as int] == xv);
                }
            }
            assert(views_of(out@).to_multiset().add(views_of(rem@).to_multiset()) =~= views_of(
                orig,
            ).to_multiset());
            assert(sorted_by(views_of(out@), listing_order())) by {
                assert forall|i: int, j: int|
                    0 <= i < j < views_of(out@).len() implies #[trigger] listing_order()(
                    views_of(out@)[i],
                    views_of(out@)[j],
                ) by {
                    if j < views_of(out@).len() - 1 {
                        assert(listing_order()(views_of(outb)[i], views_of(outb)[j]));
                    } else {
                        assert(lex_le(outb[i]@.key, before[mi as int]@.key));
                    }
                }
            }
            assert forall|x2: int, y2: int|
                0 <= x2 < out@.len() && 0 <= y2 < rem@.len() implies lex_le(
                (#[trigger] out@[x2])@.key,
                (#[trigger] rem@[y2])@.key,
            ) by {
                let orig_y = if y2 < mi as int {
                    y2
                } else {
                    y2 + 1
                };
                assert(rem@[y2] == before[orig_y]);
                if x2 < out@.len() - 1 {
                    assert(lex_le(outb[x2]@.key, before[orig_y]@.key));
                } else {
                    assert(lex_le(before[mi as int]@.key, before[orig_y]@.key));
                }
            }
        }
    }
    proof {
        assert(views_of(rem@) =~= Seq::<ListingView>::empty());
        assert(views_of(out@).to_multiset().add(views_of(rem@).to_multiset()) =~= views_of(
            out@,
        ).to_multiset());
    }
    out
}

impl Config {
    /// All public bangs plus, when the credential is authorized, all private
    /// bangs, as listing rows sorted by token.
    pub fn list_available(&self, credential: Option<&String>) -> (r: Vec<BangListing>)
        ensures
            views_of(r@).to_multiset() == listings_of(
                available_entries(*self, opt_cred_view(credential)),
            ).to_multiset(),
            sorted_by(views_of(r@), listing_order()),
    {
        let authorized = self.is_authorized(credential);
        let mut rows: Vec<BangListing> = Vec::new();
        proof {
            assert(views_of(rows@) =~= listings_of(self.bangs@.take(0)));
        }
        let n = self.bangs.len();
        let mut i: usize = 0;
        while i < n
            invariant
                0 <= i <= n,
                n == self.bangs@.len(),
                views_of(rows@) == listings_of(self.bangs@.take(i as int)),
            decreases n - i,
        {
            let ghost prev = rows@;
            let e = self.bangs.entry_at(i);
            let row = BangListing {
                key: e.0.clone(),
                name: e.1.name.clone(),
                icon: e.1.icon.clone(),
                url: e.1.url.clone(),
            };
            let ghost rv = row@;
            rows.push(row);
            proof {
                assert(rv == listing_of_entry(self.bangs@[i as int]));
                assert(prev.len() == i) by {
                    assert(views_of(prev).len() == prev.len());
                    assert(listings_of(self.bangs@.take(i as int)).len() == i);
                }
                assert(views_of(rows@) =~= listings_of(self.bangs@.take(i + 1))) by {
                    assert forall|t: int| 0 <= t < prev.len() + 1 implies views_of(rows@)[t]
                        == listings_of(self.bangs@.take(i + 1))[t] by {
                        if t < prev.len() {
                            assert(views_of(prev)[t] == listings_of(self.bangs@.take(i as int))[t]);
                            assert(views_of(rows@)[t] == views_of(prev)[t]);
                            assert(self.bangs@.take(i + 1)[t] == self.bangs@.take(i as int)[t]);
                        } else {
                            assert(views_of(rows@)[t] == rv);
                            assert(self.bangs@.take(i + 1)[t] == self.bangs@[i as int]);
                        }
                    }
                }
            }
            i += 1;
        }
        proof {
            assert(self.bangs@.take(n as int) =~= self.bangs@);
        }
        if authorized {
            let m = self.private_bangs.len();
            let mut j: usize = 0;
            proof {
                assert(self.bangs@ + self.private_bangs@.take(0) =~= self.bangs@);
            }
            while j < m
                invariant
                    0 <= j <= m,
                    m == self.private_bangs@.len(),
                    views_of(rows@) == listings_of(self.bangs@ + self.private_bangs@.take(j as int)),
                decreases m - j,
            {
                let ghost prev = rows@;
                let ghost combined = self.bangs@ + self.private_bangs@.take(j as int);
                let e = self.private_bangs.entry_at(j);
                let row = BangListing {
                    key: e.0.clone(),
                    name: e.1.name.clone(),
                    icon: e.1.icon.clone(),
                    url: e.1.url.clone(),
                };
                let ghost rv = row@;
                rows.push(row);
                proof {
                    assert(rv == listing_of_entry(self.private_bangs@[j as int]));
                    assert(prev.len() == combined.len()) by {
                        assert(views_of(prev).len() == prev.len());
                        assert(listings_of(combined).len() == combined.len());
                    }
                    assert(combined.len() == self.bangs@.len() + j);
                    let next = self.bangs@ + self.private_bangs@.take(j + 1);
                    assert(next =~= combined.push(self.private_bangs@[j as int]));
                    assert(views_of(rows@) =~= listings_of(next)) by {
                        assert forall|t: int| 0 <= t < prev.len() + 1 implies views_of(rows@)[t]
                            == listings_of(next)[t] by {
                            if t < prev.len() {
                                assert(views_of(prev)[t] == listings_of(combined)[t]);
                                assert(views_of(rows@)[t] == views_of(prev)[t]);
                                assert(next[t] == combined[t]);
                            } else {
                                assert(views_of(rows@)[t] == rv);
                                assert(next[t] == self.private_bangs@[j as int]);
                            }
                        }
                    }
                }
                j += 1;
            }
            proof {
                assert(self.bangs@ + self.private_bangs@.take(m as int) =~= self.bangs@
                    + self.private_bangs@);
            }
        }
        sort_listings(rows)
    }
}

/// Law: the listing is deterministic. Two row sequences that are sorted by
/// token, carry the same rows (in whatever order they were gathered), and
/// have pairwise distinct tokens, are the same sequence.
pub proof fn lemma_listing_deterministic(x: Seq<ListingView>, y: Seq<ListingView>)
    requires
        sorted_by(x, listing_order()),
        sorted_by(y, listing_order()),
        x.to_multiset() == y.to_multiset(),
        forall|i: int, j: int|
            0 <= i < j < x.len() ==> (#[trigger] x[i]).key != (#[trigger] x[j]).key,
    ensures
        x == y,
    decreases x.len(),
{
    assert(x.to_multiset().len() == x.len());
    assert(y.to_multiset().len() == y.len());
    if x.len() == 0 {
        assert(x =~= y);
    } else {
        assert(x[0] == y[0]) by {
            assert(y.contains(x[0])) by {
                assert(x.contains(x[0])) by {
                    assert(x[0] == x[0]);
                }
                assert(x.to_multiset().count(x[0]) > 0);
                assert(y.to_multiset().count(x[0]) > 0);
            }
            assert(x.contains(y[0])) by {
                assert(y.contains(y[0])) by {
                    assert(y[0] == y[0]);
                }
                assert(y.to_multiset().count(y[0]) > 0);
                assert(x.to_multiset().count(y[0]) > 0);
            }
            let iy = choose|iy: int| 0 <= iy < y.len() && y[iy] == x[0];
            let jx = choose|jx: int| 0 <= jx < x.len() && x[jx] == y[0];
            if iy == 0 {
            } else {
                assert(listing_order()(y[0], y[iy]));
                assert(lex_le(y[0].key, x[0].key));
                if jx == 0 {
                } else {
                    assert(listing_order()(x[0], x[jx]));
                    assert(lex_le(x[0].key, y[0].key));
                    lemma_lex_le_antisymmetric(x[0].key, y[0].key);
                    assert(x[jx].key == x[0].key);
                    assert(false);
                }
            }
        }
        let xd = x.drop_first();
        let yd = y.drop_first();
        assert(x.remove(0) =~= xd);
        assert(y.remove(0) =~= yd);
        assert(xd.to_multiset() =~= x.to_multiset().remove(x[0]));
        assert(yd.to_multiset() =~= y.to_multiset().remove(y[0]));
        assert(sorted_by(xd, listing_order())) by {
            assert forall|i: int, j: int|
                0 <= i < j < xd.len() implies #[trigger] listing_order()(xd[i], xd[j]) by {
                assert(listing_order()(x[i + 1], x[j + 1]));
            }
        }
        assert(sorted_by(yd, listing_order())) by {
            assert forall|i: int, j: int|
                0 <= i < j < yd.len() implies #[trigger] listing_order()(yd[i], yd[j]) by {
                assert(listing_order()(y[i + 1], y[j + 1]));
            }
        }
        assert(forall|i: int, j: int|
            0 <= i < j < xd.len() ==> (#[trigger] xd[i]).key != (#[trigger] xd[j]).key) by {
            assert forall|i: int, j: int|
                0 <= i < j < xd.len() implies (#[trigger] xd[i]).key != (#[trigger] xd[j]).key by {
                assert(x[i + 1].key != x[j + 1].key);
            }
        }
        lemma_listing_deterministic(xd, yd);
        assert(x =~= y) by {
            assert forall|k: int| 0 <= k < x.len() implies x[k] == y[k] by {
                if k > 0 {
                    assert(x[k] == xd[k - 1]);
                    assert(y[k] == yd[k - 1]);
                }
            }
        }
    }
}

} // verus!
