//! The portfolio data model: positions, the price snapshot, and the
//! persisted configuration.

use vstd::prelude::*;
use crate::decimal::Dec;

verus! {

/// A character allowed in a currency ticker: an uppercase ASCII letter or
/// a digit.
pub open spec fn ticker_char(c: char) -> bool {
    (65 <= c as u32 && c as u32 <= 90) || (48 <= c as u32 && c as u32 <= 57)
}

/// A valid ticker: non-empty, uppercase letters and digits only.
pub open spec fn ticker_wf(s: Seq<char>) -> bool {
    &&& s.len() >= 1
    &&& forall|i: int| 0 <= i < s.len() ==> ticker_char(#[trigger] s[i])
}

/// A character allowed in an opaque text field such as a credential:
/// printable ASCII except the two JSON string metacharacters.
pub open spec fn text_char(c: char) -> bool {
    &&& 32 <= c as u32 <= 126
    &&& c != '"'
    &&& c != '\\'
}

/// A valid opaque text field.
pub open spec fn text_wf(s: Seq<char>) -> bool {
    forall|i: int| 0 <= i < s.len() ==> text_char(#[trigger] s[i])
}

/// One held currency amount.
pub struct Position {
    /// Ticker of the held currency, uppercase.
    pub currency: String,
    /// Quantity held; zero marks a watch-only position.
    pub holding: Dec,
}

impl Position {
    /// Well-formed: valid ticker, non-negative decimal holding.
    pub open spec fn wf(self) -> bool {
        &&& ticker_wf(self.currency@)
        &&& self.holding.wf()
        &&& self.holding.v() >= 0
    }
}

/// The ordered list of positions owned by the user.
pub struct Portfolio {
    pub positions: Vec<Position>,
}

impl Portfolio {
    pub open spec fn wf(self) -> bool {
        forall|i: int| 0 <= i < self.positions@.len() ==> (#[trigger] self.positions@[i]).wf()
    }
}

/// One ticker-to-price binding of a snapshot.
pub struct PriceEntry {
    pub currency: String,
    pub price: Dec,
}

/// The map of a sequence of bindings, later entries winning.
pub open spec fn entries_map(s: Seq<PriceEntry>) -> Map<Seq<char>, Dec>
    decreases s.len(),
{
    if s.len() == 0 {
        Map::empty()
    } else {
        entries_map(s.drop_last()).insert(s.last().currency@, s.last().price)
    }
}

/// A currency-to-USD-price mapping with unique keys and a stable order.
pub struct PriceMap {
    pub entries: Vec<PriceEntry>,
}

impl PriceMap {
    /// The mapping denoted.
    pub open spec fn as_map(self) -> Map<Seq<char>, Dec> {
        entries_map(self.entries@)
    }

    /// Well-formed: valid tickers, well-formed non-negative prices, and no
    /// ticker bound twice.
    pub open spec fn wf(self) -> bool {
        &&& forall|i: int|
            0 <= i < self.entries@.len() ==> {
                &&& ticker_wf((#[trigger] self.entries@[i]).currency@)
                &&& self.entries@[i].price.wf()
                &&& self.entries@[i].price.v() >= 0
            }
        &&& forall|i: int, j: int|
            0 <= i < j < self.entries@.len() ==> (#[trigger] self.entries@[i]).currency@ != (
            #[trigger] self.entries@[j]).currency@
    }

    /// The empty price map.
    pub fn new() -> (r: PriceMap)
        ensures
            r.wf(),
            r.as_map() == Map::<Seq<char>, Dec>::empty(),
            r.entries@.len() == 0,
    {
        PriceMap { entries: Vec::new() }
    }

    /// Look a ticker up.
    pub fn get(&self, currency: &String) -> (r: Option<Dec>)
        requires
            self.wf(),
        ensures
            r == if self.as_map().contains_key(currency@) {
                Some(self.as_map()[currency@])
            } else {
                None::<Dec>
            },
            r matches Some(d) ==> d.wf() && d.v() >= 0,
    {
        let n = self.entries.len();
        let mut i: usize = 0;
        while i < n
            invariant
                n == self.entries@.len(),
                0 <= i <= n,
                self.wf(),
                forall|k: int| 0 <= k < i ==> (#[trigger] self.entries@[k]).currency@ != currency@,
            decreases n - i,
        {
            if self.entries[i].currency.eq(currency) {
                proof {
                    lemma_entries_map_get(self.entries@, i as int);
                }
                return Some(self.entries[i].price);
            }
            i = i + 1;
        }
        proof {
            lemma_entries_map_absent(self.entries@, currency@);
        }
        None
    }

    /// Bind a ticker to a price, replacing any earlier binding.
    pub fn insert(&mut self, currency: String, price: Dec)
        requires
            old(self).wf(),
            ticker_wf(currency@),
            price.wf(),
            price.v() >= 0,
        ensures
            final(self).wf(),
            final(self).as_map() == old(self).as_map().insert(currency@, price),
    {
        let n = self.entries.len();
        let mut i: usize = 0;
        while i < n
            invariant
                n == self.entries@.len(),
                0 <= i <= n,
                self.wf(),
                self == old(self),
                ticker_wf(currency@),
                price.wf(),
                price.v() >= 0,
                forall|k: int| 0 <= k < i ==> (#[trigger] self.entries@[k]).currency@ != currency@,
            decreases n - i,
        {
            if self.entries[i].currency.eq(&currency) {
                proof {
                    lemma_entries_map_set(self.entries@, i as int, price);
                }
                let ghost before = self.entries@;
                let ghost cv = currency@;
                let entry = PriceEntry { currency, price };
                proof {
                    assert(entry.currency@ == cv && entry.price == price);
                    assert(ticker_wf(entry.currency@));
                    assert(entry.price.wf());
                    assert(entry.price.v() >= 0);
                }
                self.entries.set(i, entry);
                proof {
                    assert forall|k: int| 0 <= k < self.entries@.len() implies ticker_wf(
                        (#[trigger] self.entries@[k]).currency@,
                    ) && self.entries@[k].price.wf() && self.entries@[k].price.v() >= 0 by {
                        if k != i {
                            assert(self.entries@[k] == before[k]);
                            assert(ticker_wf(before[k].currency@) && before[k].price.wf()
                                && before[k].price.v() >= 0);
                        } else {
                            assert(self.entries@[k] == entry);
                            assert(ticker_wf(entry.currency@) && entry.price.wf()
                                && entry.price.v() >= 0);
                        }
                    }
                    assert forall|a: int, b: int|
                        0 <= a < b < self.entries@.len() implies (
                    #[trigger] self.entries@[a]).currency@ != (#[trigger] self.entries@[b]).currency@ by {
                        if a != i {
                            assert(self.entries@[a] == before[a]);
                        }
                        if b != i {
                            assert(self.entries@[b] == before[b]);
                        }
                        assert(self.entries@[i as int].currency@ == before[i as int].currency@);
                        assert(before[a].currency@ != before[b].currency@);
                    }
                }
                return ;
            }
            i = i + 1;
        }
        proof {
            lemma_entries_map_absent(self.entries@, currency@);
            lemma_entries_map_push(self.entries@, currency@, price);
        }
        let entry = PriceEntry { currency, price };
        self.entries.push(entry);
    }

    /// The number of bindings.
    pub fn len(&self) -> (r: usize)
        ensures
            r == self.entries@.len(),
    {
        self.entries.len()
    }
}

/// Whether a fetched ticker-price pair may enter a price map.
pub open spec fn valid_pair(p: (String, Dec)) -> bool {
    &&& ticker_wf(p.0@)
    &&& p.1.wf()
    &&& p.1.v() >= 0
}

/// The mapping denoted by the valid pairs of a sequence, later pairs
/// winning; invalid pairs are passed over.
pub open spec fn valid_pairs_map(s: Seq<(String, Dec)>) -> Map<Seq<char>, Dec>
    decreases s.len(),
{
    if s.len() == 0 {
        Map::empty()
    } else if valid_pair(s.last()) {
        valid_pairs_map(s.drop_last()).insert(s.last().0@, s.last().1)
    } else {
        valid_pairs_map(s.drop_last())
    }
}

/// Build a price map from fetched ticker-price pairs, in order, later
/// pairs overriding earlier ones as a map collection would. A pair with
/// a malformed ticker or an unrepresentable or negative price is passed
/// over harmlessly: it could never match a portfolio ticker.
pub fn price_map_from_pairs(pairs: Vec<(String, Dec)>) -> (r: PriceMap)
    ensures
        r.wf(),
        r.as_map() == valid_pairs_map(pairs@),
{
    let mut map = PriceMap::new();
    let n = pairs.len();
    let mut i: usize = 0;
    while i < n
        invariant
            n == pairs@.len(),
            map.wf(),
            0 <= i <= n,
            map.as_map() == valid_pairs_map(pairs@.take(i as int)),
        decreases n - i,
    {
        let currency = pairs[i].0.clone();
        let price = pairs[i].1;
        let zero = Dec::zero();
        proof {
            assert(pairs@.take(i + 1).drop_last() =~= pairs@.take(i as int));
            assert(pairs@.take(i + 1).last() == pairs@[i as int]);
        }
        if crate::codec::check_ticker(&currency) && price.is_wf() && !price.lt(zero) {
            proof {
                assert(valid_pair(pairs@[i as int]));
            }
            map.insert(currency, price);
        } else {
            proof {
                assert(!valid_pair(pairs@[i as int]));
            }
        }
        i = i + 1;
    }
    proof {
        assert(pairs@.take(n as int) =~= pairs@);
    }
    map
}

/// A key bound at position `i` of a duplicate-free binding list is in the
/// map, with that binding's price.
proof fn lemma_entries_map_get(s: Seq<PriceEntry>, i: int)
    requires
        0 <= i < s.len(),
        forall|a: int, b: int|
            0 <= a < b < s.len() ==> (#[trigger] s[a]).currency@ != (#[trigger] s[b]).currency@,
    ensures
        entries_map(s).contains_key(s[i].currency@),
        entries_map(s)[s[i].currency@] == s[i].price,
    decreases s.len(),
{
    if i == s.len() - 1 {
    } else {
        lemma_entries_map_get(s.drop_last(), i);
        assert(s.drop_last()[i] == s[i]);
    }
}

/// A key not bound anywhere in the list is not in the map.
proof fn lemma_entries_map_absent(s: Seq<PriceEntry>, k: Seq<char>)
    requires
        forall|i: int| 0 <= i < s.len() ==> (#[trigger] s[i]).currency@ != k,
    ensures
        !entries_map(s).contains_key(k),
    decreases s.len(),
{
    if s.len() > 0 {
        lemma_entries_map_absent(s.drop_last(), k);
    }
}

/// Overwriting the one binding of a key updates the map at that key only.
proof fn lemma_entries_map_set(s: Seq<PriceEntry>, i: int, p: Dec)
    requires
        0 <= i < s.len(),
        forall|a: int, b: int|
            0 <= a < b < s.len() ==> (#[trigger] s[a]).currency@ != (#[trigger] s[b]).currency@,
    ensures
        forall|e: PriceEntry|
            e.currency@ == s[i].currency@ && e.price == p ==> entries_map(s.update(i, e))
                == entries_map(s).insert(s[i].currency@, p),
    decreases s.len(),
{
    assert forall|e: PriceEntry|
        e.currency@ == s[i].currency@ && e.price == p implies entries_map(s.update(i, e))
        == entries_map(s).insert(s[i].currency@, p) by {
        if i == s.len() - 1 {
            assert(s.update(i, e).drop_last() =~= s.drop_last());
            assert(entries_map(s.update(i, e)) =~= entries_map(s).insert(s[i].currency@, p));
        } else {
            lemma_entries_map_set(s.drop_last(), i, p);
            assert(s.update(i, e).drop_last() =~= s.drop_last().update(i, e));
            assert(s.drop_last()[i] == s[i]);
            assert(s.update(i, e).last() == s.last());
            assert(entries_map(s.update(i, e)) =~= entries_map(s).insert(s[i].currency@, p));
        }
    }
}

/// Appending a binding for a fresh key inserts it into the map.
proof fn lemma_entries_map_push(s: Seq<PriceEntry>, k: Seq<char>, p: Dec)
    ensures
        forall|e: PriceEntry|
            e.currency@ == k && e.price == p ==> entries_map(s.push(e)) == entries_map(s).insert(
                k,
                p,
            ),
{
    assert forall|e: PriceEntry| e.currency@ == k && e.price == p implies entries_map(s.push(e))
        == entries_map(s).insert(k, p) by {
        assert(s.push(e).drop_last() =~= s);
        assert(s.push(e).last() == e);
    }
}

/// The persisted state: credentials, the authored portfolio, and the
/// price snapshot from the last run.
pub struct Configuration {
    /// Ticker-service credential (opaque).
    pub app_id: String,
    /// Foreign-exchange-service credential (opaque, may be empty).
    pub fx_app_id: String,
    /// Instant the snapshot was taken, in Unix seconds.
    pub timestamp: u64,
    /// The held positions.
    pub portfolio: Portfolio,
    /// Ticker-to-USD-price snapshot.
    pub prices: PriceMap,
}

impl Configuration {
    pub open spec fn wf(self) -> bool {
        &&& text_wf(self.app_id@)
        &&& text_wf(self.fx_app_id@)
        &&& self.portfolio.wf()
        &&& self.prices.wf()
    }
}

} // verus!
