//! The routing layer: trading pairs and the table from pair to book.

use vstd::prelude::*;
use crate::orderbook::{book_add, empty_book, BookView, Order, OrderBook};

verus! {

/// A market identifier: a base and a quote asset symbol.
#[derive(Debug, Eq, Hash)]
pub struct TradingPair {
    pub base: String,
    pub quote: String,
}

impl TradingPair {
    /// The pair's identity: both symbols, as character sequences.
    pub open spec fn key(self) -> (Seq<char>, Seq<char>) {
        (self.base@, self.quote@)
    }

    pub fn new(base: String, quote: String) -> (p: TradingPair)
        ensures
            p.base == base,
            p.quote == quote,
    {
        TradingPair { base, quote }
    }

    /// The pair's display form, `base/quote`.
    pub fn to_string(&self) -> (r: String)
        ensures
            r@ == self.base@ + "/"@ + self.quote@,
    {
        let mut r = self.base.clone();
        r.append("/");
        r.append(self.quote.as_str());
        r
    }
}

impl PartialEq for TradingPair {
    fn eq(&self, other: &TradingPair) -> (r: bool) {
        self.base == other.base && self.quote == other.quote
    }
}

impl vstd::std_specs::cmp::PartialEqSpecImpl for TradingPair {
    open spec fn obeys_eq_spec() -> bool {
        true
    }

    open spec fn eq_spec(&self, other: &TradingPair) -> bool {
        self.key() == other.key()
    }
}

/// The routing table a sequence of registered markets stands for: a
/// map from pair identity to the abstract state of the pair's book,
/// later entries overriding earlier ones.
pub open spec fn books_of(s: Seq<(TradingPair, OrderBook)>) -> Map<
    (Seq<char>, Seq<char>),
    BookView,
>
    decreases s.len(),
{
    if s.len() == 0 {
        Map::empty()
    } else {
        books_of(s.drop_last()).insert(s.last().0.key(), s.last().1@)
    }
}

/// A pair identity is routed exactly when some entry carries it.
pub proof fn lemma_books_of_domain(s: Seq<(TradingPair, OrderBook)>, k: (Seq<char>, Seq<char>))
    ensures
        books_of(s).contains_key(k) <==> exists|i: int|
            0 <= i < s.len() && (#[trigger] s[i].0.key()) == k,
    decreases s.len(),
{
    if s.len() != 0 {
        lemma_books_of_domain(s.drop_last(), k);
        if s.last().0.key() == k {
            assert(s[s.len() - 1].0.key() == k);
        } else if books_of(s).contains_key(k) {
            let i = choose|i: int| 0 <= i < s.len() - 1 && (#[trigger] s.drop_last()[i].0.key())
                == k;
            assert(s[i].0.key() == k);
        } else if exists|i: int| 0 <= i < s.len() && (#[trigger] s[i].0.key()) == k {
            let i = choose|i: int| 0 <= i < s.len() && (#[trigger] s[i].0.key()) == k;
            assert(s.drop_last()[i].0.key() == k);
        }
    }
}

/// When no later entry carries the same pair identity, the routing
/// table maps an entry's identity to that entry's book.
pub proof fn lemma_books_of_at(s: Seq<(TradingPair, OrderBook)>, i: int)
    requires
        0 <= i < s.len(),
        forall|j: int| i < j < s.len() ==> (#[trigger] s[j].0.key()) != s[i].0.key(),
    ensures
        books_of(s).contains_key(s[i].0.key()),
        books_of(s)[s[i].0.key()] == s[i].1@,
    decreases s.len(),
{
    if i == s.len() - 1 {
    } else {
        assert(s.drop_last()[i] == s[i]);
        lemma_books_of_at(s.drop_last(), i);
        assert(s[s.len() - 1].0.key() != s[i].0.key());
    }
}

/// Registering a fresh pair appends an entry: the routing table
/// gains that binding.
pub proof fn lemma_books_of_push(s: Seq<(TradingPair, OrderBook)>, e: (TradingPair, OrderBook))
    ensures
        books_of(s.push(e)) == books_of(s).insert(e.0.key(), e.1@),
{
    assert(s.push(e).drop_last() =~= s);
    assert(s.push(e).last() == e);
}

/// Replacing the one entry that carries a pair identity overrides
/// that identity's binding and no other.
pub proof fn lemma_books_of_update(
    s: Seq<(TradingPair, OrderBook)>,
    i: int,
    e: (TradingPair, OrderBook),
)
    requires
        0 <= i < s.len(),
        e.0.key() == s[i].0.key(),
        forall|j: int, l: int|
            0 <= j < l < s.len() ==> (#[trigger] s[j].0.key()) != (#[trigger] s[l].0.key()),
    ensures
        books_of(s.update(i, e)) =~= books_of(s).insert(e.0.key(), e.1@),
    decreases s.len(),
{
    let t = s.update(i, e);
    if i == s.len() - 1 {
        assert(t.drop_last() =~= s.drop_last());
        assert(t.last() == e);
    } else {
        assert(t.drop_last() =~= s.drop_last().update(i, e));
        assert(t.last() == s.last());
        assert(s.drop_last()[i] == s[i]);
        assert(forall|j: int, l: int|
            0 <= j < l < s.drop_last().len() ==> (#[trigger] s.drop_last()[j].0.key())
                != (#[trigger] s.drop_last()[l].0.key()));
        lemma_books_of_update(s.drop_last(), i, e);
        assert(s[s.len() - 1].0.key() != s[i].0.key());
    }
}

/// The routing table: maps each registered trading pair to its own
/// independent order book and forwards limit-order placements.
pub struct MatchingEngine {
    pub markets: Vec<(TradingPair, OrderBook)>,
}

impl View for MatchingEngine {
    type V = Map<(Seq<char>, Seq<char>), BookView>;

    open spec fn view(&self) -> Map<(Seq<char>, Seq<char>), BookView> {
        books_of(self.markets@)
    }
}

/// Scans the registered markets for the entry carrying a pair
/// identity.
fn find_market(markets: &Vec<(TradingPair, OrderBook)>, pair: &TradingPair) -> (r: Option<usize>)
    ensures
        match r {
            Some(i) => i < markets@.len() && markets@[i as int].0.key() == pair.key(),
            None => forall|j: int|
                0 <= j < markets@.len() ==> (#[trigger] markets@[j].0.key()) != pair.key(),
        },
{
    let n = markets.len();
    let mut i: usize = 0;
    while i < n
        invariant
            i <= n,
            n == markets@.len(),
            forall|j: int| 0 <= j < i ==> (#[trigger] markets@[j].0.key()) != pair.key(),
        decreases n - i,
    {
        if markets[i].0 == *pair {
            return Some(i);
        }
        i = i + 1;
    }
    None
}

impl MatchingEngine {
    /// A well-formed routing table: no pair identity registered
    /// twice, every registered book well-formed.
    pub open spec fn wf(self) -> bool {
        &&& forall|j: int, l: int|
            0 <= j < l < self.markets@.len() ==> (#[trigger] self.markets@[j].0.key())
                != (#[trigger] self.markets@[l].0.key())
        &&& forall|j: int| 0 <= j < self.markets@.len() ==> (#[trigger] self.markets@[j].1).wf()
    }

    /// An engine with no market registered.
    pub fn new() -> (e: MatchingEngine)
        ensures
            e.wf(),
            e@ == Map::<(Seq<char>, Seq<char>), BookView>::empty(),
    {
        MatchingEngine { markets: Vec::new() }
    }

    /// Registers the pair under a fresh, empty order book —
    /// overwriting any book previously registered for it, standing
    /// orders and all.
    pub fn add_new_market(&mut self, pair: TradingPair)
        requires
            old(self).wf(),
        ensures
            final(self).wf(),
            final(self)@ == old(self)@.insert(pair.key(), empty_book()),
    {
        let ghost s0 = self.markets@;
        let book = OrderBook::new();
        match find_market(&self.markets, &pair) {
            Some(i) => {
                self.markets.remove(i);
                self.markets.insert(i, (pair, book));
                proof {
                    assert(self.markets@ =~= s0.update(i as int, self.markets@[i as int]));
                    lemma_books_of_update(s0, i as int, self.markets@[i as int]);
                }
            },
            None => {
                self.markets.push((pair, book));
                proof {
                    lemma_books_of_push(s0, self.markets@.last());
                }
            },
        }
    }

    /// Looks up the pair's book and places the resting limit order in
    /// it. Succeeds exactly when the pair is registered; on an
    /// unregistered pair, fails with a message naming the pair and
    /// leaves every book untouched.
    pub fn place_limit_order(&mut self, pair: TradingPair, price_units: u64, order: Order) -> (r:
        Result<(), String>)
        requires
            old(self).wf(),
        ensures
            final(self).wf(),
            r is Ok <==> old(self)@.contains_key(pair.key()),
            old(self)@.contains_key(pair.key()) ==> final(self)@ == old(self)@.insert(
                pair.key(),
                book_add(old(self)@[pair.key()], price_units, order),
            ),
            !old(self)@.contains_key(pair.key()) ==> *final(self) == *old(self),
            r matches Err(m) ==> m@ == "No market found for pair: "@ + pair.base@ + "/"@
                + pair.quote@,
    {
        let ghost s0 = self.markets@;
        proof {
            lemma_books_of_domain(s0, pair.key());
        }
        match find_market(&self.markets, &pair) {
            Some(i) => {
                proof {
                    lemma_books_of_at(s0, i as int);
                }
                let mut entry = self.markets.remove(i);
                entry.1.add_order(price_units, order);
                self.markets.insert(i, entry);
                proof {
                    assert(self.markets@ =~= s0.update(i as int, self.markets@[i as int]));
                    lemma_books_of_update(s0, i as int, self.markets@[i as int]);
                }
                Ok(())
            },
            None => {
                let mut msg = String::from_str("No market found for pair: ");
                let display = pair.to_string();
                msg.append(display.as_str());
                Err(msg)
            },
        }
    }
}

} // verus!
