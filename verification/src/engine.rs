//! The market registry: routes a placed limit order, by trading pair, to the
//! pair's order book, rejecting unknown pairs.

use crate::orderbook::{book_after_add, LimitView, Order, OrderBook, Price};
use vstd::prelude::*;

verus! {

/// A trading pair: base and quote asset symbols, exactly as given
/// (no normalization). Its canonical string form is `"{base}_{quote}"`,
/// used only for diagnostics; registry identity is the structured pair.
#[derive(Clone, Debug)]
pub struct TradingPair {
    pub base: String,
    pub quote: String,
}

/// Identity of trading pairs: base and quote equal, exactly as given.
pub open spec fn pair_key_eq(a: TradingPair, b: TradingPair) -> bool {
    a.base@ == b.base@ && a.quote@ == b.quote@
}

impl PartialEq for TradingPair {
    fn eq(&self, other: &Self) -> bool {
        self.base == other.base && self.quote == other.quote
    }
}

impl vstd::std_specs::cmp::PartialEqSpecImpl for TradingPair {
    open spec fn obeys_eq_spec() -> bool {
        true
    }

    open spec fn eq_spec(&self, other: &Self) -> bool {
        pair_key_eq(*self, *other)
    }
}

/// Relies on std's `format!` with `str`'s `Display` implementation:
/// formatting a `str` writes exactly its own characters, so the result is
/// the first piece, one underscore, then the second piece.
#[verifier::external_body]
fn join_with_underscore(base: &str, quote: &str) -> (r: String)
    ensures
        r@ == base@ + seq!['_'] + quote@,
{
    format!("{}_{}", base, quote)
}

impl TradingPair {
    pub fn new(base: String, quote: String) -> (p: TradingPair)
        ensures
            p.base == base,
            p.quote == quote,
    {
        TradingPair { base, quote }
    }

    /// The canonical string form `"{base}_{quote}"`, for diagnostics only.
    pub fn to_string(&self) -> (r: String)
        ensures
            r@ == self.base@ + seq!['_'] + self.quote@,
    {
        join_with_underscore(self.base.as_str(), self.quote.as_str())
    }
}

/// Why placing an order can fail.
#[derive(Debug)]
pub enum EngineError {
    /// No order book is registered for the trading pair; carries the pair's
    /// canonical string form.
    MarketNotFound(String),
}

/// One registered market: a trading pair and its order book.
#[derive(Debug)]
pub struct Market {
    pub pair: TradingPair,
    pub book: OrderBook,
}

/// Whether some market in the sequence is registered for `pair`.
pub open spec fn has_market(s: Seq<Market>, pair: TradingPair) -> bool {
    exists|i: int| 0 <= i < s.len() && pair_key_eq((#[trigger] s[i]).pair, pair)
}

/// The matching engine: the registry mapping each trading pair to its order
/// book. Each pair has at most one book.
#[derive(Debug)]
pub struct MatchingEngine {
    pub orderbooks: Vec<Market>,
}

impl MatchingEngine {
    /// Well-formed registry: registered pairs are pairwise distinct and
    /// every registered book is well-formed.
    pub open spec fn wf(self) -> bool {
        &&& forall|i: int, j: int|
            0 <= i < j < self.orderbooks@.len() ==> !pair_key_eq(
                (#[trigger] self.orderbooks@[i]).pair,
                (#[trigger] self.orderbooks@[j]).pair,
            )
        &&& forall|i: int|
            0 <= i < self.orderbooks@.len() ==> (#[trigger] self.orderbooks@[i]).book.wf()
    }

    pub fn new() -> (e: MatchingEngine)
        ensures
            e.wf(),
            e.orderbooks@ == Seq::<Market>::empty(),
    {
        let e = MatchingEngine { orderbooks: Vec::new() };
        proof {
            assert(e.orderbooks@ =~= Seq::<Market>::empty());
        }
        e
    }

    /// Registers a fresh, empty order book for `pair`. If the pair already
    /// had a book, that book is replaced by the fresh empty one, discarding
    /// its resting orders; every other market is untouched.
    #[verifier::loop_isolation(false)]
    pub fn add_new_market(&mut self, pair: TradingPair)
        requires
            old(self).wf(),
        ensures
            final(self).wf(),
            has_market(final(self).orderbooks@, pair),
            if has_market(old(self).orderbooks@, pair) {
                &&& final(self).orderbooks@.len() == old(self).orderbooks@.len()
                &&& forall|i: int|
                    0 <= i < old(self).orderbooks@.len() ==> if pair_key_eq(
                        (#[trigger] old(self).orderbooks@[i]).pair,
                        pair,
                    ) {
                        &&& final(self).orderbooks@[i].pair == pair
                        &&& final(self).orderbooks@[i].book@.asks
                            == Seq::<LimitView>::empty()
                        &&& final(self).orderbooks@[i].book@.bids
                            == Seq::<LimitView>::empty()
                    } else {
                        final(self).orderbooks@[i] == old(self).orderbooks@[i]
                    }
            } else {
                &&& final(self).orderbooks@.len() == old(self).orderbooks@.len() + 1
                &&& final(self).orderbooks@.take(old(self).orderbooks@.len() as int) == old(
                    self,
                ).orderbooks@
                &&& final(self).orderbooks@.last().pair == pair
                &&& final(self).orderbooks@.last().book@.asks == Seq::<LimitView>::empty()
                &&& final(self).orderbooks@.last().book@.bids == Seq::<LimitView>::empty()
            },
    {
        let ghost s0 = self.orderbooks@;
        let mut i: usize = 0;
        while i < self.orderbooks.len()
            invariant
                i <= self.orderbooks.len(),
                self.orderbooks@ == s0,
                forall|j: int| 0 <= j < i ==> !pair_key_eq((#[trigger] s0[j]).pair, pair),
            decreases self.orderbooks.len() - i,
        {
            if self.orderbooks[i].pair == pair {
                self.orderbooks.remove(i);
                self.orderbooks.insert(i, Market { pair, book: OrderBook::new() });
                proof {
                    assert(self.orderbooks@ =~= s0.update(
                        i as int,
                        self.orderbooks@[i as int],
                    ));
                    assert(pair_key_eq(s0[i as int].pair, pair));
                    assert(has_market(s0, pair));
                    assert(pair_key_eq(self.orderbooks@[i as int].pair, pair));
                    assert(has_market(self.orderbooks@, pair));
                }
                return ;
            }
            i = i + 1;
        }
        self.orderbooks.push(Market { pair, book: OrderBook::new() });
        proof {
            let n = s0.len() as int;
            assert(!has_market(s0, pair));
            assert(self.orderbooks@.take(n) =~= s0);
            assert(pair_key_eq(self.orderbooks@[n].pair, pair));
            assert(has_market(self.orderbooks@, pair));
        }
    }

    /// Routes a limit order to the book registered for `pair`: if the pair
    /// has a book, the order is added to it at `price` and every other
    /// market is untouched; if not, the call fails with `MarketNotFound`
    /// carrying the pair's canonical form, and the engine is unchanged.
    #[verifier::loop_isolation(false)]
    pub fn place_limit_order(&mut self, pair: TradingPair, price: Price, order: Order) -> (r:
        Result<(), EngineError>)
        requires
            old(self).wf(),
        ensures
            final(self).wf(),
            match r {
                Ok(()) => {
                    &&& has_market(old(self).orderbooks@, pair)
                    &&& final(self).orderbooks@.len() == old(self).orderbooks@.len()
                    &&& forall|i: int|
                        0 <= i < old(self).orderbooks@.len() ==> if pair_key_eq(
                            (#[trigger] old(self).orderbooks@[i]).pair,
                            pair,
                        ) {
                            &&& final(self).orderbooks@[i].pair == old(
                                self,
                            ).orderbooks@[i].pair
                            &&& final(self).orderbooks@[i].book@ == book_after_add(
                                old(self).orderbooks@[i].book@,
                                price,
                                order,
                            )
                        } else {
                            final(self).orderbooks@[i] == old(self).orderbooks@[i]
                        }
                },
                Err(e) => {
                    &&& !has_market(old(self).orderbooks@, pair)
                    &&& final(self).orderbooks@ == old(self).orderbooks@
                    &&& (e matches EngineError::MarketNotFound(msg) && msg@ == pair.base@
                        + seq!['_'] + pair.quote@)
                },
            },
    {
        let ghost s0 = self.orderbooks@;
        let mut i: usize = 0;
        while i < self.orderbooks.len()
            invariant
                i <= self.orderbooks.len(),
                self.orderbooks@ == s0,
                forall|j: int| 0 <= j < i ==> !pair_key_eq((#[trigger] s0[j]).pair, pair),
            decreases self.orderbooks.len() - i,
        {
            if self.orderbooks[i].pair == pair {
                let mut m = self.orderbooks.remove(i);
                m.book.add_limit_order(price, order);
                self.orderbooks.insert(i, m);
                proof {
                    assert(self.orderbooks@ =~= s0.update(
                        i as int,
                        self.orderbooks@[i as int],
                    ));
                    assert(pair_key_eq(s0[i as int].pair, pair));
                    assert(has_market(s0, pair));
                    assert forall|j: int|
                        0 <= j < s0.len() && j != i as int implies !pair_key_eq(
                        (#[trigger] s0[j]).pair,
                        pair,
                    ) by {
                        if (i as int) < j {
                            assert(!pair_key_eq(s0[i as int].pair, s0[j].pair));
                        }
                    }
                }
                return Ok(());
            }
            i = i + 1;
        }
        Err(EngineError::MarketNotFound(pair.to_string()))
    }
}

} // verus!
