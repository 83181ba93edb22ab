//! The order-book core: orders, price-level buckets, and the two-sided book
//! with price-time priority matching.

use vstd::prelude::*;

verus! {

/// Side of an order: a bid buys, an ask sells.
#[derive(Clone, Copy, Debug, PartialEq, Eq, Structural)]
pub enum BidOrAsk {
    Bid,
    Ask,
}

/// An exact price level: a fixed-point count of price ticks, so equality and
/// ordering are exact (no epsilon comparison). Two prices name the same level
/// iff their tick counts are equal.
#[derive(Clone, Copy, Debug, PartialEq, Eq, Structural)]
pub struct Price {
    pub units: u64,
}

impl Price {
    pub fn new(units: u64) -> (p: Price)
        ensures
            p.units == units,
    {
        Price { units }
    }
}

/// An order: its side and its remaining (unfilled) size, a fixed-point count
/// of size ticks. An order is filled iff its remaining size is zero.
#[derive(Clone, Copy, Debug, PartialEq, Eq, Structural)]
pub struct Order {
    pub bid_or_ask: BidOrAsk,
    pub size: u64,
}

impl Order {
    pub fn new(bid_or_ask: BidOrAsk, size: u64) -> (o: Order)
        ensures
            o.bid_or_ask == bid_or_ask,
            o.size == size,
    {
        Order { bid_or_ask, size }
    }

    pub fn is_filled(&self) -> (r: bool)
        ensures
            r == (self.size == 0),
    {
        self.size == 0
    }
}

/// The sum of remaining sizes over a sequence of orders.
pub open spec fn sum_sizes(s: Seq<Order>) -> int
    decreases s.len(),
{
    if s.len() == 0 {
        0
    } else {
        s[0].size + sum_sizes(s.drop_first())
    }
}

proof fn lemma_sum_sizes_nonneg(s: Seq<Order>)
    ensures
        0 <= sum_sizes(s),
    decreases s.len(),
{
    if s.len() > 0 {
        lemma_sum_sizes_nonneg(s.drop_first());
    }
}

proof fn lemma_sum_sizes_push(s: Seq<Order>, o: Order)
    ensures
        sum_sizes(s.push(o)) == sum_sizes(s) + o.size,
    decreases s.len(),
{
    assert(s.push(o)[0] == if s.len() == 0 { o } else { s[0] });
    if s.len() == 0 {
        assert(s.push(o).drop_first() =~= Seq::<Order>::empty());
        assert(sum_sizes(Seq::<Order>::empty()) == 0);
    } else {
        assert(s.push(o).drop_first() =~= s.drop_first().push(o));
        lemma_sum_sizes_push(s.drop_first(), o);
    }
}

/// What filling against a sequence of resting orders yields: the resting
/// orders after the fill, and the incoming order's remaining size after it.
///
/// Resting orders are consumed strictly front to back (time priority). For
/// each one in turn, the smaller of the two remaining sizes is subtracted
/// from both; the walk stops once the incoming size reaches zero. Filled
/// resting orders stay in the sequence with size zero.
pub open spec fn fill_outcome(s: Seq<Order>, incoming: int) -> (Seq<Order>, int)
    decreases s.len(),
{
    if s.len() == 0 || incoming <= 0 {
        (s, incoming)
    } else if incoming >= s[0].size {
        let rest = fill_outcome(s.drop_first(), incoming - s[0].size);
        (seq![Order { bid_or_ask: s[0].bid_or_ask, size: 0 }] + rest.0, rest.1)
    } else {
        (
            seq![Order { bid_or_ask: s[0].bid_or_ask, size: (s[0].size - incoming) as u64 }]
                + s.drop_first(),
            0,
        )
    }
}

proof fn lemma_sum_sizes_cons(o: Order, s: Seq<Order>)
    ensures
        sum_sizes(seq![o] + s) == o.size + sum_sizes(s),
{
    assert((seq![o] + s)[0] == o);
    assert((seq![o] + s).drop_first() =~= s);
}

/// Filling conserves size: what the incoming order loses, the resting orders
/// lose too, and the remainder is never negative.
proof fn lemma_fill_outcome_conserves(s: Seq<Order>, incoming: int)
    requires
        0 <= incoming,
    ensures
        0 <= fill_outcome(s, incoming).1 <= incoming,
        incoming + sum_sizes(fill_outcome(s, incoming).0) == fill_outcome(s, incoming).1
            + sum_sizes(s),
    decreases s.len(),
{
    if s.len() == 0 || incoming <= 0 {
    } else if incoming >= s[0].size {
        lemma_fill_outcome_conserves(s.drop_first(), incoming - s[0].size);
        lemma_sum_sizes_cons(
            Order { bid_or_ask: s[0].bid_or_ask, size: 0 },
            fill_outcome(s.drop_first(), incoming - s[0].size).0,
        );
    } else {
        lemma_sum_sizes_cons(
            Order { bid_or_ask: s[0].bid_or_ask, size: (s[0].size - incoming) as u64 },
            s.drop_first(),
        );
    }
}

/// Law: a fill with nothing to trade — an already-filled incoming order, or
/// a bucket with no resting volume — changes no size at all, so the sum of
/// incoming and resting sizes before the fill equals the same sum after it.
/// When a positive quantity trades, that sum shrinks by twice the traded
/// quantity instead: each traded tick leaves both the incoming order and a
/// resting order. The unconditional law is the one `fill_order` ensures:
/// the incoming order and the resting orders lose exactly the same amount.
pub proof fn lemma_fill_without_trade_keeps_sums(s: Seq<Order>, incoming: int)
    requires
        0 <= incoming,
        incoming == 0 || sum_sizes(s) == 0,
    ensures
        incoming + sum_sizes(s) == fill_outcome(s, incoming).1 + sum_sizes(
            fill_outcome(s, incoming).0,
        ),
{
    lemma_fill_outcome_conserves(s, incoming);
    lemma_sum_sizes_nonneg(s);
    lemma_sum_sizes_nonneg(fill_outcome(s, incoming).0);
}

/// A price-level bucket: the orders resting at one price, in arrival order
/// (front of the sequence is oldest, so it has time priority).
#[derive(Debug)]
pub struct Limit {
    pub price: Price,
    pub orders: Vec<Order>,
}

impl Limit {
    pub fn new(price: Price) -> (l: Limit)
        ensures
            l.price == price,
            l.orders@ == Seq::<Order>::empty(),
    {
        Limit { price, orders: Vec::new() }
    }

    /// Appends the order at the back of the bucket: arrival order is kept,
    /// so earlier orders keep time priority.
    pub fn add_order(&mut self, order: Order)
        ensures
            final(self).price == old(self).price,
            final(self).orders@ == old(self).orders@.push(order),
    {
        self.orders.push(order);
    }

    /// Consumes resting liquidity against `market_order`, oldest first
    /// (time priority), and stops as soon as the incoming order is filled.
    /// Sizes are conserved: whatever the incoming order loses, the resting
    /// orders lose too. Filled resting orders stay in place with size zero.
    pub fn fill_order(&mut self, market_order: &mut Order)
        ensures
            final(self).price == old(self).price,
            final(market_order).bid_or_ask == old(market_order).bid_or_ask,
            final(self).orders@ == fill_outcome(
                old(self).orders@,
                old(market_order).size as int,
            ).0,
            final(market_order).size as int == fill_outcome(
                old(self).orders@,
                old(market_order).size as int,
            ).1,
            old(market_order).size + sum_sizes(final(self).orders@) == final(market_order).size
                + sum_sizes(old(self).orders@),
    {
        let ghost s0 = self.orders@;
        let ghost inc0 = old(market_order).size as int;
        let mut i: usize = 0;
        proof {
            assert(s0.skip(0) =~= s0);
            assert(self.orders@.take(0int) + fill_outcome(s0, inc0).0 =~= fill_outcome(
                s0,
                inc0,
            ).0);
        }
        while i < self.orders.len()
            invariant
                i <= self.orders.len(),
                self.price == old(self).price,
                market_order.bid_or_ask == old(market_order).bid_or_ask,
                self.orders@.len() == s0.len(),
                self.orders@.skip(i as int) == s0.skip(i as int),
                fill_outcome(s0, inc0).0 == self.orders@.take(i as int) + fill_outcome(
                    s0.skip(i as int),
                    market_order.size as int,
                ).0,
                fill_outcome(s0, inc0).1 == fill_outcome(
                    s0.skip(i as int),
                    market_order.size as int,
                ).1,
            ensures
                i == self.orders.len() || market_order.size == 0,
                self.price == old(self).price,
                market_order.bid_or_ask == old(market_order).bid_or_ask,
                self.orders@.len() == s0.len(),
                self.orders@.skip(i as int) == s0.skip(i as int),
                fill_outcome(s0, inc0).0 == self.orders@.take(i as int) + fill_outcome(
                    s0.skip(i as int),
                    market_order.size as int,
                ).0,
                fill_outcome(s0, inc0).1 == fill_outcome(
                    s0.skip(i as int),
                    market_order.size as int,
                ).1,
            decreases self.orders.len() - i,
        {
            let ghost pre = self.orders@;
            let ghost inc = market_order.size as int;
            let r = self.orders[i];
            proof {
                assert(s0.skip(i as int)[0] == s0[i as int]);
                assert(s0.skip(i as int).drop_first() =~= s0.skip(i as int + 1));
            }
            if market_order.size >= r.size {
                market_order.size = market_order.size - r.size;
                self.orders[i] = Order { bid_or_ask: r.bid_or_ask, size: 0 };
            } else {
                self.orders[i] = Order {
                    bid_or_ask: r.bid_or_ask,
                    size: r.size - market_order.size,
                };
                market_order.size = 0;
            }
            proof {
                assert(self.orders@.skip(i as int + 1) =~= s0.skip(i as int + 1));
                assert(self.orders@.take(i as int + 1) =~= pre.take(i as int).push(
                    self.orders@[i as int],
                ));
                if inc <= 0 {
                    assert(self.orders@[i as int] == s0[i as int]);
                    assert(self.orders@.take(i as int + 1) + fill_outcome(
                        s0.skip(i as int + 1),
                        market_order.size as int,
                    ).0 =~= pre.take(i as int) + s0.skip(i as int));
                } else if inc >= s0[i as int].size {
                    assert(self.orders@.take(i as int + 1) + fill_outcome(
                        s0.skip(i as int + 1),
                        market_order.size as int,
                    ).0 =~= pre.take(i as int) + fill_outcome(s0.skip(i as int), inc).0);
                } else {
                    assert(self.orders@.take(i as int + 1) + fill_outcome(
                        s0.skip(i as int + 1),
                        market_order.size as int,
                    ).0 =~= pre.take(i as int) + fill_outcome(s0.skip(i as int), inc).0);
                }
            }
            i = i + 1;
            if market_order.is_filled() {
                break;
            }
        }
        proof {
            if market_order.size == 0 {
                assert(fill_outcome(s0.skip(i as int), 0).0 == s0.skip(i as int));
                assert(self.orders@.take(i as int) + self.orders@.skip(i as int)
                    =~= self.orders@);
            } else {
                assert(s0.skip(i as int) =~= Seq::<Order>::empty());
                assert(self.orders@.take(i as int) =~= self.orders@);
            }
            lemma_fill_outcome_conserves(s0, inc0);
        }
    }

    /// The total resting volume at this price level. An empty bucket has
    /// volume zero. Takes `&self`, so it can never change the bucket.
    #[verifier::loop_isolation(false)]
    pub fn total_volume(&self) -> (v: u128)
        ensures
            v as int == sum_sizes(self.orders@),
    {
        let mut v: u128 = 0;
        let mut i: usize = 0;
        while i < self.orders.len()
            invariant
                i <= self.orders.len(),
                v as int == sum_sizes(self.orders@.take(i as int)),
                v as int <= i * (u64::MAX as int),
            decreases self.orders.len() - i,
        {
            proof {
                assert(self.orders@.take(i + 1) =~= self.orders@.take(i as int).push(
                    self.orders@[i as int],
                ));
                lemma_sum_sizes_push(self.orders@.take(i as int), self.orders@[i as int]);
                assert(self.orders@.len() as int * (u64::MAX as int) <= (u64::MAX as int) * (
                u64::MAX as int)) by {
                    assert(self.orders@.len() <= u64::MAX);
                };
            }
            v = v + self.orders[i].size as u128;
            i = i + 1;
        }
        proof {
            assert(self.orders@.take(i as int) =~= self.orders@);
        }
        v
    }
}

/// The mathematical view of a price-level bucket: its price and the resting
/// orders in arrival order.
#[verifier::ext_equal]
pub struct LimitView {
    pub price: Price,
    pub orders: Seq<Order>,
}

impl View for Limit {
    type V = LimitView;

    open spec fn view(&self) -> LimitView {
        LimitView { price: self.price, orders: self.orders@ }
    }
}

/// The views of a side's buckets, in the order the side keeps them.
pub open spec fn views_of(s: Seq<Limit>) -> Seq<LimitView> {
    s.map_values(|l: Limit| l@)
}

/// Ask-side priority order: strictly ascending prices (lowest sell first).
pub open spec fn sorted_by_price_asc(s: Seq<LimitView>) -> bool {
    forall|i: int, j: int|
        0 <= i < j < s.len() ==> s[i].price.units < s[j].price.units
}

/// Bid-side priority order: strictly descending prices (highest buy first).
pub open spec fn sorted_by_price_desc(s: Seq<LimitView>) -> bool {
    forall|i: int, j: int|
        0 <= i < j < s.len() ==> s[i].price.units > s[j].price.units
}

/// Every order in the sequence is on the given side.
pub open spec fn orders_all_side(s: Seq<Order>, side: BidOrAsk) -> bool {
    forall|k: int| 0 <= k < s.len() ==> s[k].bid_or_ask == side
}

/// Every bucket on the side holds orders of the given side only.
pub open spec fn all_orders_side(s: Seq<LimitView>, side: BidOrAsk) -> bool {
    forall|i: int| 0 <= i < s.len() ==> orders_all_side(#[trigger] s[i].orders, side)
}

/// Where a new order lands on one side of the book: appended to the existing
/// bucket at exactly its price, or else into a fresh bucket inserted at the
/// position that keeps the side in matching-priority order (`ascending`
/// prices for asks, descending for bids).
pub open spec fn insert_limit(
    s: Seq<LimitView>,
    price: Price,
    order: Order,
    ascending: bool,
) -> Seq<LimitView>
    decreases s.len(),
{
    if s.len() == 0 {
        seq![LimitView { price, orders: seq![order] }]
    } else if s[0].price.units == price.units {
        seq![LimitView { price: s[0].price, orders: s[0].orders.push(order) }] + s.drop_first()
    } else if (ascending && price.units < s[0].price.units) || (!ascending && price.units
        > s[0].price.units) {
        seq![LimitView { price, orders: seq![order] }] + s
    } else {
        seq![s[0]] + insert_limit(s.drop_first(), price, order, ascending)
    }
}

proof fn lemma_insert_limit_skip(
    s: Seq<LimitView>,
    price: Price,
    order: Order,
    ascending: bool,
    i: int,
)
    requires
        0 <= i <= s.len(),
        forall|j: int|
            0 <= j < i ==> ((ascending ==> (#[trigger] s[j]).price.units < price.units)
                && (!ascending ==> s[j].price.units > price.units)),
    ensures
        insert_limit(s, price, order, ascending) == s.take(i) + insert_limit(
            s.skip(i),
            price,
            order,
            ascending,
        ),
    decreases i,
{
    if i == 0 {
        assert(s.skip(0) =~= s);
        assert(s.take(0) + insert_limit(s, price, order, ascending) =~= insert_limit(
            s,
            price,
            order,
            ascending,
        ));
    } else {
        assert(forall|j: int|
            0 <= j < i - 1 ==> ((ascending ==> (#[trigger] s.drop_first()[j]).price.units
                < price.units) && (!ascending ==> s.drop_first()[j].price.units > price.units)));
        lemma_insert_limit_skip(s.drop_first(), price, order, ascending, i - 1);
        assert(s.drop_first().skip(i - 1) =~= s.skip(i));
        assert(seq![s[0]] + (s.drop_first().take(i - 1) + insert_limit(
            s.skip(i),
            price,
            order,
            ascending,
        )) =~= s.take(i) + insert_limit(s.skip(i), price, order, ascending));
    }
}

/// One side of the book after routing a new order to it by price
/// (see `insert_limit`): bids take descending order, asks ascending.
pub open spec fn book_after_add(b: OrderBookView, price: Price, order: Order) -> OrderBookView {
    match order.bid_or_ask {
        BidOrAsk::Bid => OrderBookView {
            bids: insert_limit(b.bids, price, order, false),
            asks: b.asks,
        },
        BidOrAsk::Ask => OrderBookView {
            bids: b.bids,
            asks: insert_limit(b.asks, price, order, true),
        },
    }
}

/// Merges the order into the bucket at `price`, creating and placing a new
/// bucket if that price level is absent, so that a side sorted in its
/// priority order stays sorted and a side pure in the order's side stays so.
#[verifier::loop_isolation(false)]
fn insert_into_side(limits: &mut Vec<Limit>, price: Price, order: Order, ascending: bool)
    ensures
        views_of(final(limits)@) == insert_limit(
            views_of(old(limits)@),
            price,
            order,
            ascending,
        ),
        ascending && sorted_by_price_asc(views_of(old(limits)@)) ==> sorted_by_price_asc(
            views_of(final(limits)@),
        ),
        !ascending && sorted_by_price_desc(views_of(old(limits)@)) ==> sorted_by_price_desc(
            views_of(final(limits)@),
        ),
        forall|side: BidOrAsk|
            all_orders_side(views_of(old(limits)@), side) && order.bid_or_ask == side
                ==> all_orders_side(views_of(final(limits)@), side),
{
    let ghost s0 = views_of(limits@);
    let mut i: usize = 0;
    while i < limits.len()
        invariant
            i <= limits.len(),
            limits@ == old(limits)@,
            forall|j: int|
                0 <= j < i ==> ((ascending ==> (#[trigger] s0[j]).price.units < price.units) && (
                !ascending ==> s0[j].price.units > price.units)),
        decreases limits.len() - i,
    {
        let cur_units = limits[i].price.units;
        if cur_units == price.units {
            let mut l = limits.remove(i);
            l.add_order(order);
            let ghost lv = l@;
            limits.insert(i, l);
            proof {
                lemma_insert_limit_skip(s0, price, order, ascending, i as int);
                assert(s0.skip(i as int)[0] == s0[i as int]);
                assert(s0.skip(i as int).drop_first() =~= s0.skip(i as int + 1));
                assert(lv.orders =~= s0[i as int].orders.push(order));
                assert(insert_limit(s0.skip(i as int), price, order, ascending) =~= seq![lv]
                    + s0.skip(i as int + 1));
                assert(views_of(limits@) =~= s0.take(i as int) + (seq![lv] + s0.skip(
                    i as int + 1,
                )));
                assert(forall|k: int|
                    0 <= k < s0.len() ==> (#[trigger] views_of(limits@)[k]).price == s0[k].price);
                assert forall|side: BidOrAsk|
                    all_orders_side(s0, side) && order.bid_or_ask == side implies all_orders_side(
                    views_of(limits@),
                    side,
                ) by {
                    assert(forall|k: int|
                        0 <= k < lv.orders.len() ==> (#[trigger] lv.orders[k]).bid_or_ask
                            == side);
                }
            }
            return ;
        } else if (ascending && cur_units > price.units) || (!ascending && cur_units
            < price.units) {
            let mut l = Limit::new(price);
            l.add_order(order);
            let ghost lv = l@;
            limits.insert(i, l);
            proof {
                lemma_insert_limit_skip(s0, price, order, ascending, i as int);
                assert(s0.skip(i as int)[0] == s0[i as int]);
                assert(lv.orders =~= seq![order]);
                assert(insert_limit(s0.skip(i as int), price, order, ascending) =~= seq![lv]
                    + s0.skip(i as int));
                assert(views_of(limits@) =~= s0.take(i as int) + (seq![lv] + s0.skip(i as int)));
                if ascending && sorted_by_price_asc(s0) {
                    assert(forall|j: int|
                        i < j < s0.len() ==> price.units < (#[trigger] s0[j]).price.units);
                    assert(sorted_by_price_asc(views_of(limits@)));
                }
                if !ascending && sorted_by_price_desc(s0) {
                    assert(forall|j: int|
                        i < j < s0.len() ==> price.units > (#[trigger] s0[j]).price.units);
                    assert(sorted_by_price_desc(views_of(limits@)));
                }
                assert forall|side: BidOrAsk|
                    all_orders_side(s0, side) && order.bid_or_ask == side implies all_orders_side(
                    views_of(limits@),
                    side,
                ) by {
                    assert(forall|k: int|
                        0 <= k < lv.orders.len() ==> (#[trigger] lv.orders[k]).bid_or_ask
                            == side);
                }
            }
            return ;
        }
        i = i + 1;
    }
    let mut l = Limit::new(price);
    l.add_order(order);
    let ghost lv = l@;
    limits.push(l);
    proof {
        lemma_insert_limit_skip(s0, price, order, ascending, s0.len() as int);
        assert(s0.skip(s0.len() as int) =~= Seq::<LimitView>::empty());
        assert(lv.orders =~= seq![order]);
        assert(insert_limit(Seq::<LimitView>::empty(), price, order, ascending) =~= seq![lv]);
        assert(s0.take(s0.len() as int) =~= s0);
        assert(views_of(limits@) =~= s0 + seq![lv]);
        assert forall|side: BidOrAsk|
            all_orders_side(s0, side) && order.bid_or_ask == side implies all_orders_side(
            views_of(limits@),
            side,
        ) by {
            assert(forall|k: int|
                0 <= k < lv.orders.len() ==> (#[trigger] lv.orders[k]).bid_or_ask == side);
        }
    }
}

/// What filling across a side's buckets, best price first, yields: the
/// buckets after the fill and the incoming order's remaining size. Each
/// bucket in turn is consumed as `fill_outcome` says, until the incoming
/// order is filled or the side is exhausted.
pub open spec fn fill_across(s: Seq<LimitView>, incoming: int) -> (Seq<LimitView>, int)
    decreases s.len(),
{
    if s.len() == 0 || incoming <= 0 {
        (s, incoming)
    } else {
        let bucket = fill_outcome(s[0].orders, incoming);
        let rest = fill_across(s.drop_first(), bucket.1);
        (seq![LimitView { price: s[0].price, orders: bucket.0 }] + rest.0, rest.1)
    }
}

proof fn lemma_fill_outcome_sides(s: Seq<Order>, incoming: int)
    ensures
        fill_outcome(s, incoming).0.len() == s.len(),
        forall|k: int|
            0 <= k < s.len() ==> (#[trigger] fill_outcome(s, incoming).0[k]).bid_or_ask
                == s[k].bid_or_ask,
    decreases s.len(),
{
    if s.len() == 0 || incoming <= 0 {
    } else if incoming >= s[0].size {
        lemma_fill_outcome_sides(s.drop_first(), incoming - s[0].size);
    } else {
    }
}

proof fn lemma_fill_across_shape(s: Seq<LimitView>, incoming: int)
    requires
        0 <= incoming,
    ensures
        fill_across(s, incoming).0.len() == s.len(),
        0 <= fill_across(s, incoming).1 <= incoming,
        forall|k: int|
            0 <= k < s.len() ==> (#[trigger] fill_across(s, incoming).0[k]).price == s[k].price,
        forall|side: BidOrAsk|
            all_orders_side(s, side) ==> all_orders_side(fill_across(s, incoming).0, side),
    decreases s.len(),
{
    if s.len() == 0 || incoming <= 0 {
    } else {
        lemma_fill_outcome_conserves(s[0].orders, incoming);
        lemma_sum_sizes_nonneg(s[0].orders);
        lemma_sum_sizes_nonneg(fill_outcome(s[0].orders, incoming).0);
        let bucket = fill_outcome(s[0].orders, incoming);
        lemma_fill_across_shape(s.drop_first(), bucket.1);
        lemma_fill_outcome_sides(s[0].orders, incoming);
        assert forall|side: BidOrAsk| all_orders_side(s, side) implies all_orders_side(
            fill_across(s, incoming).0,
            side,
        ) by {
            let res = fill_across(s, incoming).0;
            let tail = fill_across(s.drop_first(), bucket.1).0;
            assert(orders_all_side(s[0].orders, side));
            assert(forall|j: int|
                0 <= j < s.drop_first().len() ==> orders_all_side(
                    (#[trigger] s.drop_first()[j]).orders,
                    side,
                ));
            assert(all_orders_side(s.drop_first(), side));
            assert(all_orders_side(tail, side));
            assert(orders_all_side(bucket.0, side));
            assert forall|ii: int| 0 <= ii < res.len() implies orders_all_side(
                (#[trigger] res[ii]).orders,
                side,
            ) by {
                if ii == 0 {
                    assert(res[0].orders == bucket.0);
                } else {
                    assert(res[ii] == tail[ii - 1]);
                }
            }
        }
    }
}

/// The orders resting at `price` on one side: the bucket's sequence in
/// arrival order, or empty if the side has no bucket at that price.
pub open spec fn bucket_at(s: Seq<LimitView>, price: Price) -> Seq<Order>
    decreases s.len(),
{
    if s.len() == 0 {
        Seq::empty()
    } else if s[0].price.units == price.units {
        s[0].orders
    } else {
        bucket_at(s.drop_first(), price)
    }
}

proof fn lemma_bucket_at_absent(s: Seq<LimitView>, price: Price)
    requires
        forall|j: int| 0 <= j < s.len() ==> (#[trigger] s[j]).price.units != price.units,
    ensures
        bucket_at(s, price) == Seq::<Order>::empty(),
    decreases s.len(),
{
    if s.len() > 0 {
        lemma_bucket_at_absent(s.drop_first(), price);
    }
}

/// Law: on a side in priority order, adding an order at a price appends it
/// at the back of that price's bucket, so every order already resting there
/// keeps its place (time priority) and the bucket's total volume grows by
/// exactly the added size. Any sequence of additions therefore accumulates
/// exactly the sum of the inserted sizes, in arrival order.
pub proof fn lemma_add_accumulates(s: Seq<LimitView>, price: Price, order: Order, ascending: bool)
    requires
        ascending ==> sorted_by_price_asc(s),
        !ascending ==> sorted_by_price_desc(s),
    ensures
        bucket_at(insert_limit(s, price, order, ascending), price) == bucket_at(s, price).push(
            order,
        ),
        sum_sizes(bucket_at(insert_limit(s, price, order, ascending), price)) == sum_sizes(
            bucket_at(s, price),
        ) + order.size,
        bucket_at(insert_limit(s, price, order, ascending), price).take(
            bucket_at(s, price).len() as int,
        ) == bucket_at(s, price),
    decreases s.len(),
{
    lemma_sum_sizes_push(bucket_at(s, price), order);
    assert(bucket_at(s, price).push(order).take(bucket_at(s, price).len() as int) =~= bucket_at(
        s,
        price,
    ));
    let r = insert_limit(s, price, order, ascending);
    if s.len() == 0 {
        assert(r[0].price.units == price.units);
        assert(bucket_at(r, price) == seq![order]);
        assert(bucket_at(s, price).push(order) =~= seq![order]);
    } else if s[0].price.units == price.units {
        assert(r[0].price.units == price.units);
        assert(bucket_at(r, price) == s[0].orders.push(order));
    } else if (ascending && price.units < s[0].price.units) || (!ascending && price.units
        > s[0].price.units) {
        assert(r[0].price.units == price.units);
        assert(bucket_at(r, price) == seq![order]);
        assert(forall|j: int| 0 <= j < s.len() ==> (#[trigger] s[j]).price.units != price.units);
        lemma_bucket_at_absent(s, price);
        assert(bucket_at(s, price).push(order) =~= seq![order]);
    } else {
        assert(r == seq![s[0]] + insert_limit(s.drop_first(), price, order, ascending));
        assert(r[0] == s[0]);
        assert(r.drop_first() =~= insert_limit(s.drop_first(), price, order, ascending));
        assert(ascending ==> sorted_by_price_asc(s.drop_first()));
        assert(!ascending ==> sorted_by_price_desc(s.drop_first()));
        lemma_add_accumulates(s.drop_first(), price, order, ascending);
        assert(bucket_at(r, price) == bucket_at(r.drop_first(), price));
        assert(bucket_at(s, price) == bucket_at(s.drop_first(), price));
    }
}

/// The book and the incoming order's remaining size after a market order is
/// matched: a market bid consumes the ask side, a market ask the bid side;
/// the other side is untouched.
pub open spec fn book_after_fill(b: OrderBookView, market_order: Order) -> (OrderBookView, int) {
    match market_order.bid_or_ask {
        BidOrAsk::Bid => (
            OrderBookView { bids: b.bids, asks: fill_across(b.asks, market_order.size as int).0 },
            fill_across(b.asks, market_order.size as int).1,
        ),
        BidOrAsk::Ask => (
            OrderBookView { bids: fill_across(b.bids, market_order.size as int).0, asks: b.asks },
            fill_across(b.bids, market_order.size as int).1,
        ),
    }
}

/// Consumes the side's buckets front to back (best price first), filling
/// `market_order` against each until it is filled or the side is exhausted.
fn fill_side(limits: &mut Vec<Limit>, market_order: &mut Order)
    ensures
        views_of(final(limits)@) == fill_across(
            views_of(old(limits)@),
            old(market_order).size as int,
        ).0,
        final(market_order).size as int == fill_across(
            views_of(old(limits)@),
            old(market_order).size as int,
        ).1,
        final(market_order).bid_or_ask == old(market_order).bid_or_ask,
{
    let ghost s0 = views_of(limits@);
    let ghost inc0 = old(market_order).size as int;
    let mut i: usize = 0;
    proof {
        assert(s0.skip(0) =~= s0);
        assert(views_of(limits@).take(0int) + fill_across(s0, inc0).0 =~= fill_across(
            s0,
            inc0,
        ).0);
    }
    while i < limits.len()
        invariant
            i <= limits.len(),
            market_order.bid_or_ask == old(market_order).bid_or_ask,
            limits@.len() == s0.len(),
            views_of(limits@).skip(i as int) == s0.skip(i as int),
            fill_across(s0, inc0).0 == views_of(limits@).take(i as int) + fill_across(
                s0.skip(i as int),
                market_order.size as int,
            ).0,
            fill_across(s0, inc0).1 == fill_across(
                s0.skip(i as int),
                market_order.size as int,
            ).1,
        ensures
            i == limits.len() || market_order.size == 0,
            market_order.bid_or_ask == old(market_order).bid_or_ask,
            limits@.len() == s0.len(),
            views_of(limits@).skip(i as int) == s0.skip(i as int),
            fill_across(s0, inc0).0 == views_of(limits@).take(i as int) + fill_across(
                s0.skip(i as int),
                market_order.size as int,
            ).0,
            fill_across(s0, inc0).1 == fill_across(
                s0.skip(i as int),
                market_order.size as int,
            ).1,
        decreases limits.len() - i,
    {
        let ghost pre = views_of(limits@);
        let ghost inc = market_order.size as int;
        let mut l = limits.remove(i);
        l.fill_order(market_order);
        let ghost lv = l@;
        limits.insert(i, l);
        proof {
            assert(pre[i as int] == s0[i as int]);
            assert(s0.skip(i as int)[0] == s0[i as int]);
            assert(s0.skip(i as int).drop_first() =~= s0.skip(i as int + 1));
            assert(views_of(limits@) =~= pre.update(i as int, lv));
            assert(views_of(limits@).skip(i as int + 1) =~= s0.skip(i as int + 1));
            assert(views_of(limits@).take(i as int + 1) =~= pre.take(i as int).push(lv));
            if inc <= 0 {
                assert(lv =~= s0[i as int]);
                assert(views_of(limits@).take(i as int + 1) + fill_across(
                    s0.skip(i as int + 1),
                    market_order.size as int,
                ).0 =~= pre.take(i as int) + fill_across(s0.skip(i as int), inc).0);
            } else {
                assert(lv =~= LimitView {
                    price: s0[i as int].price,
                    orders: fill_outcome(s0[i as int].orders, inc).0,
                });
                assert(fill_across(s0.skip(i as int), inc).0 == seq![lv] + fill_across(
                    s0.skip(i as int + 1),
                    market_order.size as int,
                ).0);
                assert(views_of(limits@).take(i as int + 1) + fill_across(
                    s0.skip(i as int + 1),
                    market_order.size as int,
                ).0 =~= pre.take(i as int) + fill_across(s0.skip(i as int), inc).0);
            }
        }
        i = i + 1;
        if market_order.is_filled() {
            break;
        }
    }
    proof {
        if market_order.size == 0 {
            assert(fill_across(s0.skip(i as int), 0).0 == s0.skip(i as int));
            assert(views_of(limits@).take(i as int) + views_of(limits@).skip(i as int)
                =~= views_of(limits@));
        } else {
            assert(s0.skip(i as int) =~= Seq::<LimitView>::empty());
            assert(views_of(limits@).take(i as int) =~= views_of(limits@));
        }
    }
}

/// The mathematical view of an order book: both sides' buckets in
/// matching-priority order.
#[verifier::ext_equal]
pub struct OrderBookView {
    pub bids: Seq<LimitView>,
    pub asks: Seq<LimitView>,
}

/// An order book: bid-side and ask-side price-level buckets, each side kept
/// in matching-priority order with one bucket per distinct price.
#[derive(Debug)]
pub struct OrderBook {
    pub bids: Vec<Limit>,
    pub asks: Vec<Limit>,
}

impl View for OrderBook {
    type V = OrderBookView;

    open spec fn view(&self) -> OrderBookView {
        OrderBookView { bids: views_of(self.bids@), asks: views_of(self.asks@) }
    }
}

impl OrderBook {
    /// Well-formed book: asks ascending, bids descending (so the best price
    /// stands first on each side), prices distinct per side, and each side
    /// holds orders of its own side only.
    pub open spec fn wf(self) -> bool {
        &&& sorted_by_price_asc(self@.asks)
        &&& sorted_by_price_desc(self@.bids)
        &&& all_orders_side(self@.asks, BidOrAsk::Ask)
        &&& all_orders_side(self@.bids, BidOrAsk::Bid)
    }

    pub fn new() -> (b: OrderBook)
        ensures
            b.wf(),
            b@.asks == Seq::<LimitView>::empty(),
            b@.bids == Seq::<LimitView>::empty(),
    {
        let b = OrderBook { bids: Vec::new(), asks: Vec::new() };
        proof {
            assert(b@.asks =~= Seq::<LimitView>::empty());
            assert(b@.bids =~= Seq::<LimitView>::empty());
        }
        b
    }

    /// The ask-side buckets, lowest price first: ask matching priority.
    pub fn ask_limits(&self) -> (r: &Vec<Limit>)
        ensures
            views_of(r@) == self@.asks,
            self.wf() ==> sorted_by_price_asc(views_of(r@)),
    {
        &self.asks
    }

    /// Routes the order to its side's index and merges it into the bucket
    /// at `price`, creating the bucket if the price level is new. Always
    /// succeeds; duplicate prices merge into one bucket, arrival order kept.
    pub fn add_limit_order(&mut self, price: Price, order: Order)
        requires
            old(self).wf(),
        ensures
            final(self).wf(),
            final(self)@ == book_after_add(old(self)@, price, order),
    {
        match order.bid_or_ask {
            BidOrAsk::Bid => insert_into_side(&mut self.bids, price, order, false),
            BidOrAsk::Ask => insert_into_side(&mut self.asks, price, order, true),
        }
    }

    /// Matches an incoming market order against the opposite side's buckets
    /// in matching-priority order (best price first): a market bid consumes
    /// asks from the lowest price up, a market ask consumes bids from the
    /// highest price down. Whatever cannot be filled stays in
    /// `market_order`'s remaining size for the caller.
    pub fn fill_market_order(&mut self, market_order: &mut Order)
        requires
            old(self).wf(),
        ensures
            final(self).wf(),
            final(market_order).bid_or_ask == old(market_order).bid_or_ask,
            final(self)@ == book_after_fill(old(self)@, *old(market_order)).0,
            final(market_order).size as int == book_after_fill(
                old(self)@,
                *old(market_order),
            ).1,
    {
        match market_order.bid_or_ask {
            BidOrAsk::Bid => fill_side(&mut self.asks, market_order),
            BidOrAsk::Ask => fill_side(&mut self.bids, market_order),
        }
        proof {
            match old(market_order).bid_or_ask {
                BidOrAsk::Bid => lemma_fill_across_shape(
                    old(self)@.asks,
                    old(market_order).size as int,
                ),
                BidOrAsk::Ask => lemma_fill_across_shape(
                    old(self)@.bids,
                    old(market_order).size as int,
                ),
            }
        }
    }

    /// The bid-side buckets, highest price first: bid matching priority.
    pub fn bid_limits(&self) -> (r: &Vec<Limit>)
        ensures
            views_of(r@) == self@.bids,
            self.wf() ==> sorted_by_price_desc(views_of(r@)),
    {
        &self.bids
    }
}

} // verus!
