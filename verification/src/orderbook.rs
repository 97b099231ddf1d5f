//! The order book core: price keys, orders, price levels, and the
//! book itself with its best-price-first matching loop.

use vstd::prelude::*;
use vstd::arithmetic::div_mod::{lemma_fundamental_div_mod, lemma_div_is_ordered};

verus! {

/// Fixed denominator of the fractional part of every price key:
/// prices are quantized to 100,000ths.
pub const PRICE_SCALE: u64 = 100000;

/// The side of an order: a bid buys, an ask sells.
#[derive(Clone, Copy, Debug, PartialEq, Eq, Structural)]
pub enum BidOrAsk {
    Bid,
    Ask,
}

/// A deterministic fixed-point price key: an integral part, a
/// fractional part scaled to `PRICE_SCALE`ths, and the scaling factor
/// itself. Equal economic prices always map to the same key, so a key
/// identifies one price-level bucket.
#[derive(Clone, Copy, Debug, Hash, PartialEq, Eq, Structural)]
pub struct Price {
    pub integral: u64,
    pub fractional: u64,
    pub scalar: u64,
}

impl Price {
    /// A well-formed key carries the one fixed scale, and its
    /// fractional part is a genuine remainder under that scale.
    pub open spec fn wf(self) -> bool {
        &&& self.scalar == PRICE_SCALE
        &&& self.fractional < PRICE_SCALE
    }

    /// The key a price of `units` `PRICE_SCALE`ths quantizes to.
    pub open spec fn from_units(units: u64) -> Price {
        Price {
            integral: units / PRICE_SCALE,
            fractional: units % PRICE_SCALE,
            scalar: PRICE_SCALE,
        }
    }

    /// The price a key stands for, in `PRICE_SCALE`ths.
    pub open spec fn units(self) -> int {
        self.integral * PRICE_SCALE + self.fractional
    }

    /// Strict order on keys: integral part first, then fractional.
    pub open spec fn spec_lt(self, other: Price) -> bool {
        ||| self.integral < other.integral
        ||| (self.integral == other.integral && self.fractional < other.fractional)
    }

    /// Quantizes a price given in `PRICE_SCALE`ths of the quote asset.
    pub fn new(units: u64) -> (p: Price)
        ensures
            p == Price::from_units(units),
            p.wf(),
    {
        Price {
            integral: units / PRICE_SCALE,
            fractional: units % PRICE_SCALE,
            scalar: PRICE_SCALE,
        }
    }

    /// Compares two keys: integral part first, then fractional.
    pub fn lt(&self, other: &Price) -> (r: bool)
        ensures
            r == self.spec_lt(*other),
    {
        self.integral < other.integral
            || (self.integral == other.integral && self.fractional < other.fractional)
    }
}

/// Constructing a price key is deterministic: equal prices give
/// equal keys, so a key is usable as a price-level bucket key.
pub proof fn lemma_price_key_deterministic(u1: u64, u2: u64)
    requires
        u1 == u2,
    ensures
        Price::from_units(u1) == Price::from_units(u2),
{
}

/// Ordering fidelity: a strictly lower price quantizes to a strictly
/// lower key. (Prices are given in whole `PRICE_SCALE`ths, so no two
/// distinct inputs collide by truncation.)
pub proof fn lemma_price_key_ordering(u1: u64, u2: u64)
    requires
        u1 < u2,
    ensures
        Price::from_units(u1).spec_lt(Price::from_units(u2)),
{
    let s = PRICE_SCALE as int;
    lemma_fundamental_div_mod(u1 as int, s);
    lemma_fundamental_div_mod(u2 as int, s);
    lemma_div_is_ordered(u1 as int, u2 as int, s);
}

/// A unit of trading intent: a side and a remaining quantity.
/// A size of zero means the order is filled.
#[derive(Clone, Copy, Debug)]
pub struct Order {
    pub size: u64,
    pub bid_or_ask: BidOrAsk,
}

impl Order {
    /// A fresh order with the given side and remaining size.
    pub fn new(bid_or_ask: BidOrAsk, size: u64) -> (o: Order)
        ensures
            o.size == size,
            o.bid_or_ask == bid_or_ask,
    {
        Order { size, bid_or_ask }
    }

    /// True exactly when nothing of the order remains.
    pub fn is_filled(&self) -> (r: bool)
        ensures
            r == (self.size == 0),
    {
        self.size == 0
    }
}

/// The greedy FIFO fill of an incoming order `m` against the resting
/// orders `s`, head first: each step trades the lesser of the two
/// remaining sizes, until the incoming order is exhausted or no
/// resting order is left. Returns the resting orders and the incoming
/// order as they stand afterwards.
pub open spec fn fill_orders(s: Seq<Order>, m: Order) -> (Seq<Order>, Order)
    decreases s.len(),
{
    if s.len() == 0 {
        (s, m)
    } else {
        let a = s[0];
        if m.size >= a.size {
            let m1 = Order { size: (m.size - a.size) as u64, bid_or_ask: m.bid_or_ask };
            let r = fill_orders(s.skip(1), m1);
            (seq![Order { size: 0u64, bid_or_ask: a.bid_or_ask }] + r.0, r.1)
        } else {
            (
                seq![Order { size: (a.size - m.size) as u64, bid_or_ask: a.bid_or_ask }]
                    + s.skip(1),
                Order { size: 0u64, bid_or_ask: m.bid_or_ask },
            )
        }
    }
}

/// A filled incoming order consumes nothing: the fill leaves every
/// resting order as it stands.
pub proof fn lemma_fill_orders_filled(s: Seq<Order>, m: Order)
    requires
        m.size == 0,
    ensures
        fill_orders(s, m).0 == s,
        fill_orders(s, m).1 == m,
    decreases s.len(),
{
    if s.len() != 0 {
        let a = s[0];
        if a.size == 0 {
            let m1 = Order { size: 0u64, bid_or_ask: m.bid_or_ask };
            assert(m1 == m);
            lemma_fill_orders_filled(s.skip(1), m1);
            assert(Order { size: 0u64, bid_or_ask: a.bid_or_ask } == a);
            assert(seq![a] + s.skip(1) =~= s);
        } else {
            assert(Order { size: (a.size - m.size) as u64, bid_or_ask: a.bid_or_ask } == a);
            assert(seq![a] + s.skip(1) =~= s);
        }
    }
}

/// A fill never adds or removes resting orders, never flips a side,
/// and never grows any remaining size.
pub proof fn lemma_fill_orders_shape(s: Seq<Order>, m: Order)
    ensures
        fill_orders(s, m).0.len() == s.len(),
        forall|i: int|
            0 <= i < s.len() ==> #[trigger] fill_orders(s, m).0[i].bid_or_ask
                == s[i].bid_or_ask,
        forall|i: int| 0 <= i < s.len() ==> #[trigger] fill_orders(s, m).0[i].size <= s[i].size,
        fill_orders(s, m).1.bid_or_ask == m.bid_or_ask,
        fill_orders(s, m).1.size <= m.size,
    decreases s.len(),
{
    if s.len() != 0 {
        let a = s[0];
        if m.size >= a.size {
            let m1 = Order { size: (m.size - a.size) as u64, bid_or_ask: m.bid_or_ask };
            lemma_fill_orders_shape(s.skip(1), m1);
        }
    }
}

/// The sum of the remaining sizes of a queue of orders.
pub open spec fn sum_sizes(s: Seq<Order>) -> int
    decreases s.len(),
{
    if s.len() == 0 {
        0
    } else {
        sum_sizes(s.drop_last()) + s.last().size
    }
}

/// Summing remaining sizes distributes over concatenation.
pub proof fn lemma_sum_sizes_concat(a: Seq<Order>, b: Seq<Order>)
    ensures
        sum_sizes(a + b) == sum_sizes(a) + sum_sizes(b),
    decreases b.len(),
{
    if b.len() == 0 {
        assert(a + b =~= a);
    } else {
        lemma_sum_sizes_concat(a, b.drop_last());
        assert((a + b).drop_last() =~= a + b.drop_last());
        assert((a + b).last() == b.last());
    }
}

/// A queue of one order holds that order's remaining size.
pub proof fn lemma_sum_sizes_singleton(o: Order)
    ensures
        sum_sizes(seq![o]) == o.size,
{
    let s = seq![o];
    assert(s.drop_last() =~= Seq::<Order>::empty());
    assert(s.last() == o);
    assert(sum_sizes(s) == sum_sizes(s.drop_last()) + s.last().size);
}

/// Partial-fill accounting balances: across a fill, what the resting
/// orders lose in total is exactly what the incoming order loses.
pub proof fn lemma_fill_orders_conservation(s: Seq<Order>, m: Order)
    ensures
        sum_sizes(s) - sum_sizes(fill_orders(s, m).0) == m.size - fill_orders(s, m).1.size,
    decreases s.len(),
{
    if s.len() != 0 {
        let a = s[0];
        assert(s =~= seq![a] + s.skip(1));
        lemma_sum_sizes_concat(seq![a], s.skip(1));
        lemma_sum_sizes_singleton(a);
        if m.size >= a.size {
            let m1 = Order { size: (m.size - a.size) as u64, bid_or_ask: m.bid_or_ask };
            let zeroed = Order { size: 0u64, bid_or_ask: a.bid_or_ask };
            let r = fill_orders(s.skip(1), m1);
            lemma_fill_orders_conservation(s.skip(1), m1);
            lemma_sum_sizes_concat(seq![zeroed], r.0);
            lemma_sum_sizes_singleton(zeroed);
        } else {
            let red = Order { size: (a.size - m.size) as u64, bid_or_ask: a.bid_or_ask };
            lemma_sum_sizes_concat(seq![red], s.skip(1));
            lemma_sum_sizes_singleton(red);
        }
    }
}

/// An unfilled remainder means the level is exhausted: when a fill
/// ends with the incoming order still open, every resting order in
/// the queue was consumed down to zero.
pub proof fn lemma_fill_orders_exhaustion(s: Seq<Order>, m: Order)
    requires
        fill_orders(s, m).1.size > 0,
    ensures
        forall|i: int| 0 <= i < s.len() ==> (#[trigger] fill_orders(s, m).0[i]).size == 0,
    decreases s.len(),
{
    lemma_fill_orders_shape(s, m);
    if s.len() != 0 {
        let a = s[0];
        if m.size >= a.size {
            let m1 = Order { size: (m.size - a.size) as u64, bid_or_ask: m.bid_or_ask };
            let zeroed = Order { size: 0u64, bid_or_ask: a.bid_or_ask };
            let r = fill_orders(s.skip(1), m1);
            lemma_fill_orders_exhaustion(s.skip(1), m1);
            lemma_fill_orders_shape(s.skip(1), m1);
            assert forall|i: int| 0 <= i < s.len() implies (#[trigger] fill_orders(s, m).0[i]).size
                == 0 by {
                if i == 0 {
                    assert(fill_orders(s, m).0[0] == zeroed);
                } else {
                    assert(fill_orders(s, m).0[i] == r.0[i - 1]);
                }
            }
        }
    }
}

/// Total volume is additive: appending an order to a queue grows the
/// queue's total by exactly that order's remaining size — and since a
/// level never removes an order, a level's total volume is the sum of
/// the remaining sizes of every order ever added to it, filled
/// (zero-size) orders included.
pub proof fn lemma_total_volume_additive(s: Seq<Order>, o: Order)
    ensures
        sum_sizes(s.push(o)) == sum_sizes(s) + o.size,
{
    assert(s.push(o).drop_last() =~= s);
}

/// The abstract state of a price level: its key and its FIFO queue.
#[verifier::ext_equal]
pub struct LimitView {
    pub price: Price,
    pub orders: Seq<Order>,
}

/// A price level: a FIFO queue of resting orders at one price key.
/// Filled orders stay in the queue; nothing is ever removed.
#[derive(Debug)]
pub struct Limit {
    pub price: Price,
    pub orders: Vec<Order>,
}

impl View for Limit {
    type V = LimitView;

    open spec fn view(&self) -> LimitView {
        LimitView { price: self.price, orders: self.orders@ }
    }
}

impl Limit {
    /// An empty price level at the given key.
    pub fn new(price: Price) -> (l: Limit)
        ensures
            l.price == price,
            l.orders@ == Seq::<Order>::empty(),
    {
        Limit { price, orders: Vec::new() }
    }

    /// Appends an order at the tail of the level's queue. The caller
    /// is responsible for the order's side matching the side of the
    /// book the level belongs to.
    pub fn add_order(&mut self, order: Order)
        ensures
            final(self).price == old(self).price,
            final(self).orders@ == old(self).orders@.push(order),
    {
        self.orders.push(order);
    }

    /// The sum of the remaining sizes of every order in the queue,
    /// filled (zero-size) orders included.
    pub fn total_volume(&self) -> (r: u128)
        ensures
            r == sum_sizes(self.orders@),
    {
        let ghost s = self.orders@;
        let n = self.orders.len();
        let mut total: u128 = 0;
        let mut i: usize = 0;
        while i < n
            invariant
                i <= n,
                n == s.len(),
                self.orders@ == s,
                total == sum_sizes(s.take(i as int)),
                total <= i * u64::MAX,
            decreases n - i,
        {
            proof {
                assert(s.take(i + 1).drop_last() =~= s.take(i as int));
                assert(s.take(i + 1).last() == s[i as int]);
            }
            total = total + self.orders[i].size as u128;
            i = i + 1;
        }
        proof {
            assert(s.take(n as int) =~= s);
        }
        total
    }

    /// Fills the incoming order against this level's queue, head
    /// first: the greedy FIFO fill of `fill_orders`. Resting orders
    /// past the point where the incoming order is exhausted are left
    /// untouched, filled ones included.
    pub fn fill_order(&mut self, market_order: &mut Order)
        ensures
            final(self).price == old(self).price,
            final(self).orders@ == fill_orders(old(self).orders@, *old(market_order)).0,
            *final(market_order) == fill_orders(old(self).orders@, *old(market_order)).1,
    {
        let ghost s0 = self.orders@;
        let ghost m0 = *market_order;
        let ghost p0 = self.price;
        let n = self.orders.len();
        let mut i: usize = 0;
        proof {
            assert(s0.skip(0) =~= s0);
            assert(self.orders@.take(0) + fill_orders(s0, m0).0 =~= fill_orders(s0, m0).0);
        }
        while i < n && market_order.size > 0
            invariant
                i <= n,
                n == self.orders.len(),
                n == s0.len(),
                self.price == p0,
                market_order.bid_or_ask == m0.bid_or_ask,
                forall|j: int| i <= j < n ==> self.orders@[j] == s0[j],
                fill_orders(s0, m0).0 == self.orders@.take(i as int)
                    + fill_orders(s0.skip(i as int), *market_order).0,
                fill_orders(s0, m0).1 == fill_orders(s0.skip(i as int), *market_order).1,
            decreases n - i,
        {
            let ghost m_pre = *market_order;
            let ghost orders_pre = self.orders@;
            let a = self.orders[i];
            proof {
                assert(s0.skip(i as int)[0] == s0[i as int]);
                assert(s0.skip(i as int).skip(1) =~= s0.skip(i + 1));
            }
            if market_order.size >= a.size {
                market_order.size = market_order.size - a.size;
                self.orders[i] = Order { size: 0, bid_or_ask: a.bid_or_ask };
                proof {
                    assert(self.orders@.take(i + 1) =~= orders_pre.take(i as int)
                        + seq![Order { size: 0u64, bid_or_ask: a.bid_or_ask }]);
                }
            } else {
                self.orders[i] = Order {
                    size: a.size - market_order.size,
                    bid_or_ask: a.bid_or_ask,
                };
                market_order.size = 0;
                proof {
                    assert(*market_order == Order { size: 0u64, bid_or_ask: m_pre.bid_or_ask });
                    lemma_fill_orders_filled(s0.skip(i + 1), *market_order);
                    assert(self.orders@.take(i + 1) =~= orders_pre.take(i as int)
                        + seq![Order {
                            size: (s0[i as int].size - m_pre.size) as u64,
                            bid_or_ask: a.bid_or_ask,
                        }]);
                }
            }
            i = i + 1;
        }
        proof {
            if i == n {
                assert(s0.skip(n as int) =~= Seq::<Order>::empty());
                assert(self.orders@.take(n as int) =~= self.orders@);
            } else {
                lemma_fill_orders_filled(s0.skip(i as int), *market_order);
                assert(self.orders@ =~= self.orders@.take(i as int) + s0.skip(i as int));
            }
        }
    }
}

/// The abstract states of a sequence of price levels.
pub open spec fn lvs(s: Seq<Limit>) -> Seq<LimitView> {
    s.map_values(|l: Limit| l@)
}

/// Whether a level at price `a` is enumerated before one at price `b`
/// on the given side: ascending for asks (lowest ask is best),
/// descending for bids (highest bid is best).
pub open spec fn level_before(side: BidOrAsk, a: Price, b: Price) -> bool {
    match side {
        BidOrAsk::Ask => a.spec_lt(b),
        BidOrAsk::Bid => b.spec_lt(a),
    }
}

/// Levels in strictly best-price-first order for the given side,
/// with no price appearing twice.
pub open spec fn sorted_levels(side: BidOrAsk, s: Seq<LimitView>) -> bool {
    forall|i: int, j: int|
        0 <= i < j < s.len() ==> level_before(side, s[i].price, s[j].price)
}

/// Every level's price key is well-formed.
pub open spec fn prices_wf(s: Seq<LimitView>) -> bool {
    forall|i: int| 0 <= i < s.len() ==> (#[trigger] s[i].price).wf()
}

/// Every order in the queue has the given side.
pub open spec fn orders_side(q: Seq<Order>, side: BidOrAsk) -> bool {
    forall|i: int| 0 <= i < q.len() ==> (#[trigger] q[i]).bid_or_ask == side
}

/// Every order in every level has the given side.
pub open spec fn levels_side(s: Seq<LimitView>, side: BidOrAsk) -> bool {
    forall|i: int| 0 <= i < s.len() ==> orders_side((#[trigger] s[i]).orders, side)
}

/// Well-formed price keys are totally ordered on each side's
/// enumeration order: when `a` does not come before `b` and the two
/// differ, `b` comes before `a`.
pub proof fn lemma_level_before_total(side: BidOrAsk, a: Price, b: Price)
    requires
        a.wf(),
        b.wf(),
        !level_before(side, a, b),
        a != b,
    ensures
        level_before(side, b, a),
{
}

/// The placement of a new resting order among the levels of one side,
/// kept in best-price-first order: the order joins the tail of the
/// level at its price key, or a fresh level is created for it at the
/// position its price key orders it to.
pub open spec fn add_to_levels(side: BidOrAsk, s: Seq<LimitView>, p: Price, o: Order) -> Seq<
    LimitView,
>
    decreases s.len(),
{
    if s.len() == 0 {
        seq![LimitView { price: p, orders: seq![o] }]
    } else if level_before(side, s[0].price, p) {
        seq![s[0]] + add_to_levels(side, s.skip(1), p, o)
    } else if s[0].price == p {
        seq![LimitView { price: p, orders: s[0].orders.push(o) }] + s.skip(1)
    } else {
        seq![LimitView { price: p, orders: seq![o] }] + s
    }
}

/// Splits the placement of an order at a scan position: levels known
/// to come before the new order's price are kept as a prefix.
pub proof fn lemma_add_to_levels_split(side: BidOrAsk, s: Seq<LimitView>, p: Price, o: Order, i: int)
    requires
        0 <= i <= s.len(),
        forall|j: int| 0 <= j < i ==> level_before(side, s[j].price, p),
    ensures
        add_to_levels(side, s, p, o) == s.take(i) + add_to_levels(side, s.skip(i), p, o),
    decreases i,
{
    if i == 0 {
        assert(s.skip(0) =~= s);
        assert(s.take(0) + add_to_levels(side, s, p, o) =~= add_to_levels(side, s, p, o));
    } else {
        lemma_add_to_levels_split(side, s.skip(1), p, o, i - 1);
        assert(s.skip(1).skip(i - 1) =~= s.skip(i));
        assert(s.take(i) =~= seq![s[0]] + s.skip(1).take(i - 1));
        assert(seq![s[0]] + (s.skip(1).take(i - 1) + add_to_levels(side, s.skip(i), p, o))
            =~= s.take(i) + add_to_levels(side, s.skip(i), p, o));
    }
}

/// The greedy best-price-first fill of an incoming order against a
/// side's levels, in enumeration order: each level is drained FIFO
/// until the incoming order is exhausted or no level is left.
pub open spec fn fill_levels(ls: Seq<LimitView>, m: Order) -> (Seq<LimitView>, Order)
    decreases ls.len(),
{
    if ls.len() == 0 {
        (ls, m)
    } else {
        let r0 = fill_orders(ls[0].orders, m);
        let rest = fill_levels(ls.skip(1), r0.1);
        (seq![LimitView { price: ls[0].price, orders: r0.0 }] + rest.0, rest.1)
    }
}

/// A filled incoming order consumes nothing from any level.
pub proof fn lemma_fill_levels_filled(ls: Seq<LimitView>, m: Order)
    requires
        m.size == 0,
    ensures
        fill_levels(ls, m).0 == ls,
        fill_levels(ls, m).1 == m,
    decreases ls.len(),
{
    if ls.len() != 0 {
        lemma_fill_orders_filled(ls[0].orders, m);
        lemma_fill_levels_filled(ls.skip(1), m);
        assert(LimitView { price: ls[0].price, orders: ls[0].orders } =~= ls[0]);
        assert(seq![ls[0]] + ls.skip(1) =~= ls);
    }
}

/// A fill across levels keeps every level's price and every order's
/// side, and never adds or removes a level or an order.
pub proof fn lemma_fill_levels_shape(ls: Seq<LimitView>, m: Order)
    ensures
        fill_levels(ls, m).0.len() == ls.len(),
        forall|i: int|
            0 <= i < ls.len() ==> (#[trigger] fill_levels(ls, m).0[i]).price == ls[i].price,
        forall|i: int|
            0 <= i < ls.len() ==> (#[trigger] fill_levels(ls, m).0[i]).orders.len()
                == ls[i].orders.len(),
        forall|i: int, j: int|
            0 <= i < ls.len() && 0 <= j < ls[i].orders.len()
                ==> (#[trigger] fill_levels(ls, m).0[i].orders[j]).bid_or_ask
                == ls[i].orders[j].bid_or_ask,
        fill_levels(ls, m).1.bid_or_ask == m.bid_or_ask,
        fill_levels(ls, m).1.size <= m.size,
    decreases ls.len(),
{
    if ls.len() != 0 {
        let r0 = fill_orders(ls[0].orders, m);
        lemma_fill_orders_shape(ls[0].orders, m);
        lemma_fill_levels_shape(ls.skip(1), r0.1);
    }
}

/// The total resting volume across a side's levels.
pub open spec fn sum_levels(ls: Seq<LimitView>) -> int
    decreases ls.len(),
{
    if ls.len() == 0 {
        0
    } else {
        sum_levels(ls.drop_last()) + sum_sizes(ls.last().orders)
    }
}

/// Summing resting volume distributes over concatenation of levels.
pub proof fn lemma_sum_levels_concat(a: Seq<LimitView>, b: Seq<LimitView>)
    ensures
        sum_levels(a + b) == sum_levels(a) + sum_levels(b),
    decreases b.len(),
{
    if b.len() == 0 {
        assert(a + b =~= a);
    } else {
        lemma_sum_levels_concat(a, b.drop_last());
        assert((a + b).drop_last() =~= a + b.drop_last());
        assert((a + b).last() == b.last());
    }
}

/// Partial-fill accounting balances across a whole side: what the
/// side's levels lose in total resting volume is exactly what the
/// incoming market order loses.
pub proof fn lemma_fill_levels_conservation(ls: Seq<LimitView>, m: Order)
    ensures
        sum_levels(ls) - sum_levels(fill_levels(ls, m).0) == m.size - fill_levels(ls, m).1.size,
    decreases ls.len(),
{
    if ls.len() != 0 {
        let r0 = fill_orders(ls[0].orders, m);
        let rest = fill_levels(ls.skip(1), r0.1);
        let l1 = LimitView { price: ls[0].price, orders: r0.0 };
        lemma_fill_orders_conservation(ls[0].orders, m);
        lemma_fill_levels_conservation(ls.skip(1), r0.1);
        assert(ls =~= seq![ls[0]] + ls.skip(1));
        lemma_sum_levels_concat(seq![ls[0]], ls.skip(1));
        lemma_sum_levels_concat(seq![l1], rest.0);
        lemma_sum_levels_singleton(ls[0]);
        lemma_sum_levels_singleton(l1);
    }
}

/// A side of one level holds that level's resting volume.
pub proof fn lemma_sum_levels_singleton(l: LimitView)
    ensures
        sum_levels(seq![l]) == sum_sizes(l.orders),
{
    let s = seq![l];
    assert(s.drop_last() =~= Seq::<LimitView>::empty());
    assert(s.last() == l);
    assert(sum_levels(s) == sum_levels(s.drop_last()) + sum_sizes(s.last().orders));
}

/// An unfilled remainder means the whole side is exhausted: when a
/// market order ends a fill still open, every resting order in every
/// level of the opposite side was consumed down to zero.
pub proof fn lemma_fill_levels_exhaustion(ls: Seq<LimitView>, m: Order)
    requires
        fill_levels(ls, m).1.size > 0,
    ensures
        forall|i: int, j: int|
            0 <= i < ls.len() && 0 <= j < fill_levels(ls, m).0[i].orders.len()
                ==> (#[trigger] fill_levels(ls, m).0[i].orders[j]).size == 0,
    decreases ls.len(),
{
    if ls.len() != 0 {
        let r0 = fill_orders(ls[0].orders, m);
        let rest = fill_levels(ls.skip(1), r0.1);
        let l1 = LimitView { price: ls[0].price, orders: r0.0 };
        lemma_fill_levels_shape(ls.skip(1), r0.1);
        lemma_fill_orders_shape(ls[0].orders, m);
        lemma_fill_orders_exhaustion(ls[0].orders, m);
        lemma_fill_levels_exhaustion(ls.skip(1), r0.1);
        assert forall|i: int, j: int|
            0 <= i < ls.len() && 0 <= j < fill_levels(ls, m).0[i].orders.len() implies (
        #[trigger] fill_levels(ls, m).0[i].orders[j]).size == 0 by {
            if i == 0 {
                assert(fill_levels(ls, m).0[0] == l1);
                assert(fill_orders(ls[0].orders, m).0[j].size == 0);
            } else {
                assert(fill_levels(ls, m).0[i] == rest.0[i - 1]);
                assert(fill_levels(ls.skip(1), r0.1).0[i - 1].orders[j].size == 0);
            }
        }
    }
}

/// The abstract state of an order book: the levels of each side, in
/// best-price-first enumeration order.
#[verifier::ext_equal]
pub struct BookView {
    pub bids: Seq<LimitView>,
    pub asks: Seq<LimitView>,
}

/// The abstract state of a book with no resting liquidity.
pub open spec fn empty_book() -> BookView {
    BookView { bids: Seq::<LimitView>::empty(), asks: Seq::<LimitView>::empty() }
}

/// The abstract effect of placing a resting limit order: the order
/// is placed among its own side's levels; the other side is
/// untouched.
pub open spec fn book_add(b: BookView, units: u64, o: Order) -> BookView {
    match o.bid_or_ask {
        BidOrAsk::Bid => BookView {
            bids: add_to_levels(BidOrAsk::Bid, b.bids, Price::from_units(units), o),
            asks: b.asks,
        },
        BidOrAsk::Ask => BookView {
            bids: b.bids,
            asks: add_to_levels(BidOrAsk::Ask, b.asks, Price::from_units(units), o),
        },
    }
}

/// An order book: the resting liquidity of one market, held as two
/// independent collections of price levels, one per side. Each side
/// is kept in best-price-first order: bids descending, asks
/// ascending.
#[derive(Debug)]
pub struct OrderBook {
    pub bids: Vec<Limit>,
    pub asks: Vec<Limit>,
}

impl View for OrderBook {
    type V = BookView;

    open spec fn view(&self) -> BookView {
        BookView { bids: lvs(self.bids@), asks: lvs(self.asks@) }
    }
}

/// Scans one side for the position of a price key in the side's
/// enumeration order: the first level not strictly before `price`.
fn find_level_pos(levels: &Vec<Limit>, side: BidOrAsk, price: &Price) -> (i: usize)
    ensures
        i <= levels@.len(),
        forall|j: int| 0 <= j < i ==> level_before(side, lvs(levels@)[j].price, *price),
        i < levels@.len() ==> !level_before(side, lvs(levels@)[i as int].price, *price),
{
    let n = levels.len();
    let mut i: usize = 0;
    while i < n
        invariant
            i <= n,
            n == levels@.len(),
            forall|j: int| 0 <= j < i ==> level_before(side, lvs(levels@)[j].price, *price),
        decreases n - i,
    {
        let goes_before = match side {
            BidOrAsk::Ask => levels[i].price.lt(price),
            BidOrAsk::Bid => price.lt(&levels[i].price),
        };
        if !goes_before {
            return i;
        }
        i = i + 1;
    }
    i
}

/// Places a resting order among one side's levels, keeping the side
/// in strictly best-price-first order.
fn insert_into_levels(levels: &mut Vec<Limit>, side: BidOrAsk, price: Price, order: Order)
    requires
        sorted_levels(side, lvs(old(levels)@)),
        prices_wf(lvs(old(levels)@)),
        levels_side(lvs(old(levels)@), side),
        price.wf(),
        order.bid_or_ask == side,
    ensures
        lvs(final(levels)@) == add_to_levels(side, lvs(old(levels)@), price, order),
        sorted_levels(side, lvs(final(levels)@)),
        prices_wf(lvs(final(levels)@)),
        levels_side(lvs(final(levels)@), side),
{
    let ghost lv0 = lvs(levels@);
    let i = find_level_pos(levels, side, &price);
    proof {
        lemma_add_to_levels_split(side, lv0, price, order, i as int);
    }
    if i < levels.len() && levels[i].price == price {
        let mut l = levels.remove(i);
        l.add_order(order);
        levels.insert(i, l);
        proof {
            assert(lv0.skip(i as int)[0] == lv0[i as int]);
            assert(lv0.skip(i as int).skip(1) =~= lv0.skip(i + 1));
            assert(!level_before(side, lv0[i as int].price, price));
            assert(add_to_levels(side, lv0.skip(i as int), price, order)
                =~= seq![LimitView { price, orders: lv0[i as int].orders.push(order) }]
                + lv0.skip(i + 1));
            assert(lvs(levels@) =~= lv0.take(i as int)
                + add_to_levels(side, lv0.skip(i as int), price, order));
            assert(lvs(levels@) =~= lv0.update(
                i as int,
                LimitView { price, orders: lv0[i as int].orders.push(order) },
            ));
        }
    } else {
        let mut l = Limit::new(price);
        l.add_order(order);
        levels.insert(i, l);
        proof {
            let nl = LimitView { price, orders: seq![order] };
            assert(l@ =~= nl);
            if i < lv0.len() {
                assert(lv0.skip(i as int)[0] == lv0[i as int]);
                assert(!level_before(side, lv0[i as int].price, price));
                assert(lv0[i as int].price != price);
                lemma_level_before_total(side, lv0[i as int].price, price);
            }
            assert(add_to_levels(side, lv0.skip(i as int), price, order)
                =~= seq![nl] + lv0.skip(i as int));
            assert(lvs(levels@) =~= lv0.take(i as int) + (seq![nl] + lv0.skip(i as int)));
            // The new level stands strictly between the scanned prefix
            // and the rest of the side, so the side stays sorted.
            assert forall|x: int, y: int|
                0 <= x < y < lvs(levels@).len() implies level_before(
                side,
                lvs(levels@)[x].price,
                lvs(levels@)[y].price,
            ) by {
                let s = lvs(levels@);
                if x < i && y == i {
                    assert(s[x] == lv0[x]);
                } else if x == i && y > i {
                    assert(s[y] == lv0[y - 1]);
                    assert(level_before(side, price, lv0[i as int].price));
                    if y - 1 > i {
                        assert(level_before(side, lv0[i as int].price, lv0[y - 1].price));
                    }
                    assert(level_before(side, price, lv0[y - 1].price));
                }
            }
        }
    }
}

/// Drains the incoming order against a side's levels in enumeration
/// (best-price-first) order, stopping once the incoming order is
/// filled; the remaining levels are left untouched.
fn fill_side_levels(levels: &mut Vec<Limit>, market_order: &mut Order)
    ensures
        lvs(final(levels)@) == fill_levels(lvs(old(levels)@), *old(market_order)).0,
        *final(market_order) == fill_levels(lvs(old(levels)@), *old(market_order)).1,
{
    let ghost lv0 = lvs(levels@);
    let ghost m0 = *market_order;
    let n = levels.len();
    let mut i: usize = 0;
    proof {
        assert(lv0.skip(0) =~= lv0);
        assert(lvs(levels@).take(0) + fill_levels(lv0, m0).0 =~= fill_levels(lv0, m0).0);
    }
    while i < n && market_order.size > 0
        invariant
            i <= n,
            n == levels@.len(),
            n == lv0.len(),
            market_order.bid_or_ask == m0.bid_or_ask,
            forall|j: int| i <= j < n ==> lvs(levels@)[j] == lv0[j],
            fill_levels(lv0, m0).0 == lvs(levels@).take(i as int)
                + fill_levels(lv0.skip(i as int), *market_order).0,
            fill_levels(lv0, m0).1 == fill_levels(lv0.skip(i as int), *market_order).1,
        decreases n - i,
    {
        let ghost m_pre = *market_order;
        let ghost pre = lvs(levels@);
        proof {
            assert(lv0.skip(i as int)[0] == lv0[i as int]);
            assert(lv0.skip(i as int).skip(1) =~= lv0.skip(i + 1));
        }
        let mut l = levels.remove(i);
        l.fill_order(market_order);
        levels.insert(i, l);
        proof {
            lemma_fill_orders_shape(lv0[i as int].orders, m_pre);
            if market_order.size == 0 {
                lemma_fill_levels_filled(lv0.skip(i + 1), *market_order);
            }
            assert(lvs(levels@).take(i + 1) =~= pre.take(i as int)
                + seq![LimitView {
                    price: lv0[i as int].price,
                    orders: fill_orders(lv0[i as int].orders, m_pre).0,
                }]);
        }
        i = i + 1;
    }
    proof {
        if i == n {
            assert(lv0.skip(n as int) =~= Seq::<LimitView>::empty());
            assert(lvs(levels@).take(n as int) =~= lvs(levels@));
        } else {
            lemma_fill_levels_filled(lv0.skip(i as int), *market_order);
            assert(lvs(levels@) =~= lvs(levels@).take(i as int) + lv0.skip(i as int));
        }
    }
}

impl OrderBook {
    /// A well-formed book: each side in strictly best-price-first
    /// order with well-formed price keys, every resting bid on the
    /// bid side and every resting ask on the ask side.
    pub open spec fn wf(self) -> bool {
        &&& sorted_levels(BidOrAsk::Bid, self@.bids)
        &&& sorted_levels(BidOrAsk::Ask, self@.asks)
        &&& prices_wf(self@.bids)
        &&& prices_wf(self@.asks)
        &&& levels_side(self@.bids, BidOrAsk::Bid)
        &&& levels_side(self@.asks, BidOrAsk::Ask)
    }

    /// An empty book: no resting liquidity on either side.
    pub fn new() -> (b: OrderBook)
        ensures
            b@ == empty_book(),
            b.wf(),
    {
        let b = OrderBook { bids: Vec::new(), asks: Vec::new() };
        proof {
            assert(b@ =~= empty_book());
        }
        b
    }

    /// Places a resting limit order at the given price, quantized to
    /// a price key: the order joins the tail of its side's level at
    /// that key, or a fresh level is created for it at the position
    /// the key orders it to. The other side is untouched.
    pub fn add_order(&mut self, price_units: u64, order: Order)
        requires
            old(self).wf(),
        ensures
            final(self).wf(),
            final(self)@ == book_add(old(self)@, price_units, order),
    {
        let price = Price::new(price_units);
        match order.bid_or_ask {
            BidOrAsk::Bid => insert_into_levels(&mut self.bids, BidOrAsk::Bid, price, order),
            BidOrAsk::Ask => insert_into_levels(&mut self.asks, BidOrAsk::Ask, price, order),
        }
        proof {
            assert(self@ =~= book_add(old(self)@, price_units, order));
        }
    }

    /// All ask-side levels, best (lowest) price first.
    pub fn ask_limits(&self) -> (r: &Vec<Limit>)
        requires
            self.wf(),
        ensures
            lvs(r@) == self@.asks,
            sorted_levels(BidOrAsk::Ask, lvs(r@)),
    {
        &self.asks
    }

    /// All bid-side levels, best (highest) price first.
    pub fn bid_limits(&self) -> (r: &Vec<Limit>)
        requires
            self.wf(),
        ensures
            lvs(r@) == self@.bids,
            sorted_levels(BidOrAsk::Bid, lvs(r@)),
    {
        &self.bids
    }

    /// Executes an incoming market order against the opposite side's
    /// resting liquidity, best price first: a bid consumes ask levels
    /// from the lowest price up, an ask consumes bid levels from the
    /// highest price down. The moment the incoming order is filled
    /// the remaining levels are left untouched; if all levels are
    /// exhausted first, the unfilled remainder is simply left on the
    /// incoming order.
    pub fn fill_market_order(&mut self, market_order: &mut Order)
        requires
            old(self).wf(),
        ensures
            final(self).wf(),
            old(market_order).bid_or_ask == BidOrAsk::Bid ==> final(self)@.asks == fill_levels(
                old(self)@.asks,
                *old(market_order),
            ).0 && *final(market_order) == fill_levels(old(self)@.asks, *old(market_order)).1
                && final(self)@.bids == old(self)@.bids,
            old(market_order).bid_or_ask == BidOrAsk::Ask ==> final(self)@.bids == fill_levels(
                old(self)@.bids,
                *old(market_order),
            ).0 && *final(market_order) == fill_levels(old(self)@.bids, *old(market_order)).1
                && final(self)@.asks == old(self)@.asks,
    {
        match market_order.bid_or_ask {
            BidOrAsk::Bid => {
                fill_side_levels(&mut self.asks, market_order);
                proof {
                    lemma_fill_levels_shape(old(self)@.asks, *old(market_order));
                }
            },
            BidOrAsk::Ask => {
                fill_side_levels(&mut self.bids, market_order);
                proof {
                    lemma_fill_levels_shape(old(self)@.bids, *old(market_order));
                }
            },
        }
    }
}

} // verus!
