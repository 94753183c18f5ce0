//! The order book: two price-ordered sides of levels, submission with
//! matching, cancellation, and top-of-book queries, all specified against
//! recursive model functions over sequences of `LevelModel`.

use vstd::prelude::*;

use crate::level::{
    drain_fills, drain_limit, queue_after_drain, queue_has_id, queue_without_id, shares_after_drain,
    sum_shares, wf_queue, LevelModel, PriceLevel,
};
use crate::level::{
    lemma_drain_decreases, lemma_drain_partial_done, lemma_drain_wf_queue, lemma_queue_has_id_iff,
    lemma_queue_without_at, lemma_sum_shares_nonneg,
};
use crate::order::{Fill, Order, OrderBookError, Side};

verus! {

/// Whether price `a` is strictly better than `b` for resting orders on
/// `side`: higher buys and lower sells are filled first.
pub open spec fn better_price(side: Side, a: u64, b: u64) -> bool {
    match side {
        Side::Buy => a > b,
        Side::Sell => a < b,
    }
}

/// Whether an incoming order on `incoming` with limit `limit` (`None` for
/// a market order) is willing to trade at resting price `price`.
pub open spec fn crosses(incoming: Side, limit: Option<u64>, price: u64) -> bool {
    match limit {
        Option::None => true,
        Option::Some(l) => match incoming {
            Side::Buy => price <= l,
            Side::Sell => price >= l,
        },
    }
}

/// The abstract value of one book side: levels best-price-first.
pub open spec fn levels_model(v: Seq<PriceLevel>) -> Seq<LevelModel> {
    v.map_values(|l: PriceLevel| l@)
}

/// Well-formedness of one executable book side holding resting orders on
/// `side`: every level is internally consistent, non-empty and on that
/// side, and levels are strictly ordered best price first.
pub open spec fn levels_wf(v: Seq<PriceLevel>, side: Side) -> bool {
    &&& forall|i: int|
        0 <= i < v.len() ==> (#[trigger] v[i]).wf() && v[i].side == side && v[i].orders@.len() > 0
    &&& forall|i: int, j: int|
        0 <= i < j < v.len() ==> better_price(side, v[i].price, v[j].price)
}

/// Well-formedness of a model side: non-empty well-formed queues, strictly
/// ordered best price first.
pub open spec fn wf_side(m: Seq<LevelModel>, side: Side) -> bool {
    &&& forall|i: int|
        0 <= i < m.len() ==> (#[trigger] m[i]).queue.len() > 0 && m[i].price > 0 && wf_queue(
            m[i].queue,
            side,
            m[i].price,
        )
    &&& forall|i: int, j: int|
        0 <= i < j < m.len() ==> better_price(side, m[i].price, m[j].price)
}

/// The side after an incoming order for `s` shares matched against it,
/// draining whole levels best-price-first while the limit is satisfied.
pub open spec fn side_after_match(m: Seq<LevelModel>, incoming: Side, limit: Option<u64>, s: nat) -> Seq<
    LevelModel,
>
    decreases m.len(),
{
    if s == 0 || m.len() == 0 || !crosses(incoming, limit, m[0].price) {
        m
    } else {
        let q2 = queue_after_drain(m[0].queue, s);
        let s2 = shares_after_drain(m[0].queue, s);
        if q2.len() == 0 {
            side_after_match(m.skip(1), incoming, limit, s2)
        } else {
            m.update(0, LevelModel { price: m[0].price, queue: q2 })
        }
    }
}

/// The shares of the incoming order left unfilled by the match.
pub open spec fn shares_after_match(m: Seq<LevelModel>, incoming: Side, limit: Option<u64>, s: nat) -> nat
    decreases m.len(),
{
    if s == 0 || m.len() == 0 || !crosses(incoming, limit, m[0].price) {
        s
    } else {
        let q2 = queue_after_drain(m[0].queue, s);
        let s2 = shares_after_drain(m[0].queue, s);
        if q2.len() == 0 {
            shares_after_match(m.skip(1), incoming, limit, s2)
        } else {
            s2
        }
    }
}

/// The fills the match emits, in execution order.
pub open spec fn match_fills(
    m: Seq<LevelModel>,
    incoming: Side,
    limit: Option<u64>,
    s: nat,
    incoming_id: u64,
) -> Seq<Fill>
    decreases m.len(),
{
    if s == 0 || m.len() == 0 || !crosses(incoming, limit, m[0].price) {
        Seq::<Fill>::empty()
    } else {
        let q2 = queue_after_drain(m[0].queue, s);
        let s2 = shares_after_drain(m[0].queue, s);
        let f0 = drain_fills(m[0].queue, s, incoming_id, m[0].price);
        if q2.len() == 0 {
            f0 + match_fills(m.skip(1), incoming, limit, s2, incoming_id)
        } else {
            f0
        }
    }
}

/// A fresh level holding exactly one order.
pub open spec fn singleton_level(o: Order) -> LevelModel {
    LevelModel { price: o.limit_price, queue: seq![o] }
}

/// The side after a resting order is inserted: appended at the tail of its
/// price's queue, or in a fresh level at its sorted position.
pub open spec fn side_after_insert(m: Seq<LevelModel>, o: Order) -> Seq<LevelModel>
    decreases m.len(),
{
    if m.len() == 0 {
        seq![singleton_level(o)]
    } else if better_price(o.side, o.limit_price, m[0].price) {
        seq![singleton_level(o)] + m
    } else if o.limit_price == m[0].price {
        m.update(0, LevelModel { price: m[0].price, queue: m[0].queue.push(o) })
    } else {
        seq![m[0]] + side_after_insert(m.skip(1), o)
    }
}

/// Whether resting `o` would push its level's aggregates past `u64::MAX`.
pub open spec fn side_insert_overflows(m: Seq<LevelModel>, o: Order) -> bool
    decreases m.len(),
{
    if m.len() == 0 || better_price(o.side, o.limit_price, m[0].price) {
        o.limit_price * o.shares > u64::MAX
    } else if o.limit_price == m[0].price {
        sum_shares(m[0].queue) + o.shares > u64::MAX || o.limit_price * (sum_shares(m[0].queue)
            + o.shares) > u64::MAX
    } else {
        side_insert_overflows(m.skip(1), o)
    }
}

/// Whether some level of the side holds an order carrying `id`.
pub open spec fn side_has_id(m: Seq<LevelModel>, id: u64) -> bool
    decreases m.len(),
{
    if m.len() == 0 {
        false
    } else {
        queue_has_id(m[0].queue, id) || side_has_id(m.skip(1), id)
    }
}

/// The side after the order carrying `id` is cancelled: it leaves its
/// queue, and its level leaves the side if that empties the queue.
pub open spec fn side_after_cancel(m: Seq<LevelModel>, id: u64) -> Seq<LevelModel>
    decreases m.len(),
{
    if m.len() == 0 {
        m
    } else if queue_has_id(m[0].queue, id) {
        let q2 = queue_without_id(m[0].queue, id);
        if q2.len() == 0 {
            m.skip(1)
        } else {
            m.update(0, LevelModel { price: m[0].price, queue: q2 })
        }
    } else {
        seq![m[0]] + side_after_cancel(m.skip(1), id)
    }
}

/// The level resting at `price`, if one does.
pub open spec fn side_level_at(m: Seq<LevelModel>, price: u64) -> Option<LevelModel>
    decreases m.len(),
{
    if m.len() == 0 {
        Option::None
    } else if m[0].price == price {
        Option::Some(m[0])
    } else {
        side_level_at(m.skip(1), price)
    }
}

/// Total resting shares of a whole side.
pub open spec fn side_total_shares(m: Seq<LevelModel>) -> int
    decreases m.len(),
{
    if m.len() == 0 {
        0
    } else {
        sum_shares(m[0].queue) + side_total_shares(m.skip(1))
    }
}

/// The order book: all resting liquidity, both sides held best-price-first.
pub struct OrderBook {
    /// Buy levels, highest price first.
    pub bids: Vec<PriceLevel>,
    /// Sell levels, lowest price first.
    pub asks: Vec<PriceLevel>,
}

impl OrderBook {
    pub open spec fn bids_model(self) -> Seq<LevelModel> {
        levels_model(self.bids@)
    }

    pub open spec fn asks_model(self) -> Seq<LevelModel> {
        levels_model(self.asks@)
    }

    /// The model of the side resting orders of `side` live on.
    pub open spec fn side_model(self, side: Side) -> Seq<LevelModel> {
        match side {
            Side::Buy => self.bids_model(),
            Side::Sell => self.asks_model(),
        }
    }

    /// Whether an order carrying `id` rests anywhere in the book.
    pub open spec fn book_has_id(self, id: u64) -> bool {
        side_has_id(self.bids_model(), id) || side_has_id(self.asks_model(), id)
    }

    /// Both sides well-formed: consistent aggregates, no empty level, and
    /// strict best-price-first ordering.
    pub open spec fn wf(self) -> bool {
        levels_wf(self.bids@, Side::Buy) && levels_wf(self.asks@, Side::Sell)
    }

    /// An empty book.
    pub fn new() -> (r: OrderBook)
        ensures
            r.wf(),
            r.bids_model() == Seq::<LevelModel>::empty(),
            r.asks_model() == Seq::<LevelModel>::empty(),
    {
        let r = OrderBook { bids: Vec::new(), asks: Vec::new() };
        proof {
            assert(r.bids_model() =~= Seq::<LevelModel>::empty());
            assert(r.asks_model() =~= Seq::<LevelModel>::empty());
        }
        r
    }
}

/// Whether `a` is a strictly better resting price than `b` on `side`.
fn better_exec(side: Side, a: u64, b: u64) -> (r: bool)
    ensures
        r == better_price(side, a, b),
{
    match side {
        Side::Buy => a > b,
        Side::Sell => a < b,
    }
}

/// Whether an incoming order is willing to trade at `price`.
fn crosses_exec(incoming: Side, limit: Option<u64>, price: u64) -> (r: bool)
    ensures
        r == crosses(incoming, limit, price),
{
    match limit {
        Option::None => true,
        Option::Some(l) => match incoming {
            Side::Buy => price <= l,
            Side::Sell => price >= l,
        },
    }
}

/// Matches an incoming order against this side, draining the best level
/// first, removing each level it empties, and stopping when the order is
/// exhausted, the side is empty, or the best price no longer satisfies the
/// incoming limit. Returns the shares left unfilled.
fn match_side(
    levels: &mut Vec<PriceLevel>,
    incoming: Side,
    limit: Option<u64>,
    shares: u64,
    incoming_id: u64,
    fills: &mut Vec<Fill>,
) -> (rem: u64)
    requires
        levels_wf(old(levels)@, incoming.opposite()),
    ensures
        levels_wf(final(levels)@, incoming.opposite()),
        levels_model(final(levels)@) == side_after_match(
            levels_model(old(levels)@),
            incoming,
            limit,
            shares as nat,
        ),
        rem as nat == shares_after_match(levels_model(old(levels)@), incoming, limit, shares as nat),
        final(fills)@ == old(fills)@ + match_fills(
            levels_model(old(levels)@),
            incoming,
            limit,
            shares as nat,
            incoming_id,
        ),
        rem <= shares,
{
    let ghost rside = incoming.opposite();
    let ghost m0 = levels_model(levels@);
    let ghost s0 = shares as nat;
    let ghost f0 = fills@;
    let mut s = shares;
    loop
        invariant
            levels_wf(levels@, rside),
            rside == incoming.opposite(),
            s <= shares,
            side_after_match(m0, incoming, limit, s0) == side_after_match(
                levels_model(levels@),
                incoming,
                limit,
                s as nat,
            ),
            shares_after_match(m0, incoming, limit, s0) == shares_after_match(
                levels_model(levels@),
                incoming,
                limit,
                s as nat,
            ),
            f0 + match_fills(m0, incoming, limit, s0, incoming_id) == fills@ + match_fills(
                levels_model(levels@),
                incoming,
                limit,
                s as nat,
                incoming_id,
            ),
        ensures
            levels_wf(levels@, rside),
            s <= shares,
            levels_model(levels@) == side_after_match(m0, incoming, limit, s0),
            s as nat == shares_after_match(m0, incoming, limit, s0),
            fills@ == f0 + match_fills(m0, incoming, limit, s0, incoming_id),
        decreases s,
    {
        let ghost mb = levels_model(levels@);
        let ghost sb = s as nat;
        if s == 0 || levels.len() == 0 {
            proof {
                assert(side_after_match(mb, incoming, limit, sb) == mb);
                assert(match_fills(mb, incoming, limit, sb, incoming_id) =~= Seq::<Fill>::empty());
                assert(f0 + match_fills(m0, incoming, limit, s0, incoming_id) =~= fills@);
            }
            break ;
        }
        if !crosses_exec(incoming, limit, levels[0].price) {
            proof {
                assert(mb[0] == levels@[0]@);
                assert(side_after_match(mb, incoming, limit, sb) == mb);
                assert(match_fills(mb, incoming, limit, sb, incoming_id) =~= Seq::<Fill>::empty());
                assert(f0 + match_fills(m0, incoming, limit, s0, incoming_id) =~= fills@);
            }
            break ;
        }
        let ghost vb = levels@;
        let mut lvl = levels.remove(0);
        let ghost qb = lvl.orders@;
        proof {
            assert(mb[0] == vb[0]@);
            assert(qb == mb[0].queue);
            assert(crosses(incoming, limit, mb[0].price));
            lemma_drain_decreases(qb, sb, rside, lvl.price);
        }
        let (rem, delete) = drain_limit(s, &mut lvl, incoming_id, fills);
        proof {
            lemma_drain_wf_queue(qb, sb, rside, lvl.price);
        }
        let ghost q2 = queue_after_drain(qb, sb);
        let ghost s2 = shares_after_drain(qb, sb);
        if delete {
            s = rem;
            proof {
                assert(levels@ =~= vb.skip(1));
                assert(levels_model(levels@) =~= mb.skip(1));
                assert(side_after_match(mb, incoming, limit, sb) == side_after_match(
                    mb.skip(1),
                    incoming,
                    limit,
                    s2,
                ));
                assert(shares_after_match(mb, incoming, limit, sb) == shares_after_match(
                    mb.skip(1),
                    incoming,
                    limit,
                    s2,
                ));
                assert(match_fills(mb, incoming, limit, sb, incoming_id) =~= drain_fills(
                    qb,
                    sb,
                    incoming_id,
                    mb[0].price,
                ) + match_fills(mb.skip(1), incoming, limit, s2, incoming_id));
                assert(f0 + match_fills(m0, incoming, limit, s0, incoming_id) =~= fills@
                    + match_fills(levels_model(levels@), incoming, limit, s as nat, incoming_id));
                assert forall|i: int, j: int|
                    0 <= i < j < levels@.len() implies better_price(
                    rside,
                    levels@[i].price,
                    levels@[j].price,
                ) by {
                    assert(vb[i + 1] == levels@[i]);
                    assert(vb[j + 1] == levels@[j]);
                }
            }
        } else {
            proof {
                lemma_drain_partial_done(qb, sb);
                assert(rem == 0);
            }
            levels.insert(0, lvl);
            s = rem;
            proof {
                assert(levels@ =~= vb.update(0, lvl));
                assert(levels_model(levels@) =~= mb.update(
                    0,
                    LevelModel { price: mb[0].price, queue: q2 },
                ));
                assert(side_after_match(mb, incoming, limit, sb) == levels_model(levels@));
                assert(match_fills(mb, incoming, limit, sb, incoming_id) =~= drain_fills(
                    qb,
                    sb,
                    incoming_id,
                    mb[0].price,
                ));
                assert(side_after_match(levels_model(levels@), incoming, limit, 0nat)
                    == levels_model(levels@));
                assert(match_fills(levels_model(levels@), incoming, limit, 0nat, incoming_id)
                    =~= Seq::<Fill>::empty());
                assert(f0 + match_fills(m0, incoming, limit, s0, incoming_id) =~= fills@
                    + match_fills(levels_model(levels@), incoming, limit, s as nat, incoming_id));
                assert forall|i: int, j: int|
                    0 <= i < j < levels@.len() implies better_price(
                    rside,
                    levels@[i].price,
                    levels@[j].price,
                ) by {
                    assert(levels@[j] == vb[j]);
                    assert(levels@[j].price == vb[j].price);
                    assert(levels@[i].price == vb[i].price);
                }
            }
        }
    }
    s
}

/// `side_after_insert` and `side_insert_overflows` ignore a prefix of
/// levels whose prices are strictly better than the incoming order's.
proof fn lemma_insert_prefix(m: Seq<LevelModel>, o: Order, i: int)
    requires
        0 <= i <= m.len(),
        forall|k: int| 0 <= k < i ==> better_price(o.side, m[k].price, o.limit_price),
    ensures
        side_after_insert(m, o) == m.take(i) + side_after_insert(m.skip(i), o),
        side_insert_overflows(m, o) == side_insert_overflows(m.skip(i), o),
    decreases i,
{
    if i == 0 {
        assert(m.skip(0) =~= m);
        assert(m.take(0) + side_after_insert(m, o) =~= side_after_insert(m, o));
    } else {
        assert(better_price(o.side, m[0].price, o.limit_price));
        assert(!better_price(o.side, o.limit_price, m[0].price));
        assert(o.limit_price != m[0].price);
        assert(forall|k: int|
            0 <= k < i - 1 ==> better_price(o.side, m.skip(1)[k].price, o.limit_price));
        lemma_insert_prefix(m.skip(1), o, i - 1);
        assert(m.skip(1).skip(i - 1) =~= m.skip(i));
        assert(side_after_insert(m, o) == seq![m[0]] + side_after_insert(m.skip(1), o));
        assert(seq![m[0]] + (m.skip(1).take(i - 1) + side_after_insert(m.skip(i), o)) =~= m.take(i)
            + side_after_insert(m.skip(i), o));
    }
}

/// `side_after_cancel` and `side_has_id` ignore a prefix of levels whose
/// queues do not hold the id.
proof fn lemma_cancel_prefix(m: Seq<LevelModel>, id: u64, i: int)
    requires
        0 <= i <= m.len(),
        forall|k: int| 0 <= k < i ==> !queue_has_id(#[trigger] m[k].queue, id),
    ensures
        side_after_cancel(m, id) == m.take(i) + side_after_cancel(m.skip(i), id),
        side_has_id(m, id) == side_has_id(m.skip(i), id),
    decreases i,
{
    if i == 0 {
        assert(m.skip(0) =~= m);
        assert(m.take(0) + side_after_cancel(m, id) =~= side_after_cancel(m, id));
    } else {
        assert(!queue_has_id(m[0].queue, id));
        assert(forall|k: int| 0 <= k < i - 1 ==> !queue_has_id(#[trigger] m.skip(1)[k].queue, id));
        lemma_cancel_prefix(m.skip(1), id, i - 1);
        assert(m.skip(1).skip(i - 1) =~= m.skip(i));
        assert(side_after_cancel(m, id) == seq![m[0]] + side_after_cancel(m.skip(1), id));
        assert(seq![m[0]] + (m.skip(1).take(i - 1) + side_after_cancel(m.skip(i), id)) =~= m.take(i)
            + side_after_cancel(m.skip(i), id));
    }
}

/// Cancelling an id that does not rest on a side leaves it unchanged.
proof fn lemma_cancel_absent(m: Seq<LevelModel>, id: u64)
    requires
        !side_has_id(m, id),
    ensures
        side_after_cancel(m, id) == m,
    decreases m.len(),
{
    if m.len() > 0 {
        lemma_cancel_absent(m.skip(1), id);
        assert(seq![m[0]] + m.skip(1) =~= m);
    }
}

/// A side none of whose queues holds `id` does not hold `id`.
proof fn lemma_side_no_id(m: Seq<LevelModel>, id: u64)
    requires
        forall|k: int| 0 <= k < m.len() ==> !queue_has_id(#[trigger] m[k].queue, id),
    ensures
        !side_has_id(m, id),
    decreases m.len(),
{
    if m.len() > 0 {
        assert(forall|k: int| 0 <= k < m.skip(1).len() ==> !queue_has_id(#[trigger] m.skip(1)[k].queue, id));
        lemma_side_no_id(m.skip(1), id);
    }
}

/// A side one of whose queues holds `id` holds `id`.
proof fn lemma_side_some_id(m: Seq<LevelModel>, id: u64, k: int)
    requires
        0 <= k < m.len(),
        queue_has_id(m[k].queue, id),
    ensures
        side_has_id(m, id),
    decreases k,
{
    if k > 0 {
        lemma_side_some_id(m.skip(1), id, k - 1);
    }
}

/// `side_level_at` ignores a prefix of levels at other prices.
proof fn lemma_level_at_prefix(m: Seq<LevelModel>, price: u64, i: int)
    requires
        0 <= i <= m.len(),
        forall|k: int| 0 <= k < i ==> (#[trigger] m[k].price) != price,
    ensures
        side_level_at(m, price) == side_level_at(m.skip(i), price),
    decreases i,
{
    if i > 0 {
        assert(forall|k: int| 0 <= k < i - 1 ==> (#[trigger] m.skip(1)[k].price) != price);
        lemma_level_at_prefix(m.skip(1), price, i - 1);
        assert(m.skip(1).skip(i - 1) =~= m.skip(i));
    } else {
        assert(m.skip(0) =~= m);
    }
}

/// A side with no level at `price` yields no depth there.
proof fn lemma_level_at_none(m: Seq<LevelModel>, price: u64)
    requires
        forall|k: int| 0 <= k < m.len() ==> (#[trigger] m[k].price) != price,
    ensures
        side_level_at(m, price) is None,
    decreases m.len(),
{
    if m.len() > 0 {
        assert(forall|k: int| 0 <= k < m.skip(1).len() ==> (#[trigger] m.skip(1)[k].price) != price);
        lemma_level_at_none(m.skip(1), price);
    }
}

/// Overflow of resting is monotone in the order's size: if the full order
/// fits, any remainder of it fits.
proof fn lemma_overflow_monotone(m: Seq<LevelModel>, o1: Order, o2: Order)
    requires
        o1.side == o2.side,
        o1.limit_price == o2.limit_price,
        o2.shares <= o1.shares,
        !side_insert_overflows(m, o1),
    ensures
        !side_insert_overflows(m, o2),
    decreases m.len(),
{
    if m.len() == 0 || better_price(o1.side, o1.limit_price, m[0].price) {
        assert(o2.limit_price * o2.shares <= o1.limit_price * o1.shares) by (nonlinear_arith)
            requires
                o2.limit_price == o1.limit_price,
                o2.shares <= o1.shares,
                o2.limit_price >= 0,
                o2.shares >= 0,
        ;
    } else if o1.limit_price == m[0].price {
        lemma_sum_shares_nonneg(m[0].queue);
        let t = sum_shares(m[0].queue);
        assert(o2.limit_price * (t + o2.shares) <= o1.limit_price * (t + o1.shares))
            by (nonlinear_arith)
            requires
                o2.limit_price == o1.limit_price,
                o2.shares <= o1.shares,
                o2.limit_price >= 0,
                t >= 0,
                o2.shares >= 0,
        ;
    } else {
        lemma_overflow_monotone(m.skip(1), o1, o2);
    }
}

/// Inserts a resting order into this side at its price's level, creating
/// the level at its sorted position if the price is new.
fn insert_level(levels: &mut Vec<PriceLevel>, order: Order)
    requires
        levels_wf(old(levels)@, order.side),
        order.shares > 0,
        order.limit_price > 0,
        !side_insert_overflows(levels_model(old(levels)@), order),
    ensures
        levels_wf(final(levels)@, order.side),
        levels_model(final(levels)@) == side_after_insert(levels_model(old(levels)@), order),
{
    let ghost m0 = levels_model(levels@);
    let ghost v0 = levels@;
    let mut i: usize = 0;
    loop
        invariant
            levels@ == v0,
            levels_wf(v0, order.side),
            i <= v0.len(),
            forall|k: int| 0 <= k < i ==> better_price(order.side, v0[k].price, order.limit_price),
        ensures
            levels@ == v0,
            i <= v0.len(),
            forall|k: int| 0 <= k < i ==> better_price(order.side, v0[k].price, order.limit_price),
            i < v0.len() ==> !better_price(order.side, v0[i as int].price, order.limit_price),
        decreases v0.len() - i,
    {
        if i >= levels.len() {
            break ;
        }
        if !better_exec(order.side, levels[i].price, order.limit_price) {
            break ;
        }
        i = i + 1;
    }
    proof {
        assert(forall|k: int|
            0 <= k < i ==> better_price(order.side, #[trigger] m0[k].price, order.limit_price));
        lemma_insert_prefix(m0, order, i as int);
    }
    let hit = i < levels.len() && levels[i].price == order.limit_price;
    if hit {
        proof {
            assert(m0.skip(i as int)[0] == m0[i as int]);
            assert(m0[i as int] == v0[i as int]@);
            assert(!better_price(order.side, order.limit_price, m0.skip(i as int)[0].price));
            assert(side_insert_overflows(m0.skip(i as int), order) == (sum_shares(
                m0[i as int].queue,
            ) + order.shares > u64::MAX || order.limit_price * (sum_shares(m0[i as int].queue)
                + order.shares) > u64::MAX));
        }
        let mut lvl = levels.remove(i);
        lvl.append(order);
        levels.insert(i, lvl);
        proof {
            assert(levels@ =~= v0.update(i as int, lvl));
            assert(levels_model(levels@) =~= m0.update(
                i as int,
                LevelModel { price: order.limit_price, queue: m0[i as int].queue.push(order) },
            ));
            assert(side_after_insert(m0.skip(i as int), order) == m0.skip(i as int).update(
                0,
                LevelModel {
                    price: m0.skip(i as int)[0].price,
                    queue: m0.skip(i as int)[0].queue.push(order),
                },
            ));
            assert(m0.take(i as int) + side_after_insert(m0.skip(i as int), order) =~= levels_model(
                levels@,
            ));
            assert forall|a: int, b: int|
                0 <= a < b < levels@.len() implies better_price(
                order.side,
                levels@[a].price,
                levels@[b].price,
            ) by {
                assert(levels@[a].price == v0[a].price);
                assert(levels@[b].price == v0[b].price);
            }
        }
    } else {
        proof {
            if i < v0.len() {
                assert(m0[i as int] == v0[i as int]@);
                assert(!better_price(order.side, m0[i as int].price, order.limit_price));
                assert(m0[i as int].price != order.limit_price);
                assert(better_price(order.side, order.limit_price, m0[i as int].price));
                assert(m0.skip(i as int)[0] == m0[i as int]);
                assert(side_insert_overflows(m0.skip(i as int), order) == (order.limit_price
                    * order.shares > u64::MAX));
            } else {
                assert(m0.skip(i as int).len() == 0);
            }
            assert(order.limit_price * order.shares <= u64::MAX);
        }
        let lvl = PriceLevel::new(order);
        levels.insert(i, lvl);
        proof {
            assert(levels@ =~= v0.insert(i as int, lvl));
            assert(lvl@ == singleton_level(order));
            assert(levels_model(levels@) =~= m0.insert(i as int, singleton_level(order)));
            if i < v0.len() {
                assert(side_after_insert(m0.skip(i as int), order) == seq![singleton_level(order)]
                    + m0.skip(i as int));
            } else {
                assert(side_after_insert(m0.skip(i as int), order) == seq![singleton_level(order)]);
            }
            assert(m0.take(i as int) + side_after_insert(m0.skip(i as int), order) =~= levels_model(
                levels@,
            ));
            assert forall|a: int, b: int|
                0 <= a < b < levels@.len() implies better_price(
                order.side,
                levels@[a].price,
                levels@[b].price,
            ) by {
                if a < i && b < i {
                    assert(levels@[a] == v0[a]);
                    assert(levels@[b] == v0[b]);
                } else if a < i && b == i {
                    assert(levels@[a] == v0[a]);
                } else if a < i && b > i {
                    assert(levels@[a] == v0[a]);
                    assert(levels@[b] == v0[b - 1]);
                } else if a == i && b > i {
                    assert(levels@[b] == v0[b - 1]);
                    assert(better_price(order.side, order.limit_price, v0[i as int].price));
                    if b - 1 > i {
                        assert(better_price(order.side, v0[i as int].price, v0[b - 1].price));
                    }
                } else {
                    assert(levels@[a] == v0[a - 1]);
                    assert(levels@[b] == v0[b - 1]);
                }
            }
        }
    }
}

/// Adds a resting order to the book on its own side, without matching.
/// The caller must already have checked that the aggregates cannot
/// overflow (`side_insert_overflows`).
pub fn add_order(ob: &mut OrderBook, order: Order)
    requires
        old(ob).wf(),
        order.shares > 0,
        order.limit_price > 0,
        !side_insert_overflows(old(ob).side_model(order.side), order),
    ensures
        final(ob).wf(),
        final(ob).side_model(order.side) == side_after_insert(
            old(ob).side_model(order.side),
            order,
        ),
        final(ob).side_model(order.side.opposite()) == old(ob).side_model(order.side.opposite()),
{
    match order.side {
        Side::Buy => insert_level(&mut ob.bids, order),
        Side::Sell => insert_level(&mut ob.asks, order),
    }
}

/// Matches an incoming buy order against the asks, best (lowest) price
/// first, and rests any remainder on the bid side at its limit price.
pub fn execute_buy_order(ob: &mut OrderBook, order: Order) -> (fills: Vec<Fill>)
    requires
        old(ob).wf(),
        order.side == Side::Buy,
        order.shares > 0,
        order.limit_price > 0,
        !side_insert_overflows(old(ob).bids_model(), order),
    ensures
        final(ob).wf(),
        fills@ == match_fills(
            old(ob).asks_model(),
            Side::Buy,
            Some(order.limit_price),
            order.shares as nat,
            order.id,
        ),
        final(ob).asks_model() == side_after_match(
            old(ob).asks_model(),
            Side::Buy,
            Some(order.limit_price),
            order.shares as nat,
        ),
        ({
            let rem = shares_after_match(
                old(ob).asks_model(),
                Side::Buy,
                Some(order.limit_price),
                order.shares as nat,
            );
            final(ob).bids_model() == if rem > 0 {
                side_after_insert(old(ob).bids_model(), (Order { shares: rem as u64, ..order }))
            } else {
                old(ob).bids_model()
            }
        }),
{
    let mut fills: Vec<Fill> = Vec::new();
    let rem = match_side(
        &mut ob.asks,
        Side::Buy,
        Some(order.limit_price),
        order.shares,
        order.id,
        &mut fills,
    );
    if rem > 0 {
        proof {
            lemma_overflow_monotone(
                levels_model(ob.bids@),
                order,
                Order { shares: rem as u64, ..order },
            );
        }
        insert_level(&mut ob.bids, Order { shares: rem, ..order });
    }
    fills
}

/// Matches an incoming sell order against the bids, best (highest) price
/// first, and rests any remainder on the ask side at its limit price.
pub fn execute_sell_order(ob: &mut OrderBook, order: Order) -> (fills: Vec<Fill>)
    requires
        old(ob).wf(),
        order.side == Side::Sell,
        order.shares > 0,
        order.limit_price > 0,
        !side_insert_overflows(old(ob).asks_model(), order),
    ensures
        final(ob).wf(),
        fills@ == match_fills(
            old(ob).bids_model(),
            Side::Sell,
            Some(order.limit_price),
            order.shares as nat,
            order.id,
        ),
        final(ob).bids_model() == side_after_match(
            old(ob).bids_model(),
            Side::Sell,
            Some(order.limit_price),
            order.shares as nat,
        ),
        ({
            let rem = shares_after_match(
                old(ob).bids_model(),
                Side::Sell,
                Some(order.limit_price),
                order.shares as nat,
            );
            final(ob).asks_model() == if rem > 0 {
                side_after_insert(old(ob).asks_model(), (Order { shares: rem as u64, ..order }))
            } else {
                old(ob).asks_model()
            }
        }),
{
    let mut fills: Vec<Fill> = Vec::new();
    let rem = match_side(
        &mut ob.bids,
        Side::Sell,
        Some(order.limit_price),
        order.shares,
        order.id,
        &mut fills,
    );
    if rem > 0 {
        proof {
            lemma_overflow_monotone(
                levels_model(ob.asks@),
                order,
                Order { shares: rem as u64, ..order },
            );
        }
        insert_level(&mut ob.asks, Order { shares: rem, ..order });
    }
    fills
}

/// Whether some level of this side holds an order carrying `id`.
fn side_contains(levels: &Vec<PriceLevel>, id: u64) -> (r: bool)
    ensures
        r == side_has_id(levels_model(levels@), id),
{
    let ghost m = levels_model(levels@);
    let mut i: usize = 0;
    while i < levels.len()
        invariant
            i <= levels@.len(),
            m == levels_model(levels@),
            forall|k: int| 0 <= k < i ==> !queue_has_id(#[trigger] m[k].queue, id),
        decreases levels@.len() - i,
    {
        let found = levels[i].find_order(id);
        if found.is_some() {
            proof {
                let j = found->Some_0;
                assert(m[i as int].queue == levels@[i as int].orders@);
                assert(m[i as int].queue[j as int].id == id);
                lemma_queue_has_id_iff(m[i as int].queue, id);
                lemma_side_some_id(m, id, i as int);
            }
            return true;
        }
        proof {
            assert(m[i as int].queue == levels@[i as int].orders@);
        }
        i = i + 1;
    }
    proof {
        lemma_side_no_id(m, id);
    }
    false
}

/// Whether resting the full `order` on this side would overflow a level's
/// aggregate share count or notional.
fn insert_overflows_exec(levels: &Vec<PriceLevel>, order: Order) -> (r: bool)
    requires
        levels_wf(levels@, order.side),
    ensures
        r == side_insert_overflows(levels_model(levels@), order),
{
    let ghost m0 = levels_model(levels@);
    let ghost v0 = levels@;
    let mut i: usize = 0;
    loop
        invariant
            levels@ == v0,
            levels_wf(v0, order.side),
            i <= v0.len(),
            forall|k: int| 0 <= k < i ==> better_price(order.side, v0[k].price, order.limit_price),
        ensures
            levels@ == v0,
            i <= v0.len(),
            forall|k: int| 0 <= k < i ==> better_price(order.side, v0[k].price, order.limit_price),
            i < v0.len() ==> !better_price(order.side, v0[i as int].price, order.limit_price),
        decreases v0.len() - i,
    {
        if i >= levels.len() {
            break ;
        }
        if !better_exec(order.side, levels[i].price, order.limit_price) {
            break ;
        }
        i = i + 1;
    }
    proof {
        assert(forall|k: int|
            0 <= k < i ==> better_price(order.side, #[trigger] m0[k].price, order.limit_price));
        lemma_insert_prefix(m0, order, i as int);
        if i < v0.len() {
            assert(m0.skip(i as int)[0] == m0[i as int]);
            assert(m0[i as int] == v0[i as int]@);
        }
    }
    if i < levels.len() && levels[i].price == order.limit_price {
        let t = levels[i].total_shares;
        let total = t as u128 + order.shares as u128;
        if total > u64::MAX as u128 {
            return true;
        }
        proof {
            assert((order.limit_price as u128) * total <= u128::MAX) by (nonlinear_arith)
                requires
                    order.limit_price <= u64::MAX,
                    0 <= total <= u64::MAX,
            ;
        }
        let notional = order.limit_price as u128 * total;
        notional > u64::MAX as u128
    } else {
        proof {
            if i < v0.len() {
                assert(better_price(order.side, order.limit_price, m0[i as int].price));
            }
        }
        proof {
            assert((order.limit_price as u128) * (order.shares as u128) <= u128::MAX)
                by (nonlinear_arith)
                requires
                    order.limit_price <= u64::MAX,
                    order.shares <= u64::MAX,
            ;
        }
        let notional = order.limit_price as u128 * order.shares as u128;
        notional > u64::MAX as u128
    }
}

impl OrderBook {
    /// Whether an order carrying `id` is resting anywhere in the book.
    pub fn contains_order_id(&self, id: u64) -> (r: bool)
        ensures
            r == self.book_has_id(id),
    {
        let in_bids = side_contains(&self.bids, id);
        if in_bids {
            true
        } else {
            side_contains(&self.asks, id)
        }
    }

    /// Submits a limit order. A crossing order matches against the best
    /// opposite prices first; any remainder rests in the book at its limit
    /// price. Returns the fills in execution order, or the error that left
    /// the book unchanged: `InvalidOrder` for zero shares or a zero price,
    /// `DuplicateOrderId` for an id still resting in the book, and
    /// `Overflow` when resting the full order could push its level's
    /// aggregates past `u64::MAX` (checked up front, before any matching,
    /// so a rejected submit never has a partial effect).
    pub fn submit_limit_order(
        &mut self,
        side: Side,
        shares: u64,
        limit_price: u64,
        order_id: u64,
    ) -> (r: Result<Vec<Fill>, OrderBookError>)
        requires
            old(self).wf(),
        ensures
            final(self).wf(),
            r is Err ==> *final(self) == *old(self),
            (r == Err::<Vec<Fill>, OrderBookError>(OrderBookError::InvalidOrder)) <==> (shares == 0
                || limit_price == 0),
            (r == Err::<Vec<Fill>, OrderBookError>(OrderBookError::DuplicateOrderId)) <==> (shares
                > 0 && limit_price > 0 && old(self).book_has_id(order_id)),
            (r == Err::<Vec<Fill>, OrderBookError>(OrderBookError::Overflow)) <==> (shares > 0
                && limit_price > 0 && !old(self).book_has_id(order_id) && side_insert_overflows(
                old(self).side_model(side),
                (Order { id: order_id, side, shares, limit_price }),
            )),
            r is Ok <==> (shares > 0 && limit_price > 0 && !old(self).book_has_id(order_id)
                && !side_insert_overflows(
                old(self).side_model(side),
                (Order { id: order_id, side, shares, limit_price }),
            )),
            r matches Ok(fills) ==> {
                let opp0 = old(self).side_model(side.opposite());
                let own0 = old(self).side_model(side);
                let rem = shares_after_match(opp0, side, Some(limit_price), shares as nat);
                &&& fills@ == match_fills(opp0, side, Some(limit_price), shares as nat, order_id)
                &&& final(self).side_model(side.opposite()) == side_after_match(
                    opp0,
                    side,
                    Some(limit_price),
                    shares as nat,
                )
                &&& final(self).side_model(side) == if rem > 0 {
                    side_after_insert(
                        own0,
                        (Order { id: order_id, side, shares: rem as u64, limit_price }),
                    )
                } else {
                    own0
                }
            },
    {
        if shares == 0 || limit_price == 0 {
            return Err(OrderBookError::InvalidOrder);
        }
        if self.contains_order_id(order_id) {
            return Err(OrderBookError::DuplicateOrderId);
        }
        let order = Order { id: order_id, side, shares, limit_price };
        let overflow = match side {
            Side::Buy => insert_overflows_exec(&self.bids, order),
            Side::Sell => insert_overflows_exec(&self.asks, order),
        };
        if overflow {
            return Err(OrderBookError::Overflow);
        }
        let fills = match side {
            Side::Buy => execute_buy_order(self, order),
            Side::Sell => execute_sell_order(self, order),
        };
        Ok(fills)
    }

    /// Submits a market order: matches against the best opposite prices
    /// with no limit; an unfilled remainder is dropped, never rested.
    /// `InvalidOrder` rejects zero shares; `DuplicateOrderId` rejects an
    /// id still resting in the book.
    pub fn submit_market_order(&mut self, side: Side, shares: u64, order_id: u64) -> (r: Result<
        Vec<Fill>,
        OrderBookError,
    >)
        requires
            old(self).wf(),
        ensures
            final(self).wf(),
            r is Err ==> *final(self) == *old(self),
            (r == Err::<Vec<Fill>, OrderBookError>(OrderBookError::InvalidOrder)) <==> shares == 0,
            (r == Err::<Vec<Fill>, OrderBookError>(OrderBookError::DuplicateOrderId)) <==> (shares
                > 0 && old(self).book_has_id(order_id)),
            r is Ok <==> (shares > 0 && !old(self).book_has_id(order_id)),
            r matches Ok(fills) ==> {
                let opp0 = old(self).side_model(side.opposite());
                &&& fills@ == match_fills(opp0, side, None, shares as nat, order_id)
                &&& final(self).side_model(side.opposite()) == side_after_match(
                    opp0,
                    side,
                    None,
                    shares as nat,
                )
                &&& final(self).side_model(side) == old(self).side_model(side)
            },
    {
        if shares == 0 {
            return Err(OrderBookError::InvalidOrder);
        }
        if self.contains_order_id(order_id) {
            return Err(OrderBookError::DuplicateOrderId);
        }
        let mut fills: Vec<Fill> = Vec::new();
        match side {
            Side::Buy => {
                match_side(&mut self.asks, Side::Buy, None, shares, order_id, &mut fills);
            },
            Side::Sell => {
                match_side(&mut self.bids, Side::Sell, None, shares, order_id, &mut fills);
            },
        }
        Ok(fills)
    }

    /// Cancels the resting order carrying `order_id`, removing it from its
    /// level's queue and deleting the level if that empties it. Fails with
    /// `OrderNotFound`, leaving the book unchanged, exactly when no
    /// resting order carries the id.
    pub fn cancel_order(&mut self, order_id: u64) -> (r: Result<(), OrderBookError>)
        requires
            old(self).wf(),
        ensures
            final(self).wf(),
            r is Ok <==> old(self).book_has_id(order_id),
            r is Err ==> r == Err::<(), OrderBookError>(OrderBookError::OrderNotFound),
            r is Err ==> final(self).bids@ == old(self).bids@,
            r is Err ==> final(self).asks@ == old(self).asks@,
            side_has_id(old(self).bids_model(), order_id) ==> final(self).bids_model()
                == side_after_cancel(old(self).bids_model(), order_id) && final(self).asks_model()
                == old(self).asks_model(),
            !side_has_id(old(self).bids_model(), order_id) && side_has_id(
                old(self).asks_model(),
                order_id,
            ) ==> final(self).asks_model() == side_after_cancel(old(self).asks_model(), order_id)
                && final(self).bids_model() == old(self).bids_model(),
    {
        let in_bids = side_cancel(&mut self.bids, Side::Buy, order_id);
        if in_bids {
            return Ok(());
        }
        let in_asks = side_cancel(&mut self.asks, Side::Sell, order_id);
        if in_asks {
            return Ok(());
        }
        Err(OrderBookError::OrderNotFound)
    }

    /// The best (highest-priced) bid level, as `(price, total shares)`.
    pub fn best_bid(&self) -> (r: Option<(u64, u64)>)
        requires
            self.wf(),
        ensures
            match r {
                Option::None => self.bids_model().len() == 0,
                Option::Some(pt) => self.bids_model().len() > 0 && pt.0
                    == self.bids_model()[0].price && pt.1 as int == sum_shares(
                    self.bids_model()[0].queue,
                ),
            },
    {
        if self.bids.len() == 0 {
            None
        } else {
            Some((self.bids[0].price, self.bids[0].total_shares))
        }
    }

    /// The best (lowest-priced) ask level, as `(price, total shares)`.
    pub fn best_ask(&self) -> (r: Option<(u64, u64)>)
        requires
            self.wf(),
        ensures
            match r {
                Option::None => self.asks_model().len() == 0,
                Option::Some(pt) => self.asks_model().len() > 0 && pt.0
                    == self.asks_model()[0].price && pt.1 as int == sum_shares(
                    self.asks_model()[0].queue,
                ),
            },
    {
        if self.asks.len() == 0 {
            None
        } else {
            Some((self.asks[0].price, self.asks[0].total_shares))
        }
    }

    /// The `(order count, total shares, total notional)` of the level
    /// resting at `price` on `side`, if one does.
    pub fn depth_at(&self, side: Side, price: u64) -> (r: Option<(u64, u64, u64)>)
        requires
            self.wf(),
        ensures
            match side_level_at(self.side_model(side), price) {
                Option::None => r is None,
                Option::Some(l) => r == Some(
                    (
                        l.queue.len() as u64,
                        sum_shares(l.queue) as u64,
                        (price * sum_shares(l.queue)) as u64,
                    ),
                ),
            },
    {
        match side {
            Side::Buy => side_depth(&self.bids, Side::Buy, price),
            Side::Sell => side_depth(&self.asks, Side::Sell, price),
        }
    }
}

/// The depth of this side's level at `price`, if one rests there.
fn side_depth(levels: &Vec<PriceLevel>, side: Side, price: u64) -> (r: Option<(u64, u64, u64)>)
    requires
        levels_wf(levels@, side),
    ensures
        match side_level_at(levels_model(levels@), price) {
            Option::None => r is None,
            Option::Some(l) => r == Some(
                (
                    l.queue.len() as u64,
                    sum_shares(l.queue) as u64,
                    (price * sum_shares(l.queue)) as u64,
                ),
            ),
        },
{
    let ghost m = levels_model(levels@);
    let mut i: usize = 0;
    while i < levels.len()
        invariant
            i <= levels@.len(),
            m == levels_model(levels@),
            levels_wf(levels@, side),
            forall|k: int| 0 <= k < i ==> (#[trigger] m[k].price) != price,
        decreases levels@.len() - i,
    {
        if levels[i].price == price {
            proof {
                lemma_level_at_prefix(m, price, i as int);
                assert(m.skip(i as int)[0] == m[i as int]);
                assert(m[i as int] == levels@[i as int]@);
                assert(side_level_at(m, price) == Some(m[i as int]));
            }
            let lvl = &levels[i];
            return Some((lvl.order_count, lvl.total_shares, lvl.total_notional));
        }
        proof {
            assert(m[i as int].price == levels@[i as int].price);
        }
        i = i + 1;
    }
    proof {
        lemma_level_at_none(m, price);
    }
    None
}

/// Cancels the order carrying `id` on this side, if it rests here.
/// Returns whether it did.
fn side_cancel(levels: &mut Vec<PriceLevel>, side: Side, id: u64) -> (found: bool)
    requires
        levels_wf(old(levels)@, side),
    ensures
        levels_wf(final(levels)@, side),
        found == side_has_id(levels_model(old(levels)@), id),
        levels_model(final(levels)@) == side_after_cancel(levels_model(old(levels)@), id),
        !found ==> final(levels)@ == old(levels)@,
{
    let ghost m0 = levels_model(levels@);
    let ghost v0 = levels@;
    let mut i: usize = 0;
    while i < levels.len()
        invariant
            levels@ == v0,
            v0 == old(levels)@,
            levels_wf(v0, side),
            i <= v0.len(),
            m0 == levels_model(v0),
            forall|k: int| 0 <= k < i ==> !queue_has_id(#[trigger] m0[k].queue, id),
        decreases v0.len() - i,
    {
        let found = levels[i].find_order(id);
        match found {
            Some(j) => {
                proof {
                    assert(m0[i as int].queue == v0[i as int].orders@);
                    lemma_queue_has_id_iff(m0[i as int].queue, id);
                    lemma_side_some_id(m0, id, i as int);
                    lemma_cancel_prefix(m0, id, i as int);
                    assert(m0.skip(i as int)[0] == m0[i as int]);
                    lemma_queue_without_at(m0[i as int].queue, id, j as int);
                }
                let n = levels[i].orders.len();
                if n == 1 {
                    levels.remove(i);
                    proof {
                        assert(queue_without_id(m0[i as int].queue, id) =~= m0[i as int].queue.remove(
                            j as int,
                        ));
                        assert(m0[i as int].queue.remove(j as int).len() == 0);
                        assert(side_after_cancel(m0.skip(i as int), id) == m0.skip(i as int).skip(
                            1,
                        ));
                        assert(m0.skip(i as int).skip(1) =~= m0.skip(i as int + 1));
                        assert(levels_model(levels@) =~= m0.take(i as int) + m0.skip(i as int + 1));
                        assert(m0.take(i as int) + side_after_cancel(m0.skip(i as int), id)
                            =~= levels_model(levels@));
                        assert forall|a: int, b: int|
                            0 <= a < b < levels@.len() implies better_price(
                            side,
                            levels@[a].price,
                            levels@[b].price,
                        ) by {
                            if a < i {
                                assert(levels@[a] == v0[a]);
                            } else {
                                assert(levels@[a] == v0[a + 1]);
                            }
                            if b < i {
                                assert(levels@[b] == v0[b]);
                            } else {
                                assert(levels@[b] == v0[b + 1]);
                            }
                        }
                    }
                } else {
                    let mut lvl = levels.remove(i);
                    lvl.remove_order_at(j);
                    levels.insert(i, lvl);
                    proof {
                        assert(queue_without_id(m0[i as int].queue, id) =~= m0[i as int].queue.remove(
                            j as int,
                        ));
                        assert(lvl.orders@ == m0[i as int].queue.remove(j as int));
                        assert(lvl.orders@.len() > 0);
                        assert(side_after_cancel(m0.skip(i as int), id) == m0.skip(
                            i as int,
                        ).update(
                            0,
                            LevelModel {
                                price: m0[i as int].price,
                                queue: queue_without_id(m0[i as int].queue, id),
                            },
                        ));
                        assert(levels@ =~= v0.update(i as int, lvl));
                        assert(levels_model(levels@) =~= m0.update(
                            i as int,
                            LevelModel {
                                price: m0[i as int].price,
                                queue: queue_without_id(m0[i as int].queue, id),
                            },
                        ));
                        assert(m0.take(i as int) + side_after_cancel(m0.skip(i as int), id)
                            =~= levels_model(levels@));
                        assert forall|a: int, b: int|
                            0 <= a < b < levels@.len() implies better_price(
                            side,
                            levels@[a].price,
                            levels@[b].price,
                        ) by {
                            assert(levels@[a].price == v0[a].price);
                            assert(levels@[b].price == v0[b].price);
                        }
                    }
                }
                return true;
            },
            None => {
                proof {
                    assert(m0[i as int].queue == v0[i as int].orders@);
                }
                i = i + 1;
            },
        }
    }
    proof {
        lemma_side_no_id(m0, id);
        lemma_cancel_absent(m0, id);
    }
    false
}

} // verus!
