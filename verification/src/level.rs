//! Price levels: the FIFO queue of resting orders at one price on one side,
//! together with incrementally maintained aggregates, and the specification
//! functions that describe draining and cancelling inside one queue.

use vstd::prelude::*;

use crate::order::{Fill, Order, Side};

verus! {

/// Sum of the remaining shares of a queue of orders.
pub open spec fn sum_shares(q: Seq<Order>) -> int
    decreases q.len(),
{
    if q.len() == 0 {
        0
    } else {
        q[0].shares + sum_shares(q.skip(1))
    }
}

/// Sum of the quantities of a sequence of fills.
pub open spec fn sum_qty(fills: Seq<Fill>) -> int
    decreases fills.len(),
{
    if fills.len() == 0 {
        0
    } else {
        fills[0].quantity + sum_qty(fills.skip(1))
    }
}

/// Every order in the queue is on `side` at `price` with positive shares.
pub open spec fn wf_queue(q: Seq<Order>, side: Side, price: u64) -> bool {
    forall|k: int|
        0 <= k < q.len() ==> q[k].side == side && q[k].limit_price == price && q[k].shares > 0
}

/// The queue after an incoming order for `s` shares drains it from the
/// front: whole orders are consumed oldest-first; an order with more shares
/// than remain to execute is only reduced.
pub open spec fn queue_after_drain(q: Seq<Order>, s: nat) -> Seq<Order>
    decreases q.len(),
{
    if s == 0 || q.len() == 0 {
        q
    } else if q[0].shares > s {
        q.update(0, Order { shares: (q[0].shares - s) as u64, ..q[0] })
    } else {
        queue_after_drain(q.skip(1), (s - q[0].shares) as nat)
    }
}

/// The shares of the incoming order still unfilled after draining `q`.
pub open spec fn shares_after_drain(q: Seq<Order>, s: nat) -> nat
    decreases q.len(),
{
    if s == 0 || q.len() == 0 {
        s
    } else if q[0].shares > s {
        0
    } else {
        shares_after_drain(q.skip(1), (s - q[0].shares) as nat)
    }
}

/// The fills emitted while an incoming order for `s` shares drains `q`,
/// one per (possibly partially) consumed resting order, in queue order.
pub open spec fn drain_fills(q: Seq<Order>, s: nat, incoming_id: u64, price: u64) -> Seq<Fill>
    decreases q.len(),
{
    if s == 0 || q.len() == 0 {
        Seq::<Fill>::empty()
    } else if q[0].shares > s {
        seq![
            Fill {
                resting_order_id: q[0].id,
                incoming_order_id: incoming_id,
                price,
                quantity: s as u64,
            },
        ]
    } else {
        seq![
            Fill {
                resting_order_id: q[0].id,
                incoming_order_id: incoming_id,
                price,
                quantity: q[0].shares,
            },
        ] + drain_fills(q.skip(1), (s - q[0].shares) as nat, incoming_id, price)
    }
}

/// Whether some order in the queue carries `id`.
pub open spec fn queue_has_id(q: Seq<Order>, id: u64) -> bool
    decreases q.len(),
{
    if q.len() == 0 {
        false
    } else {
        q[0].id == id || queue_has_id(q.skip(1), id)
    }
}

/// The queue with the first order carrying `id` removed.
pub open spec fn queue_without_id(q: Seq<Order>, id: u64) -> Seq<Order>
    decreases q.len(),
{
    if q.len() == 0 {
        q
    } else if q[0].id == id {
        q.skip(1)
    } else {
        seq![q[0]] + queue_without_id(q.skip(1), id)
    }
}

/// The abstract value of one price level: its price and its FIFO queue,
/// oldest order first.
#[verifier::ext_equal]
pub struct LevelModel {
    pub price: u64,
    pub queue: Seq<Order>,
}

/// Aggregate state for one price on one side of the book. The queue is
/// FIFO: index 0 is the oldest resting order and the next to fill; new
/// orders are appended at the end.
pub struct PriceLevel {
    pub price: u64,
    pub side: Side,
    pub orders: Vec<Order>,
    /// Number of orders in the queue.
    pub order_count: u64,
    /// Sum of the queued orders' remaining shares.
    pub total_shares: u64,
    /// `price * total_shares`.
    pub total_notional: u64,
}

impl View for PriceLevel {
    type V = LevelModel;

    open spec fn view(&self) -> LevelModel {
        LevelModel { price: self.price, queue: self.orders@ }
    }
}

impl PriceLevel {
    /// The aggregates agree with the queue and every queued order belongs
    /// at this level.
    pub open spec fn wf(self) -> bool {
        &&& self.price > 0
        &&& self.order_count as int == self.orders@.len()
        &&& self.total_shares as int == sum_shares(self.orders@)
        &&& self.total_notional as int == self.price * sum_shares(self.orders@)
        &&& wf_queue(self.orders@, self.side, self.price)
    }

    /// A fresh level holding exactly one order.
    pub fn new(order: Order) -> (r: PriceLevel)
        requires
            order.shares > 0,
            order.limit_price > 0,
            order.limit_price * order.shares <= u64::MAX,
        ensures
            r.wf(),
            r.side == order.side,
            r@ == (LevelModel { price: order.limit_price, queue: seq![order] }),
    {
        let mut orders: Vec<Order> = Vec::new();
        orders.push(order);
        proof {
            assert(orders@.skip(1) =~= Seq::<Order>::empty());
            assert(sum_shares(Seq::<Order>::empty()) == 0);
            assert(sum_shares(orders@) == order.shares as int);
        }
        PriceLevel {
            price: order.limit_price,
            side: order.side,
            orders,
            order_count: 1,
            total_shares: order.shares,
            total_notional: order.limit_price * order.shares,
        }
    }

    /// Appends an order at the tail of the queue (newest position).
    pub fn append(&mut self, order: Order)
        requires
            old(self).wf(),
            order.side == old(self).side,
            order.limit_price == old(self).price,
            order.shares > 0,
            sum_shares(old(self).orders@) + order.shares <= u64::MAX,
            old(self).price * (sum_shares(old(self).orders@) + order.shares) <= u64::MAX,
        ensures
            final(self).wf(),
            final(self).side == old(self).side,
            final(self)@ == (LevelModel {
                price: old(self).price,
                queue: old(self).orders@.push(order),
            }),
    {
        proof {
            lemma_sum_shares_push(self.orders@, order);
            lemma_sum_shares_nonneg(self.orders@);
            assert(self.price * (sum_shares(self.orders@) + order.shares) == self.price
                * sum_shares(self.orders@) + order.limit_price * order.shares && order.limit_price
                * order.shares >= 0) by (nonlinear_arith)
                requires
                    order.limit_price == self.price,
                    self.price >= 0,
                    order.shares >= 0,
            ;
        }
        self.orders.push(order);
        let n = self.orders.len();
        proof {
            assert(self.order_count + 1 == n as int);
        }
        self.order_count = self.order_count + 1;
        self.total_shares = self.total_shares + order.shares;
        self.total_notional = self.total_notional + order.limit_price * order.shares;
    }

    /// Removes the order at queue position `i`, keeping the aggregates.
    pub fn remove_order_at(&mut self, i: usize)
        requires
            old(self).wf(),
            i < old(self).orders@.len(),
        ensures
            final(self).wf(),
            final(self).side == old(self).side,
            final(self)@ == (LevelModel {
                price: old(self).price,
                queue: old(self).orders@.remove(i as int),
            }),
    {
        let gone = self.orders[i];
        proof {
            lemma_sum_shares_remove(self.orders@, i as int);
            lemma_sum_shares_nonneg(self.orders@.remove(i as int));
            let srem = sum_shares(self.orders@.remove(i as int));
            assert(gone.shares * self.price == self.total_notional - self.price * srem
                && self.price * srem >= 0) by (nonlinear_arith)
                requires
                    self.total_notional == self.price * (srem + gone.shares),
                    srem >= 0,
                    self.price >= 0,
                    gone.shares >= 0,
            ;
        }
        self.orders.remove(i);
        self.order_count = self.order_count - 1;
        self.total_shares = self.total_shares - gone.shares;
        self.total_notional = self.total_notional - gone.shares * self.price;
    }

    /// Position of the queued order carrying `id`, if one does.
    pub fn find_order(&self, id: u64) -> (r: Option<usize>)
        ensures
            match r {
                Some(j) => j < self.orders@.len() && self.orders@[j as int].id == id && (forall|
                    k: int,
                |
                    0 <= k < j ==> self.orders@[k].id != id),
                None => !queue_has_id(self.orders@, id),
            },
    {
        let mut j: usize = 0;
        while j < self.orders.len()
            invariant
                j <= self.orders@.len(),
                forall|k: int| 0 <= k < j ==> self.orders@[k].id != id,
            decreases self.orders@.len() - j,
        {
            if self.orders[j].id == id {
                return Some(j);
            }
            j = j + 1;
        }
        proof {
            lemma_queue_has_id_iff(self.orders@, id);
        }
        None
    }
}

/// Drains this level from the head of its queue: while the level has orders
/// and shares remain to execute, the oldest order is consumed (or reduced,
/// if it has strictly more shares than remain). One fill per touched order
/// is appended to `fills`. Returns the shares still unfilled and whether
/// the queue is now empty, in which case the caller must delete the level.
pub fn drain_limit(shares_to_execute: u64, level: &mut PriceLevel, incoming_id: u64, fills: &mut Vec<
    Fill,
>) -> (r: (u64, bool))
    requires
        old(level).wf(),
    ensures
        final(level).wf(),
        final(level).price == old(level).price,
        final(level).side == old(level).side,
        final(level).orders@ == queue_after_drain(old(level).orders@, shares_to_execute as nat),
        r.0 == shares_after_drain(old(level).orders@, shares_to_execute as nat),
        final(fills)@ == old(fills)@ + drain_fills(
            old(level).orders@,
            shares_to_execute as nat,
            incoming_id,
            old(level).price,
        ),
        r.1 == (final(level).orders@.len() == 0),
{
    let ghost q0 = level.orders@;
    let ghost s0 = shares_to_execute as nat;
    let ghost f0 = fills@;
    let ghost p0 = level.price;
    let mut s = shares_to_execute;
    while s > 0 && level.orders.len() > 0
        invariant
            level.wf(),
            level.price == p0,
            level.side == old(level).side,
            queue_after_drain(q0, s0) == queue_after_drain(level.orders@, s as nat),
            shares_after_drain(q0, s0) == shares_after_drain(level.orders@, s as nat),
            f0 + drain_fills(q0, s0, incoming_id, p0) == fills@ + drain_fills(
                level.orders@,
                s as nat,
                incoming_id,
                p0,
            ),
        decreases s,
    {
        let ghost qb = level.orders@;
        let ghost sb = s as nat;
        let head = level.orders[0];
        assert(head == qb[0]);
        if head.shares > s {
            // Partial fill: the head order survives with fewer shares.
            proof {
                assert(sum_shares(qb) == qb[0].shares + sum_shares(qb.skip(1)));
                lemma_sum_shares_nonneg(qb.skip(1));
                assert(s * level.price <= level.total_notional && level.total_notional - s
                    * level.price == level.price * (sum_shares(qb) - s)) by (nonlinear_arith)
                    requires
                        level.total_notional == level.price * sum_shares(qb),
                        0 <= s as int <= sum_shares(qb),
                        level.price >= 0,
                ;
            }
            let reduced = Order { shares: head.shares - s, ..head };
            level.orders[0] = reduced;
            fills.push(
                Fill {
                    resting_order_id: head.id,
                    incoming_order_id: incoming_id,
                    price: level.price,
                    quantity: s,
                },
            );
            proof {
                lemma_sum_shares_update0(qb, reduced);
            }
            let fill_notional = s * level.price;
            level.total_shares = level.total_shares - s;
            level.total_notional = level.total_notional - fill_notional;
            s = 0;
            proof {
                assert(queue_after_drain(qb, sb) == level.orders@);
                assert(f0 + drain_fills(q0, s0, incoming_id, p0) =~= fills@ + drain_fills(
                    level.orders@,
                    0nat,
                    incoming_id,
                    p0,
                ));
            }
        } else {
            // The head order is fully consumed and leaves the book.
            fills.push(
                Fill {
                    resting_order_id: head.id,
                    incoming_order_id: incoming_id,
                    price: level.price,
                    quantity: head.shares,
                },
            );
            proof {
                assert(sum_shares(qb) == qb[0].shares + sum_shares(qb.skip(1)));
                lemma_sum_shares_nonneg(qb.skip(1));
                assert(head.shares * level.price <= level.total_notional && level.total_notional
                    - head.shares * level.price == level.price * sum_shares(qb.skip(1)))
                    by (nonlinear_arith)
                    requires
                        level.total_notional == level.price * sum_shares(qb),
                        sum_shares(qb) == head.shares + sum_shares(qb.skip(1)),
                        sum_shares(qb.skip(1)) >= 0,
                        level.price >= 0,
                        head.shares >= 0,
                ;
            }
            let fill_notional = head.shares * level.price;
            level.orders.remove(0);
            level.order_count = level.order_count - 1;
            level.total_shares = level.total_shares - head.shares;
            level.total_notional = level.total_notional - fill_notional;
            s = s - head.shares;
            proof {
                assert(level.orders@ =~= qb.skip(1));
                assert(queue_after_drain(qb, sb) == queue_after_drain(level.orders@, s as nat));
                assert(drain_fills(qb, sb, incoming_id, p0) =~= seq![
                    Fill {
                        resting_order_id: head.id,
                        incoming_order_id: incoming_id,
                        price: p0,
                        quantity: head.shares,
                    },
                ] + drain_fills(level.orders@, s as nat, incoming_id, p0));
                assert(f0 + drain_fills(q0, s0, incoming_id, p0) =~= fills@ + drain_fills(
                    level.orders@,
                    s as nat,
                    incoming_id,
                    p0,
                ));
            }
        }
    }
    proof {
        assert(drain_fills(level.orders@, s as nat, incoming_id, p0) =~= Seq::<Fill>::empty());
        assert(f0 + drain_fills(q0, s0, incoming_id, p0) =~= fills@);
    }
    (s, level.orders.len() == 0)
}

/// A sum of shares is never negative.
pub proof fn lemma_sum_shares_nonneg(q: Seq<Order>)
    ensures
        sum_shares(q) >= 0,
    decreases q.len(),
{
    if q.len() > 0 {
        lemma_sum_shares_nonneg(q.skip(1));
    }
}

/// Appending an order adds its shares to the sum.
pub proof fn lemma_sum_shares_push(q: Seq<Order>, o: Order)
    ensures
        sum_shares(q.push(o)) == sum_shares(q) + o.shares,
    decreases q.len(),
{
    if q.len() == 0 {
        assert(q.push(o).skip(1) =~= Seq::<Order>::empty());
        assert(sum_shares(Seq::<Order>::empty()) == 0);
        assert(q.push(o)[0] == o);
    } else {
        assert(q.push(o).skip(1) =~= q.skip(1).push(o));
        lemma_sum_shares_push(q.skip(1), o);
        assert(q.push(o)[0] == q[0]);
    }
}

/// Removing an order subtracts its shares from the sum.
pub proof fn lemma_sum_shares_remove(q: Seq<Order>, i: int)
    requires
        0 <= i < q.len(),
    ensures
        sum_shares(q.remove(i)) == sum_shares(q) - q[i].shares,
    decreases q.len(),
{
    if i == 0 {
        assert(q.remove(0) =~= q.skip(1));
    } else {
        assert(q.remove(i).skip(1) =~= q.skip(1).remove(i - 1));
        lemma_sum_shares_remove(q.skip(1), i - 1);
    }
}

/// Reducing the head order changes the sum by the difference.
pub proof fn lemma_sum_shares_update0(q: Seq<Order>, o: Order)
    requires
        q.len() > 0,
    ensures
        sum_shares(q.update(0, o)) == sum_shares(q) - q[0].shares + o.shares,
{
    assert(q.update(0, o).skip(1) =~= q.skip(1));
}

/// `queue_has_id` agrees with the existence of a position carrying the id.
pub proof fn lemma_queue_has_id_iff(q: Seq<Order>, id: u64)
    ensures
        queue_has_id(q, id) <==> exists|k: int| 0 <= k < q.len() && q[k].id == id,
    decreases q.len(),
{
    if q.len() > 0 {
        lemma_queue_has_id_iff(q.skip(1), id);
        if exists|k: int| 0 <= k < q.skip(1).len() && q.skip(1)[k].id == id {
            let k = choose|k: int| 0 <= k < q.skip(1).len() && q.skip(1)[k].id == id;
            assert(q[k + 1].id == id);
        }
        if exists|k: int| 0 <= k < q.len() && q[k].id == id {
            let k = choose|k: int| 0 <= k < q.len() && q[k].id == id;
            if k > 0 {
                assert(q.skip(1)[k - 1].id == id);
            }
        }
    }
}

/// Removing the first order carrying `id` is removal at its position.
pub proof fn lemma_queue_without_at(q: Seq<Order>, id: u64, j: int)
    requires
        0 <= j < q.len(),
        q[j].id == id,
        forall|k: int| 0 <= k < j ==> q[k].id != id,
    ensures
        queue_without_id(q, id) == q.remove(j),
    decreases q.len(),
{
    if j == 0 {
        assert(q.remove(0) =~= q.skip(1));
    } else {
        assert(forall|k: int| 0 <= k < j - 1 ==> q.skip(1)[k].id != id);
        assert(q.skip(1)[j - 1].id == id);
        lemma_queue_without_at(q.skip(1), id, j - 1);
        assert(seq![q[0]] + q.skip(1).remove(j - 1) =~= q.remove(j));
    }
}

/// Fill quantities sum over concatenation.
pub proof fn lemma_sum_qty_concat(a: Seq<Fill>, b: Seq<Fill>)
    ensures
        sum_qty(a + b) == sum_qty(a) + sum_qty(b),
    decreases a.len(),
{
    if a.len() == 0 {
        assert(a + b =~= b);
    } else {
        assert((a + b).skip(1) =~= a.skip(1) + b);
        lemma_sum_qty_concat(a.skip(1), b);
        assert((a + b)[0] == a[0]);
    }
}

/// A queue holds the id of any order appended to it.
pub proof fn lemma_queue_push_has(q: Seq<Order>, o: Order)
    ensures
        queue_has_id(q.push(o), o.id),
    decreases q.len(),
{
    if q.len() == 0 {
        assert(q.push(o)[0] == o);
    } else {
        assert(q.push(o)[0] == q[0]);
        assert(q.push(o).skip(1) =~= q.skip(1).push(o));
        lemma_queue_push_has(q.skip(1), o);
    }
}

/// Appending an order with a fresh id makes the queue hold that id, and
/// removing the id again restores the queue.
pub proof fn lemma_queue_push_id(q: Seq<Order>, o: Order)
    requires
        !queue_has_id(q, o.id),
    ensures
        queue_has_id(q.push(o), o.id),
        queue_without_id(q.push(o), o.id) == q,
    decreases q.len(),
{
    if q.len() == 0 {
        assert(q.push(o)[0] == o);
        assert(q.push(o).skip(1) =~= q);
    } else {
        assert(q.push(o)[0] == q[0]);
        assert(q.push(o).skip(1) =~= q.skip(1).push(o));
        lemma_queue_push_id(q.skip(1), o);
        assert(seq![q[0]] + q.skip(1) =~= q);
    }
}

/// If the queue is not fully drained, no shares remain to execute.
pub proof fn lemma_drain_partial_done(q: Seq<Order>, s: nat)
    ensures
        queue_after_drain(q, s).len() > 0 ==> shares_after_drain(q, s) == 0 || s == 0,
    decreases q.len(),
{
    if s > 0 && q.len() > 0 && !(q[0].shares > s) {
        lemma_drain_partial_done(q.skip(1), (s - q[0].shares) as nat);
    }
}

/// Draining a non-empty well-formed queue strictly reduces the shares left.
pub proof fn lemma_drain_decreases(q: Seq<Order>, s: nat, side: Side, price: u64)
    requires
        wf_queue(q, side, price),
        q.len() > 0,
        s > 0,
    ensures
        shares_after_drain(q, s) < s,
    decreases q.len(),
{
    if q[0].shares > s {
        assert(shares_after_drain(q, s) == 0);
    } else {
        let s2 = (s - q[0].shares) as nat;
        assert(q[0].shares > 0);
        assert(shares_after_drain(q, s) == shares_after_drain(q.skip(1), s2));
        if q.skip(1).len() > 0 && s2 > 0 {
            assert(wf_queue(q.skip(1), side, price));
            lemma_drain_decreases(q.skip(1), s2, side, price);
        } else {
            assert(shares_after_drain(q.skip(1), s2) == s2);
        }
    }
}

/// Draining keeps every surviving order on the level's side and price,
/// with positive shares.
pub proof fn lemma_drain_wf_queue(q: Seq<Order>, s: nat, side: Side, price: u64)
    requires
        wf_queue(q, side, price),
    ensures
        wf_queue(queue_after_drain(q, s), side, price),
    decreases q.len(),
{
    if s > 0 && q.len() > 0 && !(q[0].shares > s) {
        assert(wf_queue(q.skip(1), side, price));
        lemma_drain_wf_queue(q.skip(1), (s - q[0].shares) as nat, side, price);
    }
}

/// Conservation at one level: the shares executed out of the incoming
/// order equal the sum of the emitted fill quantities, and equal the
/// shares that left the queue.
pub proof fn lemma_drain_conservation(q: Seq<Order>, s: nat, incoming_id: u64, price: u64)
    ensures
        shares_after_drain(q, s) + sum_qty(drain_fills(q, s, incoming_id, price)) == s,
        sum_shares(queue_after_drain(q, s)) + sum_qty(drain_fills(q, s, incoming_id, price))
            == sum_shares(q),
    decreases q.len(),
{
    let fills = drain_fills(q, s, incoming_id, price);
    if s == 0 || q.len() == 0 {
        assert(fills =~= Seq::<Fill>::empty());
        assert(sum_qty(Seq::<Fill>::empty()) == 0);
    } else if q[0].shares > s {
        assert(fills.skip(1) =~= Seq::<Fill>::empty());
        assert(sum_qty(Seq::<Fill>::empty()) == 0);
        assert(sum_qty(fills) == fills[0].quantity + sum_qty(fills.skip(1)));
        assert(sum_qty(fills) == s);
        lemma_sum_shares_update0(q, Order { shares: (q[0].shares - s) as u64, ..q[0] });
    } else {
        let s2 = (s - q[0].shares) as nat;
        let rest = drain_fills(q.skip(1), s2, incoming_id, price);
        lemma_drain_conservation(q.skip(1), s2, incoming_id, price);
        assert(fills.skip(1) =~= rest);
        assert(sum_qty(fills) == fills[0].quantity + sum_qty(fills.skip(1)));
        assert(sum_qty(fills) == q[0].shares + sum_qty(rest));
        assert(shares_after_drain(q, s) == shares_after_drain(q.skip(1), s2));
        assert(queue_after_drain(q, s) == queue_after_drain(q.skip(1), s2));
        assert(sum_shares(q) == q[0].shares + sum_shares(q.skip(1)));
    }
}

/// Each fill consumes its resting order exactly: after one drain with `k`
/// fills, either the first `k` queued orders are gone (each fully
/// consumed by its fill), or the first `k - 1` are gone and the `k`-th
/// survives with its shares reduced by exactly the last fill's quantity.
pub proof fn lemma_drain_removes_filled(q: Seq<Order>, s: nat, incoming_id: u64, price: u64)
    ensures
        ({
            let fills = drain_fills(q, s, incoming_id, price);
            let k = fills.len() as int;
            let qa = queue_after_drain(q, s);
            &&& k <= q.len()
            &&& qa.len() == q.len() - k || qa.len() == q.len() - k + 1
            &&& qa.len() == q.len() - k ==> qa == q.skip(k)
            &&& qa.len() == q.len() - k + 1 ==> k > 0 && fills[k - 1].quantity < q[k
                - 1].shares && qa == q.skip(k - 1).update(
                0,
                (Order { shares: (q[k - 1].shares - fills[k - 1].quantity) as u64, ..q[k - 1] }),
            )
        }),
    decreases q.len(),
{
    let fills = drain_fills(q, s, incoming_id, price);
    let k = fills.len() as int;
    let qa = queue_after_drain(q, s);
    lemma_drain_fifo(q, s, incoming_id, price);
    if s == 0 || q.len() == 0 {
        assert(qa =~= q.skip(0));
    } else if q[0].shares > s {
        assert(fills.skip(1) =~= Seq::<Fill>::empty());
        assert(k == 1);
        assert(qa =~= q.skip(0).update(
            0,
            (Order { shares: (q[0].shares - fills[0].quantity) as u64, ..q[0] }),
        ));
        assert(qa.len() == q.len() - k + 1);
    } else {
        let s2 = (s - q[0].shares) as nat;
        let rest = drain_fills(q.skip(1), s2, incoming_id, price);
        let qa2 = queue_after_drain(q.skip(1), s2);
        lemma_drain_removes_filled(q.skip(1), s2, incoming_id, price);
        assert(fills.skip(1) =~= rest);
        assert(k == rest.len() + 1);
        assert(qa == qa2);
        if qa2.len() == q.skip(1).len() - rest.len() {
            assert(qa2 == q.skip(1).skip(rest.len() as int));
            assert(q.skip(1).skip(rest.len() as int) =~= q.skip(k));
            assert(qa.len() == q.len() - k);
        } else {
            let k2 = rest.len() as int;
            assert(qa2.len() == q.skip(1).len() - k2 + 1);
            assert(k2 > 0);
            assert(rest[k2 - 1].quantity < q.skip(1)[k2 - 1].shares);
            assert(q.skip(1)[k2 - 1] == q[k - 1]);
            assert(rest[k2 - 1] == fills[k - 1]);
            assert(q.skip(1).skip(k2 - 1) =~= q.skip(k - 1));
            assert(qa.len() == q.len() - k + 1);
        }
    }
}

/// FIFO within a level: the fills of one drain consume the queue strictly
/// in order, oldest first; the `i`-th fill is against the `i`-th queued
/// order, at the level's price, and never for more than that order held.
pub proof fn lemma_drain_fifo(q: Seq<Order>, s: nat, incoming_id: u64, price: u64)
    ensures
        drain_fills(q, s, incoming_id, price).len() <= q.len(),
        forall|i: int|
            0 <= i < drain_fills(q, s, incoming_id, price).len() ==> {
                let f = #[trigger] drain_fills(q, s, incoming_id, price)[i];
                f.resting_order_id == q[i].id && f.incoming_order_id == incoming_id && f.price
                    == price && f.quantity <= q[i].shares
            },
    decreases q.len(),
{
    if s > 0 && q.len() > 0 && !(q[0].shares > s) {
        lemma_drain_fifo(q.skip(1), (s - q[0].shares) as nat, incoming_id, price);
        let fills = drain_fills(q, s, incoming_id, price);
        let rest = drain_fills(q.skip(1), (s - q[0].shares) as nat, incoming_id, price);
        assert forall|i: int| 0 <= i < fills.len() implies {
            let f = #[trigger] fills[i];
            f.resting_order_id == q[i].id && f.incoming_order_id == incoming_id && f.price == price
                && f.quantity <= q[i].shares
        } by {
            if i > 0 {
                assert(fills[i] == rest[i - 1]);
                assert(q.skip(1)[i - 1] == q[i]);
            }
        }
    }
}

} // verus!
