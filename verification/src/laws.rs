//! The book's global laws, proved once over the model: conservation of
//! shares through matching, price-time priority, best-price correctness,
//! and the submit/cancel round trip. FIFO within one level is
//! `crate::level::lemma_drain_fifo`, and level consistency (aggregates
//! agreeing with the queue, no empty level) is the well-formedness
//! invariant `crate::book::levels_wf`, which every operation preserves.

use vstd::prelude::*;

use crate::book::{
    better_price, crosses, levels_model, levels_wf, match_fills, shares_after_match,
    side_after_cancel, side_after_insert, side_after_match, side_has_id, side_total_shares,
    singleton_level, wf_side, OrderBook,
};
use crate::level::{
    drain_fills, lemma_drain_conservation, lemma_drain_fifo, lemma_queue_push_id,
    lemma_sum_qty_concat, queue_after_drain, queue_has_id, queue_without_id, shares_after_drain,
    sum_qty, sum_shares, wf_queue, LevelModel,
};
use crate::order::{Fill, Order, Side};

verus! {

/// A well-formed executable side is a well-formed model side.
pub proof fn lemma_levels_wf_model(v: Seq<crate::level::PriceLevel>, side: Side)
    requires
        levels_wf(v, side),
    ensures
        wf_side(levels_model(v), side),
{
    let m = levels_model(v);
    assert forall|i: int|
        0 <= i < m.len() implies (#[trigger] m[i]).queue.len() > 0 && m[i].price > 0 && wf_queue(
        m[i].queue,
        side,
        m[i].price,
    ) by {
        assert(m[i] == v[i]@);
        assert(v[i].wf());
    }
    assert forall|i: int, j: int|
        0 <= i < j < m.len() implies better_price(side, m[i].price, m[j].price) by {
        assert(m[i] == v[i]@);
        assert(m[j] == v[j]@);
    }
}

/// The tail of a well-formed side is well-formed.
proof fn lemma_wf_side_skip(m: Seq<LevelModel>, side: Side)
    requires
        wf_side(m, side),
        m.len() > 0,
    ensures
        wf_side(m.skip(1), side),
{
    let t = m.skip(1);
    assert forall|i: int|
        0 <= i < t.len() implies (#[trigger] t[i]).queue.len() > 0 && t[i].price > 0 && wf_queue(
        t[i].queue,
        side,
        t[i].price,
    ) by {
        assert(t[i] == m[i + 1]);
    }
    assert forall|i: int, j: int|
        0 <= i < j < t.len() implies better_price(side, t[i].price, t[j].price) by {
        assert(t[i] == m[i + 1]);
        assert(t[j] == m[j + 1]);
    }
}

/// Conservation: matching executes exactly the shares it reports. The
/// incoming order's unfilled remainder plus the sum of all fill
/// quantities equals its original size, and the resting side loses
/// exactly that summed quantity of shares.
pub proof fn lemma_match_conservation(
    m: Seq<LevelModel>,
    incoming: Side,
    limit: Option<u64>,
    s: nat,
    incoming_id: u64,
)
    ensures
        shares_after_match(m, incoming, limit, s) + sum_qty(
            match_fills(m, incoming, limit, s, incoming_id),
        ) == s,
        side_total_shares(side_after_match(m, incoming, limit, s)) + sum_qty(
            match_fills(m, incoming, limit, s, incoming_id),
        ) == side_total_shares(m),
    decreases m.len(),
{
    let fills = match_fills(m, incoming, limit, s, incoming_id);
    if s == 0 || m.len() == 0 || !crosses(incoming, limit, m[0].price) {
        assert(fills =~= Seq::<Fill>::empty());
        assert(sum_qty(Seq::<Fill>::empty()) == 0);
    } else {
        let q2 = queue_after_drain(m[0].queue, s);
        let s2 = shares_after_drain(m[0].queue, s);
        let f0 = drain_fills(m[0].queue, s, incoming_id, m[0].price);
        lemma_drain_conservation(m[0].queue, s, incoming_id, m[0].price);
        assert(side_total_shares(m) == sum_shares(m[0].queue) + side_total_shares(m.skip(1)));
        if q2.len() == 0 {
            let rest = match_fills(m.skip(1), incoming, limit, s2, incoming_id);
            lemma_match_conservation(m.skip(1), incoming, limit, s2, incoming_id);
            lemma_sum_qty_concat(f0, rest);
            assert(fills == f0 + rest);
            assert(sum_shares(q2) == 0);
        } else {
            let after = m.update(0, LevelModel { price: m[0].price, queue: q2 });
            assert(after.skip(1) =~= m.skip(1));
            assert(side_total_shares(after) == sum_shares(q2) + side_total_shares(m.skip(1)));
        }
    }
}

/// Price-time priority across levels: fills happen best price first.
/// In the fill sequence of one match, a later fill is never at a price
/// strictly better than an earlier one; no level left resting after the
/// match is strictly better priced than any fill; and no fill beats the
/// original best price.
pub proof fn lemma_price_time_priority(
    m: Seq<LevelModel>,
    incoming: Side,
    limit: Option<u64>,
    s: nat,
    incoming_id: u64,
)
    requires
        wf_side(m, incoming.opposite()),
    ensures
        ({
            let rside = incoming.opposite();
            let fills = match_fills(m, incoming, limit, s, incoming_id);
            let after = side_after_match(m, incoming, limit, s);
            &&& forall|i: int, j: int|
                0 <= i <= j < fills.len() ==> !better_price(
                    rside,
                    #[trigger] fills[j].price,
                    #[trigger] fills[i].price,
                )
            &&& forall|i: int, k: int|
                0 <= i < fills.len() && 0 <= k < after.len() ==> !better_price(
                    rside,
                    #[trigger] after[k].price,
                    #[trigger] fills[i].price,
                )
            &&& m.len() > 0 ==> forall|i: int|
                0 <= i < fills.len() ==> !better_price(
                    rside,
                    (#[trigger] fills[i]).price,
                    m[0].price,
                )
            &&& m.len() > 0 ==> forall|k: int|
                0 <= k < after.len() ==> !better_price(
                    rside,
                    (#[trigger] after[k]).price,
                    m[0].price,
                )
        }),
    decreases m.len(),
{
    let rside = incoming.opposite();
    let fills = match_fills(m, incoming, limit, s, incoming_id);
    let after = side_after_match(m, incoming, limit, s);
    if s == 0 || m.len() == 0 || !crosses(incoming, limit, m[0].price) {
        assert(fills =~= Seq::<Fill>::empty());
        assert(after == m);
        if m.len() > 0 {
            assert forall|k: int|
                0 <= k < after.len() implies !better_price(
                rside,
                (#[trigger] after[k]).price,
                m[0].price,
            ) by {
                if k > 0 {
                    assert(better_price(rside, m[0].price, m[k].price));
                }
            }
        }
    } else {
        let q2 = queue_after_drain(m[0].queue, s);
        let s2 = shares_after_drain(m[0].queue, s);
        let f0 = drain_fills(m[0].queue, s, incoming_id, m[0].price);
        lemma_drain_fifo(m[0].queue, s, incoming_id, m[0].price);
        assert(forall|i: int| 0 <= i < f0.len() ==> (#[trigger] f0[i]).price == m[0].price);
        if q2.len() == 0 {
            let rest = match_fills(m.skip(1), incoming, limit, s2, incoming_id);
            let after2 = side_after_match(m.skip(1), incoming, limit, s2);
            lemma_wf_side_skip(m, rside);
            lemma_price_time_priority(m.skip(1), incoming, limit, s2, incoming_id);
            assert(fills == f0 + rest);
            assert(after == after2);
            // Everything the recursion touches sits at or below the
            // second-best price, which the best price strictly beats.
            assert forall|i: int|
                0 <= i < fills.len() implies !better_price(
                rside,
                (#[trigger] fills[i]).price,
                m[0].price,
            ) by {
                if i < f0.len() {
                    assert(fills[i] == f0[i]);
                } else {
                    assert(fills[i] == rest[i - f0.len()]);
                    assert(m.skip(1).len() > 0);
                    assert(m.skip(1)[0] == m[1]);
                    assert(better_price(rside, m[0].price, m[1].price));
                }
            }
            assert forall|k: int|
                0 <= k < after.len() implies !better_price(
                rside,
                (#[trigger] after[k]).price,
                m[0].price,
            ) by {
                assert(m.skip(1).len() > 0);
                assert(m.skip(1)[0] == m[1]);
                assert(better_price(rside, m[0].price, m[1].price));
            }
            assert forall|i: int, j: int|
                0 <= i <= j < fills.len() implies !better_price(
                rside,
                #[trigger] fills[j].price,
                #[trigger] fills[i].price,
            ) by {
                if i < f0.len() && j >= f0.len() {
                    assert(fills[i] == f0[i]);
                    assert(fills[j] == rest[j - f0.len()]);
                    assert(m.skip(1)[0] == m[1]);
                    assert(better_price(rside, m[0].price, m[1].price));
                } else if i >= f0.len() {
                    assert(fills[i] == rest[i - f0.len()]);
                    assert(fills[j] == rest[j - f0.len()]);
                } else if j < f0.len() {
                    assert(fills[i] == f0[i]);
                    assert(fills[j] == f0[j]);
                }
            }
            assert forall|i: int, k: int|
                0 <= i < fills.len() && 0 <= k < after.len() implies !better_price(
                rside,
                #[trigger] after[k].price,
                #[trigger] fills[i].price,
            ) by {
                assert(m.skip(1)[0] == m[1]);
                if i < f0.len() {
                    assert(fills[i] == f0[i]);
                } else {
                    assert(fills[i] == rest[i - f0.len()]);
                }
            }
        } else {
            assert(fills == f0);
            assert(after == m.update(0, LevelModel { price: m[0].price, queue: q2 }));
            assert(after[0].price == m[0].price);
            assert forall|i: int, k: int|
                0 <= i < fills.len() && 0 <= k < after.len() implies !better_price(
                rside,
                #[trigger] after[k].price,
                #[trigger] fills[i].price,
            ) by {
                if k > 0 {
                    assert(after[k] == m[k]);
                    assert(better_price(rside, m[0].price, m[k].price));
                }
            }
            assert forall|k: int|
                0 <= k < after.len() implies !better_price(
                rside,
                (#[trigger] after[k]).price,
                m[0].price,
            ) by {
                if k > 0 {
                    assert(after[k] == m[k]);
                    assert(better_price(rside, m[0].price, m[k].price));
                }
            }
        }
    }
}

/// Best-price correctness: on a well-formed side the first level is the
/// strict best — every other level's price is strictly worse — and every
/// level, the best included, holds at least one order.
pub proof fn lemma_best_price_correct(m: Seq<LevelModel>, side: Side)
    requires
        wf_side(m, side),
        m.len() > 0,
    ensures
        m[0].queue.len() > 0,
        forall|k: int| 0 < k < m.len() ==> better_price(side, m[0].price, (#[trigger] m[k]).price),
{
}

/// An order that does not cross — the opposite side is empty, or its best
/// price does not satisfy the order's limit — matches nothing: the
/// opposite side is untouched, no fill is emitted, and the whole order is
/// left to rest.
pub proof fn lemma_no_cross_no_match(
    m: Seq<LevelModel>,
    incoming: Side,
    limit: Option<u64>,
    s: nat,
    incoming_id: u64,
)
    requires
        m.len() == 0 || !crosses(incoming, limit, m[0].price),
    ensures
        side_after_match(m, incoming, limit, s) == m,
        shares_after_match(m, incoming, limit, s) == s,
        match_fills(m, incoming, limit, s, incoming_id) == Seq::<Fill>::empty(),
{
}

/// A side holds the id of any order rested on it, so a cancel right after
/// a submit finds the order on the side it rested on.
pub proof fn lemma_insert_has_id(m: Seq<LevelModel>, o: Order)
    ensures
        side_has_id(side_after_insert(m, o), o.id),
    decreases m.len(),
{
    let ins = side_after_insert(m, o);
    if m.len() == 0 {
        assert(ins[0].queue == seq![o]);
        assert(queue_has_id(seq![o], o.id));
    } else if better_price(o.side, o.limit_price, m[0].price) {
        assert(ins[0] == singleton_level(o));
        assert(queue_has_id(seq![o], o.id));
    } else if o.limit_price == m[0].price {
        assert(ins[0].queue == m[0].queue.push(o));
        crate::level::lemma_queue_push_has(m[0].queue, o);
    } else {
        lemma_insert_has_id(m.skip(1), o);
        assert(ins[0] == m[0]);
        assert(ins.skip(1) =~= side_after_insert(m.skip(1), o));
    }
}

/// Round trip: resting an order with a fresh id and then cancelling that
/// id restores the side exactly — the order leaves its queue, and a level
/// created for it alone disappears with it.
pub proof fn lemma_submit_cancel_round_trip(m: Seq<LevelModel>, o: Order)
    requires
        wf_side(m, o.side),
        !side_has_id(m, o.id),
        o.shares > 0,
    ensures
        side_after_cancel(side_after_insert(m, o), o.id) == m,
    decreases m.len(),
{
    let ins = side_after_insert(m, o);
    if m.len() == 0 {
        assert(queue_has_id(seq![o], o.id));
        assert(queue_without_id(seq![o], o.id) =~= Seq::<Order>::empty());
        assert(ins == seq![singleton_level(o)]);
        assert(ins[0].queue == seq![o]);
        assert(side_after_cancel(ins, o.id) == ins.skip(1));
        assert(ins.skip(1) =~= m);
    } else if better_price(o.side, o.limit_price, m[0].price) {
        assert(ins == seq![singleton_level(o)] + m);
        assert(ins[0] == singleton_level(o));
        assert(queue_has_id(seq![o], o.id));
        assert(queue_without_id(seq![o], o.id) =~= Seq::<Order>::empty());
        assert(side_after_cancel(ins, o.id) == ins.skip(1));
        assert(ins.skip(1) =~= m);
    } else if o.limit_price == m[0].price {
        assert(!queue_has_id(m[0].queue, o.id));
        lemma_queue_push_id(m[0].queue, o);
        assert(ins == m.update(
            0,
            LevelModel { price: m[0].price, queue: m[0].queue.push(o) },
        ));
        assert(ins[0].queue == m[0].queue.push(o));
        assert(queue_has_id(ins[0].queue, o.id));
        assert(queue_without_id(ins[0].queue, o.id) == m[0].queue);
        assert(m[0].queue.len() > 0);
        assert(side_after_cancel(ins, o.id) == ins.update(
            0,
            LevelModel { price: ins[0].price, queue: m[0].queue },
        ));
        assert(side_after_cancel(ins, o.id) =~~= m);
    } else {
        assert(!queue_has_id(m[0].queue, o.id));
        assert(!side_has_id(m.skip(1), o.id));
        lemma_wf_side_skip(m, o.side);
        lemma_submit_cancel_round_trip(m.skip(1), o);
        assert(ins == seq![m[0]] + side_after_insert(m.skip(1), o));
        assert(ins.len() > 0);
        assert(ins[0] == m[0]);
        assert(ins.skip(1) =~= side_after_insert(m.skip(1), o));
        assert(side_after_cancel(ins, o.id) == seq![ins[0]] + side_after_cancel(
            ins.skip(1),
            o.id,
        ));
        assert(seq![m[0]] + m.skip(1) =~= m);
    }
}

/// Level consistency, stated once for a whole well-formed book: every
/// level's stored aggregates agree with its queue, and no level is empty.
pub proof fn lemma_level_consistency(b: OrderBook)
    requires
        b.wf(),
    ensures
        forall|i: int|
            0 <= i < b.bids@.len() ==> {
                let l = #[trigger] b.bids@[i];
                l.order_count as int == l.orders@.len() && l.total_shares as int == sum_shares(
                    l.orders@,
                ) && l.total_notional as int == l.price * sum_shares(l.orders@) && l.orders@.len()
                    > 0
            },
        forall|i: int|
            0 <= i < b.asks@.len() ==> {
                let l = #[trigger] b.asks@[i];
                l.order_count as int == l.orders@.len() && l.total_shares as int == sum_shares(
                    l.orders@,
                ) && l.total_notional as int == l.price * sum_shares(l.orders@) && l.orders@.len()
                    > 0
            },
{
}

} // verus!
