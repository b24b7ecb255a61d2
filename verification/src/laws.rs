use vstd::prelude::*;

use crate::book::{
    book_with_insert, book_without_tx, entry_index, entry_wf, has_entry, insertion_index,
    lemma_entry_index, lemma_entry_index_at, lemma_entry_insert_wf, lemma_insertion_index,
    lemma_without_tx, orders_of, EntryV,
};
use crate::engine::{
    book_after_buy, buy_succeeds, fill_update, lemma_match_plan, lemma_match_plan_shelf,
    lemma_match_plan_txs, match_plan, updates_cost,
};
use crate::models::UpdateV;
use crate::order::OrderV;

verus! {

/// One inbound order message, reduced to what it does to the book: the
/// resting order a limit sell admits, the parameters of a market buy,
/// or the coordinates of a cancellation.
pub ghost enum OrderEventV {
    LimitSell { order: OrderV },
    MarketBuy { stock_id: Seq<char>, quantity: u64, budget: u64, user_name: Seq<char> },
    Cancel { stock_id: Seq<char>, stock_tx_id: Seq<char> },
}

/// What the router guarantees of a message: a well-formed fresh order,
/// or a demand and budget that are positive.
pub open spec fn event_wf(e: OrderEventV) -> bool {
    match e {
        OrderEventV::LimitSell { order } => order.wf(),
        OrderEventV::MarketBuy { stock_id, quantity, budget, user_name } => quantity > 0 && budget
            > 0,
        OrderEventV::Cancel { .. } => true,
    }
}

/// What one handled message leaves of the book. Each arm is the same
/// transform the verified handler is proved to apply.
pub open spec fn book_step(bv: Seq<EntryV>, e: OrderEventV) -> Seq<EntryV> {
    match e {
        OrderEventV::LimitSell { order } => book_with_insert(bv, order),
        OrderEventV::MarketBuy { stock_id, quantity, budget, user_name } => book_after_buy(
            bv,
            stock_id,
            quantity,
            budget,
            user_name,
        ),
        OrderEventV::Cancel { stock_id, stock_tx_id } => book_without_tx(
            bv,
            stock_id,
            stock_tx_id,
        ),
    }
}

/// The book after a whole sequence of handled messages.
pub open spec fn book_after_events(bv: Seq<EntryV>, es: Seq<OrderEventV>) -> Seq<EntryV>
    decreases es.len(),
{
    if es.len() == 0 {
        bv
    } else {
        book_after_events(book_step(bv, es[0]), es.drop_first())
    }
}

/// Admitting a well-formed order keeps the book well formed.
pub proof fn lemma_insert_wf(bv: Seq<EntryV>, o: OrderV)
    requires
        crate::book::book_wf(bv),
        o.wf(),
    ensures
        crate::book::book_wf(book_with_insert(bv, o)),
{
    lemma_entry_index(bv, o.stock_id);
    let k = entry_index(bv, o.stock_id);
    let res = book_with_insert(bv, o);
    if k >= 0 {
        lemma_entry_insert_wf(bv[k], o);
        assert forall|a: int| 0 <= a < res.len() implies entry_wf(#[trigger] res[a]) by {
            if a != k {
                assert(res[a] == bv[a]);
            }
        }
        assert forall|a: int, b: int| 0 <= a < b < res.len() implies (#[trigger] res[a]).stock_id
            != (#[trigger] res[b]).stock_id by {
            assert(res[a].stock_id == bv[a].stock_id);
            assert(res[b].stock_id == bv[b].stock_id);
        }
    } else {
        assert forall|a: int| 0 <= a < res.len() implies entry_wf(#[trigger] res[a]) by {
            if a < bv.len() {
                assert(res[a] == bv[a]);
            } else {
                assert(res[a].orders =~= seq![o]);
            }
        }
        assert forall|a: int, b: int| 0 <= a < b < res.len() implies (#[trigger] res[a]).stock_id
            != (#[trigger] res[b]).stock_id by {
            assert(res[a] == bv[a]);
            if b < bv.len() {
                assert(res[b] == bv[b]);
            }
        }
    }
}

/// A market buy keeps the book well formed, whether it succeeds or
/// fails.
pub proof fn lemma_buy_wf(
    bv: Seq<EntryV>,
    id: Seq<char>,
    quantity: u64,
    budget: u64,
    user: Seq<char>,
)
    requires
        crate::book::book_wf(bv),
    ensures
        crate::book::book_wf(book_after_buy(bv, id, quantity, budget, user)),
{
    lemma_entry_index(bv, id);
    let k = entry_index(bv, id);
    let res = book_after_buy(bv, id, quantity, budget, user);
    if buy_succeeds(bv, id, quantity, budget, user) && k >= 0 {
        assert(entry_wf(bv[k]));
        lemma_match_plan_shelf(bv[k].orders, user, quantity as int, bv[k].stock_id);
        assert forall|a: int| 0 <= a < res.len() implies entry_wf(#[trigger] res[a]) by {
            if a != k {
                assert(res[a] == bv[a]);
            }
        }
        assert forall|a: int, b: int| 0 <= a < b < res.len() implies (#[trigger] res[a]).stock_id
            != (#[trigger] res[b]).stock_id by {
            assert(res[a].stock_id == bv[a].stock_id);
            assert(res[b].stock_id == bv[b].stock_id);
        }
    }
}

/// A cancellation keeps the book well formed.
pub proof fn lemma_cancel_wf(bv: Seq<EntryV>, id: Seq<char>, tx: Seq<char>)
    requires
        crate::book::book_wf(bv),
    ensures
        crate::book::book_wf(book_without_tx(bv, id, tx)),
{
    lemma_entry_index(bv, id);
    let k = entry_index(bv, id);
    let res = book_without_tx(bv, id, tx);
    if k >= 0 {
        assert(entry_wf(bv[k]));
        lemma_without_tx(bv[k], tx);
        assert forall|a: int| 0 <= a < res.len() implies entry_wf(#[trigger] res[a]) by {
            if a != k {
                assert(res[a] == bv[a]);
            }
        }
        assert forall|a: int, b: int| 0 <= a < b < res.len() implies (#[trigger] res[a]).stock_id
            != (#[trigger] res[b]).stock_id by {
            assert(res[a].stock_id == bv[a].stock_id);
            assert(res[b].stock_id == bv[b].stock_id);
        }
    }
}

/// One handled message keeps the book well formed.
pub proof fn lemma_step_wf(bv: Seq<EntryV>, e: OrderEventV)
    requires
        crate::book::book_wf(bv),
        event_wf(e),
    ensures
        crate::book::book_wf(book_step(bv, e)),
{
    match e {
        OrderEventV::LimitSell { order } => lemma_insert_wf(bv, order),
        OrderEventV::MarketBuy { stock_id, quantity, budget, user_name } => lemma_buy_wf(
            bv,
            stock_id,
            quantity,
            budget,
            user_name,
        ),
        OrderEventV::Cancel { stock_id, stock_tx_id } => lemma_cancel_wf(
            bv,
            stock_id,
            stock_tx_id,
        ),
    }
}

/// Any sequence of handled messages keeps the book well formed.
pub proof fn lemma_events_wf(bv: Seq<EntryV>, es: Seq<OrderEventV>)
    requires
        crate::book::book_wf(bv),
        forall|i: int| 0 <= i < es.len() ==> event_wf(#[trigger] es[i]),
    ensures
        crate::book::book_wf(book_after_events(bv, es)),
    decreases es.len(),
{
    if es.len() > 0 {
        lemma_step_wf(bv, es[0]);
        assert(forall|i: int|
            0 <= i < es.drop_first().len() ==> #[trigger] es.drop_first()[i] == es[i + 1]);
        lemma_events_wf(book_step(bv, es[0]), es.drop_first());
    }
}

/// After any sequence of handled messages, the instrument's top of book
/// is a cheapest resting order: nothing on the shelf undercuts it.
pub proof fn lemma_top_of_book_minimal(bv: Seq<EntryV>, es: Seq<OrderEventV>, id: Seq<char>)
    requires
        crate::book::book_wf(bv),
        forall|i: int| 0 <= i < es.len() ==> event_wf(#[trigger] es[i]),
    ensures
        ({
            let shelf = orders_of(book_after_events(bv, es), id);
            forall|j: int|
                0 <= j < shelf.len() ==> shelf[0].price <= (#[trigger] shelf[j]).price
        }),
{
    lemma_events_wf(bv, es);
    let after = book_after_events(bv, es);
    lemma_entry_index(after, id);
    if has_entry(after, id) {
        assert(entry_wf(after[entry_index(after, id)]));
    }
}

/// After any sequence of handled messages, every resting order has some
/// quantity still unfilled, no more than was admitted, and its
/// partial-fill flag set exactly when part of it has been sold.
pub proof fn lemma_resting_order_invariant(bv: Seq<EntryV>, es: Seq<OrderEventV>, id: Seq<char>)
    requires
        crate::book::book_wf(bv),
        forall|i: int| 0 <= i < es.len() ==> event_wf(#[trigger] es[i]),
    ensures
        ({
            let shelf = orders_of(book_after_events(bv, es), id);
            forall|j: int|
                0 <= j < shelf.len() ==> {
                    let o = #[trigger] shelf[j];
                    0 < o.cur_quantity <= o.ori_quantity && (o.partially_sold <==> o.cur_quantity
                        < o.ori_quantity)
                }
        }),
{
    lemma_events_wf(bv, es);
    let after = book_after_events(bv, es);
    lemma_entry_index(after, id);
    let shelf = orders_of(after, id);
    if has_entry(after, id) {
        assert(entry_wf(after[entry_index(after, id)]));
    }
    assert forall|j: int| 0 <= j < shelf.len() implies {
        let o = #[trigger] shelf[j];
        0 < o.cur_quantity <= o.ori_quantity && (o.partially_sold <==> o.cur_quantity
            < o.ori_quantity)
    } by {
        assert(shelf[j].wf());
    }
}

/// An order of the given transaction rests on the instrument's shelf.
pub open spec fn tx_rests(bv: Seq<EntryV>, id: Seq<char>, tx: Seq<char>) -> bool {
    exists|i: int|
        0 <= i < orders_of(bv, id).len() && (#[trigger] orders_of(bv, id)[i]).stock_tx_id == tx
}

/// Books whose entries carry the same instruments in the same places
/// agree on where any instrument's entry is.
pub proof fn lemma_same_ids(bv1: Seq<EntryV>, bv2: Seq<EntryV>, id: Seq<char>)
    requires
        bv1.len() == bv2.len(),
        forall|i: int| 0 <= i < bv1.len() ==> (#[trigger] bv1[i]).stock_id == (#[trigger] bv2[i]).stock_id,
    ensures
        entry_index(bv1, id) == entry_index(bv2, id),
    decreases bv1.len(),
{
    if bv1.len() > 0 {
        assert(bv1[0].stock_id == bv2[0].stock_id);
        if bv1[0].stock_id != id {
            assert(forall|i: int|
                0 <= i < bv1.drop_first().len() ==> #[trigger] bv1.drop_first()[i] == bv1[i + 1]);
            assert(forall|i: int|
                0 <= i < bv2.drop_first().len() ==> #[trigger] bv2.drop_first()[i] == bv2[i + 1]);
            lemma_same_ids(bv1.drop_first(), bv2.drop_first(), id);
        }
    }
}

/// After a cancellation, no order of the cancelled transaction rests on
/// that instrument's shelf.
pub proof fn lemma_cancel_removes_tx(bv: Seq<EntryV>, id: Seq<char>, tx: Seq<char>)
    requires
        crate::book::book_wf(bv),
    ensures
        !tx_rests(book_without_tx(bv, id, tx), id, tx),
{
    lemma_entry_index(bv, id);
    let k = entry_index(bv, id);
    let res = book_without_tx(bv, id, tx);
    if k >= 0 {
        assert(entry_wf(bv[k]));
        lemma_without_tx(bv[k], tx);
        assert(res.len() == bv.len());
        assert(forall|i: int|
            0 <= i < bv.len() ==> (#[trigger] bv[i]).stock_id == (#[trigger] res[i]).stock_id);
        lemma_same_ids(bv, res, id);
        assert(orders_of(res, id) == crate::book::without_tx(bv[k].orders, tx));
    }
}

/// An event admits the transaction only as a limit sell carrying it.
pub open spec fn event_admits_tx(e: OrderEventV, tx: Seq<char>) -> bool {
    match e {
        OrderEventV::LimitSell { order } => order.stock_tx_id == tx,
        _ => false,
    }
}

/// A transaction absent from an instrument's shelf stays absent across
/// any handled message that does not admit it: matching and
/// cancellation never bring a transaction back.
pub proof fn lemma_tx_absence_step(bv: Seq<EntryV>, e: OrderEventV, id: Seq<char>, tx: Seq<char>)
    requires
        crate::book::book_wf(bv),
        !tx_rests(bv, id, tx),
        !event_admits_tx(e, tx),
    ensures
        !tx_rests(book_step(bv, e), id, tx),
{
    let res = book_step(bv, e);
    lemma_entry_index(bv, id);
    let ei = entry_index(bv, id);
    match e {
        OrderEventV::LimitSell { order } => {
            lemma_entry_index(bv, order.stock_id);
            let k = entry_index(bv, order.stock_id);
            if k >= 0 {
                assert(res.len() == bv.len());
                assert(forall|i: int|
                    0 <= i < bv.len() ==> (#[trigger] bv[i]).stock_id == (
                    #[trigger] res[i]).stock_id);
                lemma_same_ids(bv, res, id);
                if ei >= 0 && ei == k {
                    let orders = bv[k].orders;
                    let ii = insertion_index(orders, order.price);
                    lemma_insertion_index(orders, order.price);
                    let orders2 = orders.insert(ii, order);
                    orders.insert_ensures(ii, order);
                    assert(orders_of(bv, id) == orders);
                    assert forall|i: int| 0 <= i < orders2.len() implies (
                    #[trigger] orders2[i]).stock_tx_id != tx by {
                        if i < ii {
                            assert(orders2[i] == orders[i]);
                            assert(orders_of(bv, id)[i].stock_tx_id != tx);
                        } else if i == ii {
                            assert(orders2[i] == order);
                        } else {
                            assert(orders2[i] == orders[i - 1]);
                            assert(orders_of(bv, id)[i - 1].stock_tx_id != tx);
                        }
                    }
                    assert(orders_of(res, id) == orders2);
                } else if ei >= 0 {
                    assert(res[ei] == bv[ei]);
                    assert(orders_of(res, id) == orders_of(bv, id));
                } else {
                    assert(!has_entry(res, id));
                }
            } else {
                if id == order.stock_id {
                    assert(forall|j: int|
                        0 <= j < bv.len() ==> (#[trigger] res[j]).stock_id != id);
                    lemma_entry_index_at(res, id, bv.len() as int);
                    assert(orders_of(res, id) =~= seq![order]);
                    assert(orders_of(res, id)[0] == order);
                } else if ei >= 0 {
                    assert(res[ei] == bv[ei]);
                    assert forall|j: int| 0 <= j < ei implies (#[trigger] res[j]).stock_id != id
                        by {
                        assert(res[j] == bv[j]);
                    }
                    lemma_entry_index_at(res, id, ei);
                    assert(orders_of(res, id) == orders_of(bv, id));
                } else {
                    lemma_entry_index(res, id);
                    let e2 = entry_index(res, id);
                    if e2 >= 0 {
                        assert(res[e2].stock_id == id);
                        if e2 < bv.len() {
                            assert(res[e2] == bv[e2]);
                            assert(false);
                        } else {
                            assert(res[e2].stock_id == order.stock_id);
                            assert(false);
                        }
                    }
                }
            }
        },
        OrderEventV::MarketBuy { stock_id, quantity, budget, user_name } => {
            lemma_entry_index(bv, stock_id);
            let k = entry_index(bv, stock_id);
            if buy_succeeds(bv, stock_id, quantity, budget, user_name) && k >= 0 {
                assert(res.len() == bv.len());
                assert(forall|i: int|
                    0 <= i < bv.len() ==> (#[trigger] bv[i]).stock_id == (
                    #[trigger] res[i]).stock_id);
                lemma_same_ids(bv, res, id);
                if ei >= 0 && ei == k {
                    assert(orders_of(bv, id) == bv[k].orders);
                    assert forall|i: int|
                        0 <= i < bv[k].orders.len() implies (#[trigger] bv[k].orders[i]).stock_tx_id
                            != tx by {
                        assert(orders_of(bv, id)[i].stock_tx_id != tx);
                    }
                    lemma_match_plan_txs(bv[k].orders, user_name, quantity as int, tx);
                    assert(orders_of(res, id) == match_plan(
                        bv[k].orders,
                        user_name,
                        quantity as int,
                    ).shelf);
                } else if ei >= 0 {
                    assert(res[ei] == bv[ei]);
                    assert(orders_of(res, id) == orders_of(bv, id));
                } else {
                    assert(!has_entry(res, id));
                }
            }
        },
        OrderEventV::Cancel { stock_id, stock_tx_id } => {
            lemma_entry_index(bv, stock_id);
            let k = entry_index(bv, stock_id);
            if k >= 0 {
                assert(entry_wf(bv[k]));
                lemma_without_tx(bv[k], stock_tx_id);
                assert(res.len() == bv.len());
                assert(forall|i: int|
                    0 <= i < bv.len() ==> (#[trigger] bv[i]).stock_id == (
                    #[trigger] res[i]).stock_id);
                lemma_same_ids(bv, res, id);
                if ei >= 0 && ei == k {
                    let kept = crate::book::without_tx(bv[k].orders, stock_tx_id);
                    assert(orders_of(bv, id) == bv[k].orders);
                    assert forall|i: int| 0 <= i < kept.len() implies (
                    #[trigger] kept[i]).stock_tx_id != tx by {
                        assert(bv[k].orders.contains(kept[i]));
                        let w = choose|w: int|
                            0 <= w < bv[k].orders.len() && bv[k].orders[w] == kept[i];
                        assert(orders_of(bv, id)[w].stock_tx_id != tx);
                        assert(bv[k].orders[w].stock_tx_id != tx);
                    }
                    assert(orders_of(res, id) == kept);
                } else if ei >= 0 {
                    assert(res[ei] == bv[ei]);
                    assert(orders_of(res, id) == orders_of(bv, id));
                } else {
                    assert(!has_entry(res, id));
                }
            }
        },
    }
}

/// A transaction absent from an instrument's shelf stays absent across
/// any sequence of handled messages that never admits it again.
pub proof fn lemma_tx_absence_events(
    bv: Seq<EntryV>,
    es: Seq<OrderEventV>,
    id: Seq<char>,
    tx: Seq<char>,
)
    requires
        crate::book::book_wf(bv),
        !tx_rests(bv, id, tx),
        forall|i: int| 0 <= i < es.len() ==> event_wf(#[trigger] es[i]),
        forall|i: int| 0 <= i < es.len() ==> !event_admits_tx(#[trigger] es[i], tx),
    ensures
        !tx_rests(book_after_events(bv, es), id, tx),
    decreases es.len(),
{
    if es.len() > 0 {
        lemma_step_wf(bv, es[0]);
        lemma_tx_absence_step(bv, es[0], id, tx);
        assert(forall|i: int|
            0 <= i < es.drop_first().len() ==> #[trigger] es.drop_first()[i] == es[i + 1]);
        lemma_tx_absence_events(book_step(bv, es[0]), es.drop_first(), id, tx);
    }
}

/// After a cancellation of a transaction that rested only under its own
/// instrument, no later handled message returns it: no future top of
/// book or pop carries the cancelled transaction, as long as the router
/// never reuses it for a new sell.
pub proof fn lemma_cancelled_tx_not_returned(
    bv: Seq<EntryV>,
    id: Seq<char>,
    tx: Seq<char>,
    es: Seq<OrderEventV>,
)
    requires
        crate::book::book_wf(bv),
        forall|id2: Seq<char>| tx_rests(bv, id2, tx) ==> id2 == id,
        forall|i: int| 0 <= i < es.len() ==> event_wf(#[trigger] es[i]),
        forall|i: int| 0 <= i < es.len() ==> !event_admits_tx(#[trigger] es[i], tx),
    ensures
        forall|id2: Seq<char>|
            !tx_rests(book_after_events(book_without_tx(bv, id, tx), es), id2, tx),
{
    let b1 = book_without_tx(bv, id, tx);
    lemma_cancel_wf(bv, id, tx);
    assert forall|id2: Seq<char>| !tx_rests(b1, id2, tx) by {
        if id2 == id {
            lemma_cancel_removes_tx(bv, id, tx);
        } else {
            lemma_entry_index(bv, id);
            lemma_entry_index(bv, id2);
            let k = entry_index(bv, id);
            if k >= 0 {
                assert(b1.len() == bv.len());
                assert(forall|i: int|
                    0 <= i < bv.len() ==> (#[trigger] bv[i]).stock_id == (
                    #[trigger] b1[i]).stock_id);
                lemma_same_ids(bv, b1, id2);
                let e2 = entry_index(bv, id2);
                if e2 >= 0 {
                    assert(bv[e2].stock_id == id2);
                    assert(e2 != k);
                    assert(orders_of(b1, id2) == orders_of(bv, id2));
                }
            }
            assert(!tx_rests(bv, id2, tx));
        }
    }
    assert forall|id2: Seq<char>|
        !tx_rests(book_after_events(b1, es), id2, tx) by {
        lemma_tx_absence_events(b1, es, id2, tx);
    }
}

/// Unfilled quantity the shelf holds under a transaction.
pub open spec fn cur_of_tx(orders: Seq<OrderV>, tx: Seq<char>) -> int
    decreases orders.len(),
{
    if orders.len() == 0 {
        0
    } else {
        (if orders[0].stock_tx_id == tx {
            orders[0].cur_quantity as int
        } else {
            0
        }) + cur_of_tx(orders.drop_first(), tx)
    }
}

/// Quantity sold under a transaction over a sequence of fill events.
pub open spec fn sold_for_tx(us: Seq<UpdateV>, tx: Seq<char>) -> int
    decreases us.len(),
{
    if us.len() == 0 {
        0
    } else {
        (if us[0].stock_tx_id == tx {
            us[0].sold_quantity as int
        } else {
            0
        }) + sold_for_tx(us.drop_first(), tx)
    }
}

/// Fill conservation: over one market buy, the quantity sold under a
/// transaction in the emitted fill events is exactly what left that
/// transaction's resting orders, provided the transaction is not the
/// buyer's own (a self order is discarded unpaid, never sold). A fresh
/// order rests with its full admitted quantity, so summing the sale
/// updates for its transaction over its lifetime accounts for
/// `ori_quantity - cur_quantity` at any moment, and for the whole
/// `ori_quantity` once the order is fully filled and gone.
pub proof fn lemma_buy_fill_conservation(
    orders: Seq<OrderV>,
    user: Seq<char>,
    remaining: int,
    tx: Seq<char>,
)
    requires
        remaining >= 0,
        forall|i: int|
            0 <= i < orders.len() ==> ((#[trigger] orders[i]).stock_tx_id == tx ==> orders[i].user_name
                != user),
    ensures
        sold_for_tx(match_plan(orders, user, remaining).updates, tx) == cur_of_tx(orders, tx)
            - cur_of_tx(match_plan(orders, user, remaining).shelf, tx),
    decreases orders.len(),
{
    let plan = match_plan(orders, user, remaining);
    if remaining <= 0 || orders.len() == 0 {
    } else {
        let top = orders[0];
        let rest = orders.drop_first();
        assert(forall|i: int| 0 <= i < rest.len() ==> #[trigger] rest[i] == orders[i + 1]);
        if top.user_name == user {
            assert(top.stock_tx_id != tx);
            lemma_buy_fill_conservation(rest, user, remaining, tx);
        } else if remaining >= top.cur_quantity {
            lemma_buy_fill_conservation(rest, user, remaining - top.cur_quantity, tx);
            let sub = match_plan(rest, user, remaining - top.cur_quantity);
            let u = fill_update(top, top.cur_quantity, 0);
            assert((seq![u] + sub.updates).drop_first() =~= sub.updates);
            assert(plan.updates[0] == u);
            assert(sold_for_tx(plan.updates, tx) == (if u.stock_tx_id == tx {
                u.sold_quantity as int
            } else {
                0
            }) + sold_for_tx(sub.updates, tx));
            assert(cur_of_tx(orders, tx) == (if top.stock_tx_id == tx {
                top.cur_quantity as int
            } else {
                0
            }) + cur_of_tx(rest, tx));
            assert(u.stock_tx_id == top.stock_tx_id);
            assert(u.sold_quantity == top.cur_quantity);
        } else {
            let newtop = OrderV {
                cur_quantity: (top.cur_quantity - remaining) as u64,
                partially_sold: true,
                ..top
            };
            let u = fill_update(top, remaining as u64, (top.cur_quantity - remaining) as u64);
            assert(plan.updates[0] == u);
            assert(plan.updates.drop_first() =~= Seq::<UpdateV>::empty());
            assert(plan.shelf[0] == newtop);
            assert(plan.shelf.drop_first() =~= rest);
            assert(cur_of_tx(plan.shelf, tx) == (if newtop.stock_tx_id == tx {
                newtop.cur_quantity as int
            } else {
                0
            }) + cur_of_tx(rest, tx));
            assert(cur_of_tx(orders, tx) == (if top.stock_tx_id == tx {
                top.cur_quantity as int
            } else {
                0
            }) + cur_of_tx(rest, tx));
            assert(sold_for_tx(plan.updates, tx) == (if u.stock_tx_id == tx {
                u.sold_quantity as int
            } else {
                0
            }) + sold_for_tx(Seq::<UpdateV>::empty(), tx));
            assert(u.stock_tx_id == top.stock_tx_id);
            assert(newtop.stock_tx_id == top.stock_tx_id);
            assert(remaining as u64 as int == remaining);
            assert(newtop.cur_quantity as int == top.cur_quantity - remaining);
        }
    }
}

/// A market buy's reported total is the sum of sold quantity times the
/// resting price over exactly the fill events it emits.
pub proof fn lemma_buy_total_is_fill_sum(orders: Seq<OrderV>, user: Seq<char>, remaining: int)
    requires
        remaining >= 0,
        forall|i: int| 0 <= i < orders.len() ==> (#[trigger] orders[i]).wf(),
    ensures
        match_plan(orders, user, remaining).cost == updates_cost(
            match_plan(orders, user, remaining).updates,
        ),
{
    lemma_match_plan(orders, user, remaining);
}

/// Self-trade prevention: no fill event of a market buy pays out to the
/// buyer; reached self orders are discarded, not charged.
pub proof fn lemma_no_self_fills(orders: Seq<OrderV>, user: Seq<char>, remaining: int)
    requires
        remaining >= 0,
        forall|i: int| 0 <= i < orders.len() ==> (#[trigger] orders[i]).wf(),
    ensures
        forall|i: int|
            0 <= i < match_plan(orders, user, remaining).updates.len() ==> (#[trigger] match_plan(
                orders,
                user,
                remaining,
            ).updates[i]).user_name != user,
{
    lemma_match_plan(orders, user, remaining);
}

/// A market buy that succeeds fills its whole demand and emits at least
/// one fill event; the handler emits exactly one completion event
/// either way, and none of the fills on failure.
pub proof fn lemma_success_has_fills(
    bv: Seq<EntryV>,
    id: Seq<char>,
    quantity: u64,
    budget: u64,
    user: Seq<char>,
)
    requires
        crate::book::book_wf(bv),
        quantity > 0,
        buy_succeeds(bv, id, quantity, budget, user),
    ensures
        match_plan(orders_of(bv, id), user, quantity as int).bought == quantity,
        match_plan(orders_of(bv, id), user, quantity as int).updates.len() >= 1,
{
    lemma_entry_index(bv, id);
    if has_entry(bv, id) {
        assert(entry_wf(bv[entry_index(bv, id)]));
    }
    assert(forall|i: int|
        0 <= i < orders_of(bv, id).len() ==> (#[trigger] orders_of(bv, id)[i]).wf());
    lemma_match_plan(orders_of(bv, id), user, quantity as int);
}

/// Adding an order at the back adds its contribution to the unfilled
/// quantity held under a transaction.
pub proof fn lemma_cur_push(s: Seq<OrderV>, x: OrderV, tx: Seq<char>)
    ensures
        cur_of_tx(s.push(x), tx) == cur_of_tx(s, tx) + (if x.stock_tx_id == tx {
            x.cur_quantity as int
        } else {
            0
        }),
    decreases s.len(),
{
    if s.len() == 0 {
        assert(s.push(x).drop_first() =~= Seq::<OrderV>::empty());
        assert(s.push(x)[0] == x);
        assert(cur_of_tx(Seq::<OrderV>::empty(), tx) == 0);
        assert(cur_of_tx(s, tx) == 0);
    } else {
        assert(s.push(x).drop_first() =~= s.drop_first().push(x));
        assert(s.push(x)[0] == s[0]);
        lemma_cur_push(s.drop_first(), x, tx);
        assert(cur_of_tx(s.push(x), tx) == (if s[0].stock_tx_id == tx {
            s[0].cur_quantity as int
        } else {
            0
        }) + cur_of_tx(s.drop_first().push(x), tx));
        assert(cur_of_tx(s, tx) == (if s[0].stock_tx_id == tx {
            s[0].cur_quantity as int
        } else {
            0
        }) + cur_of_tx(s.drop_first(), tx));
    }
}

/// Slotting in an order of another transaction does not change the
/// unfilled quantity held under this one.
pub proof fn lemma_cur_insert(s: Seq<OrderV>, i: int, o: OrderV, tx: Seq<char>)
    requires
        0 <= i <= s.len(),
        o.stock_tx_id != tx,
    ensures
        cur_of_tx(s.insert(i, o), tx) == cur_of_tx(s, tx),
    decreases s.len(),
{
    if i == 0 {
        assert(s.insert(0, o)[0] == o);
        assert(s.insert(0, o).drop_first() =~= s);
    } else {
        assert(s.insert(i, o)[0] == s[0]);
        assert(s.insert(i, o).drop_first() =~= s.drop_first().insert(i - 1, o));
        lemma_cur_insert(s.drop_first(), i - 1, o, tx);
    }
}

/// Cancelling one transaction does not change the unfilled quantity held
/// under another.
pub proof fn lemma_cur_without(s: Seq<OrderV>, gone: Seq<char>, tx: Seq<char>)
    requires
        gone != tx,
    ensures
        cur_of_tx(crate::book::without_tx(s, gone), tx) == cur_of_tx(s, tx),
    decreases s.len(),
{
    if s.len() > 0 {
        let front = s.drop_last();
        lemma_cur_without(front, gone, tx);
        lemma_cur_push(front, s.last(), tx);
        assert(front.push(s.last()) =~= s);
        if s.last().stock_tx_id != gone {
            lemma_cur_push(crate::book::without_tx(front, gone), s.last(), tx);
        } else {
            assert(s.last().stock_tx_id != tx);
        }
    }
}

/// Quantity sold under a transaction adds up over concatenated fills.
pub proof fn lemma_sold_concat(a: Seq<UpdateV>, b: Seq<UpdateV>, tx: Seq<char>)
    ensures
        sold_for_tx(a + b, tx) == sold_for_tx(a, tx) + sold_for_tx(b, tx),
    decreases a.len(),
{
    if a.len() == 0 {
        assert(a + b =~= b);
    } else {
        assert((a + b)[0] == a[0]);
        assert((a + b).drop_first() =~= a.drop_first() + b);
        lemma_sold_concat(a.drop_first(), b, tx);
    }
}

/// The matching walk emits no fill under a transaction that does not
/// rest on the shelf.
pub proof fn lemma_plan_updates_txs(
    orders: Seq<OrderV>,
    user: Seq<char>,
    remaining: int,
    tx: Seq<char>,
)
    requires
        forall|i: int| 0 <= i < orders.len() ==> (#[trigger] orders[i]).stock_tx_id != tx,
    ensures
        sold_for_tx(match_plan(orders, user, remaining).updates, tx) == 0,
    decreases orders.len(),
{
    let plan = match_plan(orders, user, remaining);
    if remaining <= 0 || orders.len() == 0 {
    } else {
        let top = orders[0];
        let rest = orders.drop_first();
        assert(forall|i: int| 0 <= i < rest.len() ==> #[trigger] rest[i] == orders[i + 1]);
        assert(top.stock_tx_id != tx);
        if top.user_name == user {
            lemma_plan_updates_txs(rest, user, remaining, tx);
        } else if remaining >= top.cur_quantity {
            lemma_plan_updates_txs(rest, user, remaining - top.cur_quantity, tx);
            let sub = match_plan(rest, user, remaining - top.cur_quantity);
            let u = fill_update(top, top.cur_quantity, 0);
            assert((seq![u] + sub.updates).drop_first() =~= sub.updates);
            assert(plan.updates[0] == u);
            assert(sold_for_tx(plan.updates, tx) == (if u.stock_tx_id == tx {
                u.sold_quantity as int
            } else {
                0
            }) + sold_for_tx(sub.updates, tx));
        } else {
            assert(plan.updates[0].stock_tx_id == top.stock_tx_id);
            assert(plan.updates.drop_first() =~= Seq::<UpdateV>::empty());
            assert(sold_for_tx(plan.updates, tx) == 0 + sold_for_tx(
                Seq::<UpdateV>::empty(),
                tx,
            ));
        }
    }
}

/// The matching walk keeps each remaining order's transaction with its
/// owner: whoever held a transaction's resting orders before the walk
/// holds what is left of them.
pub proof fn lemma_plan_shelf_owner(
    orders: Seq<OrderV>,
    user: Seq<char>,
    remaining: int,
    tx: Seq<char>,
    owner: Seq<char>,
)
    requires
        forall|i: int|
            0 <= i < orders.len() ==> ((#[trigger] orders[i]).stock_tx_id == tx ==> orders[i].user_name
                == owner),
    ensures
        forall|i: int|
            0 <= i < match_plan(orders, user, remaining).shelf.len() ==> ((#[trigger] match_plan(
                orders,
                user,
                remaining,
            ).shelf[i]).stock_tx_id == tx ==> match_plan(orders, user, remaining).shelf[i].user_name
                == owner),
    decreases orders.len(),
{
    if remaining <= 0 || orders.len() == 0 {
    } else {
        let top = orders[0];
        let rest = orders.drop_first();
        assert(forall|i: int| 0 <= i < rest.len() ==> #[trigger] rest[i] == orders[i + 1]);
        let shelf = match_plan(orders, user, remaining).shelf;
        if top.user_name == user {
            lemma_plan_shelf_owner(rest, user, remaining, tx, owner);
        } else if remaining >= top.cur_quantity {
            lemma_plan_shelf_owner(rest, user, remaining - top.cur_quantity, tx, owner);
        } else {
            assert(forall|i: int| 0 < i < shelf.len() ==> #[trigger] shelf[i] == orders[i]);
            assert(shelf[0].stock_tx_id == top.stock_tx_id && shelf[0].user_name == top.user_name);
        }
        assert forall|i: int| 0 <= i < shelf.len() implies ((#[trigger] shelf[i]).stock_tx_id == tx
            ==> shelf[i].user_name == owner) by {
            if top.user_name == user {
                let sr = match_plan(rest, user, remaining).shelf;
                assert(sr[i].stock_tx_id == tx ==> sr[i].user_name == owner);
            } else if remaining >= top.cur_quantity {
                let sr = match_plan(rest, user, remaining - top.cur_quantity).shelf;
                assert(sr[i].stock_tx_id == tx ==> sr[i].user_name == owner);
            } else {
                if i > 0 {
                    assert(shelf[i] == orders[i]);
                }
            }
        }
    }
}

/// The fill events one handled message emits: a successful market buy
/// emits its walk's fills, everything else emits none.
pub open spec fn step_updates(bv: Seq<EntryV>, e: OrderEventV) -> Seq<UpdateV> {
    match e {
        OrderEventV::LimitSell { .. } => Seq::empty(),
        OrderEventV::MarketBuy { stock_id, quantity, budget, user_name } => if buy_succeeds(
            bv,
            stock_id,
            quantity,
            budget,
            user_name,
        ) {
            match_plan(orders_of(bv, stock_id), user_name, quantity as int).updates
        } else {
            Seq::empty()
        },
        OrderEventV::Cancel { .. } => Seq::empty(),
    }
}

/// All fill events a sequence of handled messages emits, in order.
pub open spec fn events_updates(bv: Seq<EntryV>, es: Seq<OrderEventV>) -> Seq<UpdateV>
    decreases es.len(),
{
    if es.len() == 0 {
        Seq::empty()
    } else {
        step_updates(bv, es[0]) + events_updates(book_step(bv, es[0]), es.drop_first())
    }
}

/// Unfilled quantity the instrument's shelf holds under a transaction.
pub open spec fn cur_in_book(bv: Seq<EntryV>, id: Seq<char>, tx: Seq<char>) -> int {
    cur_of_tx(orders_of(bv, id), tx)
}

/// An event that acts on the transaction's account other than by paying
/// fills: admitting it again, a market buy by its owner on its
/// instrument (a reached self order is discarded unpaid), or its
/// cancellation.
pub open spec fn event_touches_tx(
    e: OrderEventV,
    id: Seq<char>,
    tx: Seq<char>,
    owner: Seq<char>,
) -> bool {
    match e {
        OrderEventV::LimitSell { order } => order.stock_tx_id == tx,
        OrderEventV::MarketBuy { stock_id, user_name, .. } => stock_id == id && user_name == owner,
        OrderEventV::Cancel { stock_id, stock_tx_id } => stock_id == id && stock_tx_id == tx,
    }
}

/// Every order resting under the transaction on the instrument's shelf
/// belongs to the owner.
pub open spec fn tx_owned_by(
    bv: Seq<EntryV>,
    id: Seq<char>,
    tx: Seq<char>,
    owner: Seq<char>,
) -> bool {
    forall|i: int|
        0 <= i < orders_of(bv, id).len() ==> ((#[trigger] orders_of(bv, id)[i]).stock_tx_id == tx
            ==> orders_of(bv, id)[i].user_name == owner)
}

/// One handled message that does not act on the transaction's account
/// directly changes its unfilled quantity by exactly the quantity the
/// message's fill events sell under it, and keeps the transaction with
/// its owner and off every other instrument.
pub proof fn lemma_step_conserves_tx(
    bv: Seq<EntryV>,
    e: OrderEventV,
    id: Seq<char>,
    tx: Seq<char>,
    owner: Seq<char>,
)
    requires
        crate::book::book_wf(bv),
        event_wf(e),
        tx_owned_by(bv, id, tx, owner),
        forall|id2: Seq<char>| id2 != id ==> !tx_rests(bv, id2, tx),
        !event_touches_tx(e, id, tx, owner),
    ensures
        sold_for_tx(step_updates(bv, e), tx) == cur_in_book(bv, id, tx) - cur_in_book(
            book_step(bv, e),
            id,
            tx,
        ),
        tx_owned_by(book_step(bv, e), id, tx, owner),
        forall|id2: Seq<char>| id2 != id ==> !tx_rests(book_step(bv, e), id2, tx),
{
    let res = book_step(bv, e);
    lemma_entry_index(bv, id);
    let ei = entry_index(bv, id);
    assert forall|id2: Seq<char>| id2 != id implies !tx_rests(res, id2, tx) by {
        lemma_tx_absence_step(bv, e, id2, tx);
    }
    match e {
        OrderEventV::LimitSell { order } => {
            assert(sold_for_tx(step_updates(bv, e), tx) == 0);
            lemma_entry_index(bv, order.stock_id);
            let k = entry_index(bv, order.stock_id);
            if k >= 0 {
                assert(res.len() == bv.len());
                assert(forall|i: int|
                    0 <= i < bv.len() ==> (#[trigger] bv[i]).stock_id == (
                    #[trigger] res[i]).stock_id);
                lemma_same_ids(bv, res, id);
                if ei >= 0 && ei == k {
                    let orders = bv[k].orders;
                    let ii = insertion_index(orders, order.price);
                    lemma_insertion_index(orders, order.price);
                    let orders2 = orders.insert(ii, order);
                    orders.insert_ensures(ii, order);
                    assert(orders_of(bv, id) == orders);
                    assert(orders_of(res, id) == orders2);
                    lemma_cur_insert(orders, ii, order, tx);
                    assert forall|i: int| 0 <= i < orders2.len() implies ((
                    #[trigger] orders2[i]).stock_tx_id == tx ==> orders2[i].user_name == owner) by {
                        if i < ii {
                            assert(orders2[i] == orders[i]);
                            assert(orders_of(bv, id)[i] == orders[i]);
                        } else if i == ii {
                            assert(orders2[i] == order);
                        } else {
                            assert(orders2[i] == orders[i - 1]);
                            assert(orders_of(bv, id)[i - 1] == orders[i - 1]);
                        }
                    }
                } else if ei >= 0 {
                    assert(res[ei] == bv[ei]);
                    assert(orders_of(res, id) == orders_of(bv, id));
                } else {
                    assert(!has_entry(res, id));
                    assert(orders_of(res, id) == Seq::<OrderV>::empty());
                    assert(orders_of(bv, id) == Seq::<OrderV>::empty());
                }
            } else {
                if id == order.stock_id {
                    assert(forall|j: int|
                        0 <= j < bv.len() ==> (#[trigger] res[j]).stock_id != id);
                    lemma_entry_index_at(res, id, bv.len() as int);
                    assert(orders_of(res, id) =~= seq![order]);
                    assert(orders_of(bv, id) == Seq::<OrderV>::empty());
                    assert(seq![order].drop_first() =~= Seq::<OrderV>::empty());
                    assert(cur_of_tx(seq![order], tx) == cur_of_tx(Seq::<OrderV>::empty(), tx));
                    assert(orders_of(res, id)[0] == order);
                } else if ei >= 0 {
                    assert(res[ei] == bv[ei]);
                    assert forall|j: int| 0 <= j < ei implies (#[trigger] res[j]).stock_id != id
                        by {
                        assert(res[j] == bv[j]);
                    }
                    lemma_entry_index_at(res, id, ei);
                    assert(orders_of(res, id) == orders_of(bv, id));
                } else {
                    lemma_entry_index(res, id);
                    let e2 = entry_index(res, id);
                    if e2 >= 0 {
                        assert(res[e2].stock_id == id);
                        if e2 < bv.len() {
                            assert(res[e2] == bv[e2]);
                            assert(false);
                        } else {
                            assert(res[e2].stock_id == order.stock_id);
                            assert(false);
                        }
                    }
                    assert(orders_of(res, id) == Seq::<OrderV>::empty());
                    assert(orders_of(bv, id) == Seq::<OrderV>::empty());
                }
            }
        },
        OrderEventV::MarketBuy { stock_id, quantity, budget, user_name } => {
            lemma_entry_index(bv, stock_id);
            let k = entry_index(bv, stock_id);
            let succeeds = buy_succeeds(bv, stock_id, quantity, budget, user_name);
            if succeeds && k >= 0 {
                assert(res.len() == bv.len());
                assert(forall|i: int|
                    0 <= i < bv.len() ==> (#[trigger] bv[i]).stock_id == (
                    #[trigger] res[i]).stock_id);
                lemma_same_ids(bv, res, id);
                if ei >= 0 && ei == k {
                    assert(stock_id == id);
                    assert(user_name != owner);
                    let orders = bv[k].orders;
                    assert(orders_of(bv, id) == orders);
                    assert forall|i: int| 0 <= i < orders.len() implies ((
                    #[trigger] orders[i]).stock_tx_id == tx ==> orders[i].user_name != user_name)
                        by {
                        assert(orders_of(bv, id)[i] == orders[i]);
                    }
                    lemma_buy_fill_conservation(orders, user_name, quantity as int, tx);
                    lemma_plan_shelf_owner(orders, user_name, quantity as int, tx, owner);
                    assert(orders_of(res, id) == match_plan(
                        orders,
                        user_name,
                        quantity as int,
                    ).shelf);
                } else if ei >= 0 {
                    assert(res[ei] == bv[ei]);
                    assert(orders_of(res, id) == orders_of(bv, id));
                    assert(stock_id != id);
                    assert(!tx_rests(bv, stock_id, tx));
                    let others = orders_of(bv, stock_id);
                    assert forall|i: int| 0 <= i < others.len() implies (
                    #[trigger] others[i]).stock_tx_id != tx by {
                        assert(orders_of(bv, stock_id)[i] == others[i]);
                    }
                    lemma_plan_updates_txs(others, user_name, quantity as int, tx);
                } else {
                    assert(!has_entry(res, id));
                    assert(orders_of(res, id) == Seq::<OrderV>::empty());
                    assert(orders_of(bv, id) == Seq::<OrderV>::empty());
                    if stock_id == id {
                        assert(false);
                    }
                    assert(!tx_rests(bv, stock_id, tx));
                    let others = orders_of(bv, stock_id);
                    assert forall|i: int| 0 <= i < others.len() implies (
                    #[trigger] others[i]).stock_tx_id != tx by {
                        assert(orders_of(bv, stock_id)[i] == others[i]);
                    }
                    lemma_plan_updates_txs(others, user_name, quantity as int, tx);
                }
            } else {
                assert(res == bv);
                if succeeds {
                    assert(k == -1);
                    assert(orders_of(bv, stock_id) == Seq::<OrderV>::empty());
                    lemma_plan_updates_txs(
                        orders_of(bv, stock_id),
                        user_name,
                        quantity as int,
                        tx,
                    );
                } else {
                    assert(sold_for_tx(step_updates(bv, e), tx) == 0);
                }
            }
        },
        OrderEventV::Cancel { stock_id, stock_tx_id } => {
            assert(sold_for_tx(step_updates(bv, e), tx) == 0);
            lemma_entry_index(bv, stock_id);
            let k = entry_index(bv, stock_id);
            if k >= 0 {
                assert(entry_wf(bv[k]));
                lemma_without_tx(bv[k], stock_tx_id);
                assert(res.len() == bv.len());
                assert(forall|i: int|
                    0 <= i < bv.len() ==> (#[trigger] bv[i]).stock_id == (
                    #[trigger] res[i]).stock_id);
                lemma_same_ids(bv, res, id);
                if ei >= 0 && ei == k {
                    assert(stock_id == id);
                    assert(stock_tx_id != tx);
                    let orders = bv[k].orders;
                    let kept = crate::book::without_tx(orders, stock_tx_id);
                    lemma_cur_without(orders, stock_tx_id, tx);
                    assert(orders_of(bv, id) == orders);
                    assert(orders_of(res, id) == kept);
                    assert forall|i: int| 0 <= i < kept.len() implies ((
                    #[trigger] kept[i]).stock_tx_id == tx ==> kept[i].user_name == owner) by {
                        assert(orders.contains(kept[i]));
                        let w = choose|w: int| 0 <= w < orders.len() && orders[w] == kept[i];
                        assert(orders_of(bv, id)[w] == orders[w]);
                    }
                } else if ei >= 0 {
                    assert(res[ei] == bv[ei]);
                    assert(orders_of(res, id) == orders_of(bv, id));
                } else {
                    assert(!has_entry(res, id));
                    assert(orders_of(res, id) == Seq::<OrderV>::empty());
                    assert(orders_of(bv, id) == Seq::<OrderV>::empty());
                }
            } else {
                assert(res == bv);
            }
        },
    }
}

/// Fill conservation over a whole trace: as long as no handled message
/// admits the transaction again, cancels it, or is a market buy by its
/// owner on its instrument (a reached self order is discarded unpaid),
/// the quantity sold under the transaction across every emitted fill
/// event is exactly what left its resting orders. An order is admitted
/// with `cur_quantity == ori_quantity`, so these fills account for
/// `ori_quantity - cur_quantity` at any moment of its life, and for the
/// whole `ori_quantity` once it has been fully filled and dropped.
pub proof fn lemma_trace_fill_conservation(
    bv: Seq<EntryV>,
    es: Seq<OrderEventV>,
    id: Seq<char>,
    tx: Seq<char>,
    owner: Seq<char>,
)
    requires
        crate::book::book_wf(bv),
        forall|i: int| 0 <= i < es.len() ==> event_wf(#[trigger] es[i]),
        tx_owned_by(bv, id, tx, owner),
        forall|id2: Seq<char>| id2 != id ==> !tx_rests(bv, id2, tx),
        forall|i: int| 0 <= i < es.len() ==> !event_touches_tx(#[trigger] es[i], id, tx, owner),
    ensures
        sold_for_tx(events_updates(bv, es), tx) == cur_in_book(bv, id, tx) - cur_in_book(
            book_after_events(bv, es),
            id,
            tx,
        ),
    decreases es.len(),
{
    if es.len() == 0 {
        assert(sold_for_tx(Seq::<UpdateV>::empty(), tx) == 0);
    } else {
        lemma_step_conserves_tx(bv, es[0], id, tx, owner);
        lemma_step_wf(bv, es[0]);
        assert(forall|i: int|
            0 <= i < es.drop_first().len() ==> #[trigger] es.drop_first()[i] == es[i + 1]);
        lemma_trace_fill_conservation(book_step(bv, es[0]), es.drop_first(), id, tx, owner);
        lemma_sold_concat(
            step_updates(bv, es[0]),
            events_updates(book_step(bv, es[0]), es.drop_first()),
            tx,
        );
    }
}

} // verus!
