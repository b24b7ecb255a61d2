use vstd::prelude::*;

use crate::book::{
    book_with_insert, book_without_tx, entry_index, entry_wf, has_entry, last_tx,
    lemma_entry_index, lemma_without_tx, orders_of, EntryV, StockMatchingPriorityQueue,
};
use crate::models::{
    LimitSellCancelData, LimitSellCancelRequest, LimitSellCancelResponse, LimitSellRequest,
    MarketBuyData, MarketBuyRequest, MarketBuyResponse, OrderUpdate, StockPrice, UpdateV,
};
use crate::order::{OrderV, SellOrder};

verus! {

/// What a market buy hands back for publication: the completion event,
/// the per-seller fill updates (absent on failure), and whether some
/// resting order was fully consumed, which calls for a price publish.
pub struct MarketBuyResult {
    pub market_buy_response: MarketBuyResponse,
    pub order_updates: Option<Vec<OrderUpdate>>,
    pub have_completed_sell: bool,
}

/// The resting order a limit sell admits: full quantity unfilled.
pub open spec fn limit_sell_order(req: LimitSellRequest) -> OrderV {
    OrderV {
        stock_id: req.stock_id@,
        stock_name: req.stock_name@,
        stock_tx_id: req.stock_tx_id@,
        partially_sold: false,
        ori_quantity: req.quantity,
        cur_quantity: req.quantity,
        price: req.price,
        user_name: req.user_name@,
    }
}

/// Resting depth available to this buyer: total unfilled quantity of the
/// shelf's orders owned by other users.
pub open spec fn non_self_depth(orders: Seq<OrderV>, user: Seq<char>) -> int
    decreases orders.len(),
{
    if orders.len() == 0 {
        0
    } else {
        (if orders[0].user_name == user {
            0
        } else {
            orders[0].cur_quantity as int
        }) + non_self_depth(orders.drop_first(), user)
    }
}

/// The fill event for taking `sold` shares of a resting order, leaving
/// `rem` of it.
pub open spec fn fill_update(o: OrderV, sold: u64, rem: u64) -> UpdateV {
    UpdateV {
        stock_id: o.stock_id,
        sold_quantity: sold,
        remaining_quantity: rem,
        price: o.price,
        stock_tx_id: o.stock_tx_id,
        user_name: o.user_name,
    }
}

/// Everything a market buy does to one instrument's shelf: total cost,
/// the fill events in pop order, what remains of the shelf, whether some
/// order was fully consumed, and how many shares were bought.
pub ghost struct PlanV {
    pub cost: int,
    pub updates: Seq<UpdateV>,
    pub shelf: Seq<OrderV>,
    pub completed: bool,
    pub bought: int,
}

/// The matching walk: pop the cheapest order while demand remains.
/// A self-owned top is discarded unpaid; otherwise the buy takes the
/// whole order (and it leaves the shelf) or the rest of the demand (and
/// the order stays at the front, reduced and marked partially sold).
pub open spec fn match_plan(orders: Seq<OrderV>, user: Seq<char>, remaining: int) -> PlanV
    decreases orders.len(),
{
    if remaining <= 0 || orders.len() == 0 {
        PlanV { cost: 0, updates: Seq::empty(), shelf: orders, completed: false, bought: 0 }
    } else {
        let top = orders[0];
        if top.user_name == user {
            match_plan(orders.drop_first(), user, remaining)
        } else if remaining >= top.cur_quantity {
            let rest = match_plan(orders.drop_first(), user, remaining - top.cur_quantity);
            PlanV {
                cost: top.cur_quantity * top.price + rest.cost,
                updates: seq![fill_update(top, top.cur_quantity, 0)] + rest.updates,
                shelf: rest.shelf,
                completed: true,
                bought: top.cur_quantity + rest.bought,
            }
        } else {
            let newtop = OrderV {
                cur_quantity: (top.cur_quantity - remaining) as u64,
                partially_sold: true,
                ..top
            };
            PlanV {
                cost: remaining * top.price,
                updates: seq![
                    fill_update(top, remaining as u64, (top.cur_quantity - remaining) as u64),
                ],
                shelf: orders.update(0, newtop),
                completed: false,
                bought: remaining,
            }
        }
    }
}

/// A market buy succeeds exactly when enough depth from other users
/// rests on the shelf and the walk's total cost is within budget.
pub open spec fn buy_succeeds(
    bv: Seq<EntryV>,
    id: Seq<char>,
    quantity: u64,
    budget: u64,
    user: Seq<char>,
) -> bool {
    let orders = orders_of(bv, id);
    &&& non_self_depth(orders, user) >= quantity
    &&& match_plan(orders, user, quantity as int).cost <= budget
}

/// The book after a market buy: on success the instrument's shelf is
/// what the matching walk leaves; on failure the book is untouched.
pub open spec fn book_after_buy(
    bv: Seq<EntryV>,
    id: Seq<char>,
    quantity: u64,
    budget: u64,
    user: Seq<char>,
) -> Seq<EntryV> {
    let k = entry_index(bv, id);
    if buy_succeeds(bv, id, quantity, budget, user) && k >= 0 {
        bv.update(
            k,
            EntryV {
                stock_id: bv[k].stock_id,
                orders: match_plan(bv[k].orders, user, quantity as int).shelf,
            },
        )
    } else {
        bv
    }
}

/// Cost of a sequence of fills: sold quantity times resting price,
/// summed.
pub open spec fn updates_cost(us: Seq<UpdateV>) -> int
    decreases us.len(),
{
    if us.len() == 0 {
        0
    } else {
        us[0].sold_quantity * us[0].price + updates_cost(us.drop_first())
    }
}

/// Resting depth is a sum of quantities, never negative.
pub proof fn lemma_depth_nonneg(orders: Seq<OrderV>, user: Seq<char>)
    ensures
        non_self_depth(orders, user) >= 0,
    decreases orders.len(),
{
    if orders.len() > 0 {
        lemma_depth_nonneg(orders.drop_first(), user);
    }
}

/// Laws of the matching walk. The walk buys the whole demand when
/// enough depth from other users rests on the shelf, and everything
/// that rests there otherwise; its cost is the sum of sold quantity
/// times price over its fill events; no fill touches the buyer's own
/// orders; there are fill events exactly when something was bought; and
/// the cost is bounded by the shares bought times the largest
/// representable price.
pub proof fn lemma_match_plan(orders: Seq<OrderV>, user: Seq<char>, remaining: int)
    requires
        remaining >= 0,
        forall|i: int| 0 <= i < orders.len() ==> (#[trigger] orders[i]).wf(),
    ensures
        ({
            let plan = match_plan(orders, user, remaining);
            let depth = non_self_depth(orders, user);
            &&& depth >= 0
            &&& 0 <= plan.bought <= remaining
            &&& (depth >= remaining ==> plan.bought == remaining)
            &&& (depth < remaining ==> plan.bought == depth)
            &&& plan.cost == updates_cost(plan.updates)
            &&& (forall|i: int|
                0 <= i < plan.updates.len() ==> (#[trigger] plan.updates[i]).user_name != user)
            &&& (plan.updates.len() == 0 <==> plan.bought == 0)
            &&& 0 <= plan.cost <= plan.bought * (u64::MAX as int)
        }),
    decreases orders.len(),
{
    let plan = match_plan(orders, user, remaining);
    let depth = non_self_depth(orders, user);
    let mx = u64::MAX as int;
    lemma_depth_nonneg(orders, user);
    if remaining <= 0 || orders.len() == 0 {
    } else {
        let top = orders[0];
        let rest = orders.drop_first();
        assert(forall|i: int| 0 <= i < rest.len() ==> #[trigger] rest[i] == orders[i + 1]);
        assert(top.wf());
        if top.user_name == user {
            lemma_match_plan(rest, user, remaining);
        } else if remaining >= top.cur_quantity {
            lemma_match_plan(rest, user, remaining - top.cur_quantity);
            let sub = match_plan(rest, user, remaining - top.cur_quantity);
            let u = fill_update(top, top.cur_quantity, 0);
            assert((seq![u] + sub.updates).drop_first() =~= sub.updates);
            assert(plan.updates[0] == u);
            assert(plan.cost == updates_cost(plan.updates));
            assert forall|i: int| 0 <= i < plan.updates.len() implies (
            #[trigger] plan.updates[i]).user_name != user by {
                if i > 0 {
                    assert(plan.updates[i] == sub.updates[i - 1]);
                }
            }
            assert(top.cur_quantity * top.price <= top.cur_quantity * mx) by (nonlinear_arith)
                requires
                    top.price <= mx,
                    top.cur_quantity >= 0,
            ;
            assert(top.cur_quantity * top.price >= 0) by (nonlinear_arith)
                requires
                    top.price >= 0,
                    top.cur_quantity >= 0,
            ;
            assert((top.cur_quantity + sub.bought) * mx == top.cur_quantity * mx + sub.bought
                * mx) by (nonlinear_arith);
            assert(plan.bought == top.cur_quantity + sub.bought);
            assert(plan.cost <= top.cur_quantity * mx + sub.bought * mx);
            assert(plan.bought > 0);
        } else {
            lemma_match_plan(rest, user, remaining);
            let u = fill_update(top, remaining as u64, (top.cur_quantity - remaining) as u64);
            assert(seq![u].drop_first() =~= Seq::<UpdateV>::empty());
            assert(plan.updates == seq![u]);
            assert(plan.updates[0] == u);
            assert(remaining as u64 as int == remaining);
            assert(plan.updates.drop_first() =~= Seq::<UpdateV>::empty());
            assert(updates_cost(Seq::<UpdateV>::empty()) == 0);
            assert(updates_cost(plan.updates) == u.sold_quantity * u.price + updates_cost(
                plan.updates.drop_first(),
            ));
            assert(u.sold_quantity * u.price == remaining * top.price);
            assert(plan.cost == updates_cost(plan.updates));
            assert(remaining * top.price <= remaining * mx) by (nonlinear_arith)
                requires
                    top.price <= mx,
                    remaining >= 0,
            ;
            assert(remaining * top.price >= 0) by (nonlinear_arith)
                requires
                    top.price >= 0,
                    remaining >= 0,
            ;
            assert(non_self_depth(rest, user) >= 0);
            assert(depth >= top.cur_quantity as int);
            assert(depth >= remaining);
            assert(plan.bought == remaining);
        }
    }
}

/// The matching walk leaves a well-formed shelf: every remaining order
/// keeps the order invariant, belongs to the same instrument, and the
/// shelf stays sorted by price.
pub proof fn lemma_match_plan_shelf(
    orders: Seq<OrderV>,
    user: Seq<char>,
    remaining: int,
    sid: Seq<char>,
)
    requires
        remaining >= 0,
        forall|i: int| 0 <= i < orders.len() ==> (#[trigger] orders[i]).wf(),
        forall|i: int| 0 <= i < orders.len() ==> (#[trigger] orders[i]).stock_id == sid,
        forall|i: int, j: int|
            0 <= i < j < orders.len() ==> (#[trigger] orders[i]).price <= (#[trigger] orders[j]).price,
    ensures
        ({
            let shelf = match_plan(orders, user, remaining).shelf;
            &&& (forall|i: int| 0 <= i < shelf.len() ==> (#[trigger] shelf[i]).wf())
            &&& (forall|i: int| 0 <= i < shelf.len() ==> (#[trigger] shelf[i]).stock_id == sid)
            &&& (forall|i: int, j: int|
                0 <= i < j < shelf.len() ==> (#[trigger] shelf[i]).price <= (
                #[trigger] shelf[j]).price)
        }),
    decreases orders.len(),
{
    if remaining <= 0 || orders.len() == 0 {
    } else {
        let top = orders[0];
        let rest = orders.drop_first();
        assert(forall|i: int| 0 <= i < rest.len() ==> #[trigger] rest[i] == orders[i + 1]);
        assert(top.wf());
        let shelf = match_plan(orders, user, remaining).shelf;
        if top.user_name == user {
            lemma_match_plan_shelf(rest, user, remaining, sid);
            assert(shelf == match_plan(rest, user, remaining).shelf);
        } else if remaining >= top.cur_quantity {
            lemma_match_plan_shelf(rest, user, remaining - top.cur_quantity, sid);
            assert(shelf == match_plan(rest, user, remaining - top.cur_quantity).shelf);
        } else {
            let newtop = OrderV {
                cur_quantity: (top.cur_quantity - remaining) as u64,
                partially_sold: true,
                ..top
            };
            assert(newtop.wf());
            assert(forall|i: int| 0 < i < shelf.len() ==> #[trigger] shelf[i] == orders[i]);
            assert(shelf[0] == newtop);
            assert forall|i: int, j: int| 0 <= i < j < shelf.len() implies (
            #[trigger] shelf[i]).price <= (#[trigger] shelf[j]).price by {
                assert(shelf[j] == orders[j]);
                if i == 0 {
                    assert(shelf[0].price == orders[0].price);
                } else {
                    assert(shelf[i] == orders[i]);
                }
            }
        }
        assert forall|i: int| 0 <= i < shelf.len() implies (#[trigger] shelf[i]).wf() && (
        #[trigger] shelf[i]).stock_id == sid by {
            if top.user_name == user {
                let sr = match_plan(rest, user, remaining).shelf;
                assert(sr[i].wf() && sr[i].stock_id == sid);
            } else if remaining >= top.cur_quantity {
                let sr = match_plan(rest, user, remaining - top.cur_quantity).shelf;
                assert(sr[i].wf() && sr[i].stock_id == sid);
            } else {
                if i > 0 {
                    assert(shelf[i] == orders[i]);
                }
            }
        }
        assert forall|i: int, j: int| 0 <= i < j < shelf.len() implies (#[trigger] shelf[i]).price
            <= (#[trigger] shelf[j]).price by {
            if top.user_name == user {
                let sr = match_plan(rest, user, remaining).shelf;
                assert(sr[i].price <= sr[j].price);
            } else if remaining >= top.cur_quantity {
                let sr = match_plan(rest, user, remaining - top.cur_quantity).shelf;
                assert(sr[i].price <= sr[j].price);
            }
        }
    }
}

/// The matching walk introduces no transaction: a transaction absent
/// from the shelf is absent from what the walk leaves of it.
pub proof fn lemma_match_plan_txs(
    orders: Seq<OrderV>,
    user: Seq<char>,
    remaining: int,
    tx: Seq<char>,
)
    requires
        forall|i: int| 0 <= i < orders.len() ==> (#[trigger] orders[i]).stock_tx_id != tx,
    ensures
        forall|i: int|
            0 <= i < match_plan(orders, user, remaining).shelf.len() ==> (#[trigger] match_plan(
                orders,
                user,
                remaining,
            ).shelf[i]).stock_tx_id != tx,
    decreases orders.len(),
{
    if remaining <= 0 || orders.len() == 0 {
    } else {
        let top = orders[0];
        let rest = orders.drop_first();
        assert(forall|i: int| 0 <= i < rest.len() ==> #[trigger] rest[i] == orders[i + 1]);
        let shelf = match_plan(orders, user, remaining).shelf;
        if top.user_name == user {
            lemma_match_plan_txs(rest, user, remaining, tx);
        } else if remaining >= top.cur_quantity {
            lemma_match_plan_txs(rest, user, remaining - top.cur_quantity, tx);
        } else {
            assert(forall|i: int| 0 < i < shelf.len() ==> #[trigger] shelf[i] == orders[i]);
            assert(shelf[0].stock_tx_id == top.stock_tx_id);
        }
        assert forall|i: int| 0 <= i < shelf.len() implies (#[trigger] shelf[i]).stock_tx_id != tx
            by {
            if top.user_name == user {
                assert(match_plan(rest, user, remaining).shelf[i].stock_tx_id != tx);
            } else if remaining >= top.cur_quantity {
                assert(match_plan(rest, user, remaining - top.cur_quantity).shelf[i].stock_tx_id
                    != tx);
            } else {
                if i > 0 {
                    assert(shelf[i] == orders[i]);
                }
            }
        }
    }
}

/// The failure form of a buy completion: no quantity, no total, no
/// fills, no price publish.
pub fn create_mk_buy_fail_result(stock_id: String, stock_tx_id: String) -> (r: MarketBuyResult)
    ensures
        !r.market_buy_response.success,
        r.market_buy_response.data.stock_id@ == stock_id@,
        r.market_buy_response.data.stock_tx_id@ == stock_tx_id@,
        r.market_buy_response.data.quantity is None,
        r.market_buy_response.data.price_total is None,
        r.order_updates is None,
        !r.have_completed_sell,
{
    MarketBuyResult {
        market_buy_response: MarketBuyResponse {
            success: false,
            data: MarketBuyData {
                stock_id,
                stock_tx_id,
                price_total: Option::None,
                quantity: Option::None,
            },
        },
        order_updates: Option::None,
        have_completed_sell: false,
    }
}

/// Execute a market buy under exclusive book access: check the resting
/// depth from other users, price the walk on a copy of the shelf, check
/// the budget, and only then commit the fills to the live book. On any
/// failure the book is untouched and the failure completion is handed
/// back, with no fill events and no price publish.
pub fn process_market_buy(
    book: &mut StockMatchingPriorityQueue,
    request: &MarketBuyRequest,
) -> (r: MarketBuyResult)
    requires
        old(book).wf(),
        request.quantity > 0,
        request.budget > 0,
    ensures
        final(book).wf(),
        final(book)@ == book_after_buy(
            old(book)@,
            request.stock_id@,
            request.quantity,
            request.budget,
            request.user_name@,
        ),
        r.market_buy_response.success == buy_succeeds(
            old(book)@,
            request.stock_id@,
            request.quantity,
            request.budget,
            request.user_name@,
        ),
        r.market_buy_response.data.stock_id@ == request.stock_id@,
        r.market_buy_response.data.stock_tx_id@ == request.stock_tx_id@,
        ({
            let plan = match_plan(
                orders_of(old(book)@, request.stock_id@),
                request.user_name@,
                request.quantity as int,
            );
            &&& (r.market_buy_response.success ==> r.market_buy_response.data.quantity
                == Option::Some(request.quantity))
            &&& (r.market_buy_response.success ==> (r.market_buy_response.data.price_total
                matches Option::Some(c) && c == plan.cost))
            &&& (r.market_buy_response.success ==> (r.order_updates matches Option::Some(us)
                && us@.map_values(|u: OrderUpdate| u@) == plan.updates && us@.len() >= 1))
            &&& (r.market_buy_response.success ==> r.have_completed_sell == plan.completed)
        }),
        !r.market_buy_response.success ==> r.market_buy_response.data.quantity is None
            && r.market_buy_response.data.price_total is None && r.order_updates is None
            && !r.have_completed_sell,
{
    let ghost bv0 = old(book)@;
    let ghost rid = request.stock_id@;
    let ghost uname = request.user_name@;
    let ghost qtyi = request.quantity as int;
    let ghost shelf = orders_of(bv0, rid);
    let ghost mx = u64::MAX as int;
    let ghost plan = match_plan(shelf, uname, qtyi);

    proof {
        lemma_entry_index(bv0, rid);
        assert forall|i: int| 0 <= i < shelf.len() implies (#[trigger] shelf[i]).wf() by {
            assert(entry_wf(bv0[entry_index(bv0, rid)]));
        }
        lemma_match_plan(shelf, uname, qtyi);
        lemma_depth_nonneg(shelf, uname);
        assert(mx * mx < u128::MAX as int) by (nonlinear_arith)
            requires
                mx == u64::MAX as int,
        ;
    }

    let orders = book.get_all_orders(&request.stock_id);
    let n = orders.len();

    // Step one: resting depth from other users.
    proof {
        assert(shelf.skip(0) =~= shelf);
    }
    let mut i: usize = 0;
    let mut available: u128 = 0;
    while i < n
        invariant
            bv0 == old(book)@,
            rid == request.stock_id@,
            uname == request.user_name@,
            shelf == orders_of(bv0, rid),
            book@ == bv0,
            book.wf(),
            n == orders@.len(),
            orders@.len() == shelf.len(),
            forall|j: int| 0 <= j < n ==> (#[trigger] orders@[j])@ == shelf[j],
            0 <= i <= n,
            mx == u64::MAX as int,
            available as int == non_self_depth(shelf, uname) - non_self_depth(
                shelf.skip(i as int),
                uname,
            ),
            available as int <= (i as int) * mx,
        decreases n - i,
    {
        proof {
            assert(shelf.skip(i as int)[0] == shelf[i as int]);
            assert(shelf.skip(i as int).drop_first() =~= shelf.skip(i as int + 1));
            assert(orders@[i as int]@ == shelf[i as int]);
            assert((i as int + 1) * mx == (i as int) * mx + mx) by (nonlinear_arith);
            assert((i as int) * mx >= 0) by (nonlinear_arith)
                requires
                    i >= 0,
                    mx >= 0,
            ;
            assert(usize::MAX as int <= u64::MAX as int);
            assert(n as int <= usize::MAX as int);
            assert((i as int + 1) * mx <= mx * mx) by (nonlinear_arith)
                requires
                    0 <= i as int + 1 <= mx,
                    mx >= 0,
            ;
            assert(mx * mx < u128::MAX as int) by (nonlinear_arith)
                requires
                    mx == u64::MAX as int,
            ;
        }
        if orders[i].user_name == request.user_name {
            proof {
                let sk = shelf.skip(i as int);
                assert(sk[0].user_name == uname);
                assert(non_self_depth(sk, uname) == non_self_depth(sk.drop_first(), uname));
                assert(non_self_depth(sk, uname) == non_self_depth(
                    shelf.skip(i as int + 1),
                    uname,
                ));
            }
        } else {
            proof {
                let sk = shelf.skip(i as int);
                assert(sk[0].user_name != uname);
                assert(non_self_depth(sk, uname) == sk[0].cur_quantity + non_self_depth(
                    sk.drop_first(),
                    uname,
                ));
                assert(non_self_depth(sk, uname) == shelf[i as int].cur_quantity
                    + non_self_depth(shelf.skip(i as int + 1), uname));
            }
            available = available + (orders[i].cur_quantity as u128);
        }
        i += 1;
    }
    proof {
        assert(shelf.skip(n as int) =~= Seq::<OrderV>::empty());
        assert(available as int == non_self_depth(shelf, uname));
    }

    if (request.quantity as u128) > available {
        proof {
            assert(!buy_succeeds(bv0, rid, request.quantity, request.budget, uname));
        }
        return create_mk_buy_fail_result(request.stock_id.clone(), request.stock_tx_id.clone());
    }

    proof {
        // Depth at least the demand, which is positive: the shelf exists.
        assert(non_self_depth(shelf, uname) >= qtyi);
        if !has_entry(bv0, rid) {
            assert(shelf =~= Seq::<OrderV>::empty());
            assert(false);
        }
    }

    // Step two: price the walk without touching the book.
    let mut rem: u64 = request.quantity;
    let mut cost: u128 = 0;
    let mut updates: Vec<OrderUpdate> = Vec::new();
    let mut completed: bool = false;
    let mut consumed: usize = 0;
    let mut partial_take: u64 = 0;
    proof {
        assert(shelf.skip(0) =~= shelf);
        assert(updates@.map_values(|u: OrderUpdate| u@) =~= Seq::<UpdateV>::empty());
        assert(Seq::<UpdateV>::empty() + plan.updates =~= plan.updates);
        assert((qtyi - request.quantity) * mx == 0) by (nonlinear_arith)
            requires
                qtyi == request.quantity as int,
        ;
    }
    while rem > 0 && consumed < n
        invariant
            bv0 == old(book)@,
            rid == request.stock_id@,
            uname == request.user_name@,
            shelf == orders_of(bv0, rid),
            book@ == bv0,
            book.wf(),
            n == orders@.len(),
            orders@.len() == shelf.len(),
            forall|j: int| 0 <= j < n ==> (#[trigger] orders@[j])@ == shelf[j],
            forall|j: int| 0 <= j < shelf.len() ==> (#[trigger] shelf[j]).wf(),
            mx == u64::MAX as int,
            qtyi == request.quantity as int,
            plan == match_plan(shelf, uname, qtyi),
            rem <= request.quantity,
            0 <= consumed <= n,
            cost as int <= (qtyi - rem) * mx,
            partial_take == 0 ==> ({
                let sub = match_plan(shelf.skip(consumed as int), uname, rem as int);
                &&& plan.cost == cost as int + sub.cost
                &&& plan.updates == updates@.map_values(|u: OrderUpdate| u@) + sub.updates
                &&& plan.shelf == sub.shelf
                &&& plan.completed == (completed || sub.completed)
                &&& plan.bought == qtyi - rem + sub.bought
            }),
            partial_take > 0 ==> rem == 0,
            partial_take > 0 ==> consumed < n && partial_take < shelf[consumed as int].cur_quantity
                && shelf[consumed as int].user_name != uname,
            partial_take > 0 ==> ({
                &&& plan.cost == cost as int
                &&& plan.updates == updates@.map_values(|u: OrderUpdate| u@)
                &&& plan.shelf == shelf.skip(consumed as int).update(
                    0,
                    OrderV {
                        cur_quantity: (shelf[consumed as int].cur_quantity - partial_take) as u64,
                        partially_sold: true,
                        ..shelf[consumed as int]
                    },
                )
                &&& plan.completed == completed
                &&& plan.bought == qtyi
            }),
        decreases n - consumed, rem,
    {
        let ghost sk = shelf.skip(consumed as int);
        let ghost umap = updates@.map_values(|u: OrderUpdate| u@);
        proof {
            assert(orders@[consumed as int]@ == shelf[consumed as int]);
            assert(sk[0] == shelf[consumed as int]);
            assert(sk.drop_first() =~= shelf.skip(consumed as int + 1));
        }
        let top = &orders[consumed];
        if top.user_name == request.user_name {
            consumed += 1;
        } else if rem >= top.cur_quantity {
            let take = top.cur_quantity;
            proof {
                assert((take as int) * (top.price as int) <= (take as int) * mx)
                    by (nonlinear_arith)
                    requires
                        top.price as int <= mx,
                        take as int >= 0,
                ;
                assert((take as int) * (top.price as int) >= 0) by (nonlinear_arith)
                    requires
                        top.price as int >= 0,
                        take as int >= 0,
                ;
                assert((qtyi - rem) * mx + (take as int) * mx == (qtyi - rem + take) * mx)
                    by (nonlinear_arith);
                assert((qtyi - rem + take) * mx <= mx * mx) by (nonlinear_arith)
                    requires
                        0 <= qtyi - rem + take <= mx,
                        mx >= 0,
                ;
                assert(mx * mx < u128::MAX as int) by (nonlinear_arith)
                    requires
                        mx == u64::MAX as int,
                ;
                assert((qtyi - rem) * mx >= 0) by (nonlinear_arith)
                    requires
                        qtyi - rem >= 0,
                        mx >= 0,
                ;
            }
            cost = cost + (take as u128) * (top.price as u128);
            let upd = OrderUpdate {
                stock_id: top.stock_id.clone(),
                price: top.price,
                remaining_quantity: 0,
                sold_quantity: take,
                stock_tx_id: top.stock_tx_id.clone(),
                user_name: top.user_name.clone(),
            };
            proof {
                assert(upd@ == fill_update(shelf[consumed as int], take, 0));
            }
            updates.push(upd);
            completed = true;
            rem -= take;
            consumed += 1;
            proof {
                let sub2 = match_plan(shelf.skip(consumed as int), uname, rem as int);
                assert(updates@.map_values(|u: OrderUpdate| u@) =~= umap + seq![
                    fill_update(sk[0], take, 0),
                ]);
                assert((umap + seq![fill_update(sk[0], take, 0)]) + sub2.updates =~= umap + (seq![
                    fill_update(sk[0], take, 0),
                ] + sub2.updates));
            }
        } else {
            let take = rem;
            proof {
                assert((take as int) * (top.price as int) <= (take as int) * mx)
                    by (nonlinear_arith)
                    requires
                        top.price as int <= mx,
                        take as int >= 0,
                ;
                assert((take as int) * (top.price as int) >= 0) by (nonlinear_arith)
                    requires
                        top.price as int >= 0,
                        take as int >= 0,
                ;
                assert((qtyi - rem) * mx + (take as int) * mx == (qtyi - rem + take) * mx)
                    by (nonlinear_arith);
                assert((qtyi - rem + take) * mx <= mx * mx) by (nonlinear_arith)
                    requires
                        0 <= qtyi - rem + take <= mx,
                        mx >= 0,
                ;
                assert(mx * mx < u128::MAX as int) by (nonlinear_arith)
                    requires
                        mx == u64::MAX as int,
                ;
                assert((qtyi - rem) * mx >= 0) by (nonlinear_arith)
                    requires
                        qtyi - rem >= 0,
                        mx >= 0,
                ;
            }
            cost = cost + (take as u128) * (top.price as u128);
            let upd = OrderUpdate {
                stock_id: top.stock_id.clone(),
                price: top.price,
                remaining_quantity: top.cur_quantity - take,
                sold_quantity: take,
                stock_tx_id: top.stock_tx_id.clone(),
                user_name: top.user_name.clone(),
            };
            proof {
                assert(upd@ == fill_update(sk[0], take, (sk[0].cur_quantity - take) as u64));
            }
            updates.push(upd);
            partial_take = take;
            rem = 0;
            proof {
                assert(updates@.map_values(|u: OrderUpdate| u@) =~= umap + seq![
                    fill_update(sk[0], take, (sk[0].cur_quantity - take) as u64),
                ]);
                assert(umap + seq![
                    fill_update(sk[0], take, (sk[0].cur_quantity - take) as u64),
                ] =~= umap + (seq![
                    fill_update(sk[0], take, (sk[0].cur_quantity - take) as u64),
                ] + Seq::<UpdateV>::empty()));
            }
        }
    }

    proof {
        if rem > 0 {
            assert(partial_take == 0);
            assert(consumed == n);
            assert(shelf.skip(n as int) =~= Seq::<OrderV>::empty());
            assert(plan.bought == qtyi - rem);
            assert(false);
        }
        if partial_take == 0 {
            let sub = match_plan(shelf.skip(consumed as int), uname, 0);
            assert(plan.cost == cost as int);
            assert(plan.updates == updates@.map_values(|u: OrderUpdate| u@));
            assert(plan.shelf == shelf.skip(consumed as int));
            assert(plan.completed == completed);
        }
        assert(plan.cost == cost as int);
    }

    // Step three: the budget gate.
    if cost > (request.budget as u128) {
        proof {
            assert(!buy_succeeds(bv0, rid, request.quantity, request.budget, uname));
        }
        return create_mk_buy_fail_result(request.stock_id.clone(), request.stock_tx_id.clone());
    }

    proof {
        assert(buy_succeeds(bv0, rid, request.quantity, request.budget, uname));
    }

    // Step four: commit the walk to the live book.
    let ghost kk = entry_index(bv0, rid);
    proof {
        assert(bv0[kk].stock_id == rid);
        assert(bv0[kk].orders == shelf);
        assert(bv0.update(kk, EntryV { stock_id: rid, orders: shelf.skip(0) }) =~~= bv0);
    }
    let mut p: usize = 0;
    while p < consumed
        invariant
            bv0 == old(book)@,
            rid == request.stock_id@,
            uname == request.user_name@,
            shelf == orders_of(bv0, rid),
            book.wf(),
            0 <= p <= consumed,
            consumed <= n,
            n == shelf.len(),
            kk == entry_index(bv0, rid),
            0 <= kk < bv0.len(),
            bv0[kk].stock_id == rid,
            forall|j: int| 0 <= j < kk ==> (#[trigger] bv0[j]).stock_id != rid,
            book@ == bv0.update(kk, EntryV { stock_id: rid, orders: shelf.skip(p as int) }),
        decreases consumed - p,
    {
        proof {
            assert(book@[kk].stock_id == rid);
            assert forall|j: int| 0 <= j < kk implies (#[trigger] book@[j]).stock_id != rid by {
                assert(book@[j] == bv0[j]);
            }
            crate::book::lemma_entry_index_at(book@, rid, kk);
            assert(orders_of(book@, rid) == shelf.skip(p as int));
            assert(shelf.skip(p as int).len() == n - p);
        }
        let _popped = book.pop(&request.stock_id);
        proof {
            assert(shelf.skip(p as int).drop_first() =~= shelf.skip(p as int + 1));
            assert(book@ =~~= bv0.update(
                kk,
                EntryV { stock_id: rid, orders: shelf.skip(p as int + 1) },
            ));
        }
        p += 1;
    }

    if partial_take > 0 {
        proof {
            assert(book@[kk].stock_id == rid);
            assert forall|j: int| 0 <= j < kk implies (#[trigger] book@[j]).stock_id != rid by {
                assert(book@[j] == bv0[j]);
            }
            crate::book::lemma_entry_index_at(book@, rid, kk);
            assert(orders_of(book@, rid) == shelf.skip(consumed as int));
            assert(shelf.skip(consumed as int)[0] == shelf[consumed as int]);
        }
        book.fill_top(&request.stock_id, partial_take);
        proof {
            assert(book@ =~~= book_after_buy(bv0, rid, request.quantity, request.budget, uname));
        }
    } else {
        proof {
            assert(book@ =~~= book_after_buy(bv0, rid, request.quantity, request.budget, uname));
        }
    }

    let price_total = cost as u64;
    let response = MarketBuyResponse {
        success: true,
        data: MarketBuyData {
            stock_id: request.stock_id.clone(),
            stock_tx_id: request.stock_tx_id.clone(),
            quantity: Option::Some(request.quantity),
            price_total: Option::Some(price_total),
        },
    };
    proof {
        assert(plan.bought == qtyi);
        assert(plan.updates.len() >= 1);
        assert(updates@.map_values(|u: OrderUpdate| u@).len() == updates@.len());
    }
    MarketBuyResult {
        market_buy_response: response,
        order_updates: Option::Some(updates),
        have_completed_sell: completed,
    }
}

/// Admit a limit sell to the book. The caller then publishes the
/// instrument's top of book, even when it did not change.
pub fn process_limit_sell(book: &mut StockMatchingPriorityQueue, request: &LimitSellRequest)
    requires
        old(book).wf(),
        request.quantity > 0,
        request.price > 0,
    ensures
        final(book).wf(),
        final(book)@ == book_with_insert(old(book)@, limit_sell_order(*request)),
{
    let sell_order = SellOrder {
        stock_id: request.stock_id.clone(),
        stock_name: request.stock_name.clone(),
        stock_tx_id: request.stock_tx_id.clone(),
        price: request.price,
        partially_sold: false,
        ori_quantity: request.quantity,
        cur_quantity: request.quantity,
        user_name: request.user_name.clone(),
    };
    book.insert(sell_order);
}

/// Cancel a resting sell by transaction identifier. On a hit the
/// response carries the removed order's state, with `sold_quantity` the
/// part of it that had been filled; on a miss the book is untouched and
/// the response carries nothing.
pub fn process_cancel(
    book: &mut StockMatchingPriorityQueue,
    request: &LimitSellCancelRequest,
) -> (r: LimitSellCancelResponse)
    requires
        old(book).wf(),
    ensures
        final(book).wf(),
        final(book)@ == book_without_tx(old(book)@, request.stock_id@, request.stock_tx_id@),
        match last_tx(orders_of(old(book)@, request.stock_id@), request.stock_tx_id@) {
            Option::Some(o) => r.success && (r.data matches Option::Some(d) && d.stock_id@
                == o.stock_id && d.stock_tx_id@ == o.stock_tx_id && d.partially_sold
                == o.partially_sold && d.ori_quantity == o.ori_quantity && d.cur_quantity
                == o.cur_quantity && d.sold_quantity == o.ori_quantity - o.cur_quantity && d.price
                == o.price),
            Option::None => !r.success && r.data is None,
        },
{
    let ghost bv0 = old(book)@;
    let removed = book.remove_order(&request.stock_id, &request.stock_tx_id);
    match removed {
        Option::Some(ord) => {
            proof {
                lemma_entry_index(bv0, request.stock_id@);
                let k = entry_index(bv0, request.stock_id@);
                assert(entry_wf(bv0[k]));
                lemma_without_tx(bv0[k], request.stock_tx_id@);
                let o = last_tx(bv0[k].orders, request.stock_tx_id@)->Some_0;
                let w = choose|w: int| 0 <= w < bv0[k].orders.len() && bv0[k].orders[w] == o;
                assert(bv0[k].orders[w].wf());
            }
            let sold = ord.ori_quantity - ord.cur_quantity;
            LimitSellCancelResponse {
                success: true,
                data: Option::Some(
                    LimitSellCancelData {
                        stock_id: ord.stock_id,
                        stock_tx_id: ord.stock_tx_id,
                        partially_sold: ord.partially_sold,
                        ori_quantity: ord.ori_quantity,
                        cur_quantity: ord.cur_quantity,
                        sold_quantity: sold,
                        price: ord.price,
                    },
                ),
            }
        },
        Option::None => LimitSellCancelResponse { success: false, data: Option::None },
    }
}

/// The instrument's top of book as a price message: name and resting
/// price of the cheapest order, or an empty marker when nothing rests.
pub fn current_stock_price(book: &StockMatchingPriorityQueue, stock_id: &String) -> (p: StockPrice)
    ensures
        p.stock_id@ == stock_id@,
        orders_of(book@, stock_id@).len() > 0 ==> (p.stock_name matches Option::Some(nm) && nm@
            == orders_of(book@, stock_id@)[0].stock_name) && p.current_price
            == Option::Some(orders_of(book@, stock_id@)[0].price),
        orders_of(book@, stock_id@).len() == 0 ==> p.stock_name is None && p.current_price
            is None,
{
    match book.peek(stock_id) {
        Option::Some(top) => StockPrice {
            stock_id: stock_id.clone(),
            stock_name: Option::Some(top.stock_name.clone()),
            current_price: Option::Some(top.price),
        },
        Option::None => StockPrice {
            stock_id: stock_id.clone(),
            stock_name: Option::None,
            current_price: Option::None,
        },
    }
}

} // verus!
