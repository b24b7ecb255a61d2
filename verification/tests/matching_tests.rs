use matching_engine::book::StockMatchingPriorityQueue;
use matching_engine::engine::{
    create_mk_buy_fail_result, current_stock_price, process_cancel, process_limit_sell,
    process_market_buy,
};
use matching_engine::models::{LimitSellCancelRequest, LimitSellRequest, MarketBuyRequest};

fn sell(
    book: &mut StockMatchingPriorityQueue,
    stock_id: &str,
    stock_name: &str,
    quantity: u64,
    price: u64,
    tx: &str,
    user: &str,
) {
    let request = LimitSellRequest {
        stock_id: stock_id.to_string(),
        stock_name: stock_name.to_string(),
        quantity,
        price,
        stock_tx_id: tx.to_string(),
        user_name: user.to_string(),
    };
    process_limit_sell(book, &request);
}

fn buy(
    book: &mut StockMatchingPriorityQueue,
    stock_id: &str,
    quantity: u64,
    budget: u64,
    tx: &str,
    user: &str,
) -> matching_engine::engine::MarketBuyResult {
    let request = MarketBuyRequest {
        stock_id: stock_id.to_string(),
        quantity,
        stock_tx_id: tx.to_string(),
        budget,
        user_name: user.to_string(),
    };
    process_market_buy(book, &request)
}

#[test]
fn simple_fill() {
    let mut book = StockMatchingPriorityQueue::new();
    sell(&mut book, "X", "X Co", 10, 5, "A", "alice");
    let r = buy(&mut book, "X", 4, 100, "T1", "bob");
    assert!(r.market_buy_response.success);
    assert_eq!(r.market_buy_response.data.stock_id, "X");
    assert_eq!(r.market_buy_response.data.stock_tx_id, "T1");
    assert_eq!(r.market_buy_response.data.quantity, Some(4));
    assert_eq!(r.market_buy_response.data.price_total, Some(20));
    let ups = r.order_updates.unwrap();
    assert_eq!(ups.len(), 1);
    assert_eq!(ups[0].stock_tx_id, "A");
    assert_eq!(ups[0].sold_quantity, 4);
    assert_eq!(ups[0].remaining_quantity, 6);
    assert_eq!(ups[0].price, 5);
    assert_eq!(ups[0].user_name, "alice");
    assert!(!r.have_completed_sell);
    let top = book.peek(&"X".to_string()).unwrap();
    assert_eq!(top.cur_quantity, 6);
    assert_eq!(top.ori_quantity, 10);
    assert!(top.partially_sold);
}

#[test]
fn exhaustive_fill_across_two_sells() {
    let mut book = StockMatchingPriorityQueue::new();
    sell(&mut book, "X", "X Co", 3, 4, "A", "alice");
    sell(&mut book, "X", "X Co", 5, 6, "B", "alice");
    let r = buy(&mut book, "X", 7, 1000, "T2", "bob");
    assert!(r.market_buy_response.success);
    assert_eq!(r.market_buy_response.data.quantity, Some(7));
    assert_eq!(r.market_buy_response.data.price_total, Some(36));
    let ups = r.order_updates.unwrap();
    assert_eq!(ups.len(), 2);
    assert_eq!(ups[0].stock_tx_id, "A");
    assert_eq!(ups[0].sold_quantity, 3);
    assert_eq!(ups[0].remaining_quantity, 0);
    assert_eq!(ups[1].stock_tx_id, "B");
    assert_eq!(ups[1].sold_quantity, 4);
    assert_eq!(ups[1].remaining_quantity, 1);
    assert!(r.have_completed_sell);
    let snap = current_stock_price(&book, &"X".to_string());
    assert_eq!(snap.current_price, Some(6));
    assert_eq!(snap.stock_name, Some("X Co".to_string()));
}

#[test]
fn budget_fail_leaves_book_unchanged() {
    let mut book = StockMatchingPriorityQueue::new();
    sell(&mut book, "X", "X Co", 10, 100, "A", "alice");
    let r = buy(&mut book, "X", 5, 100, "T3", "bob");
    assert!(!r.market_buy_response.success);
    assert_eq!(r.market_buy_response.data.quantity, None);
    assert_eq!(r.market_buy_response.data.price_total, None);
    assert!(r.order_updates.is_none());
    assert!(!r.have_completed_sell);
    let top = book.peek(&"X".to_string()).unwrap();
    assert_eq!(top.cur_quantity, 10);
    assert!(!top.partially_sold);
    assert_eq!(book.len(&"X".to_string()), 1);
}

#[test]
fn depth_fail_ignores_self_owned() {
    let mut book = StockMatchingPriorityQueue::new();
    sell(&mut book, "X", "X Co", 5, 1, "A", "bob");
    sell(&mut book, "X", "X Co", 2, 1, "B", "alice");
    let r = buy(&mut book, "X", 5, 1000, "T4", "bob");
    assert!(!r.market_buy_response.success);
    assert!(r.order_updates.is_none());
    assert_eq!(book.len(&"X".to_string()), 2);
}

#[test]
fn self_order_discarded_on_execution() {
    let mut book = StockMatchingPriorityQueue::new();
    sell(&mut book, "X", "X Co", 1, 1, "A", "bob");
    sell(&mut book, "X", "X Co", 5, 2, "B", "alice");
    let r = buy(&mut book, "X", 3, 1000, "T5", "bob");
    assert!(r.market_buy_response.success);
    assert_eq!(r.market_buy_response.data.price_total, Some(6));
    let ups = r.order_updates.unwrap();
    assert_eq!(ups.len(), 1);
    assert_eq!(ups[0].stock_tx_id, "B");
    assert_eq!(ups[0].sold_quantity, 3);
    assert_eq!(ups[0].remaining_quantity, 2);
    assert_eq!(ups[0].user_name, "alice");
    assert!(!r.have_completed_sell);
    assert_eq!(book.len(&"X".to_string()), 1);
    let top = book.peek(&"X".to_string()).unwrap();
    assert_eq!(top.stock_tx_id, "B");
}

#[test]
fn cancel_partially_sold_order() {
    let mut book = StockMatchingPriorityQueue::new();
    sell(&mut book, "X", "X Co", 10, 5, "A", "alice");
    let _ = buy(&mut book, "X", 4, 100, "T1", "bob");
    let req = LimitSellCancelRequest {
        stock_id: "X".to_string(),
        quantity: 0,
        price: 0,
        stock_tx_id: "A".to_string(),
    };
    let resp = process_cancel(&mut book, &req);
    assert!(resp.success);
    let d = resp.data.unwrap();
    assert_eq!(d.ori_quantity, 10);
    assert_eq!(d.cur_quantity, 6);
    assert_eq!(d.sold_quantity, 4);
    assert!(d.partially_sold);
    assert_eq!(d.price, 5);
    assert_eq!(d.stock_id, "X");
    assert_eq!(d.stock_tx_id, "A");
    let snap = current_stock_price(&book, &"X".to_string());
    assert_eq!(snap.stock_name, None);
    assert_eq!(snap.current_price, None);
}

#[test]
fn cancel_unknown_tx_fails() {
    let mut book = StockMatchingPriorityQueue::new();
    sell(&mut book, "X", "X Co", 10, 5, "A", "alice");
    let req = LimitSellCancelRequest {
        stock_id: "X".to_string(),
        quantity: 1,
        price: 1,
        stock_tx_id: "Z".to_string(),
    };
    let resp = process_cancel(&mut book, &req);
    assert!(!resp.success);
    assert!(resp.data.is_none());
    assert_eq!(book.len(&"X".to_string()), 1);
}

#[test]
fn cancelled_tx_never_pops_again() {
    let mut book = StockMatchingPriorityQueue::new();
    sell(&mut book, "X", "X Co", 2, 3, "A", "alice");
    sell(&mut book, "X", "X Co", 2, 1, "B", "alice");
    let req = LimitSellCancelRequest {
        stock_id: "X".to_string(),
        quantity: 0,
        price: 0,
        stock_tx_id: "B".to_string(),
    };
    let resp = process_cancel(&mut book, &req);
    assert!(resp.success);
    while let Some(o) = book.pop(&"X".to_string()) {
        assert_ne!(o.stock_tx_id, "B");
    }
}

#[test]
fn buy_on_missing_instrument_fails() {
    let mut book = StockMatchingPriorityQueue::new();
    let r = buy(&mut book, "Y", 1, 10, "T9", "bob");
    assert!(!r.market_buy_response.success);
    assert!(r.order_updates.is_none());
}

#[test]
fn buy_exact_budget_succeeds() {
    let mut book = StockMatchingPriorityQueue::new();
    sell(&mut book, "X", "X Co", 5, 20, "A", "alice");
    let r = buy(&mut book, "X", 5, 100, "T6", "bob");
    assert!(r.market_buy_response.success);
    assert_eq!(r.market_buy_response.data.price_total, Some(100));
    assert!(r.have_completed_sell);
    assert_eq!(book.len(&"X".to_string()), 0);
}

#[test]
fn fail_result_shape() {
    let r = create_mk_buy_fail_result("X".to_string(), "T".to_string());
    assert!(!r.market_buy_response.success);
    assert_eq!(r.market_buy_response.data.stock_id, "X");
    assert_eq!(r.market_buy_response.data.stock_tx_id, "T");
    assert_eq!(r.market_buy_response.data.quantity, None);
    assert_eq!(r.market_buy_response.data.price_total, None);
    assert!(r.order_updates.is_none());
    assert!(!r.have_completed_sell);
}

#[test]
fn fills_sum_matches_price_total() {
    let mut book = StockMatchingPriorityQueue::new();
    sell(&mut book, "X", "X Co", 2, 7, "A", "alice");
    sell(&mut book, "X", "X Co", 4, 9, "B", "carol");
    sell(&mut book, "X", "X Co", 8, 11, "C", "alice");
    let r = buy(&mut book, "X", 9, 1000, "T7", "bob");
    assert!(r.market_buy_response.success);
    let ups = r.order_updates.unwrap();
    let sum: u64 = ups.iter().map(|u| u.sold_quantity * u.price).sum();
    assert_eq!(r.market_buy_response.data.price_total, Some(sum));
    assert_eq!(sum, 2 * 7 + 4 * 9 + 3 * 11);
    for u in &ups {
        assert_ne!(u.user_name, "bob");
    }
}

#[test]
fn largest_prices_and_quantities_stay_exact() {
    let mut book = StockMatchingPriorityQueue::new();
    sell(&mut book, "X", "X Co", u64::MAX, u64::MAX, "A", "alice");
    let over = buy(&mut book, "X", 2, u64::MAX, "T8", "bob");
    assert!(!over.market_buy_response.success);
    let r = buy(&mut book, "X", 1, u64::MAX, "T9", "bob");
    assert!(r.market_buy_response.success);
    assert_eq!(r.market_buy_response.data.price_total, Some(u64::MAX));
    let ups = r.order_updates.unwrap();
    assert_eq!(ups.len(), 1);
    assert_eq!(ups[0].sold_quantity, 1);
    assert_eq!(ups[0].remaining_quantity, u64::MAX - 1);
}

#[test]
fn sold_quantities_account_for_each_fill() {
    let mut book = StockMatchingPriorityQueue::new();
    sell(&mut book, "X", "X Co", 10, 5, "A", "alice");
    let first = buy(&mut book, "X", 3, 1000, "T1", "bob");
    let second = buy(&mut book, "X", 2, 1000, "T2", "carol");
    let mut sold: u64 = 0;
    for u in first.order_updates.unwrap().iter().chain(second.order_updates.unwrap().iter()) {
        assert_eq!(u.stock_tx_id, "A");
        sold += u.sold_quantity;
    }
    let rest = book.peek(&"X".to_string()).unwrap();
    assert_eq!(sold, rest.ori_quantity - rest.cur_quantity);
    assert_eq!(rest.cur_quantity, 5);
}
