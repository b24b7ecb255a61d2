use matching_engine::book::StockMatchingPriorityQueue;
use matching_engine::order::SellOrder;
use matching_engine::state::AppState;

fn order(stock_id: &str, qty: u64, price: u64, tx: &str, user: &str) -> SellOrder {
    SellOrder {
        stock_id: stock_id.to_string(),
        stock_name: format!("{} Co", stock_id),
        stock_tx_id: tx.to_string(),
        partially_sold: false,
        ori_quantity: qty,
        cur_quantity: qty,
        price,
        user_name: user.to_string(),
    }
}

#[test]
fn peek_returns_cheapest() {
    let mut q = StockMatchingPriorityQueue::new();
    q.insert(order("X", 1, 9, "A", "u1"));
    q.insert(order("X", 1, 3, "B", "u2"));
    q.insert(order("X", 1, 5, "C", "u3"));
    let top = q.peek(&"X".to_string()).unwrap();
    assert_eq!(top.price, 3);
    assert_eq!(top.stock_tx_id, "B");
}

#[test]
fn pop_drains_in_price_order() {
    let mut q = StockMatchingPriorityQueue::new();
    q.insert(order("X", 1, 9, "A", "u"));
    q.insert(order("X", 1, 3, "B", "u"));
    q.insert(order("X", 1, 5, "C", "u"));
    let prices: Vec<u64> = std::iter::from_fn(|| q.pop(&"X".to_string()).map(|o| o.price))
        .collect();
    assert_eq!(prices, vec![3, 5, 9]);
    assert!(q.pop(&"X".to_string()).is_none());
}

#[test]
fn peek_missing_book_is_none() {
    let q = StockMatchingPriorityQueue::new();
    assert!(q.peek(&"none".to_string()).is_none());
    assert_eq!(q.len(&"none".to_string()), 0);
}

#[test]
fn books_are_per_instrument() {
    let mut q = StockMatchingPriorityQueue::new();
    q.insert(order("X", 1, 2, "A", "u"));
    q.insert(order("Y", 1, 1, "B", "u"));
    assert_eq!(q.peek(&"X".to_string()).unwrap().price, 2);
    assert_eq!(q.peek(&"Y".to_string()).unwrap().price, 1);
    let mut stocks = q.get_all_stocks();
    stocks.sort();
    assert_eq!(stocks, vec!["X".to_string(), "Y".to_string()]);
}

#[test]
fn get_all_orders_lists_whole_shelf() {
    let mut q = StockMatchingPriorityQueue::new();
    q.insert(order("X", 2, 9, "A", "u"));
    q.insert(order("X", 3, 3, "B", "u"));
    let all = q.get_all_orders(&"X".to_string());
    assert_eq!(all.len(), 2);
    let total: u64 = all.iter().map(|o| o.cur_quantity).sum();
    assert_eq!(total, 5);
    assert_eq!(q.get_all_orders(&"zzz".to_string()).len(), 0);
}

#[test]
fn remove_order_takes_out_the_match() {
    let mut q = StockMatchingPriorityQueue::new();
    q.insert(order("X", 1, 4, "A", "u"));
    q.insert(order("X", 1, 2, "B", "u"));
    let removed = q.remove_order(&"X".to_string(), &"A".to_string());
    assert_eq!(removed.unwrap().stock_tx_id, "A");
    assert_eq!(q.len(&"X".to_string()), 1);
    assert_eq!(q.peek(&"X".to_string()).unwrap().stock_tx_id, "B");
    assert!(q.remove_order(&"X".to_string(), &"A".to_string()).is_none());
    assert!(q.remove_order(&"nope".to_string(), &"A".to_string()).is_none());
}

#[test]
fn clear_and_remove_stock() {
    let mut q = StockMatchingPriorityQueue::new();
    q.insert(order("X", 1, 4, "A", "u"));
    q.clear(&"X".to_string());
    assert_eq!(q.len(&"X".to_string()), 0);
    assert_eq!(q.get_all_stocks().len(), 1);
    q.remove_stock(&"X".to_string());
    assert_eq!(q.get_all_stocks().len(), 0);
}

#[test]
fn equal_prices_keep_both_orders() {
    let mut q = StockMatchingPriorityQueue::new();
    q.insert(order("X", 1, 5, "A", "u"));
    q.insert(order("X", 2, 5, "B", "u"));
    assert_eq!(q.len(&"X".to_string()), 2);
    let first = q.pop(&"X".to_string()).unwrap();
    let second = q.pop(&"X".to_string()).unwrap();
    assert_eq!(first.price, 5);
    assert_eq!(second.price, 5);
    assert_ne!(first.stock_tx_id, second.stock_tx_id);
}

#[test]
fn fresh_state_has_empty_book() {
    let s = AppState::new();
    assert_eq!(s.matching_pq.get_all_stocks().len(), 0);
}
