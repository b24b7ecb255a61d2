use matching_engine::auth::{auth_error_message, auth_passes, TokenCheck};
use matching_engine::models::RabbitMQConfig;
use matching_engine::price_cache::{get_stock_prices, AppState};
use matching_engine::routing::{
    inbound_binding_key, order_update_routing_key, parse_order_type, price_routing_key,
    shard_queue_name, OrderType, OrderUpdateKind,
};

#[test]
fn routing_key_selects_handler() {
    assert_eq!(parse_order_type("order.market_buy.shard_0"), OrderType::MarketBuy);
    assert_eq!(parse_order_type("order.limit_sell.shard_12"), OrderType::LimitSell);
    assert_eq!(
        parse_order_type("order.limit_sell_cancellation.shard_3"),
        OrderType::LimitSellCancellation
    );
}

#[test]
fn unknown_routing_keys_are_rejected() {
    assert_eq!(parse_order_type("order.sell_everything.shard_0"), OrderType::Unknown);
    assert_eq!(parse_order_type("no_dots_here"), OrderType::Unknown);
    assert_eq!(parse_order_type(""), OrderType::Unknown);
    assert_eq!(parse_order_type("order."), OrderType::Unknown);
    assert_eq!(parse_order_type("order.limit_sell_"), OrderType::Unknown);
    assert_eq!(parse_order_type("stock.price.X"), OrderType::Unknown);
}

#[test]
fn type_field_needs_no_trailing_shard_part() {
    assert_eq!(parse_order_type("order.market_buy"), OrderType::MarketBuy);
    assert_eq!(parse_order_type("x.limit_sell.y.z"), OrderType::LimitSell);
}

#[test]
fn outbound_routing_keys() {
    assert_eq!(price_routing_key(&"AAPL".to_string()), "stock.price.AAPL");
    assert_eq!(order_update_routing_key(OrderUpdateKind::BuyCompleted), "order.buy_completed");
    assert_eq!(order_update_routing_key(OrderUpdateKind::SaleUpdate), "order.sale_update");
    assert_eq!(order_update_routing_key(OrderUpdateKind::Cancelled), "order.cancelled");
}

#[test]
fn shard_binding_keys_and_queue_names() {
    assert_eq!(
        String::from_utf8(inbound_binding_key(OrderType::MarketBuy, 0)).unwrap(),
        "order.market_buy.shard_0"
    );
    assert_eq!(
        String::from_utf8(inbound_binding_key(OrderType::LimitSell, 17)).unwrap(),
        "order.limit_sell.shard_17"
    );
    assert_eq!(
        String::from_utf8(inbound_binding_key(OrderType::LimitSellCancellation, 205)).unwrap(),
        "order.limit_sell_cancellation.shard_205"
    );
    assert_eq!(
        String::from_utf8(shard_queue_name(OrderType::MarketBuy, 0)).unwrap(),
        "market_buy_queue_shard_0"
    );
    assert_eq!(
        String::from_utf8(shard_queue_name(OrderType::LimitSell, 40)).unwrap(),
        "limit_sell_queue_shard_40"
    );
    assert_eq!(
        String::from_utf8(shard_queue_name(OrderType::LimitSellCancellation, 9)).unwrap(),
        "cancel_sell_queue_shard_9"
    );
    let bound = inbound_binding_key(OrderType::MarketBuy, u32::MAX);
    assert_eq!(
        String::from_utf8(bound).unwrap(),
        format!("order.market_buy.shard_{}", u32::MAX)
    );
}

#[test]
fn token_gate_messages() {
    assert!(auth_passes(&TokenCheck::Valid));
    assert!(!auth_passes(&TokenCheck::Missing));
    assert_eq!(auth_error_message(&TokenCheck::Valid), None);
    assert_eq!(
        auth_error_message(&TokenCheck::Missing),
        Some("Token not included".to_string())
    );
    assert_eq!(
        auth_error_message(&TokenCheck::Invalid),
        Some("Invalid token included".to_string())
    );
    assert_eq!(auth_error_message(&TokenCheck::Expired), Some("Token expired".to_string()));
    assert_eq!(auth_error_message(&TokenCheck::OtherError), Some("Unauthorized".to_string()));
}

#[test]
fn default_broker_config() {
    let c = RabbitMQConfig::default();
    assert_eq!(c.host, "rabbitmq");
    assert_eq!(c.port, 5672);
    assert_eq!(c.username, "guest");
    assert_eq!(c.password, "guest");
    assert_eq!(c.shard_id, 0);
}

#[test]
fn price_updates_upsert_and_remove() {
    let mut s = AppState::new();
    s.apply_price_update("X".to_string(), Some("X Co".to_string()), Some(5));
    s.apply_price_update("Y".to_string(), Some("Y Co".to_string()), Some(9));
    s.apply_price_update("X".to_string(), Some("X Co".to_string()), Some(7));
    assert_eq!(s.stock_prices.len(), 2);
    let x = s.stock_prices.iter().find(|p| p.stock_id == "X").unwrap();
    assert_eq!(x.current_price, 7);
    s.apply_price_update("X".to_string(), None, Some(7));
    assert_eq!(s.stock_prices.len(), 1);
    assert_eq!(s.stock_prices[0].stock_id, "Y");
    s.apply_price_update("Y".to_string(), Some("Y Co".to_string()), None);
    assert_eq!(s.stock_prices.len(), 0);
}

#[test]
fn snapshot_sorts_names_descending_case_insensitively() {
    let mut s = AppState::new();
    s.apply_price_update("1".to_string(), Some("apple".to_string()), Some(1));
    s.apply_price_update("2".to_string(), Some("Banana".to_string()), Some(2));
    s.apply_price_update("3".to_string(), Some("CHERRY".to_string()), Some(3));
    let r = get_stock_prices(&s);
    assert!(r.success);
    let names: Vec<String> = r.data.unwrap().iter().map(|p| p.stock_name.clone()).collect();
    assert_eq!(
        names,
        vec!["CHERRY".to_string(), "Banana".to_string(), "apple".to_string()]
    );
}

#[test]
fn snapshot_keeps_every_entry() {
    let mut s = AppState::new();
    s.apply_price_update("a".to_string(), Some("Zeta".to_string()), Some(10));
    s.apply_price_update("b".to_string(), Some("alpha".to_string()), Some(20));
    let r = get_stock_prices(&s);
    let data = r.data.unwrap();
    assert_eq!(data.len(), 2);
    assert_eq!(data[0].stock_name, "Zeta");
    assert_eq!(data[0].current_price, 10);
    assert_eq!(data[1].stock_name, "alpha");
    assert_eq!(data[1].current_price, 20);
}
