use vstd::prelude::*;

verus! {

/// Top-of-book snapshot for one instrument, as published on the price
/// feed. Name and price are absent together when the instrument has no
/// resting order left.
#[derive(Debug, PartialEq, Eq)]
pub struct StockPrice {
    pub stock_id: String,
    pub stock_name: Option<String>,
    pub current_price: Option<u64>,
}

/// A market buy: take `quantity` shares of `stock_id` at the best resting
/// prices, spending at most `budget` price units in total.
#[derive(Debug, PartialEq, Eq)]
pub struct MarketBuyRequest {
    pub stock_id: String,
    pub quantity: u64,
    pub stock_tx_id: String,
    pub budget: u64,
    pub user_name: String,
}

/// Completion event for a market buy, in its success or failure form.
#[derive(Debug, PartialEq, Eq)]
pub struct MarketBuyResponse {
    pub success: bool,
    pub data: MarketBuyData,
}

/// Payload of a buy completion: quantity bought and total spent on
/// success, both absent on failure.
#[derive(Debug, PartialEq, Eq)]
pub struct MarketBuyData {
    pub stock_id: String,
    pub stock_tx_id: String,
    pub quantity: Option<u64>,
    pub price_total: Option<u64>,
}

/// A limit sell: admit `quantity` shares of `stock_id` to the book at
/// `price` price units each.
#[derive(Debug, PartialEq, Eq)]
pub struct LimitSellRequest {
    pub stock_id: String,
    pub stock_name: String,
    pub quantity: u64,
    pub price: u64,
    pub stock_tx_id: String,
    pub user_name: String,
}

/// Outcome of a limit-sell admission, sent back over the order-update
/// exchange. No payload beyond the flag: the book change itself is
/// reported through the price feed.
pub struct LimitSellResponse {
    pub success: bool,
}

/// Cancellation of a resting sell. Lookup goes by `stock_tx_id` alone;
/// `quantity` and `price` ride along unread, keeping the wire shape.
#[derive(Debug, PartialEq, Eq)]
pub struct LimitSellCancelRequest {
    pub stock_id: String,
    pub quantity: u64,
    pub price: u64,
    pub stock_tx_id: String,
}

/// Acknowledgement of a cancellation; `data` is present exactly when an
/// order was found and removed.
#[derive(Debug, PartialEq, Eq)]
pub struct LimitSellCancelResponse {
    pub success: bool,
    pub data: Option<LimitSellCancelData>,
}

/// What the cancelled order looked like when it left the book.
#[derive(Debug, PartialEq, Eq)]
pub struct LimitSellCancelData {
    pub stock_id: String,
    pub stock_tx_id: String,
    pub partially_sold: bool,
    pub ori_quantity: u64,
    pub cur_quantity: u64,
    pub sold_quantity: u64,
    pub price: u64,
}

/// Mathematical image of a fill event.
pub ghost struct UpdateV {
    pub stock_id: Seq<char>,
    pub sold_quantity: u64,
    pub remaining_quantity: u64,
    pub price: u64,
    pub stock_tx_id: Seq<char>,
    pub user_name: Seq<char>,
}

/// One fill on a resting sell: how much was sold at the resting price,
/// and how much of that order remains afterwards.
#[derive(Debug, PartialEq, Eq)]
pub struct OrderUpdate {
    pub stock_id: String,
    pub sold_quantity: u64,
    pub remaining_quantity: u64,
    pub price: u64,
    pub stock_tx_id: String,
    pub user_name: String,
}

impl View for OrderUpdate {
    type V = UpdateV;

    open spec fn view(&self) -> UpdateV {
        UpdateV {
            stock_id: self.stock_id@,
            sold_quantity: self.sold_quantity,
            remaining_quantity: self.remaining_quantity,
            price: self.price,
            stock_tx_id: self.stock_tx_id@,
            user_name: self.user_name@,
        }
    }
}

/// Connection settings for the shard's broker session.
pub struct RabbitMQConfig {
    pub host: String,
    pub port: u16,
    pub username: String,
    pub password: String,
    pub shard_id: u32,
}

impl Default for RabbitMQConfig {
    /// Local broker with the stock guest account, shard zero.
    fn default() -> (c: Self)
        ensures
            c.host@ == "rabbitmq"@,
            c.port == 5672,
            c.username@ == "guest"@,
            c.password@ == "guest"@,
            c.shard_id == 0,
    {
        RabbitMQConfig {
            host: "rabbitmq".to_owned(),
            port: 5672,
            username: "guest".to_owned(),
            password: "guest".to_owned(),
            shard_id: 0,
        }
    }
}

} // verus!
