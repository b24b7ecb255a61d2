use vstd::prelude::*;

verus! {

/// Mathematical image of a resting sell order: every field a plain value,
/// strings read as their character sequences.
pub ghost struct OrderV {
    pub stock_id: Seq<char>,
    pub stock_name: Seq<char>,
    pub stock_tx_id: Seq<char>,
    pub partially_sold: bool,
    pub ori_quantity: u64,
    pub cur_quantity: u64,
    pub price: u64,
    pub user_name: Seq<char>,
}

impl OrderV {
    /// Invariant of a resting order: some quantity is still unfilled, no
    /// more than was admitted, and the partial-fill flag records exactly
    /// whether any of it has been sold.
    pub open spec fn wf(self) -> bool {
        &&& 0 < self.cur_quantity
        &&& self.cur_quantity <= self.ori_quantity
        &&& (self.partially_sold <==> self.cur_quantity < self.ori_quantity)
    }
}

/// A resting sell order. `price` is in integer price units; `ori_quantity`
/// is the quantity at admission and `cur_quantity` what is still unfilled.
#[derive(Debug, PartialEq, Eq)]
pub struct SellOrder {
    pub stock_id: String,
    pub stock_name: String,
    pub stock_tx_id: String,
    pub partially_sold: bool,
    pub ori_quantity: u64,
    pub cur_quantity: u64,
    pub price: u64,
    pub user_name: String,
}

impl View for SellOrder {
    type V = OrderV;

    open spec fn view(&self) -> OrderV {
        OrderV {
            stock_id: self.stock_id@,
            stock_name: self.stock_name@,
            stock_tx_id: self.stock_tx_id@,
            partially_sold: self.partially_sold,
            ori_quantity: self.ori_quantity,
            cur_quantity: self.cur_quantity,
            price: self.price,
            user_name: self.user_name@,
        }
    }
}

impl Clone for SellOrder {
    fn clone(&self) -> (r: Self)
        ensures
            r == *self,
    {
        SellOrder {
            stock_id: self.stock_id.clone(),
            stock_name: self.stock_name.clone(),
            stock_tx_id: self.stock_tx_id.clone(),
            partially_sold: self.partially_sold,
            ori_quantity: self.ori_quantity,
            cur_quantity: self.cur_quantity,
            price: self.price,
            user_name: self.user_name.clone(),
        }
    }
}

} // verus!
