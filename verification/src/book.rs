use vstd::prelude::*;

use crate::order::{OrderV, SellOrder};

verus! {

/// Mathematical image of one instrument's shelf in the book: the
/// instrument identifier and its resting sells, cheapest first.
#[verifier::ext_equal]
pub ghost struct EntryV {
    pub stock_id: Seq<char>,
    pub orders: Seq<OrderV>,
}

/// Index of the instrument's entry in the book, or -1 when the
/// instrument has none.
pub open spec fn entry_index(bv: Seq<EntryV>, id: Seq<char>) -> int
    decreases bv.len(),
{
    if bv.len() == 0 {
        -1
    } else if bv[0].stock_id == id {
        0
    } else {
        let r = entry_index(bv.drop_first(), id);
        if r < 0 {
            -1
        } else {
            r + 1
        }
    }
}

pub open spec fn has_entry(bv: Seq<EntryV>, id: Seq<char>) -> bool {
    entry_index(bv, id) >= 0
}

/// The instrument's resting sells, cheapest first; empty when the
/// instrument has no entry.
pub open spec fn orders_of(bv: Seq<EntryV>, id: Seq<char>) -> Seq<OrderV> {
    if has_entry(bv, id) {
        bv[entry_index(bv, id)].orders
    } else {
        Seq::empty()
    }
}

/// Well-formedness of one entry: every resting order keeps the order
/// invariant, belongs to this instrument, and prices never decrease
/// along the shelf, so the front order is always a cheapest one.
pub open spec fn entry_wf(e: EntryV) -> bool {
    &&& (forall|i: int| 0 <= i < e.orders.len() ==> (#[trigger] e.orders[i]).wf())
    &&& (forall|i: int| 0 <= i < e.orders.len() ==> (#[trigger] e.orders[i]).stock_id == e.stock_id)
    &&& (forall|i: int, j: int|
        0 <= i < j < e.orders.len() ==> (#[trigger] e.orders[i]).price <= (#[trigger] e.orders[j]).price)
}

/// Well-formedness of the whole book: well-formed entries under
/// pairwise distinct instrument identifiers.
pub open spec fn book_wf(bv: Seq<EntryV>) -> bool {
    &&& (forall|i: int| 0 <= i < bv.len() ==> entry_wf(#[trigger] bv[i]))
    &&& (forall|i: int, j: int|
        0 <= i < j < bv.len() ==> (#[trigger] bv[i]).stock_id != (#[trigger] bv[j]).stock_id)
}

/// Where a new order of this price lands on a shelf: after every resting
/// order that is not strictly more expensive.
pub open spec fn insertion_index(orders: Seq<OrderV>, price: u64) -> int
    decreases orders.len(),
{
    if orders.len() == 0 {
        0
    } else if orders[0].price <= price {
        1 + insertion_index(orders.drop_first(), price)
    } else {
        0
    }
}

/// The book after admitting one order: slotted into its instrument's
/// shelf by price, or opening a fresh entry at the back.
pub open spec fn book_with_insert(bv: Seq<EntryV>, o: OrderV) -> Seq<EntryV> {
    let k = entry_index(bv, o.stock_id);
    if k >= 0 {
        bv.update(
            k,
            EntryV {
                stock_id: bv[k].stock_id,
                orders: bv[k].orders.insert(insertion_index(bv[k].orders, o.price), o),
            },
        )
    } else {
        bv.push(EntryV { stock_id: o.stock_id, orders: seq![o] })
    }
}

/// The book after removing the instrument's cheapest resting order;
/// unchanged when the instrument has none.
pub open spec fn book_after_pop(bv: Seq<EntryV>, id: Seq<char>) -> Seq<EntryV> {
    let k = entry_index(bv, id);
    if k >= 0 && bv[k].orders.len() > 0 {
        bv.update(k, EntryV { stock_id: bv[k].stock_id, orders: bv[k].orders.drop_first() })
    } else {
        bv
    }
}

/// A shelf with every order of the given transaction identifier taken
/// out, the rest kept in order.
pub open spec fn without_tx(orders: Seq<OrderV>, tx: Seq<char>) -> Seq<OrderV>
    decreases orders.len(),
{
    if orders.len() == 0 {
        Seq::empty()
    } else if orders.last().stock_tx_id == tx {
        without_tx(orders.drop_last(), tx)
    } else {
        without_tx(orders.drop_last(), tx).push(orders.last())
    }
}

/// The order a removal by transaction identifier hands back: the last
/// match along the shelf, if any.
pub open spec fn last_tx(orders: Seq<OrderV>, tx: Seq<char>) -> Option<OrderV>
    decreases orders.len(),
{
    if orders.len() == 0 {
        Option::None
    } else if orders.last().stock_tx_id == tx {
        Option::Some(orders.last())
    } else {
        last_tx(orders.drop_last(), tx)
    }
}

/// The book after cancelling a transaction on one instrument's shelf.
pub open spec fn book_without_tx(bv: Seq<EntryV>, id: Seq<char>, tx: Seq<char>) -> Seq<EntryV> {
    let k = entry_index(bv, id);
    if k >= 0 {
        bv.update(k, EntryV { stock_id: bv[k].stock_id, orders: without_tx(bv[k].orders, tx) })
    } else {
        bv
    }
}

/// The book after a partial fill of the instrument's cheapest resting
/// order: `take` shares leave it and it is marked partially sold.
pub open spec fn book_fill_top(bv: Seq<EntryV>, id: Seq<char>, take: u64) -> Seq<EntryV> {
    let k = entry_index(bv, id);
    if k >= 0 && bv[k].orders.len() > 0 {
        let top = bv[k].orders[0];
        bv.update(
            k,
            EntryV {
                stock_id: bv[k].stock_id,
                orders: bv[k].orders.update(
                    0,
                    OrderV {
                        cur_quantity: (top.cur_quantity - take) as u64,
                        partially_sold: true,
                        ..top
                    },
                ),
            },
        )
    } else {
        bv
    }
}

pub proof fn lemma_entry_index(bv: Seq<EntryV>, id: Seq<char>)
    ensures
        entry_index(bv, id) == -1 || 0 <= entry_index(bv, id) < bv.len(),
        entry_index(bv, id) == -1 ==> forall|i: int|
            0 <= i < bv.len() ==> (#[trigger] bv[i]).stock_id != id,
        entry_index(bv, id) >= 0 ==> bv[entry_index(bv, id)].stock_id == id,
        entry_index(bv, id) >= 0 ==> forall|j: int|
            0 <= j < entry_index(bv, id) ==> (#[trigger] bv[j]).stock_id != id,
    decreases bv.len(),
{
    if bv.len() > 0 && bv[0].stock_id != id {
        lemma_entry_index(bv.drop_first(), id);
        if entry_index(bv, id) == -1 {
            assert forall|i: int| 0 <= i < bv.len() implies (#[trigger] bv[i]).stock_id != id by {
                if i > 0 {
                    assert(bv.drop_first()[i - 1] == bv[i]);
                }
            }
        } else {
            assert(bv.drop_first()[entry_index(bv.drop_first(), id)] == bv[entry_index(bv, id)]);
            assert forall|j: int| 0 <= j < entry_index(bv, id) implies (#[trigger] bv[j]).stock_id
                != id by {
                if j > 0 {
                    assert(bv.drop_first()[j - 1] == bv[j]);
                }
            }
        }
    }
}

/// The entry index is pinned by any witness position whose predecessors
/// all carry other instruments.
pub proof fn lemma_entry_index_at(bv: Seq<EntryV>, id: Seq<char>, k: int)
    requires
        0 <= k < bv.len(),
        bv[k].stock_id == id,
        forall|j: int| 0 <= j < k ==> (#[trigger] bv[j]).stock_id != id,
    ensures
        entry_index(bv, id) == k,
    decreases bv.len(),
{
    if k > 0 {
        assert(forall|i: int|
            0 <= i < bv.drop_first().len() ==> #[trigger] bv.drop_first()[i] == bv[i + 1]);
        lemma_entry_index_at(bv.drop_first(), id, k - 1);
    }
}

pub proof fn lemma_insertion_index(orders: Seq<OrderV>, price: u64)
    ensures
        0 <= insertion_index(orders, price) <= orders.len(),
        forall|j: int|
            0 <= j < insertion_index(orders, price) ==> (#[trigger] orders[j]).price <= price,
        insertion_index(orders, price) < orders.len() ==> orders[insertion_index(
            orders,
            price,
        )].price > price,
    decreases orders.len(),
{
    if orders.len() > 0 && orders[0].price <= price {
        lemma_insertion_index(orders.drop_first(), price);
        let ii = insertion_index(orders, price);
        assert forall|j: int| 0 <= j < ii implies (#[trigger] orders[j]).price <= price by {
            if j > 0 {
                assert(orders.drop_first()[j - 1] == orders[j]);
            }
        }
        if ii < orders.len() {
            assert(orders.drop_first()[ii - 1] == orders[ii]);
        }
    }
}

/// The search loop's exit position is the insertion index.
pub proof fn lemma_insertion_index_at(orders: Seq<OrderV>, price: u64, k: int)
    requires
        0 <= k <= orders.len(),
        forall|j: int| 0 <= j < k ==> (#[trigger] orders[j]).price <= price,
        k < orders.len() ==> orders[k].price > price,
    ensures
        insertion_index(orders, price) == k,
    decreases orders.len(),
{
    if orders.len() > 0 && orders[0].price <= price {
        assert(forall|i: int|
            0 <= i < orders.drop_first().len() ==> #[trigger] orders.drop_first()[i] == orders[i
                + 1]);
        lemma_insertion_index_at(orders.drop_first(), price, k - 1);
    }
}

/// Slotting a well-formed order of this instrument into a well-formed
/// shelf at its insertion index keeps the shelf well formed.
pub proof fn lemma_entry_insert_wf(e: EntryV, o: OrderV)
    requires
        entry_wf(e),
        o.wf(),
        o.stock_id == e.stock_id,
    ensures
        entry_wf(
            EntryV { stock_id: e.stock_id, orders: e.orders.insert(insertion_index(e.orders, o.price), o) },
        ),
{
    lemma_insertion_index(e.orders, o.price);
    let ii = insertion_index(e.orders, o.price);
    let res = e.orders.insert(ii, o);
    assert forall|i: int, j: int| 0 <= i < j < res.len() implies (#[trigger] res[i]).price <= (
    #[trigger] res[j]).price by {
        if i < ii && j < ii {
            assert(res[i] == e.orders[i]);
            assert(res[j] == e.orders[j]);
        } else if i < ii && j == ii {
            assert(res[i] == e.orders[i]);
        } else if i < ii && j > ii {
            assert(res[i] == e.orders[i]);
            assert(res[j] == e.orders[j - 1]);
            if ii < e.orders.len() {
                assert(e.orders[i].price <= e.orders[j - 1].price);
            }
        } else if i == ii && j > ii {
            assert(res[j] == e.orders[j - 1]);
            assert(e.orders[j - 1].price > o.price || e.orders[j - 1].price >= e.orders[ii].price);
            if ii < e.orders.len() && ii < j - 1 {
                assert(e.orders[ii].price <= e.orders[j - 1].price);
            }
        } else {
            assert(res[i] == e.orders[i - 1]);
            assert(res[j] == e.orders[j - 1]);
        }
    }
}

/// Facts of the scan that removes a transaction from a shelf: what is
/// kept carries other transactions and rested on the shelf, and the
/// handed-back order, when there is one, rested there under that
/// transaction; nothing is removed exactly when there was no match.
pub proof fn lemma_tx_scan(orders: Seq<OrderV>, tx: Seq<char>)
    ensures
        forall|i: int|
            0 <= i < without_tx(orders, tx).len() ==> (#[trigger] without_tx(orders, tx)[i]).stock_tx_id
                != tx,
        forall|i: int|
            0 <= i < without_tx(orders, tx).len() ==> orders.contains(
                #[trigger] without_tx(orders, tx)[i],
            ),
        without_tx(orders, tx).len() <= orders.len(),
        last_tx(orders, tx) is None <==> without_tx(orders, tx) == orders,
        last_tx(orders, tx) is None ==> forall|i: int|
            0 <= i < orders.len() ==> (#[trigger] orders[i]).stock_tx_id != tx,
        last_tx(orders, tx) is Some ==> orders.contains(last_tx(orders, tx)->Some_0)
            && (last_tx(orders, tx)->Some_0).stock_tx_id == tx,
    decreases orders.len(),
{
    let n = orders.len();
    let res = without_tx(orders, tx);
    if n == 0 {
        assert(res =~= orders);
    } else {
        let front = orders.drop_last();
        lemma_tx_scan(front, tx);
        let sub = without_tx(front, tx);
        assert forall|i: int| 0 <= i < sub.len() implies orders.contains(#[trigger] sub[i]) by {
            assert(front.contains(sub[i]));
            let w = choose|w: int| 0 <= w < front.len() && front[w] == sub[i];
            assert(orders[w] == sub[i]);
        }
        if orders.last().stock_tx_id == tx {
            assert(res == sub);
            if sub == orders {
                assert(sub.len() == n);
                assert(false);
            }
        } else {
            assert(res == sub.push(orders.last()));
            if last_tx(orders, tx) is None {
                assert(sub == front);
                assert(res =~= orders);
                assert forall|i: int| 0 <= i < n implies (#[trigger] orders[i]).stock_tx_id != tx by {
                    if i < n - 1 {
                        assert(front[i] == orders[i]);
                    }
                }
            }
            if res == orders {
                assert(sub =~= front) by {
                    assert(forall|i: int| 0 <= i < sub.len() ==> #[trigger] sub[i] == res[i]
                        && res[i] == orders[i] && orders[i] == front[i]);
                }
            }
        }
    }
}

/// Removing a transaction keeps a shelf sorted by price.
pub proof fn lemma_without_tx_sorted(orders: Seq<OrderV>, tx: Seq<char>)
    requires
        forall|i: int, j: int|
            0 <= i < j < orders.len() ==> (#[trigger] orders[i]).price <= (#[trigger] orders[j]).price,
    ensures
        forall|i: int, j: int|
            0 <= i < j < without_tx(orders, tx).len() ==> (#[trigger] without_tx(orders, tx)[i]).price
                <= (#[trigger] without_tx(orders, tx)[j]).price,
    decreases orders.len(),
{
    let n = orders.len();
    let res = without_tx(orders, tx);
    if n > 0 {
        let front = orders.drop_last();
        assert(forall|i: int| 0 <= i < front.len() ==> #[trigger] front[i] == orders[i]);
        lemma_without_tx_sorted(front, tx);
        lemma_tx_scan(front, tx);
        let sub = without_tx(front, tx);
        if orders.last().stock_tx_id != tx {
            assert(res == sub.push(orders.last()));
            assert forall|i: int, j: int| 0 <= i < j < res.len() implies (#[trigger] res[i]).price
                <= (#[trigger] res[j]).price by {
                assert(res[i] == sub[i]);
                if j < sub.len() {
                    assert(res[j] == sub[j]);
                    assert(sub[i].price <= sub[j].price);
                } else {
                    assert(res[j] == orders.last());
                    let x = sub[i];
                    assert(front.contains(x));
                    let w = choose|w: int| 0 <= w < front.len() && front[w] == x;
                    assert(orders[w] == x);
                    if w < n - 1 {
                        assert(orders[w].price <= orders[n - 1].price);
                    }
                }
            }
        }
    }
}

/// Removing a transaction keeps a shelf well formed, and afterwards no
/// order of that transaction remains.
pub proof fn lemma_without_tx(e: EntryV, tx: Seq<char>)
    requires
        entry_wf(e),
    ensures
        entry_wf(EntryV { stock_id: e.stock_id, orders: without_tx(e.orders, tx) }),
        forall|i: int|
            0 <= i < without_tx(e.orders, tx).len() ==> (#[trigger] without_tx(e.orders, tx)[i]).stock_tx_id
                != tx,
        forall|i: int|
            0 <= i < without_tx(e.orders, tx).len() ==> e.orders.contains(
                #[trigger] without_tx(e.orders, tx)[i],
            ),
        without_tx(e.orders, tx).len() <= e.orders.len(),
        last_tx(e.orders, tx) is None <==> without_tx(e.orders, tx) == e.orders,
        last_tx(e.orders, tx) is None ==> forall|i: int|
            0 <= i < e.orders.len() ==> (#[trigger] e.orders[i]).stock_tx_id != tx,
        last_tx(e.orders, tx) is Some ==> e.orders.contains(last_tx(e.orders, tx)->Some_0)
            && (last_tx(e.orders, tx)->Some_0).stock_tx_id == tx,
{
    lemma_tx_scan(e.orders, tx);
    lemma_without_tx_sorted(e.orders, tx);
    let res = without_tx(e.orders, tx);
    assert forall|i: int| 0 <= i < res.len() implies (#[trigger] res[i]).wf() && (
    #[trigger] res[i]).stock_id == e.stock_id by {
        assert(e.orders.contains(res[i]));
        let w = choose|w: int| 0 <= w < e.orders.len() && e.orders[w] == res[i];
        assert(e.orders[w].wf());
        assert(e.orders[w].stock_id == e.stock_id);
    }
}

/// One instrument's shelf: the identifier and its resting sells, kept
/// sorted by price, cheapest first.
pub struct InstrumentBook {
    pub stock_id: String,
    pub orders: Vec<SellOrder>,
}

impl View for InstrumentBook {
    type V = EntryV;

    open spec fn view(&self) -> EntryV {
        EntryV { stock_id: self.stock_id@, orders: self.orders@.map_values(|o: SellOrder| o@) }
    }
}

/// The shard's book: per-instrument shelves of resting sell orders with
/// peek, pop and insert at the minimum price.
pub struct StockMatchingPriorityQueue {
    books: Vec<InstrumentBook>,
}

impl View for StockMatchingPriorityQueue {
    type V = Seq<EntryV>;

    closed spec fn view(&self) -> Seq<EntryV> {
        self.books@.map_values(|b: InstrumentBook| b@)
    }
}

impl Default for StockMatchingPriorityQueue {
    fn default() -> (q: Self)
        ensures
            q@ == Seq::<EntryV>::empty(),
            q.wf(),
    {
        Self::new()
    }
}

impl StockMatchingPriorityQueue {
    pub open spec fn wf(&self) -> bool {
        book_wf(self@)
    }

    pub fn new() -> (q: Self)
        ensures
            q@ == Seq::<EntryV>::empty(),
            q.wf(),
    {
        let q = StockMatchingPriorityQueue { books: Vec::new() };
        proof {
            assert(q@ =~= Seq::<EntryV>::empty());
        }
        q
    }

    /// Position of the instrument's entry among the shelves, if it has one.
    fn find_entry(&self, stock_id: &String) -> (r: Option<usize>)
        ensures
            match r {
                Option::Some(k) => 0 <= k < self@.len() && entry_index(self@, stock_id@) == k,
                Option::None => entry_index(self@, stock_id@) == -1,
            },
    {
        let n = self.books.len();
        let mut j: usize = 0;
        while j < n
            invariant
                n == self.books@.len(),
                0 <= j <= n,
                self@.len() == self.books@.len(),
                forall|i: int| 0 <= i < j ==> (#[trigger] self@[i]).stock_id != stock_id@,
            decreases n - j,
        {
            if self.books[j].stock_id == *stock_id {
                proof {
                    lemma_entry_index_at(self@, stock_id@, j as int);
                }
                return Option::Some(j);
            }
            j += 1;
        }
        proof {
            lemma_entry_index(self@, stock_id@);
            if entry_index(self@, stock_id@) >= 0 {
                assert(self@[entry_index(self@, stock_id@)].stock_id == stock_id@);
                assert(false);
            }
        }
        Option::None
    }

    /// Read-only view of the instrument's whole shelf, cheapest first,
    /// if the instrument has one.
    pub fn get_stock_queue(&self, stock_id: &String) -> (r: Option<&Vec<SellOrder>>)
        ensures
            match r {
                Option::Some(v) => has_entry(self@, stock_id@) && v@.map_values(|o: SellOrder| o@)
                    == orders_of(self@, stock_id@),
                Option::None => !has_entry(self@, stock_id@),
            },
    {
        match self.find_entry(stock_id) {
            Option::Some(k) => Option::Some(&self.books[k].orders),
            Option::None => Option::None,
        }
    }

    /// Admit a resting order: slot it into its instrument's shelf by
    /// price, opening the shelf on first use.
    pub fn insert(&mut self, order: SellOrder)
        requires
            old(self).wf(),
            order@.wf(),
        ensures
            final(self).wf(),
            final(self)@ == book_with_insert(old(self)@, order@),
    {
        let ghost o = order@;
        let ghost bv0 = old(self)@;
        match self.find_entry(&order.stock_id) {
            Option::Some(k) => {
                proof {
                    lemma_entry_index(bv0, o.stock_id);
                }
                let ghost shelf = bv0[k as int].orders;
                let target: u64 = order.price;
                let n = self.books[k].orders.len();
                let mut i: usize = 0;
                while i < n && self.books[k].orders[i].price <= target
                    invariant
                        self.books@ == old(self).books@,
                        self@ == bv0,
                        0 <= k < self.books@.len(),
                        bv0[k as int].orders == shelf,
                        n == self.books@[k as int].orders@.len(),
                        target == o.price,
                        0 <= i <= n,
                        forall|j: int| 0 <= j < i ==> (#[trigger] shelf[j]).price <= o.price,
                    decreases n - i,
                {
                    proof {
                        let ib = self.books@[k as int];
                        assert(self@[k as int] == ib@);
                        assert(shelf == ib@.orders);
                        assert(shelf[i as int] == ib.orders@[i as int]@);
                        assert(shelf[i as int].price == ib.orders@[i as int].price);
                        assert(shelf[i as int].price <= o.price);
                    }
                    i += 1;
                }
                proof {
                    assert(shelf.len() == n);
                    if i < n {
                        assert(shelf[i as int] == self.books@[k as int].orders@[i as int]@);
                    }
                    lemma_insertion_index_at(shelf, o.price, i as int);
                    lemma_entry_insert_wf(bv0[k as int], o);
                }
                let e = &mut self.books[k];
                e.orders.insert(i, order);
                proof {
                    assert(self@ =~~= book_with_insert(bv0, o));
                    assert forall|a: int| 0 <= a < self@.len() implies entry_wf(
                        #[trigger] self@[a],
                    ) by {
                        if a != k {
                            assert(self@[a] == bv0[a]);
                        }
                    }
                }
            },
            Option::None => {
                proof {
                    lemma_entry_index(bv0, o.stock_id);
                }
                let sid = order.stock_id.clone();
                let mut v: Vec<SellOrder> = Vec::new();
                v.push(order);
                self.books.push(InstrumentBook { stock_id: sid, orders: v });
                proof {
                    assert(self@ =~~= book_with_insert(bv0, o));
                    assert forall|a: int| 0 <= a < self@.len() implies entry_wf(
                        #[trigger] self@[a],
                    ) by {
                        if a < bv0.len() {
                            assert(self@[a] == bv0[a]);
                        } else {
                            assert(self@[a].orders =~= seq![o]);
                        }
                    }
                    assert forall|a: int, b: int| 0 <= a < b < self@.len() implies (
                    #[trigger] self@[a]).stock_id != (#[trigger] self@[b]).stock_id by {
                        if b < bv0.len() {
                            assert(self@[a] == bv0[a] && self@[b] == bv0[b]);
                        } else {
                            assert(self@[a] == bv0[a]);
                        }
                    }
                }
            },
        }
    }

    /// Read-only view of the instrument's cheapest resting order.
    pub fn peek(&self, stock_id: &String) -> (r: Option<&SellOrder>)
        ensures
            match r {
                Option::Some(ord) => orders_of(self@, stock_id@).len() > 0 && ord@ == orders_of(
                    self@,
                    stock_id@,
                )[0],
                Option::None => orders_of(self@, stock_id@).len() == 0,
            },
    {
        match self.find_entry(stock_id) {
            Option::Some(k) => {
                if self.books[k].orders.len() == 0 {
                    Option::None
                } else {
                    Option::Some(&self.books[k].orders[0])
                }
            },
            Option::None => Option::None,
        }
    }

    /// Remove and return the instrument's cheapest resting order.
    pub fn pop(&mut self, stock_id: &String) -> (r: Option<SellOrder>)
        requires
            old(self).wf(),
        ensures
            final(self).wf(),
            match r {
                Option::Some(ord) => orders_of(old(self)@, stock_id@).len() > 0 && ord@
                    == orders_of(old(self)@, stock_id@)[0] && final(self)@ == book_after_pop(
                    old(self)@,
                    stock_id@,
                ),
                Option::None => orders_of(old(self)@, stock_id@).len() == 0 && final(self)@ == old(
                    self,
                )@,
            },
    {
        let ghost bv0 = old(self)@;
        match self.find_entry(stock_id) {
            Option::Some(k) => {
                if self.books[k].orders.len() == 0 {
                    Option::None
                } else {
                    let e = &mut self.books[k];
                    let ord = e.orders.remove(0);
                    proof {
                        assert(self@[k as int].orders =~= bv0[k as int].orders.drop_first());
                        assert(self@ =~~= book_after_pop(bv0, stock_id@));
                        assert forall|a: int| 0 <= a < self@.len() implies entry_wf(
                            #[trigger] self@[a],
                        ) by {
                            if a != k {
                                assert(self@[a] == bv0[a]);
                            } else {
                                let eold = bv0[k as int];
                                let enew = self@[k as int];
                                assert(forall|i: int|
                                    0 <= i < enew.orders.len() ==> #[trigger] enew.orders[i]
                                        == eold.orders[i + 1]);
                            }
                        }
                    }
                    Option::Some(ord)
                }
            },
            Option::None => Option::None,
        }
    }

    /// How many sells rest on the instrument's shelf.
    pub fn len(&self, stock_id: &String) -> (n: usize)
        ensures
            n == orders_of(self@, stock_id@).len(),
    {
        match self.find_entry(stock_id) {
            Option::Some(k) => self.books[k].orders.len(),
            Option::None => 0,
        }
    }

    /// Copies of every order resting on the instrument's shelf, cheapest
    /// first; used by the depth check and the dry run.
    pub fn get_all_orders(&self, stock_id: &String) -> (r: Vec<SellOrder>)
        ensures
            r@.len() == orders_of(self@, stock_id@).len(),
            forall|i: int| 0 <= i < r@.len() ==> (#[trigger] r@[i])@ == orders_of(self@, stock_id@)[i],
    {
        let ghost shelf = orders_of(self@, stock_id@);
        let mut r: Vec<SellOrder> = Vec::new();
        match self.find_entry(stock_id) {
            Option::Some(k) => {
                let n = self.books[k].orders.len();
                let mut i: usize = 0;
                while i < n
                    invariant
                        0 <= k < self.books@.len(),
                        self@[k as int].orders == shelf,
                        n == self.books@[k as int].orders@.len(),
                        0 <= i <= n,
                        r@.len() == i,
                        forall|j: int| 0 <= j < i ==> (#[trigger] r@[j])@ == shelf[j],
                    decreases n - i,
                {
                    let ord = self.books[k].orders[i].clone();
                    proof {
                        assert(shelf[i as int] == self.books@[k as int].orders@[i as int]@);
                    }
                    r.push(ord);
                    i += 1;
                }
                r
            },
            Option::None => r,
        }
    }

    /// Every instrument that has a shelf, possibly an empty one.
    pub fn get_all_stocks(&self) -> (r: Vec<String>)
        ensures
            r@.len() == self@.len(),
            forall|i: int| 0 <= i < r@.len() ==> (#[trigger] r@[i])@ == self@[i].stock_id,
    {
        let mut r: Vec<String> = Vec::new();
        let n = self.books.len();
        let mut i: usize = 0;
        while i < n
            invariant
                n == self.books@.len(),
                self@.len() == self.books@.len(),
                0 <= i <= n,
                r@.len() == i,
                forall|j: int| 0 <= j < i ==> (#[trigger] r@[j])@ == self@[j].stock_id,
            decreases n - i,
        {
            let name = self.books[i].stock_id.clone();
            r.push(name);
            i += 1;
        }
        r
    }

    /// Empty the instrument's shelf, leaving the entry in place.
    pub fn clear(&mut self, stock_id: &String)
        requires
            old(self).wf(),
        ensures
            final(self).wf(),
            has_entry(old(self)@, stock_id@) ==> final(self)@ == old(self)@.update(
                entry_index(old(self)@, stock_id@),
                EntryV {
                    stock_id: old(self)@[entry_index(old(self)@, stock_id@)].stock_id,
                    orders: Seq::empty(),
                },
            ),
            !has_entry(old(self)@, stock_id@) ==> final(self)@ == old(self)@,
    {
        let ghost bv0 = old(self)@;
        match self.find_entry(stock_id) {
            Option::Some(k) => {
                let e = &mut self.books[k];
                e.orders.clear();
                proof {
                    assert(self@[k as int].orders =~= Seq::<OrderV>::empty());
                    assert(self@ =~~= bv0.update(
                        k as int,
                        EntryV { stock_id: bv0[k as int].stock_id, orders: Seq::empty() },
                    ));
                    assert forall|a: int| 0 <= a < self@.len() implies entry_wf(
                        #[trigger] self@[a],
                    ) by {
                        if a != k {
                            assert(self@[a] == bv0[a]);
                        }
                    }
                }
            },
            Option::None => {},
        }
    }

    /// Drop the instrument's shelf altogether.
    pub fn remove_stock(&mut self, stock_id: &String)
        requires
            old(self).wf(),
        ensures
            final(self).wf(),
            has_entry(old(self)@, stock_id@) ==> final(self)@ == old(self)@.remove(
                entry_index(old(self)@, stock_id@),
            ),
            !has_entry(old(self)@, stock_id@) ==> final(self)@ == old(self)@,
    {
        let ghost bv0 = old(self)@;
        match self.find_entry(stock_id) {
            Option::Some(k) => {
                let _ = self.books.remove(k);
                proof {
                    assert(self@ =~~= bv0.remove(k as int));
                    assert forall|a: int| 0 <= a < self@.len() implies entry_wf(
                        #[trigger] self@[a],
                    ) by {
                        if a < k {
                            assert(self@[a] == bv0[a]);
                        } else {
                            assert(self@[a] == bv0[a + 1]);
                        }
                    }
                    assert forall|a: int, b: int| 0 <= a < b < self@.len() implies (
                    #[trigger] self@[a]).stock_id != (#[trigger] self@[b]).stock_id by {
                        let a0: int = if a < k { a } else { a + 1 };
                        let b0: int = if b < k { b } else { b + 1 };
                        assert(self@[a] == bv0[a0]);
                        assert(self@[b] == bv0[b0]);
                    }
                }
            },
            Option::None => {},
        }
    }

    /// Cancel a transaction on the instrument's shelf: remove every
    /// order carrying it and hand back the last of them, if any.
    pub fn remove_order(&mut self, stock_id: &String, stock_tx_id: &String) -> (r: Option<
        SellOrder,
    >)
        requires
            old(self).wf(),
        ensures
            final(self).wf(),
            final(self)@ == book_without_tx(old(self)@, stock_id@, stock_tx_id@),
            match r {
                Option::Some(ord) => last_tx(orders_of(old(self)@, stock_id@), stock_tx_id@)
                    matches Option::Some(v) && ord@ == v,
                Option::None => last_tx(orders_of(old(self)@, stock_id@), stock_tx_id@) is None,
            },
    {
        let ghost bv0 = old(self)@;
        match self.find_entry(stock_id) {
            Option::Some(k) => {
                proof {
                    lemma_entry_index(bv0, stock_id@);
                }
                let ghost shelf = bv0[k as int].orders;
                let mut kept: Vec<SellOrder> = Vec::new();
                let mut removed: Option<SellOrder> = Option::None;
                let n = self.books[k].orders.len();
                let mut i: usize = 0;
                while i < n
                    invariant
                        self.books@ == old(self).books@,
                        self@ == bv0,
                        0 <= k < self.books@.len(),
                        bv0[k as int].orders == shelf,
                        n == self.books@[k as int].orders@.len(),
                        0 <= i <= n,
                        kept@.map_values(|ord: SellOrder| ord@) == without_tx(
                            shelf.take(i as int),
                            stock_tx_id@,
                        ),
                        match removed {
                            Option::Some(ord) => last_tx(shelf.take(i as int), stock_tx_id@)
                                matches Option::Some(v) && ord@ == v,
                            Option::None => last_tx(shelf.take(i as int), stock_tx_id@) is None,
                        },
                    decreases n - i,
                {
                    let ghost pre = shelf.take(i as int);
                    let ghost post = shelf.take(i as int + 1);
                    proof {
                        assert(shelf[i as int] == self.books@[k as int].orders@[i as int]@);
                        assert(post.drop_last() =~= pre);
                        assert(post.last() == shelf[i as int]);
                    }
                    let ord = self.books[k].orders[i].clone();
                    if ord.stock_tx_id == *stock_tx_id {
                        removed = Option::Some(ord);
                    } else {
                        kept.push(ord);
                        proof {
                            assert(kept@.map_values(|ordx: SellOrder| ordx@) =~= without_tx(
                                post,
                                stock_tx_id@,
                            ));
                        }
                    }
                    i += 1;
                }
                proof {
                    assert(shelf.take(n as int) =~= shelf);
                }
                let e = &mut self.books[k];
                e.orders = kept;
                proof {
                    lemma_without_tx(bv0[k as int], stock_tx_id@);
                    assert(self@ =~~= book_without_tx(bv0, stock_id@, stock_tx_id@));
                    assert forall|a: int| 0 <= a < self@.len() implies entry_wf(
                        #[trigger] self@[a],
                    ) by {
                        if a != k {
                            assert(self@[a] == bv0[a]);
                        } else {
                            assert(self@[a] == EntryV {
                                stock_id: bv0[k as int].stock_id,
                                orders: without_tx(bv0[k as int].orders, stock_tx_id@),
                            });
                        }
                    }
                }
                removed
            },
            Option::None => {
                proof {
                    assert(orders_of(bv0, stock_id@) == Seq::<OrderV>::empty());
                    assert(last_tx(Seq::<OrderV>::empty(), stock_tx_id@) is None);
                }
                Option::None
            },
        }
    }

    /// Take part of the instrument's cheapest resting order: its
    /// remaining quantity goes down by `take` and it is marked partially
    /// sold, staying at the front of its shelf.
    pub fn fill_top(&mut self, stock_id: &String, take: u64)
        requires
            old(self).wf(),
            orders_of(old(self)@, stock_id@).len() > 0,
            0 < take < orders_of(old(self)@, stock_id@)[0].cur_quantity,
        ensures
            final(self).wf(),
            final(self)@ == book_fill_top(old(self)@, stock_id@, take),
    {
        let ghost bv0 = old(self)@;
        match self.find_entry(stock_id) {
            Option::Some(k) => {
                proof {
                    lemma_entry_index(bv0, stock_id@);
                }
                let e = &mut self.books[k];
                let mut ord = e.orders.remove(0);
                ord.cur_quantity = ord.cur_quantity - take;
                ord.partially_sold = true;
                e.orders.insert(0, ord);
                proof {
                    let old_top = bv0[k as int].orders[0];
                    let new_top = OrderV {
                        cur_quantity: (old_top.cur_quantity - take) as u64,
                        partially_sold: true,
                        ..old_top
                    };
                    assert(self@[k as int].orders =~= bv0[k as int].orders.update(0, new_top));
                    assert(self@ =~~= book_fill_top(bv0, stock_id@, take));
                    assert forall|a: int| 0 <= a < self@.len() implies entry_wf(
                        #[trigger] self@[a],
                    ) by {
                        if a != k {
                            assert(self@[a] == bv0[a]);
                        } else {
                            let eold = bv0[k as int];
                            let enew = self@[k as int];
                            assert(forall|i: int|
                                0 < i < enew.orders.len() ==> #[trigger] enew.orders[i]
                                    == eold.orders[i]);
                            assert(enew.orders[0] == new_top);
                            assert(old_top.wf());
                        }
                    }
                }
            },
            Option::None => {
                proof {
                    assert(false);
                }
            },
        }
    }
}

} // verus!
