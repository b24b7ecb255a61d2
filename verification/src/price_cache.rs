use vstd::prelude::*;

verus! {

/// Latest top-of-book for one instrument as the cache keeps it: the
/// price already rounded to a whole number of price units.
#[derive(Debug, PartialEq, Eq)]
pub struct StockPrice {
    pub stock_id: String,
    pub current_price: i64,
    pub stock_name: String,
}

/// Mathematical image of a cached price entry.
pub ghost struct PriceV {
    pub stock_id: Seq<char>,
    pub current_price: i64,
    pub stock_name: Seq<char>,
}

impl View for StockPrice {
    type V = PriceV;

    open spec fn view(&self) -> PriceV {
        PriceV {
            stock_id: self.stock_id@,
            current_price: self.current_price,
            stock_name: self.stock_name@,
        }
    }
}

impl Clone for StockPrice {
    fn clone(&self) -> (r: Self)
        ensures
            r == *self,
    {
        StockPrice {
            stock_id: self.stock_id.clone(),
            current_price: self.current_price,
            stock_name: self.stock_name.clone(),
        }
    }
}

/// Position of the instrument's entry in the cache, or -1 when it has
/// none.
pub open spec fn price_index(sv: Seq<PriceV>, id: Seq<char>) -> int
    decreases sv.len(),
{
    if sv.len() == 0 {
        -1
    } else if sv[0].stock_id == id {
        0
    } else {
        let r = price_index(sv.drop_first(), id);
        if r < 0 {
            -1
        } else {
            r + 1
        }
    }
}

pub open spec fn has_price(sv: Seq<PriceV>, id: Seq<char>) -> bool {
    price_index(sv, id) >= 0
}

/// The cache without the instrument's entry, order of the rest kept.
pub open spec fn prices_without(sv: Seq<PriceV>, id: Seq<char>) -> Seq<PriceV>
    decreases sv.len(),
{
    if sv.len() == 0 {
        Seq::empty()
    } else if sv.last().stock_id == id {
        prices_without(sv.drop_last(), id)
    } else {
        prices_without(sv.drop_last(), id).push(sv.last())
    }
}

pub proof fn lemma_price_index(sv: Seq<PriceV>, id: Seq<char>)
    ensures
        price_index(sv, id) == -1 || 0 <= price_index(sv, id) < sv.len(),
        price_index(sv, id) == -1 ==> forall|i: int|
            0 <= i < sv.len() ==> (#[trigger] sv[i]).stock_id != id,
        price_index(sv, id) >= 0 ==> sv[price_index(sv, id)].stock_id == id,
        price_index(sv, id) >= 0 ==> forall|j: int|
            0 <= j < price_index(sv, id) ==> (#[trigger] sv[j]).stock_id != id,
    decreases sv.len(),
{
    if sv.len() > 0 && sv[0].stock_id != id {
        lemma_price_index(sv.drop_first(), id);
        if price_index(sv, id) == -1 {
            assert forall|i: int| 0 <= i < sv.len() implies (#[trigger] sv[i]).stock_id != id by {
                if i > 0 {
                    assert(sv.drop_first()[i - 1] == sv[i]);
                }
            }
        } else {
            assert(sv.drop_first()[price_index(sv.drop_first(), id)] == sv[price_index(sv, id)]);
            assert forall|j: int| 0 <= j < price_index(sv, id) implies (#[trigger] sv[j]).stock_id
                != id by {
                if j > 0 {
                    assert(sv.drop_first()[j - 1] == sv[j]);
                }
            }
        }
    }
}

/// The position found by a scan whose predecessors all missed is the
/// entry's position.
pub proof fn lemma_price_index_at(sv: Seq<PriceV>, id: Seq<char>, k: int)
    requires
        0 <= k < sv.len(),
        sv[k].stock_id == id,
        forall|j: int| 0 <= j < k ==> (#[trigger] sv[j]).stock_id != id,
    ensures
        price_index(sv, id) == k,
    decreases sv.len(),
{
    if k > 0 {
        assert(forall|i: int|
            0 <= i < sv.drop_first().len() ==> #[trigger] sv.drop_first()[i] == sv[i + 1]);
        lemma_price_index_at(sv.drop_first(), id, k - 1);
    }
}

/// The price cache: the latest known top of book per instrument, at
/// most one entry per instrument.
pub struct AppState {
    pub stock_prices: Vec<StockPrice>,
}

impl View for AppState {
    type V = Seq<PriceV>;

    open spec fn view(&self) -> Seq<PriceV> {
        self.stock_prices@.map_values(|p: StockPrice| p@)
    }
}

impl AppState {
    /// At most one cached price per instrument.
    pub open spec fn wf(&self) -> bool {
        forall|i: int, j: int|
            0 <= i < j < self@.len() ==> (#[trigger] self@[i]).stock_id != (
            #[trigger] self@[j]).stock_id
    }

    pub fn new() -> (s: Self)
        ensures
            s@ == Seq::<PriceV>::empty(),
            s.wf(),
    {
        let s = AppState { stock_prices: Vec::new() };
        proof {
            assert(s@ =~= Seq::<PriceV>::empty());
        }
        s
    }

    fn find_price(&self, stock_id: &String) -> (r: Option<usize>)
        ensures
            match r {
                Option::Some(k) => 0 <= k < self@.len() && price_index(self@, stock_id@) == k,
                Option::None => price_index(self@, stock_id@) == -1,
            },
    {
        let n = self.stock_prices.len();
        let mut j: usize = 0;
        while j < n
            invariant
                n == self.stock_prices@.len(),
                self@.len() == self.stock_prices@.len(),
                0 <= j <= n,
                forall|i: int| 0 <= i < j ==> (#[trigger] self@[i]).stock_id != stock_id@,
            decreases n - j,
        {
            if self.stock_prices[j].stock_id == *stock_id {
                proof {
                    lemma_price_index_at(self@, stock_id@, j as int);
                }
                return Option::Some(j);
            }
            j += 1;
        }
        proof {
            lemma_price_index(self@, stock_id@);
            if price_index(self@, stock_id@) >= 0 {
                assert(self@[price_index(self@, stock_id@)].stock_id == stock_id@);
                assert(false);
            }
        }
        Option::None
    }

    /// Apply one price message. A message with both a name and a price
    /// upserts the instrument's entry; one with either missing removes
    /// it: the instrument is no longer available.
    pub fn apply_price_update(
        &mut self,
        stock_id: String,
        stock_name: Option<String>,
        current_price: Option<i64>,
    )
        requires
            old(self).wf(),
        ensures
            final(self).wf(),
            (stock_name matches Option::Some(nm) && current_price matches Option::Some(p))
                ==> ({
                let entry = PriceV {
                    stock_id: stock_id@,
                    current_price: current_price->Some_0,
                    stock_name: (stock_name->Some_0)@,
                };
                if has_price(old(self)@, stock_id@) {
                    final(self)@ == old(self)@.update(price_index(old(self)@, stock_id@), entry)
                } else {
                    final(self)@ == old(self)@.push(entry)
                }
            }),
            (stock_name is None || current_price is None) ==> final(self)@ == prices_without(
                old(self)@,
                stock_id@,
            ),
    {
        let ghost sv0 = old(self)@;
        match (stock_name, current_price) {
            (Option::Some(nm), Option::Some(p)) => {
                let entry = StockPrice { stock_id, current_price: p, stock_name: nm };
                match self.find_price(&entry.stock_id) {
                    Option::Some(k) => {
                        proof {
                            lemma_price_index(sv0, entry.stock_id@);
                        }
                        let slot = &mut self.stock_prices[k];
                        *slot = entry;
                        proof {
                            assert(self@ =~~= sv0.update(
                                price_index(sv0, entry.stock_id@),
                                PriceV {
                                    stock_id: entry.stock_id@,
                                    current_price: p,
                                    stock_name: entry.stock_name@,
                                },
                            ));
                            assert forall|a: int, b: int| 0 <= a < b < self@.len() implies (
                            #[trigger] self@[a]).stock_id != (#[trigger] self@[b]).stock_id by {
                                if a != k {
                                    assert(self@[a] == sv0[a]);
                                }
                                if b != k {
                                    assert(self@[b] == sv0[b]);
                                }
                            }
                        }
                    },
                    Option::None => {
                        proof {
                            lemma_price_index(sv0, entry.stock_id@);
                        }
                        self.stock_prices.push(entry);
                        proof {
                            assert(self@ =~~= sv0.push(
                                PriceV {
                                    stock_id: entry.stock_id@,
                                    current_price: p,
                                    stock_name: entry.stock_name@,
                                },
                            ));
                            assert forall|a: int, b: int| 0 <= a < b < self@.len() implies (
                            #[trigger] self@[a]).stock_id != (#[trigger] self@[b]).stock_id by {
                                assert(self@[a] == sv0[a]);
                                if b < sv0.len() {
                                    assert(self@[b] == sv0[b]);
                                }
                            }
                        }
                    },
                }
            },
            _ => {
                let ghost id = stock_id@;
                let mut kept: Vec<StockPrice> = Vec::new();
                let n = self.stock_prices.len();
                let mut i: usize = 0;
                while i < n
                    invariant
                        id == stock_id@,
                        sv0 == old(self)@,
                        self@ == sv0,
                        self.stock_prices@ == old(self).stock_prices@,
                        n == self.stock_prices@.len(),
                        0 <= i <= n,
                        kept@.map_values(|p: StockPrice| p@) == prices_without(
                            sv0.take(i as int),
                            id,
                        ),
                    decreases n - i,
                {
                    let ghost pre = sv0.take(i as int);
                    let ghost post = sv0.take(i as int + 1);
                    proof {
                        assert(sv0[i as int] == self.stock_prices@[i as int]@);
                        assert(post.drop_last() =~= pre);
                        assert(post.last() == sv0[i as int]);
                    }
                    let item = &self.stock_prices[i];
                    if item.stock_id == stock_id {
                    } else {
                        kept.push(item.clone());
                        proof {
                            assert(kept@.map_values(|p: StockPrice| p@) =~= prices_without(
                                post,
                                id,
                            ));
                        }
                    }
                    i += 1;
                }
                proof {
                    assert(sv0.take(n as int) =~= sv0);
                }
                self.stock_prices = kept;
                proof {
                    lemma_prices_without(sv0, id);
                    assert(self@ == prices_without(sv0, id));
                }
            },
        }
    }
}

/// Removing an instrument keeps the rest of the cache, in order, and
/// keeps instruments pairwise distinct.
pub proof fn lemma_prices_without(sv: Seq<PriceV>, id: Seq<char>)
    requires
        forall|i: int, j: int|
            0 <= i < j < sv.len() ==> (#[trigger] sv[i]).stock_id != (#[trigger] sv[j]).stock_id,
    ensures
        forall|i: int|
            0 <= i < prices_without(sv, id).len() ==> sv.contains(
                #[trigger] prices_without(sv, id)[i],
            ),
        forall|a: int, b: int|
            0 <= a < b < prices_without(sv, id).len() ==> (#[trigger] prices_without(
                sv,
                id,
            )[a]).stock_id != (#[trigger] prices_without(sv, id)[b]).stock_id,
    decreases sv.len(),
{
    let res = prices_without(sv, id);
    if sv.len() > 0 {
        let front = sv.drop_last();
        assert(forall|i: int| 0 <= i < front.len() ==> #[trigger] front[i] == sv[i]);
        lemma_prices_without(front, id);
        let sub = prices_without(front, id);
        assert forall|i: int| 0 <= i < sub.len() implies sv.contains(#[trigger] sub[i]) by {
            assert(front.contains(sub[i]));
            let w = choose|w: int| 0 <= w < front.len() && front[w] == sub[i];
            assert(sv[w] == sub[i]);
        }
        if sv.last().stock_id != id {
            assert(res == sub.push(sv.last()));
            assert forall|a: int, b: int| 0 <= a < b < res.len() implies (
            #[trigger] res[a]).stock_id != (#[trigger] res[b]).stock_id by {
                assert(res[a] == sub[a]);
                if b < sub.len() {
                    assert(res[b] == sub[b]);
                } else {
                    assert(res[b] == sv.last());
                    let x = sub[a];
                    assert(front.contains(x));
                    let w = choose|w: int| 0 <= w < front.len() && front[w] == x;
                    assert(sv[w].stock_id != sv[sv.len() - 1].stock_id);
                }
            }
        }
    }
}

/// Lexicographic order on character sequences by code point. UTF-8
/// encodes larger code points as byte-wise larger sequences, so this
/// agrees with the byte-wise string order of std.
pub open spec fn lex_le(a: Seq<char>, b: Seq<char>) -> bool
    decreases a.len(),
{
    if a.len() == 0 {
        true
    } else if b.len() == 0 {
        false
    } else if (a[0] as u32) == (b[0] as u32) {
        lex_le(a.drop_first(), b.drop_first())
    } else {
        (a[0] as u32) < (b[0] as u32)
    }
}

/// Any two character sequences compare one way or the other.
pub proof fn lemma_lex_total(a: Seq<char>, b: Seq<char>)
    ensures
        lex_le(a, b) || lex_le(b, a),
    decreases a.len(),
{
    if a.len() > 0 && b.len() > 0 && (a[0] as u32) == (b[0] as u32) {
        lemma_lex_total(a.drop_first(), b.drop_first());
    }
}

/// The lexicographic order is transitive.
pub proof fn lemma_lex_trans(a: Seq<char>, b: Seq<char>, c: Seq<char>)
    requires
        lex_le(a, b),
        lex_le(b, c),
    ensures
        lex_le(a, c),
    decreases a.len(),
{
    if a.len() > 0 && b.len() > 0 && c.len() > 0 {
        if (a[0] as u32) == (b[0] as u32) && (b[0] as u32) == (c[0] as u32) {
            lemma_lex_trans(a.drop_first(), b.drop_first(), c.drop_first());
        }
    }
}

/// The uppercase form of a string, named: what str::to_uppercase
/// returns for those characters.
pub uninterp spec fn upper_of(s: Seq<char>) -> Seq<char>;

/// Relies on str::to_uppercase: the Unicode uppercase form of the
/// string, a function of its characters alone.
#[verifier::external_body]
fn to_upper(s: &str) -> (r: String)
    ensures
        r@ == upper_of(s@),
{
    s.to_uppercase()
}

/// Relies on str's `Ord`: strings order lexicographically by byte,
/// which under UTF-8 is the order of their character code points.
#[verifier::external_body]
fn str_le(a: &str, b: &str) -> (r: bool)
    ensures
        r == lex_le(a@, b@),
{
    a <= b
}

/// The snapshot's sort key order: descending, case-insensitive, on the
/// instrument's display name.
pub open spec fn name_ge(a: PriceV, b: PriceV) -> bool {
    lex_le(upper_of(b.stock_name), upper_of(a.stock_name))
}

/// Does `a` sort no later than `b` in the snapshot: `a`'s uppercased
/// name is lexicographically at or above `b`'s.
fn cmp_name_ge(a: &StockPrice, b: &StockPrice) -> (r: bool)
    ensures
        r == name_ge(a@, b@),
{
    let ua = to_upper(a.stock_name.as_str());
    let ub = to_upper(b.stock_name.as_str());
    str_le(ub.as_str(), ua.as_str())
}

/// The read endpoint's body: all cached prices, sorted.
#[derive(Debug, PartialEq, Eq)]
pub struct StockPricesResponse {
    pub success: bool,
    pub data: Option<Vec<StockPrice>>,
}

/// The cached prices as the read endpoint lists them: the same entries,
/// sorted by stock name, descending and case-insensitive.
pub fn sorted_prices(state: &AppState) -> (r: Vec<StockPrice>)
    ensures
        r@.map_values(|p: StockPrice| p@).to_multiset() == state@.to_multiset(),
        forall|a: int, b: int| 0 <= a < b < r@.len() ==> #[trigger] name_ge(r@[a]@, r@[b]@),
{
    let ghost sv = state@;
    let mut out: Vec<StockPrice> = Vec::new();
    let n = state.stock_prices.len();
    let mut i: usize = 0;
    proof {
        assert(out@.map_values(|p: StockPrice| p@) =~= Seq::<PriceV>::empty());
        assert(sv.take(0) =~= Seq::<PriceV>::empty());
        assert(Seq::<PriceV>::empty().to_multiset() =~= Seq::<PriceV>::empty().to_multiset());
    }
    while i < n
        invariant
            sv == state@,
            n == state.stock_prices@.len(),
            sv.len() == n,
            0 <= i <= n,
            out@.map_values(|p: StockPrice| p@).to_multiset() == sv.take(i as int).to_multiset(),
            forall|a: int, b: int|
                0 <= a < b < out@.len() ==> #[trigger] name_ge(out@[a]@, out@[b]@),
        decreases n - i,
    {
        let ghost outv = out@.map_values(|p: StockPrice| p@);
        proof {
            assert(forall|a: int| 0 <= a < out@.len() ==> #[trigger] outv[a] == out@[a]@);
        }
        let item = state.stock_prices[i].clone();
        proof {
            assert(item@ == sv[i as int]);
        }
        let m = out.len();
        let mut pos: usize = 0;
        while pos < m && cmp_name_ge(&out[pos], &item)
            invariant
                out@.map_values(|p: StockPrice| p@) == outv,
                m == out@.len(),
                0 <= pos <= m,
                forall|j: int| 0 <= j < pos ==> #[trigger] name_ge(outv[j], item@),
            decreases m - pos,
        {
            proof {
                assert(outv[pos as int] == out@[pos as int]@);
            }
            pos += 1;
        }
        proof {
            if pos < m {
                assert(outv[pos as int] == out@[pos as int]@);
                assert(!name_ge(outv[pos as int], item@));
                lemma_lex_total(upper_of(item@.stock_name), upper_of(outv[pos as int].stock_name));
                assert(name_ge(item@, outv[pos as int]));
            }
        }
        out.insert(pos, item);
        proof {
            let outv2 = out@.map_values(|p: StockPrice| p@);
            assert(outv2 =~= outv.insert(pos as int, sv[i as int]));
            vstd::seq_lib::to_multiset_insert(outv, pos as int, sv[i as int]);
            vstd::seq_lib::to_multiset_build(sv.take(i as int), sv[i as int]);
            assert(sv.take(i as int).push(sv[i as int]) =~= sv.take(i as int + 1));
            outv.insert_ensures(pos as int, sv[i as int]);
            assert forall|a: int, b: int| 0 <= a < b < outv2.len() implies #[trigger] name_ge(
                outv2[a],
                outv2[b],
            ) by {
                let p = pos as int;
                if b < p {
                    assert(outv2[a] == outv[a] && outv2[b] == outv[b]);
                } else if a < p && b == p {
                    assert(outv2[a] == outv[a]);
                    assert(outv2[b] == sv[i as int]);
                } else if a < p && b > p {
                    assert(outv2[a] == outv[a] && outv2[b] == outv[b - 1]);
                } else if a == p && b > p {
                    assert(outv2[a] == sv[i as int]);
                    assert(outv2[b] == outv[b - 1]);
                    if p < outv.len() {
                        if p < b - 1 {
                            assert(name_ge(outv[p], outv[b - 1]));
                            lemma_lex_trans(
                                upper_of(outv[b - 1].stock_name),
                                upper_of(outv[p].stock_name),
                                upper_of(sv[i as int].stock_name),
                            );
                        }
                    }
                } else {
                    assert(outv2[a] == outv[a - 1] && outv2[b] == outv[b - 1]);
                }
            }
            assert forall|a: int, b: int| 0 <= a < b < out@.len() implies #[trigger] name_ge(
                out@[a]@,
                out@[b]@,
            ) by {
                assert(out@[a]@ == outv2[a]);
                assert(out@[b]@ == outv2[b]);
                assert(name_ge(outv2[a], outv2[b]));
            }
        }
        i += 1;
    }
    proof {
        assert(sv.take(n as int) =~= sv);
    }
    out
}

/// What the read endpoint returns once the token check has passed: a
/// success marker and the sorted snapshot.
pub fn get_stock_prices(state: &AppState) -> (r: StockPricesResponse)
    ensures
        r.success,
        r.data matches Option::Some(v) && v@.map_values(|p: StockPrice| p@).to_multiset()
            == state@.to_multiset() && (forall|a: int, b: int|
            0 <= a < b < v@.len() ==> #[trigger] name_ge(v@[a]@, v@[b]@)),
{
    let data = sorted_prices(state);
    StockPricesResponse { success: true, data: Option::Some(data) }
}

} // verus!
