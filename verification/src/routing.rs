use vstd::prelude::*;
use vstd::string::{StringExecFns, StringSliceAdditionalSpecFns};

verus! {

/// The handler an inbound routing key selects. Keys have the shape
/// `order.<type>.shard_<id>`; anything else is unknown and the message
/// is logged and acknowledged without effect.
#[derive(Debug, PartialEq, Eq, Structural, Clone, Copy)]
pub enum OrderType {
    MarketBuy,
    LimitSell,
    LimitSellCancellation,
    Unknown,
}

/// Position of the first dot in the key at or after `from`, or the
/// key's length when none follows.
pub open spec fn dot_or_end(key: Seq<u8>, from: int) -> int
    decreases key.len() - from,
{
    if from < 0 || from >= key.len() {
        key.len() as int
    } else if key[from] == ('.' as u8) {
        from
    } else {
        dot_or_end(key, from + 1)
    }
}

/// The order-type field of a routing key: the bytes between its first
/// and second dot, empty when the key has no first dot.
pub open spec fn type_segment(key: Seq<u8>) -> Seq<u8> {
    let d1 = dot_or_end(key, 0);
    if d1 >= key.len() {
        Seq::empty()
    } else {
        key.subrange(d1 + 1, dot_or_end(key, d1 + 1))
    }
}

pub open spec fn market_buy_bytes() -> Seq<u8> {
    seq![
        'm' as u8,
        'a' as u8,
        'r' as u8,
        'k' as u8,
        'e' as u8,
        't' as u8,
        '_' as u8,
        'b' as u8,
        'u' as u8,
        'y' as u8,
    ]
}

pub open spec fn limit_sell_bytes() -> Seq<u8> {
    seq![
        'l' as u8,
        'i' as u8,
        'm' as u8,
        'i' as u8,
        't' as u8,
        '_' as u8,
        's' as u8,
        'e' as u8,
        'l' as u8,
        'l' as u8,
    ]
}

pub open spec fn cancellation_bytes() -> Seq<u8> {
    limit_sell_bytes() + seq![
        '_' as u8,
        'c' as u8,
        'a' as u8,
        'n' as u8,
        'c' as u8,
        'e' as u8,
        'l' as u8,
        'l' as u8,
        'a' as u8,
        't' as u8,
        'i' as u8,
        'o' as u8,
        'n' as u8,
    ]
}

/// Which handler a routing key selects, by its order-type field.
pub open spec fn order_type_spec(key: Seq<u8>) -> OrderType {
    let seg = type_segment(key);
    if seg == market_buy_bytes() {
        OrderType::MarketBuy
    } else if seg == limit_sell_bytes() {
        OrderType::LimitSell
    } else if seg == cancellation_bytes() {
        OrderType::LimitSellCancellation
    } else {
        OrderType::Unknown
    }
}

/// The first dot of the key at or after `from`, or the key's end.
fn find_dot(bytes: &[u8], from: usize) -> (r: usize)
    requires
        from <= bytes@.len(),
    ensures
        r == dot_or_end(bytes@, from as int),
        from <= r <= bytes@.len(),
        r < bytes@.len() ==> bytes@[r as int] == ('.' as u8),
    decreases bytes@.len() - from,
{
    let n = bytes.len();
    let mut i: usize = from;
    while i < n
        invariant
            n == bytes@.len(),
            from <= i <= n,
            dot_or_end(bytes@, from as int) == dot_or_end(bytes@, i as int),
        decreases n - i,
    {
        if bytes[i] == ('.' as u8) {
            return i;
        }
        i += 1;
    }
    n
}

/// The pattern bytes of one order type, for the field comparison.
fn pattern_for(t: OrderType) -> (r: Vec<u8>)
    ensures
        t is MarketBuy ==> r@ == market_buy_bytes(),
        t is LimitSell ==> r@ == limit_sell_bytes(),
        t is LimitSellCancellation ==> r@ == cancellation_bytes(),
{
    let mut r: Vec<u8> = Vec::new();
    match t {
        OrderType::MarketBuy => {
            r.push('m' as u8);
            r.push('a' as u8);
            r.push('r' as u8);
            r.push('k' as u8);
            r.push('e' as u8);
            r.push('t' as u8);
            r.push('_' as u8);
            r.push('b' as u8);
            r.push('u' as u8);
            r.push('y' as u8);
            proof {
                assert(r@ =~= market_buy_bytes());
            }
        },
        OrderType::LimitSell | OrderType::LimitSellCancellation => {
            r.push('l' as u8);
            r.push('i' as u8);
            r.push('m' as u8);
            r.push('i' as u8);
            r.push('t' as u8);
            r.push('_' as u8);
            r.push('s' as u8);
            r.push('e' as u8);
            r.push('l' as u8);
            r.push('l' as u8);
            proof {
                assert(r@ =~= limit_sell_bytes());
            }
            if let OrderType::LimitSellCancellation = t {
                r.push('_' as u8);
                r.push('c' as u8);
                r.push('a' as u8);
                r.push('n' as u8);
                r.push('c' as u8);
                r.push('e' as u8);
                r.push('l' as u8);
                r.push('l' as u8);
                r.push('a' as u8);
                r.push('t' as u8);
                r.push('i' as u8);
                r.push('o' as u8);
                r.push('n' as u8);
                proof {
                    assert(r@ =~= cancellation_bytes());
                }
            }
        },
        OrderType::Unknown => {},
    }
    r
}

/// Does the key's slice `[start, end)` spell exactly the pattern?
fn segment_is(bytes: &[u8], start: usize, end: usize, pat: &Vec<u8>) -> (r: bool)
    requires
        start <= end <= bytes@.len(),
    ensures
        r == (bytes@.subrange(start as int, end as int) == pat@),
{
    let ghost seg = bytes@.subrange(start as int, end as int);
    if end - start != pat.len() {
        proof {
            assert(seg.len() == end - start);
            if seg == pat@ {
                assert(false);
            }
        }
        return false;
    }
    let m = pat.len();
    let mut j: usize = 0;
    while j < m
        invariant
            seg == bytes@.subrange(start as int, end as int),
            start <= end <= bytes@.len(),
            m == pat@.len(),
            end - start == m,
            0 <= j <= m,
            forall|x: int| 0 <= x < j ==> seg[x] == pat@[x],
        decreases m - j,
    {
        if bytes[start + j] != pat[j] {
            proof {
                assert(seg[j as int] == bytes@[start + j as int]);
                if seg == pat@ {
                    assert(false);
                }
            }
            return false;
        }
        proof {
            assert(seg[j as int] == bytes@[start + j as int]);
        }
        j += 1;
    }
    proof {
        assert(seg =~= pat@);
    }
    true
}

/// Select the handler for an inbound routing key of the shape
/// `order.<type>.shard_<id>`: the field between the first two dots
/// picks market buy, limit sell or cancellation; any other key is
/// unknown.
pub fn parse_order_type(routing_key: &str) -> (t: OrderType)
    ensures
        t == order_type_spec(routing_key.spec_bytes()),
{
    let bytes: &[u8] = routing_key.as_bytes();
    let n = bytes.len();
    let d1 = find_dot(bytes, 0);
    if d1 == n {
        proof {
            assert(type_segment(bytes@) == Seq::<u8>::empty());
            assert(market_buy_bytes().len() == 10);
            assert(limit_sell_bytes().len() == 10);
            assert(cancellation_bytes().len() == 23);
        }
        return OrderType::Unknown;
    }
    let d2 = find_dot(bytes, d1 + 1);
    let ghost seg = type_segment(bytes@);
    proof {
        assert(seg == bytes@.subrange(d1 + 1, d2 as int));
    }
    let mb = pattern_for(OrderType::MarketBuy);
    if segment_is(bytes, d1 + 1, d2, &mb) {
        return OrderType::MarketBuy;
    }
    let ls = pattern_for(OrderType::LimitSell);
    if segment_is(bytes, d1 + 1, d2, &ls) {
        return OrderType::LimitSell;
    }
    let ca = pattern_for(OrderType::LimitSellCancellation);
    if segment_is(bytes, d1 + 1, d2, &ca) {
        return OrderType::LimitSellCancellation;
    }
    OrderType::Unknown
}

/// The outbound event kinds of the order-update exchange.
#[derive(Debug, PartialEq, Eq, Structural, Clone, Copy)]
pub enum OrderUpdateKind {
    BuyCompleted,
    SaleUpdate,
    Cancelled,
}

/// The routing key of an outbound order event: `order.<kind>`.
pub fn order_update_routing_key(kind: OrderUpdateKind) -> (r: String)
    ensures
        kind is BuyCompleted ==> r@ == "order.buy_completed"@,
        kind is SaleUpdate ==> r@ == "order.sale_update"@,
        kind is Cancelled ==> r@ == "order.cancelled"@,
{
    match kind {
        OrderUpdateKind::BuyCompleted => "order.buy_completed".to_owned(),
        OrderUpdateKind::SaleUpdate => "order.sale_update".to_owned(),
        OrderUpdateKind::Cancelled => "order.cancelled".to_owned(),
    }
}

/// The routing key of an outbound price snapshot: `stock.price.<id>`.
pub fn price_routing_key(stock_id: &String) -> (r: String)
    ensures
        r@ == "stock.price."@ + stock_id@,
{
    let mut key = "stock.price.".to_owned();
    key.append(stock_id.as_str());
    key
}

/// Decimal digits of a number, most significant first; empty for zero.
pub open spec fn dec_bytes(n: int) -> Seq<u8>
    decreases n,
{
    if n <= 0 {
        Seq::empty()
    } else {
        dec_bytes(n / 10).push(((('0' as u8) as int) + n % 10) as u8)
    }
}

/// The decimal spelling of a number: its digits, or "0".
pub open spec fn dec_rep(n: int) -> Seq<u8> {
    if n == 0 {
        seq!['0' as u8]
    } else {
        dec_bytes(n)
    }
}

/// Append the decimal digits of `n`, most significant first.
fn push_dec_digits(out: &mut Vec<u8>, n: u32)
    ensures
        final(out)@ == old(out)@ + dec_bytes(n as int),
    decreases n,
{
    if n > 0 {
        push_dec_digits(out, n / 10);
        let d: u8 = ('0' as u8) + ((n % 10) as u8);
        out.push(d);
        proof {
            assert(out@ =~= old(out)@ + dec_bytes(n as int));
        }
    } else {
        proof {
            assert(out@ =~= old(out)@ + dec_bytes(0));
        }
    }
}

/// Append the decimal spelling of `n`.
fn push_dec(out: &mut Vec<u8>, n: u32)
    ensures
        final(out)@ == old(out)@ + dec_rep(n as int),
{
    if n == 0 {
        out.push('0' as u8);
        proof {
            assert(out@ =~= old(out)@ + dec_rep(0));
        }
    } else {
        push_dec_digits(out, n);
    }
}

/// The suffix naming a shard: `shard_<id>` in decimal.
pub open spec fn shard_suffix_bytes(shard_id: int) -> Seq<u8> {
    seq!['s' as u8, 'h' as u8, 'a' as u8, 'r' as u8, 'd' as u8, '_' as u8] + dec_rep(shard_id)
}

/// The bytes naming one order type on the wire.
pub open spec fn type_bytes(t: OrderType) -> Seq<u8> {
    match t {
        OrderType::MarketBuy => market_buy_bytes(),
        OrderType::LimitSell => limit_sell_bytes(),
        OrderType::LimitSellCancellation => cancellation_bytes(),
        OrderType::Unknown => Seq::empty(),
    }
}

/// The inbound binding key of one order type for one shard:
/// `order.<type>.shard_<id>`.
pub open spec fn inbound_key_bytes(t: OrderType, shard_id: int) -> Seq<u8> {
    seq!['o' as u8, 'r' as u8, 'd' as u8, 'e' as u8, 'r' as u8, '.' as u8] + type_bytes(t) + seq![
        '.' as u8,
    ] + shard_suffix_bytes(shard_id)
}

/// The shard's queue name for one order type: `market_buy_queue_shard_<id>`,
/// `limit_sell_queue_shard_<id>` or `cancel_sell_queue_shard_<id>`.
pub open spec fn queue_name_bytes(t: OrderType, shard_id: int) -> Seq<u8> {
    (match t {
        OrderType::MarketBuy => market_buy_bytes(),
        OrderType::LimitSell => limit_sell_bytes(),
        OrderType::LimitSellCancellation => seq![
            'c' as u8,
            'a' as u8,
            'n' as u8,
            'c' as u8,
            'e' as u8,
            'l' as u8,
            '_' as u8,
            's' as u8,
            'e' as u8,
            'l' as u8,
            'l' as u8,
        ],
        OrderType::Unknown => Seq::empty(),
    }) + seq!['_' as u8, 'q' as u8, 'u' as u8, 'e' as u8, 'u' as u8, 'e' as u8, '_' as u8]
        + shard_suffix_bytes(shard_id)
}

/// Build the inbound binding key `order.<type>.shard_<id>` for this
/// shard, as UTF-8 bytes.
pub fn inbound_binding_key(t: OrderType, shard_id: u32) -> (r: Vec<u8>)
    requires
        !(t is Unknown),
    ensures
        r@ == inbound_key_bytes(t, shard_id as int),
{
    let mut out: Vec<u8> = Vec::new();
    out.push('o' as u8);
    out.push('r' as u8);
    out.push('d' as u8);
    out.push('e' as u8);
    out.push('r' as u8);
    out.push('.' as u8);
    let ghost head = out@;
    proof {
        assert(head =~= seq![
            'o' as u8,
            'r' as u8,
            'd' as u8,
            'e' as u8,
            'r' as u8,
            '.' as u8,
        ]);
    }
    let pat = pattern_for(t);
    let mut i: usize = 0;
    let m = pat.len();
    while i < m
        invariant
            head == seq!['o' as u8, 'r' as u8, 'd' as u8, 'e' as u8, 'r' as u8, '.' as u8],
            m == pat@.len(),
            0 <= i <= m,
            out@ == head + pat@.take(i as int),
        decreases m - i,
    {
        let b = pat[i];
        out.push(b);
        proof {
            assert(out@ =~= head + pat@.take(i as int + 1));
        }
        i += 1;
    }
    proof {
        assert(pat@.take(m as int) =~= pat@);
    }
    out.push('.' as u8);
    out.push('s' as u8);
    out.push('h' as u8);
    out.push('a' as u8);
    out.push('r' as u8);
    out.push('d' as u8);
    out.push('_' as u8);
    push_dec(&mut out, shard_id);
    proof {
        assert(pat@ == type_bytes(t));
        assert(out@ =~= inbound_key_bytes(t, shard_id as int));
    }
    out
}

/// Build the shard's queue name for one order type, as UTF-8 bytes.
pub fn shard_queue_name(t: OrderType, shard_id: u32) -> (r: Vec<u8>)
    requires
        !(t is Unknown),
    ensures
        r@ == queue_name_bytes(t, shard_id as int),
{
    let mut out: Vec<u8> = Vec::new();
    match t {
        OrderType::MarketBuy | OrderType::LimitSell => {
            let pat = pattern_for(t);
            let m = pat.len();
            let mut i: usize = 0;
            while i < m
                invariant
                    m == pat@.len(),
                    0 <= i <= m,
                    out@ == pat@.take(i as int),
                decreases m - i,
            {
                let b = pat[i];
                out.push(b);
                proof {
                    assert(out@ =~= pat@.take(i as int + 1));
                }
                i += 1;
            }
            proof {
                assert(pat@.take(m as int) =~= pat@);
            }
        },
        _ => {
            out.push('c' as u8);
            out.push('a' as u8);
            out.push('n' as u8);
            out.push('c' as u8);
            out.push('e' as u8);
            out.push('l' as u8);
            out.push('_' as u8);
            out.push('s' as u8);
            out.push('e' as u8);
            out.push('l' as u8);
            out.push('l' as u8);
        },
    }
    out.push('_' as u8);
    out.push('q' as u8);
    out.push('u' as u8);
    out.push('e' as u8);
    out.push('u' as u8);
    out.push('e' as u8);
    out.push('_' as u8);
    out.push('s' as u8);
    out.push('h' as u8);
    out.push('a' as u8);
    out.push('r' as u8);
    out.push('d' as u8);
    out.push('_' as u8);
    push_dec(&mut out, shard_id);
    proof {
        assert(out@ =~= queue_name_bytes(t, shard_id as int));
    }
    out
}

} // verus!
