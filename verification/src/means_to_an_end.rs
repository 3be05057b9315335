//! The price store of the running-mean service: timestamped prices are
//! inserted, and a query asks for the mean price over a closed window of
//! timestamps. Messages are nine bytes: a one-byte kind followed by two
//! big-endian signed 32-bit integers.
use vstd::prelude::*;

verus! {

/// One timestamped price, as carried by an insert message.
pub struct AssetPrice {
    pub timestamp: i32,
    pub price: i32,
}

/// A closed window of timestamps, as carried by a query message.
#[derive(Debug)]
pub struct Query {
    pub min_time: i32,
    pub max_time: i32,
}

/// The prices that one client has inserted, in insertion order.
#[derive(Debug)]
pub struct AssetPrices {
    prices: Vec<(i32, i32)>,
}

/// A decoded nine-byte message.
pub enum Request {
    Insert(AssetPrice),
    Query(Query),
    /// A message whose kind byte is neither `I` nor `Q`; it is ignored.
    Unknown,
}

impl AssetPrice {
    pub fn new(timestamp: i32, price: i32) -> (res: AssetPrice)
        ensures
            res.timestamp == timestamp,
            res.price == price,
    {
        AssetPrice { timestamp, price }
    }
}

impl Query {
    pub fn new(min_time: i32, max_time: i32) -> (res: Query)
        ensures
            res.min_time == min_time,
            res.max_time == max_time,
    {
        Query { min_time, max_time }
    }
}

/// `t` lies in the closed window `[min_time, max_time]`.
pub open spec fn in_window(t: i32, min_time: i32, max_time: i32) -> bool {
    min_time <= t <= max_time
}

/// Sum of the prices in `s` whose timestamp lies in the window.
pub open spec fn window_sum(s: Seq<(i32, i32)>, min_time: i32, max_time: i32) -> int
    decreases s.len(),
{
    if s.len() == 0 {
        0
    } else {
        window_sum(s.drop_last(), min_time, max_time) + if in_window(s.last().0, min_time, max_time) {
            s.last().1 as int
        } else {
            0
        }
    }
}

/// Number of entries in `s` whose timestamp lies in the window.
pub open spec fn window_count(s: Seq<(i32, i32)>, min_time: i32, max_time: i32) -> nat
    decreases s.len(),
{
    if s.len() == 0 {
        0
    } else {
        window_count(s.drop_last(), min_time, max_time) + if in_window(s.last().0, min_time, max_time) {
            1nat
        } else {
            0nat
        }
    }
}

/// Integer division that rounds toward zero, for a positive divisor.
pub open spec fn div_toward_zero(a: int, b: int) -> int {
    if a >= 0 {
        a / b
    } else {
        -((-a) / b)
    }
}

/// The mean price over the window, rounded toward zero; zero when the
/// window is empty (`min_time > max_time`) or holds no price.
pub open spec fn mean_spec(s: Seq<(i32, i32)>, min_time: i32, max_time: i32) -> int {
    if min_time > max_time || window_count(s, min_time, max_time) == 0 {
        0
    } else {
        div_toward_zero(window_sum(s, min_time, max_time), window_count(s, min_time, max_time) as int)
    }
}

/// A mean of 32-bit prices is itself a 32-bit value.
proof fn lemma_mean_in_range(sum: int, count: int)
    requires
        count > 0,
        -0x8000_0000 * count <= sum <= 0x7fff_ffff * count,
    ensures
        -0x8000_0000 <= div_toward_zero(sum, count) <= 0x7fff_ffff,
{
    if sum >= 0 {
        assert(sum / count <= 0x7fff_ffff) by (nonlinear_arith)
            requires count > 0, 0 <= sum <= 0x7fff_ffff * count;
        assert(sum / count >= 0) by (nonlinear_arith)
            requires count > 0, 0 <= sum;
    } else {
        assert((-sum) / count <= 0x8000_0000) by (nonlinear_arith)
            requires count > 0, 0 <= -sum <= 0x8000_0000 * count;
        assert((-sum) / count >= 0) by (nonlinear_arith)
            requires count > 0, 0 <= -sum;
    }
}

impl View for AssetPrices {
    type V = Seq<(i32, i32)>;

    closed spec fn view(&self) -> Seq<(i32, i32)> {
        self.prices@
    }
}

impl AssetPrices {
    pub fn new() -> (res: AssetPrices)
        ensures
            res@ == Seq::<(i32, i32)>::empty(),
    {
        AssetPrices { prices: Vec::new() }
    }

    /// Number of stored prices.
    pub fn len(&self) -> (res: usize)
        ensures
            res == self@.len(),
    {
        self.prices.len()
    }

    pub fn insert(&mut self, asset_price: AssetPrice)
        ensures
            final(self)@ == old(self)@.push((asset_price.timestamp, asset_price.price)),
    {
        self.prices.push((asset_price.timestamp, asset_price.price));
    }

    /// Mean price over the query's window, rounded toward zero; zero when
    /// the window is empty or holds no price.
    pub fn find_mean(&self, query: Query) -> (res: i32)
        ensures
            res as int == mean_spec(self@, query.min_time, query.max_time),
    {
        let min_time = query.min_time;
        let max_time = query.max_time;
        if min_time > max_time {
            return 0;
        }
        let mut price: i128 = 0;
        let mut count: usize = 0;
        let n = self.prices.len();
        let mut i: usize = 0;
        while i < n
            invariant
                n == self@.len(),
                i <= n,
                price as int == window_sum(self@.take(i as int), min_time, max_time),
                count as int == window_count(self@.take(i as int), min_time, max_time),
                count <= i,
                -0x8000_0000 * count <= price <= 0x7fff_ffff * count,
            decreases n - i,
        {
            let (timestamp, p) = self.prices[i];
            assert(self@.take(i as int + 1).drop_last() == self@.take(i as int));
            if timestamp >= min_time && timestamp <= max_time {
                price = price + p as i128;
                count = count + 1;
            }
            i = i + 1;
        }
        assert(self@.take(n as int) == self@);
        if count > 0 {
            proof {
                lemma_mean_in_range(price as int, count as int);
            }
            let divisor = count as i128;
            if price >= 0 {
                (price / divisor) as i32
            } else {
                let magnitude: i128 = 0 - price;
                (0 - magnitude / divisor) as i32
            }
        } else {
            0
        }
    }

    /// Applies one decoded message: an insert stores its price and answers
    /// nothing, a query answers the mean over its window, and an unknown
    /// message changes nothing and answers nothing.
    pub fn apply(&mut self, request: Request) -> (res: Option<i32>)
        ensures
            match request {
                Request::Insert(a) => {
                    &&& final(self)@ == old(self)@.push((a.timestamp, a.price))
                    &&& res is None
                },
                Request::Query(q) => {
                    &&& final(self)@ == old(self)@
                    &&& res matches Some(m) && m as int == mean_spec(old(self)@, q.min_time, q.max_time)
                },
                Request::Unknown => {
                    &&& final(self)@ == old(self)@
                    &&& res is None
                },
            },
    {
        match request {
            Request::Insert(a) => {
                self.insert(a);
                None
            },
            Request::Query(q) => Some(self.find_mean(q)),
            Request::Unknown => None,
        }
    }
}


/// The signed 32-bit integer whose two's-complement big-endian bytes are
/// `b0 b1 b2 b3`.
pub open spec fn be_i32_value(b0: u8, b1: u8, b2: u8, b3: u8) -> int {
    let u = b0 * 0x100_0000int + b1 * 0x1_0000int + b2 * 0x100int + b3;
    if u >= 0x8000_0000 {
        u - 0x1_0000_0000
    } else {
        u
    }
}

/// Reads a big-endian two's-complement 32-bit integer.
pub fn i32_from_be_bytes(b0: u8, b1: u8, b2: u8, b3: u8) -> (res: i32)
    ensures
        res as int == be_i32_value(b0, b1, b2, b3),
{
    let u: u32 = (b0 as u32) * 0x100_0000 + (b1 as u32) * 0x1_0000 + (b2 as u32) * 0x100 + b3 as u32;
    if u >= 0x8000_0000 {
        (u as i64 - 0x1_0000_0000) as i32
    } else {
        u as i32
    }
}

/// The big-endian two's-complement bytes of `v`.
pub fn i32_to_be_bytes(v: i32) -> (res: [u8; 4])
    ensures
        be_i32_value(res[0], res[1], res[2], res[3]) == v as int,
{
    let u: u64 = if v < 0 {
        (v as i64 + 0x1_0000_0000) as u64
    } else {
        v as u64
    };
    let q1 = u / 0x100;
    let b3 = (u % 0x100) as u8;
    let q2 = q1 / 0x100;
    let b2 = (q1 % 0x100) as u8;
    let q3 = q2 / 0x100;
    let b1 = (q2 % 0x100) as u8;
    let b0 = q3 as u8;
    assert(u == 0x100 * q1 + b3);
    assert(q1 == 0x100 * q2 + b2);
    assert(q2 == 0x100 * q3 + b1);
    [b0, b1, b2, b3]
}

/// Decodes a nine-byte message: a kind byte (`I` for insert, `Q` for
/// query), then two big-endian signed 32-bit integers: timestamp and
/// price for an insert, the window's bounds for a query.
pub fn decode_request(msg: &[u8; 9]) -> (res: Request)
    ensures
        ({
            let first = be_i32_value(msg[1], msg[2], msg[3], msg[4]);
            let second = be_i32_value(msg[5], msg[6], msg[7], msg[8]);
            if msg[0] == 0x49u8 {
                res matches Request::Insert(a) && a.timestamp == first && a.price == second
            } else if msg[0] == 0x51u8 {
                res matches Request::Query(q) && q.min_time == first && q.max_time == second
            } else {
                res is Unknown
            }
        }),
{
    let first = i32_from_be_bytes(msg[1], msg[2], msg[3], msg[4]);
    let second = i32_from_be_bytes(msg[5], msg[6], msg[7], msg[8]);
    if msg[0] == 0x49u8 {
        Request::Insert(AssetPrice::new(first, second))
    } else if msg[0] == 0x51u8 {
        Request::Query(Query::new(first, second))
    } else {
        Request::Unknown
    }
}

impl AssetPrices {
    /// Handles one nine-byte message and gives the four bytes to send
    /// back, if any: the big-endian mean for a query, nothing otherwise.
    pub fn handle_message(&mut self, msg: &[u8; 9]) -> (res: Option<[u8; 4]>)
        ensures
            ({
                let first = be_i32_value(msg[1], msg[2], msg[3], msg[4]);
                let second = be_i32_value(msg[5], msg[6], msg[7], msg[8]);
                if msg[0] == 0x49u8 {
                    &&& final(self)@ == old(self)@.push((first as i32, second as i32))
                    &&& res is None
                } else if msg[0] == 0x51u8 {
                    &&& final(self)@ == old(self)@
                    &&& res matches Some(b) && be_i32_value(b[0], b[1], b[2], b[3])
                        == mean_spec(old(self)@, first as i32, second as i32)
                } else {
                    &&& final(self)@ == old(self)@
                    &&& res is None
                }
            }),
    {
        let request = decode_request(msg);
        match self.apply(request) {
            Some(mean) => Some(i32_to_be_bytes(mean)),
            None => None,
        }
    }
}


/// A price whose timestamp lies outside a window does not change the mean
/// over that window.
pub proof fn law_mean_ignores_prices_outside_window(
    s: Seq<(i32, i32)>,
    timestamp: i32,
    price: i32,
    min_time: i32,
    max_time: i32,
)
    requires
        !in_window(timestamp, min_time, max_time),
    ensures
        mean_spec(s.push((timestamp, price)), min_time, max_time) == mean_spec(s, min_time, max_time),
{
    assert(s.push((timestamp, price)).drop_last() == s);
}

/// The mean over a window that holds exactly one price is that price.
pub proof fn law_mean_of_single_price(timestamp: i32, price: i32, min_time: i32, max_time: i32)
    requires
        in_window(timestamp, min_time, max_time),
    ensures
        mean_spec(seq![(timestamp, price)], min_time, max_time) == price,
{
    let s = seq![(timestamp, price)];
    assert(s.drop_last() == Seq::<(i32, i32)>::empty());
    assert(s.last() == (timestamp, price));
    assert(window_count(s.drop_last(), min_time, max_time) == 0);
    assert(window_sum(s.drop_last(), min_time, max_time) == 0);
    assert(window_count(s, min_time, max_time) == 1);
    assert(window_sum(s, min_time, max_time) == price);
    if price < 0 {
        assert((-(price as int)) / 1 == -(price as int));
    } else {
        assert((price as int) / 1 == price as int);
    }
}

/// Distinct byte quadruples denote distinct integers, so the bytes of an
/// integer are the only ones that read back as it.
pub proof fn law_be_i32_bytes_unique(a: [u8; 4], b: [u8; 4])
    requires
        be_i32_value(a[0], a[1], a[2], a[3]) == be_i32_value(b[0], b[1], b[2], b[3]),
    ensures
        a == b,
{
    let ua = a[0] * 0x100_0000int + a[1] * 0x1_0000int + a[2] * 0x100int + a[3];
    let ub = b[0] * 0x100_0000int + b[1] * 0x1_0000int + b[2] * 0x100int + b[3];
    assert(ua == ub);
    assert(a[3] == b[3] && a[2] == b[2] && a[1] == b[1] && a[0] == b[0]) by (nonlinear_arith)
        requires
            ua == ub,
            ua == a[0] * 0x100_0000int + a[1] * 0x1_0000int + a[2] * 0x100int + a[3],
            ub == b[0] * 0x100_0000int + b[1] * 0x1_0000int + b[2] * 0x100int + b[3],
            a[0] < 256, a[1] < 256, a[2] < 256, a[3] < 256,
            b[0] < 256, b[1] < 256, b[2] < 256, b[3] < 256;
    assert(a@ =~= b@);
}

/// The order in which two prices arrive does not change any mean.
pub proof fn law_mean_ignores_arrival_order(
    s: Seq<(i32, i32)>,
    a: (i32, i32),
    b: (i32, i32),
    min_time: i32,
    max_time: i32,
)
    ensures
        mean_spec(s.push(a).push(b), min_time, max_time) == mean_spec(s.push(b).push(a), min_time, max_time),
{
    assert(s.push(a).push(b).drop_last() == s.push(a));
    assert(s.push(b).push(a).drop_last() == s.push(b));
    assert(s.push(a).drop_last() == s);
    assert(s.push(b).drop_last() == s);
    // Unfold each sum and count down to `s`.
    let base_sum = window_sum(s, min_time, max_time);
    let base_count = window_count(s, min_time, max_time);
    assert(window_sum(s.push(a), min_time, max_time) == base_sum
        + if in_window(a.0, min_time, max_time) { a.1 as int } else { 0 });
    assert(window_sum(s.push(b), min_time, max_time) == base_sum
        + if in_window(b.0, min_time, max_time) { b.1 as int } else { 0 });
    assert(window_count(s.push(a), min_time, max_time) == base_count
        + if in_window(a.0, min_time, max_time) { 1nat } else { 0nat });
    assert(window_count(s.push(b), min_time, max_time) == base_count
        + if in_window(b.0, min_time, max_time) { 1nat } else { 0nat });
    assert(window_sum(s.push(a).push(b), min_time, max_time) == window_sum(s.push(b).push(a), min_time, max_time));
    assert(window_count(s.push(a).push(b), min_time, max_time) == window_count(s.push(b).push(a), min_time, max_time));
}

/// What one entry adds to the sum of a window.
pub open spec fn window_share(e: (i32, i32), min_time: i32, max_time: i32) -> int {
    if in_window(e.0, min_time, max_time) {
        e.1 as int
    } else {
        0
    }
}

/// What one entry adds to the count of a window.
pub open spec fn window_tally(e: (i32, i32), min_time: i32, max_time: i32) -> nat {
    if in_window(e.0, min_time, max_time) {
        1
    } else {
        0
    }
}

/// Removing one entry takes its share out of the window's sum and count.
proof fn lemma_window_remove(s: Seq<(i32, i32)>, k: int, min_time: i32, max_time: i32)
    requires
        0 <= k < s.len(),
    ensures
        window_sum(s, min_time, max_time) == window_sum(s.remove(k), min_time, max_time)
            + window_share(s[k], min_time, max_time),
        window_count(s, min_time, max_time) == window_count(s.remove(k), min_time, max_time)
            + window_tally(s[k], min_time, max_time),
    decreases s.len(),
{
    if k == s.len() - 1 {
        assert(s.remove(k) == s.drop_last());
    } else {
        lemma_window_remove(s.drop_last(), k, min_time, max_time);
        assert(s.remove(k).drop_last() == s.drop_last().remove(k));
        assert(s.remove(k).last() == s.last());
        assert(s.remove(k).len() > 0);
    }
}

/// Sequences with the same entries, in any order, have the same window
/// sums and counts.
proof fn lemma_window_same_entries(s1: Seq<(i32, i32)>, s2: Seq<(i32, i32)>, min_time: i32, max_time: i32)
    requires
        s1.to_multiset() == s2.to_multiset(),
    ensures
        window_sum(s1, min_time, max_time) == window_sum(s2, min_time, max_time),
        window_count(s1, min_time, max_time) == window_count(s2, min_time, max_time),
    decreases s1.len(),
{
    broadcast use vstd::seq_lib::group_to_multiset_ensures;

    if s1.len() == 0 {
        assert(s2.to_multiset().len() == 0);
        assert(s2.len() == 0);
    } else {
        let x = s1.last();
        assert(s1.drop_last().push(x) == s1);
        assert(s1.to_multiset() == s1.drop_last().to_multiset().insert(x));
        assert(s2.to_multiset().count(x) > 0);
        assert(s2.contains(x));
        let k = choose|k: int| 0 <= k < s2.len() && s2[k] == x;
        assert(s2.remove(k).to_multiset() == s2.to_multiset().remove(x));
        assert(s1.drop_last().to_multiset() =~= s2.remove(k).to_multiset());
        lemma_window_same_entries(s1.drop_last(), s2.remove(k), min_time, max_time);
        lemma_window_remove(s2, k, min_time, max_time);
    }
}

/// Window sums and counts add up over a concatenation.
proof fn lemma_window_concat(s: Seq<(i32, i32)>, t: Seq<(i32, i32)>, min_time: i32, max_time: i32)
    ensures
        window_sum(s + t, min_time, max_time) == window_sum(s, min_time, max_time) + window_sum(t, min_time, max_time),
        window_count(s + t, min_time, max_time) == window_count(s, min_time, max_time) + window_count(t, min_time, max_time),
    decreases t.len(),
{
    if t.len() == 0 {
        assert(s + t == s);
    } else {
        lemma_window_concat(s, t.drop_last(), min_time, max_time);
        assert((s + t).drop_last() == s + t.drop_last());
        assert((s + t).last() == t.last());
    }
}

/// Entries that all lie outside a window add nothing to it.
proof fn lemma_window_outside(t: Seq<(i32, i32)>, min_time: i32, max_time: i32)
    requires
        forall|i: int| 0 <= i < t.len() ==> !in_window(#[trigger] t[i].0, min_time, max_time),
    ensures
        window_sum(t, min_time, max_time) == 0,
        window_count(t, min_time, max_time) == 0,
    decreases t.len(),
{
    if t.len() > 0 {
        assert(!in_window(t[t.len() - 1].0, min_time, max_time));
        assert forall|i: int| 0 <= i < t.drop_last().len() implies !in_window(
            #[trigger] t.drop_last()[i].0,
            min_time,
            max_time,
        ) by {
            assert(t.drop_last()[i] == t[i]);
        }
        lemma_window_outside(t.drop_last(), min_time, max_time);
    }
}

/// The mean over a window depends only on which prices lie in it: storing
/// the same prices in any order, together with any prices whose timestamp
/// lies outside the window, gives the same mean.
pub proof fn law_mean_ignores_order_and_outside_prices(
    a: Seq<(i32, i32)>,
    b: Seq<(i32, i32)>,
    extra: Seq<(i32, i32)>,
    min_time: i32,
    max_time: i32,
)
    requires
        b.to_multiset() == (a + extra).to_multiset(),
        forall|i: int| 0 <= i < extra.len() ==> !in_window(#[trigger] extra[i].0, min_time, max_time),
    ensures
        mean_spec(b, min_time, max_time) == mean_spec(a, min_time, max_time),
{
    lemma_window_same_entries(b, a + extra, min_time, max_time);
    lemma_window_concat(a, extra, min_time, max_time);
    lemma_window_outside(extra, min_time, max_time);
}

} // verus!
