use protohackers::means_to_an_end::{
    decode_request, i32_from_be_bytes, i32_to_be_bytes, AssetPrice, AssetPrices, Query, Request,
};

fn message(kind: u8, first: i32, second: i32) -> [u8; 9] {
    let a = first.to_be_bytes();
    let b = second.to_be_bytes();
    [kind, a[0], a[1], a[2], a[3], b[0], b[1], b[2], b[3]]
}

#[test]
fn example_session_gives_mean_101() {
    let mut prices = AssetPrices::new();
    assert_eq!(prices.handle_message(&[0x49, 0x00, 0x00, 0x30, 0x39, 0x00, 0x00, 0x00, 0x65]), None);
    assert_eq!(prices.handle_message(&[0x49, 0x00, 0x00, 0x30, 0x3a, 0x00, 0x00, 0x00, 0x66]), None);
    assert_eq!(prices.handle_message(&[0x49, 0x00, 0x00, 0x30, 0x3b, 0x00, 0x00, 0x00, 0x64]), None);
    assert_eq!(prices.handle_message(&[0x49, 0x00, 0x00, 0xa0, 0x00, 0x00, 0x00, 0x00, 0x05]), None);
    let reply = prices.handle_message(&[0x51, 0x00, 0x00, 0x30, 0x00, 0x00, 0x00, 0x40, 0x00]);
    assert_eq!(reply, Some([0x00, 0x00, 0x00, 0x65]));
}

#[test]
fn mean_rounds_toward_zero() {
    let mut prices = AssetPrices::new();
    prices.insert(AssetPrice::new(1, -3));
    prices.insert(AssetPrice::new(2, -4));
    assert_eq!(prices.find_mean(Query::new(0, 10)), -3);
    let mut positive = AssetPrices::new();
    positive.insert(AssetPrice::new(1, 3));
    positive.insert(AssetPrice::new(2, 4));
    assert_eq!(positive.find_mean(Query::new(1, 2)), 3);
}

#[test]
fn empty_or_inverted_window_gives_zero() {
    let mut prices = AssetPrices::new();
    assert_eq!(prices.find_mean(Query::new(0, 100)), 0);
    prices.insert(AssetPrice::new(50, 7));
    assert_eq!(prices.find_mean(Query::new(100, 0)), 0);
    assert_eq!(prices.find_mean(Query::new(51, 100)), 0);
    assert_eq!(prices.find_mean(Query::new(50, 50)), 7);
}

#[test]
fn window_bounds_are_inclusive() {
    let mut prices = AssetPrices::new();
    prices.insert(AssetPrice::new(10, 100));
    prices.insert(AssetPrice::new(20, 200));
    prices.insert(AssetPrice::new(30, 1000));
    assert_eq!(prices.find_mean(Query::new(10, 20)), 150);
    assert_eq!(prices.find_mean(Query::new(i32::MIN, i32::MAX)), 433);
}

#[test]
fn extreme_prices_do_not_overflow() {
    let mut prices = AssetPrices::new();
    prices.insert(AssetPrice::new(0, i32::MAX));
    prices.insert(AssetPrice::new(1, i32::MAX));
    assert_eq!(prices.find_mean(Query::new(0, 1)), i32::MAX);
    let mut low = AssetPrices::new();
    low.insert(AssetPrice::new(0, i32::MIN));
    low.insert(AssetPrice::new(1, i32::MIN));
    assert_eq!(low.find_mean(Query::new(0, 1)), i32::MIN);
}

#[test]
fn unknown_kind_is_ignored() {
    let mut prices = AssetPrices::new();
    prices.insert(AssetPrice::new(5, 9));
    assert_eq!(prices.handle_message(&message(b'X', 5, 1000)), None);
    assert_eq!(prices.handle_message(&message(b'Q', 0, 10)), Some(9i32.to_be_bytes()));
}

#[test]
fn query_reply_is_big_endian_negative() {
    let mut prices = AssetPrices::new();
    prices.handle_message(&message(b'I', -100, -5));
    assert_eq!(prices.handle_message(&message(b'Q', -200, 0)), Some([0xff, 0xff, 0xff, 0xfb]));
}

#[test]
fn big_endian_conversions() {
    assert_eq!(i32_from_be_bytes(0x80, 0, 0, 0), i32::MIN);
    assert_eq!(i32_from_be_bytes(0xff, 0xff, 0xff, 0xff), -1);
    assert_eq!(i32_from_be_bytes(0x00, 0x00, 0x30, 0x39), 12345);
    assert_eq!(i32_to_be_bytes(-1), [0xff, 0xff, 0xff, 0xff]);
    assert_eq!(i32_to_be_bytes(12345), [0x00, 0x00, 0x30, 0x39]);
    assert_eq!(i32_to_be_bytes(i32::MIN), [0x80, 0, 0, 0]);
    for v in [0, 1, -1, 255, 256, -256, i32::MAX, i32::MIN, 123456789, -987654321] {
        let b = i32_to_be_bytes(v);
        assert_eq!(b, v.to_be_bytes());
        assert_eq!(i32_from_be_bytes(b[0], b[1], b[2], b[3]), v);
    }
}

#[test]
fn decoding_requests() {
    match decode_request(&message(b'I', 12345, -7)) {
        Request::Insert(a) => {
            assert_eq!(a.timestamp, 12345);
            assert_eq!(a.price, -7);
        },
        _ => panic!("expected an insert"),
    }
    match decode_request(&message(b'Q', -1, 2)) {
        Request::Query(q) => {
            assert_eq!(q.min_time, -1);
            assert_eq!(q.max_time, 2);
        },
        _ => panic!("expected a query"),
    }
    assert!(matches!(decode_request(&message(b'q', 1, 2)), Request::Unknown));
}

#[test]
fn arrival_order_does_not_matter() {
    let mut a = AssetPrices::new();
    a.insert(AssetPrice::new(1, 10));
    a.insert(AssetPrice::new(2, 21));
    let mut b = AssetPrices::new();
    b.insert(AssetPrice::new(2, 21));
    b.insert(AssetPrice::new(1, 10));
    assert_eq!(a.find_mean(Query::new(0, 5)), b.find_mean(Query::new(0, 5)));
    assert_eq!(a.find_mean(Query::new(0, 5)), 15);
}

#[test]
fn apply_query_leaves_prices() {
    let mut prices = AssetPrices::new();
    assert_eq!(prices.apply(Request::Insert(AssetPrice::new(3, 4))), None);
    assert_eq!(prices.apply(Request::Query(Query::new(3, 3))), Some(4));
    assert_eq!(prices.apply(Request::Unknown), None);
    assert_eq!(prices.apply(Request::Query(Query::new(3, 3))), Some(4));
}

#[test]
fn price_outside_window_changes_nothing() {
    let mut prices = AssetPrices::new();
    prices.insert(AssetPrice::new(10, 40));
    prices.insert(AssetPrice::new(11, 50));
    let before = prices.find_mean(Query::new(10, 11));
    prices.insert(AssetPrice::new(12, 1_000_000));
    prices.insert(AssetPrice::new(9, -1_000_000));
    assert_eq!(prices.find_mean(Query::new(10, 11)), before);
    assert_eq!(before, 45);
    assert_eq!(prices.len(), 4);
}

#[test]
fn many_prices_outside_window_are_fine() {
    let mut prices = AssetPrices::new();
    for t in 0..10_000 {
        prices.insert(AssetPrice::new(t, i32::MAX));
    }
    prices.insert(AssetPrice::new(-5, -2));
    assert_eq!(prices.find_mean(Query::new(i32::MIN, -1)), -2);
    assert_eq!(prices.find_mean(Query::new(0, 9_999)), i32::MAX);
}

#[test]
fn order_and_outside_prices_do_not_matter() {
    let mut a = AssetPrices::new();
    for (t, p) in [(1, 10), (2, 20), (3, 31)] {
        a.insert(AssetPrice::new(t, p));
    }
    let mut b = AssetPrices::new();
    for (t, p) in [(100, 5), (3, 31), (-7, 1000), (1, 10), (2, 20), (4, -9)] {
        b.insert(AssetPrice::new(t, p));
    }
    assert_eq!(a.find_mean(Query::new(1, 3)), b.find_mean(Query::new(1, 3)));
    assert_eq!(a.find_mean(Query::new(1, 3)), 20);
}
