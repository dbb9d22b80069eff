use hs_demo::orders::{
    is_buy, key_buy, key_sell, orders_prices_comparable,
    price_bits_is_nan, price_rank_of, side_key, sort_orders_by_price, Order,
};

fn order(id: u128, symbol: &str, price: f64, side: &str, position: u64) -> Order {
    Order { id, symbol: symbol.to_string(), price_bits: price.to_bits(), side: side.to_string(), position }
}

fn ids(orders: &[Order]) -> Vec<u128> {
    orders.iter().map(|o| o.id).collect()
}

#[test]
fn book_keys_follow_the_symbol() {
    assert_eq!(key_buy("BTC"), b"book:BTC:buy".to_vec());
    assert_eq!(key_sell("BTC"), b"book:BTC:sell".to_vec());
    assert_eq!(key_buy(""), b"book::buy".to_vec());
    assert_eq!(key_sell("ÉTH"), "book:ÉTH:sell".as_bytes().to_vec());
}

#[test]
fn buy_side_ignores_ascii_case_only() {
    assert!(is_buy("buy"));
    assert!(is_buy("BUY"));
    assert!(is_buy("bUy"));
    assert!(!is_buy("sell"));
    assert!(!is_buy("buy "));
    assert!(!is_buy("bu"));
    assert!(!is_buy(""));
    assert_eq!(side_key("X", "Buy"), b"book:X:buy".to_vec());
    assert_eq!(side_key("X", "ask"), b"book:X:sell".to_vec());
}

#[test]
fn price_ranks_order_as_doubles_do() {
    let prices = [f64::NEG_INFINITY, -1e300, -2.5, -1.0, -1e-300, -0.0, 0.0, 1e-300, 1.0, 2.5, 1e300, f64::INFINITY];
    for a in prices {
        for b in prices {
            let (ra, rb) = (price_rank_of(a.to_bits()), price_rank_of(b.to_bits()));
            assert_eq!(a.partial_cmp(&b).unwrap(), ra.cmp(&rb), "{a} vs {b}");
        }
    }
    assert_eq!(price_rank_of(0.0f64.to_bits()), 0);
    assert_eq!(price_rank_of((-0.0f64).to_bits()), 0);
}

#[test]
fn nan_prices_are_detected() {
    assert!(price_bits_is_nan(f64::NAN.to_bits()));
    assert!(price_bits_is_nan((-f64::NAN).to_bits()));
    assert!(!price_bits_is_nan(f64::INFINITY.to_bits()));
    assert!(!price_bits_is_nan(1.0f64.to_bits()));
    let one_nan = vec![order(1, "A", f64::NAN, "buy", 1)];
    assert!(orders_prices_comparable(&one_nan));
    let two = vec![order(1, "A", f64::NAN, "buy", 1), order(2, "A", 1.0, "buy", 1)];
    assert!(!orders_prices_comparable(&two));
}

#[test]
fn buy_side_sorts_highest_price_first_stably() {
    let mut orders = vec![
        order(1, "A", 10.0, "buy", 1),
        order(2, "A", 12.5, "buy", 1),
        order(3, "A", 10.0, "buy", 1),
        order(4, "A", 9.0, "buy", 1),
        order(5, "A", 12.5, "buy", 1),
    ];
    sort_orders_by_price(&mut orders, "BUY");
    assert_eq!(ids(&orders), vec![2, 5, 1, 3, 4]);
}

#[test]
fn sell_side_sorts_lowest_price_first_stably() {
    let mut orders = vec![
        order(1, "A", 10.0, "sell", 1),
        order(2, "A", -3.0, "sell", 1),
        order(3, "A", 10.0, "sell", 1),
        order(4, "A", 0.0, "sell", 1),
        order(5, "A", -0.0, "sell", 1),
    ];
    sort_orders_by_price(&mut orders, "sell");
    assert_eq!(ids(&orders), vec![2, 4, 5, 1, 3]);
    let mut reference: Vec<Order> = vec![
        order(1, "A", 10.0, "sell", 1),
        order(2, "A", -3.0, "sell", 1),
        order(3, "A", 10.0, "sell", 1),
        order(4, "A", 0.0, "sell", 1),
        order(5, "A", -0.0, "sell", 1),
    ];
    reference.sort_by(|a, b| f64::from_bits(a.price_bits).partial_cmp(&f64::from_bits(b.price_bits)).unwrap());
    assert_eq!(ids(&orders), ids(&reference));
}

#[test]
fn price_sort_agrees_with_a_stable_sort_of_doubles() {
    let prices = [3.0, -1.0, 3.0, 0.5, -0.0, 7.25, 0.0, 0.5, -1.0, 100.0];
    let make = || -> Vec<Order> {
        prices.iter().enumerate().map(|(i, p)| order(i as u128, "S", *p, "x", 1)).collect()
    };
    let mut ours = make();
    sort_orders_by_price(&mut ours, "Buy");
    let mut reference = make();
    reference.sort_by(|a, b| f64::from_bits(b.price_bits).partial_cmp(&f64::from_bits(a.price_bits)).unwrap());
    assert_eq!(ids(&ours), ids(&reference));
    let mut ours = make();
    sort_orders_by_price(&mut ours, "ask");
    let mut reference = make();
    reference.sort_by(|a, b| f64::from_bits(a.price_bits).partial_cmp(&f64::from_bits(b.price_bits)).unwrap());
    assert_eq!(ids(&ours), ids(&reference));
}
