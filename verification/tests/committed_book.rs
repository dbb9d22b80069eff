use hs_demo::api::{book_levels, book_symbols, symbols_key};
use hs_demo::book::{block_book_keys, committed_book, place_order_level, BlockOrder};
use hs_demo::orders::{key_buy, key_sell};

fn bo(symbol: &str, side: &str, price_key: i64, position: u64) -> BlockOrder {
    BlockOrder { symbol: symbol.to_string(), side: side.to_string(), price_key, position }
}

fn to_json<T: serde::Serialize>(value: &T) -> Vec<u8> {
    serde_json::to_vec(value).unwrap()
}

fn write_of(writes: &[(Vec<u8>, Vec<u8>)], key: &[u8]) -> Option<Vec<u8>> {
    writes.iter().find(|(k, _)| k.as_slice() == key).map(|(_, v)| v.clone())
}

#[test]
fn a_block_commits_aggregated_levels_and_its_symbols() {
    let orders = vec![
        bo("BTC", "buy", 100_000_000, 1),
        bo("BTC", "buy", 100_000_000, 2),
        bo("BTC", "buy", 90_000_000, 4),
    ];
    let keys = block_book_keys(&orders);
    assert_eq!(keys, vec![key_buy("BTC")]);
    let book = committed_book(&orders, &vec![None], &None).unwrap();
    assert_eq!(book.sides, vec![vec![(100_000_000, 3), (90_000_000, 4)]]);
    assert_eq!(book.symbols, vec!["BTC".to_string()]);
    let levels = write_of(&book.writes, &key_buy("BTC"));
    assert_eq!(book_levels(&levels, &None), vec![(100_000_000, 3), (90_000_000, 4)]);
    let symbols = write_of(&book.writes, &symbols_key());
    assert_eq!(book_symbols(&symbols, &None), vec!["BTC".to_string()]);
    assert_eq!(book.writes.len(), 2);
}

#[test]
fn sides_naming_one_key_share_its_levels() {
    let orders = vec![
        bo("ETH", "Buy", 5, 1),
        bo("ETH", "buy", 5, 2),
        bo("ETH", "sell", 7, 3),
        bo("ETH", "ask", 6, 4),
    ];
    let keys = block_book_keys(&orders);
    assert_eq!(keys, vec![key_buy("ETH"), key_sell("ETH")]);
    let book = committed_book(&orders, &vec![None, None], &None).unwrap();
    assert_eq!(book.sides, vec![vec![(5, 3)], vec![(6, 4), (7, 3)]]);
}

#[test]
fn stored_levels_and_symbols_are_kept_and_extended() {
    let orders = vec![bo("B", "sell", 10, 1), bo("A", "sell", 20, 2), bo("B", "sell", 15, 5)];
    let keys = block_book_keys(&orders);
    assert_eq!(keys, vec![key_sell("B"), key_sell("A")]);
    let stored = vec![Some(to_json(&vec![(10i64, 4u64), (20, 1)])), Some(b"not json".to_vec())];
    let stored_symbols = Some(to_json(&vec!["C".to_string(), "B".to_string()]));
    let book = committed_book(&orders, &stored, &stored_symbols).unwrap();
    assert_eq!(book.sides, vec![vec![(10, 5), (15, 5), (20, 1)], vec![(20, 2)]]);
    assert_eq!(book.symbols, vec!["A".to_string(), "B".to_string(), "C".to_string()]);
    assert_eq!(write_of(&book.writes, &key_sell("A")), Some(to_json(&vec![(20i64, 2u64)])));
}

#[test]
fn an_overflowing_level_commits_nothing() {
    let orders = vec![bo("X", "buy", 1, u64::MAX), bo("X", "buy", 1, 1)];
    assert!(committed_book(&orders, &vec![None], &None).is_none());
    let stored = vec![Some(to_json(&vec![(1i64, u64::MAX - 1)]))];
    assert!(committed_book(&vec![bo("X", "buy", 1, 1)], &stored, &None).is_some());
    assert!(committed_book(&vec![bo("X", "buy", 1, 2)], &stored, &None).is_none());
}

#[test]
fn an_empty_block_writes_nothing() {
    let book = committed_book(&Vec::new(), &Vec::new(), &Some(to_json(&vec!["Z".to_string()]))).unwrap();
    assert!(book.writes.is_empty());
    assert!(book.sides.is_empty());
    assert_eq!(book.symbols, vec!["Z".to_string()]);
}

#[test]
fn a_new_level_is_placed_by_price() {
    assert_eq!(place_order_level(vec![(9, 1), (5, 1)], 7, 2, true), vec![(9, 1), (7, 2), (5, 1)]);
    assert_eq!(place_order_level(vec![(5, 1), (9, 1)], 7, 2, false), vec![(5, 1), (7, 2), (9, 1)]);
    assert_eq!(place_order_level(vec![(5, 1), (9, 1)], 9, 2, false), vec![(5, 1), (9, 3)]);
    assert_eq!(place_order_level(Vec::new(), 3, 1, true), vec![(3, 1)]);
    assert_eq!(place_order_level(vec![(9, 1)], 9, 0, true), vec![(9, 1)]);
}

#[test]
fn the_served_book_shows_committed_orders() {
    let orders = vec![bo("SOL", "buy", 42, 7), bo("ADA", "sell", 3, 1)];
    let keys = block_book_keys(&orders);
    let book = committed_book(&orders, &vec![None; keys.len()], &None).unwrap();
    let committed_symbols = write_of(&book.writes, &symbols_key());
    let symbols = book_symbols(&committed_symbols, &Some(to_json(&vec!["RAW".to_string()])));
    assert_eq!(symbols, vec!["ADA".to_string(), "SOL".to_string()]);
    let sol = hs_demo::api::symbol_book(
        &"SOL".to_string(),
        &write_of(&book.writes, &key_buy("SOL")),
        &Some(to_json(&vec![(1i64, 1u64)])),
        &write_of(&book.writes, &key_sell("SOL")),
        &Some(to_json(&vec![(9i64, 9u64)])),
    );
    assert_eq!(sol.symbol, "SOL");
    assert_eq!(sol.buy, vec![(42, 7)]);
    assert_eq!(sol.sell, vec![(9, 9)]);
}
