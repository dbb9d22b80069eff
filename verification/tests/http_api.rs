use hs_demo::api::{
    add_symbol, book_levels, book_symbols, fast_path_update, level_fits_order, record_level,
    status_response, symbols_key,
};
use hs_demo::kv::KVStore;

fn to_json<T: serde::Serialize>(value: &T) -> Vec<u8> {
    serde_json::to_vec(value).unwrap()
}

#[test]
fn status_encodes_the_latest_datum() {
    let r = status_response("me".to_string(), Some(vec![0xbe, 0xef]));
    assert_eq!(r.me, "me");
    assert_eq!(r.latest_block_b64, Some("vu8".to_string()));
    assert_eq!(status_response("x".to_string(), None).latest_block_b64, None);
}

#[test]
fn symbols_key_is_fixed() {
    assert_eq!(symbols_key(), b"book::symbols".to_vec());
}

#[test]
fn a_new_symbol_is_added_and_the_list_sorted() {
    let list = vec!["b".to_string(), "a".to_string()];
    assert_eq!(add_symbol(list.clone(), &"a".to_string()), list);
    assert_eq!(add_symbol(list, &"C".to_string()), vec!["C", "a", "b"]);
    assert_eq!(add_symbol(Vec::new(), &"X".to_string()), vec!["X"]);
}

#[test]
fn orders_aggregate_into_price_levels() {
    let levels = vec![(100, 1), (90, 2)];
    assert_eq!(record_level(levels.clone(), 90, 5, true), vec![(100, 1), (90, 7)]);
    assert_eq!(record_level(levels.clone(), 95, 5, true), vec![(100, 1), (95, 5), (90, 2)]);
    assert_eq!(record_level(levels, 95, 5, false), vec![(90, 2), (95, 5), (100, 1)]);
    assert_eq!(record_level(vec![(i64::MIN, 1)], i64::MAX, 1, true), vec![(i64::MAX, 1), (i64::MIN, 1)]);
}

#[test]
fn repeated_prices_keep_one_level_each() {
    let mut levels = Vec::new();
    for (price, position) in [(10, 1), (12, 2), (10, 3), (12, 4), (11, 5)] {
        levels = record_level(levels, price, position, false);
    }
    assert_eq!(levels, vec![(10, 4), (11, 5), (12, 6)]);
}

#[test]
fn a_level_that_would_overflow_is_refused() {
    let levels = vec![(5, u64::MAX - 1)];
    assert!(level_fits_order(&levels, 5, 1));
    assert!(!level_fits_order(&levels, 5, 2));
    assert!(level_fits_order(&levels, 6, u64::MAX));
    let mut kv = KVStore::new();
    let mut wb = hs_demo::kv::WriteBatch::new();
    wb.put(b"book:S:buy".to_vec(), to_json(&levels));
    kv.write(wb);
    assert!(fast_path_update(&kv, &"S".to_string(), &"buy".to_string(), 5, 2).is_none());
}

#[test]
fn a_lone_replica_reads_back_its_book() {
    let mut kv = KVStore::new();
    let s = "BTC".to_string();
    let u = fast_path_update(&kv, &s, &"buy".to_string(), 100_000_000, 3).unwrap();
    kv.write(u.batch);
    let u = fast_path_update(&kv, &s, &"BUY".to_string(), 101_000_000, 2).unwrap();
    kv.write(u.batch);
    let u = fast_path_update(&kv, &s, &"buy".to_string(), 100_000_000, 4).unwrap();
    kv.write(u.batch);
    let u = fast_path_update(&kv, &"ABC".to_string(), &"sell".to_string(), 5, 1).unwrap();
    kv.write(u.batch);
    let symbols = serde_json::from_slice::<Vec<String>>(&kv.get(b"book::symbols").unwrap()).unwrap();
    assert_eq!(symbols, vec!["ABC", "BTC"]);
    let levels = serde_json::from_slice::<Vec<(i64, u64)>>(&kv.get(b"book:BTC:buy").unwrap()).unwrap();
    assert_eq!(levels, vec![(101_000_000, 2), (100_000_000, 7)]);
    assert_eq!(book_levels(&None, &kv.get(b"book:ABC:sell")), vec![(5, 1)]);
}

#[test]
fn the_book_prefers_committed_state() {
    let committed = Some(to_json(&vec!["C".to_string()]));
    let raw = Some(to_json(&vec!["R".to_string()]));
    assert_eq!(book_symbols(&committed, &raw), vec!["C"]);
    assert_eq!(book_symbols(&None, &raw), vec!["R"]);
    assert_eq!(book_symbols(&Some(b"not json".to_vec()), &raw), vec!["R"]);
    assert_eq!(book_symbols(&Some(to_json(&Vec::<String>::new())), &raw), vec!["R"]);
    assert!(book_symbols(&None, &None).is_empty());
    let lc = Some(to_json(&vec![(1, 1)]));
    let lr = Some(to_json(&vec![(2, 2)]));
    assert_eq!(book_levels(&lc, &lr), vec![(1, 1)]);
    assert_eq!(book_levels(&Some(b"[]".to_vec()), &lr), vec![(2, 2)]);
}
