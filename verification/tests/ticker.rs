use hs_demo::ticker::CounterApp;

#[test]
fn ticks_count_up_from_zero() {
    let mut app = CounterApp::new();
    assert_eq!(app.produce_block(), b"tick-0".to_vec());
    assert_eq!(app.produce_block(), b"tick-1".to_vec());
    for _ in 0..8 {
        app.produce_block();
    }
    assert_eq!(app.produce_block(), b"tick-10".to_vec());
    assert_eq!(String::from_utf8(app.produce_block()).unwrap(), "tick-11");
}

#[test]
fn every_block_is_valid() {
    let app = CounterApp::new();
    assert!(app.validate_block(b""));
    assert!(app.validate_block(b"anything"));
    assert!(app.validate_block_for_sync(b"tick-3"));
}

#[test]
fn the_nth_block_carries_tick_n_and_none_repeats() {
    let mut app = CounterApp::new();
    let mut seen = std::collections::HashSet::new();
    for n in 0..500u64 {
        let payload = app.produce_block();
        assert_eq!(payload, format!("tick-{}", n).into_bytes());
        assert!(seen.insert(payload));
    }
}
