use record_store::forex::ForexDatabase;

fn rates(pairs: &[(&str, u64)]) -> Vec<(String, u64)> {
    pairs.iter().map(|(s, p)| (s.to_string(), *p)).collect()
}

#[test]
fn preload_seeds_default_pairs_at_one_unit() {
    let mut db = ForexDatabase::new();
    db.preload();
    assert_eq!(db.get(&"EURUSD".to_string()).unwrap().price_micros, 1_000_000);
    assert_eq!(db.get(&"USDJPY".to_string()).unwrap().price_micros, 1_000_000);
    assert_eq!(db.get_all().len(), 2);
}

#[test]
fn get_missing_symbol_returns_none() {
    let mut db = ForexDatabase::new();
    db.preload();
    assert!(db.get(&"GBPUSD".to_string()).is_none());
}

#[test]
fn update_overwrites_existing_quote() {
    let mut db = ForexDatabase::new();
    db.preload();
    db.update(&"EURUSD".to_string(), 1_230_000);
    assert_eq!(db.get(&"EURUSD".to_string()).unwrap().price_micros, 1_230_000);
    assert_eq!(db.get_all().len(), 2);
}

#[test]
fn update_absent_symbol_creates_quote() {
    let mut db = ForexDatabase::new();
    db.update(&"GBPUSD".to_string(), 1_300_000);
    let got = db.get(&"GBPUSD".to_string()).expect("upsert must create the quote");
    assert_eq!(got.symbol, "GBPUSD");
    assert_eq!(got.price_micros, 1_300_000);
}

#[test]
fn merge_overwrites_adds_and_leaves_others_untouched() {
    let mut db = ForexDatabase::new();
    db.update(&"EURUSD".to_string(), 1_000_000);
    db.update(&"USDJPY".to_string(), 1_000_000);
    db.merge_rates(&rates(&[("EURUSD", 1_100_000), ("GBPUSD", 1_300_000)]));
    assert_eq!(db.get(&"EURUSD".to_string()).unwrap().price_micros, 1_100_000);
    assert_eq!(db.get(&"GBPUSD".to_string()).unwrap().price_micros, 1_300_000);
    assert_eq!(db.get(&"USDJPY".to_string()).unwrap().price_micros, 1_000_000);
}

#[test]
fn merge_later_entry_for_same_symbol_wins() {
    let mut db = ForexDatabase::new();
    db.merge_rates(&rates(&[("EURUSD", 1_100_000), ("EURUSD", 1_200_000)]));
    assert_eq!(db.get(&"EURUSD".to_string()).unwrap().price_micros, 1_200_000);
    assert_eq!(db.get_all().len(), 1);
}

#[test]
fn merge_empty_batch_changes_nothing() {
    let mut db = ForexDatabase::new();
    db.preload();
    db.merge_rates(&rates(&[]));
    assert_eq!(db.get_all().len(), 2);
    assert_eq!(db.get(&"EURUSD".to_string()).unwrap().price_micros, 1_000_000);
}
