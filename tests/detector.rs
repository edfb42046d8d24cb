use triangle::catalog::{get_pairs, CatalogError, SymbolInfo};
use triangle::decimal::parse_fixed;
use triangle::ticker_cache::TickerCache;
use triangle::trading_pair::TradingPair;
use triangle::tri_pair::{
    asks_ready, derive_tri_pairs, find_coin_tri_pairs, to_tri_angle_symbol, vec_has_coin, Side, Ticker, TriPair,
};
use triangle::triangle::{FeedError, TriAngleArb};

fn pair(idx: u32, base: &str, quote: &str) -> TradingPair {
    TradingPair::new(idx, format!("{}{}", base, quote), base.to_string(), quote.to_string(), 0, 99_900_000)
}

fn bridges() -> Vec<String> {
    vec!["BTC".to_string(), "USDT".to_string()]
}

fn ada_catalog() -> Vec<TradingPair> {
    vec![pair(1, "ADA", "USDT"), pair(2, "ADA", "BTC"), pair(3, "BTC", "USDT")]
}

fn three_coin_catalog() -> Vec<TradingPair> {
    vec![
        pair(1, "ADA", "USDT"),
        pair(2, "ADA", "BTC"),
        pair(3, "ETH", "USDT"),
        pair(4, "ETH", "BTC"),
        pair(5, "XRP", "USDT"),
        pair(6, "XRP", "BTC"),
        pair(7, "BTC", "USDT"),
    ]
}

fn quote(idx: u32, ask: u64, ask_qty: u64, bid: u64, bid_qty: u64) -> Ticker {
    Ticker { idx, ba: [ask, ask_qty], bb: [bid, bid_qty] }
}

#[test]
fn ada_scenario_gives_one_triangle() {
    let pairs = ada_catalog();
    let tris = derive_tri_pairs(&pairs, &bridges(), None, None);
    assert_eq!(tris.len(), 1);
    let t = &tris[0];
    assert_eq!(t.coin, "ADA");
    assert_eq!(t.dirs, [Side::SideBuy, Side::SideSell, Side::SideSell]);
    assert_eq!(t.pairs, [1, 2, 3]);
    assert_eq!(t.name, "ADA-USDT-BTC");
    assert_eq!(t.pairs_name, ["ADA/USDT".to_string(), "ADA/BTC".to_string(), "BTC/USDT".to_string()]);
}

#[test]
fn bridge_on_the_base_side_buys_the_last_leg() {
    let pairs = vec![pair(1, "ADA", "BTC"), pair(2, "ADA", "USDT"), pair(3, "BTC", "USDT")];
    let tris = derive_tri_pairs(&pairs, &bridges(), None, None);
    assert_eq!(tris.len(), 1);
    assert_eq!(tris[0].dirs, [Side::SideBuy, Side::SideSell, Side::SideBuy]);
    assert_eq!(tris[0].name, "ADA-BTC-USDT");
    assert_eq!(tris[0].pairs, [1, 2, 3]);
}

#[test]
fn triangle_new_names_the_cycle() {
    let a = pair(1, "ETH", "USDT");
    let b = pair(2, "ETH", "BTC");
    let c = pair(3, "BTC", "USDT");
    let t = TriPair::new("ETH".to_string(), vec![&a, &b, &c]);
    assert_eq!(t.name, "ETH-USDT-BTC");
    assert_eq!(t.coin, "ETH");
}

#[test]
fn derived_triangles_have_distinct_ids_and_two_coin_legs() {
    let pairs = three_coin_catalog();
    let tris = derive_tri_pairs(&pairs, &bridges(), None, None);
    assert_eq!(tris.len(), 3);
    for t in &tris {
        let [a, b, c] = t.pairs;
        assert!(a != b && a != c && b != c);
        let holding = t
            .pairs
            .iter()
            .filter(|id| {
                let p = &pairs[(**id - 1) as usize];
                p.has_asset(t.coin.clone())
            })
            .count();
        assert_eq!(holding, 2);
    }
}

fn keys(tris: &[TriPair]) -> Vec<(String, [u32; 3])> {
    let mut v: Vec<(String, [u32; 3])> = tris
        .iter()
        .map(|t| {
            let mut ids = t.pairs;
            ids.sort();
            (t.coin.clone(), ids)
        })
        .collect();
    v.sort();
    v
}

#[test]
fn derivation_ignores_input_order() {
    let pairs = three_coin_catalog();
    let mut reordered = three_coin_catalog();
    reordered.reverse();
    let rev_bridges = vec!["USDT".to_string(), "BTC".to_string()];
    let a = derive_tri_pairs(&pairs, &bridges(), None, None);
    let b = derive_tri_pairs(&reordered, &rev_bridges, None, None);
    assert_eq!(keys(&a), keys(&b));
    assert_eq!(keys(&a).len(), 3);
}

#[test]
fn allow_and_deny_lists_filter_coins() {
    let pairs = three_coin_catalog();
    let only_eth = derive_tri_pairs(&pairs, &bridges(), Some(vec!["ETH".to_string()]), None);
    assert_eq!(only_eth.len(), 1);
    assert_eq!(only_eth[0].coin, "ETH");
    let no_eth = derive_tri_pairs(&pairs, &bridges(), None, Some(vec!["ETH".to_string()]));
    assert_eq!(no_eth.len(), 2);
    assert!(no_eth.iter().all(|t| t.coin != "ETH"));
    let both = derive_tri_pairs(&pairs, &bridges(), Some(vec!["ETH".to_string()]), Some(vec!["ETH".to_string()]));
    assert!(both.is_empty());
}

#[test]
fn coin_without_bridge_has_no_triangle() {
    let pairs = vec![pair(1, "ADA", "USDT"), pair(2, "ADA", "ETH"), pair(3, "BTC", "USDT")];
    assert!(derive_tri_pairs(&pairs, &bridges(), None, None).is_empty());
    assert!(find_coin_tri_pairs("ADA", &pairs, &vec![2]).is_none());
}

#[test]
fn find_coin_uses_listed_bridges() {
    let pairs = ada_catalog();
    let found = find_coin_tri_pairs("ADA", &pairs, &vec![2]).unwrap();
    assert_eq!(found.len(), 1);
    assert_eq!(found[0].pairs, [1, 2, 3]);
    assert!(find_coin_tri_pairs("ADA", &pairs, &vec![]).is_none());
}

#[test]
fn vec_has_coin_cases() {
    let coin = "ADA".to_string();
    assert!(!vec_has_coin(&None, &coin));
    assert!(vec_has_coin(&Some(vec!["BTC".to_string(), "ADA".to_string()]), &coin));
    assert!(!vec_has_coin(&Some(vec!["BTC".to_string()]), &coin));
}

#[test]
fn every_triangle_sits_in_three_buckets() {
    let pairs = three_coin_catalog();
    let tris = derive_tri_pairs(&pairs, &bridges(), None, None);
    let index = to_tri_angle_symbol(&tris, pairs.len());
    assert_eq!(index.len(), 7);
    for t in 0..tris.len() {
        let n = index.iter().filter(|b| b.contains(&t)).count();
        assert_eq!(n, 3);
    }
    // the bridge BTC/USDT (id 7) is in every triangle
    assert_eq!(index[6], vec![0, 1, 2]);
}

#[test]
fn cold_start_with_zero_timeout_runs_at_once() {
    let mut arb = TriAngleArb::new(three_coin_catalog(), &bridges(), None, None);
    assert_eq!(arb.tri_pairs().len(), 3);
    assert!(!arb.running());
    for id in [1u32, 2, 3, 7] {
        assert!(arb.on_tick(quote(id, 100, 1, 90, 1)).is_empty());
    }
    let missing = arb.check_deadline(0, 0).unwrap();
    assert!(arb.running());
    assert_eq!(missing, vec![4, 5, 6]);
    assert!(missing.len() <= 3);
    assert!(arb.check_deadline(5, 0).is_none());
}

#[test]
fn cold_start_ends_when_all_pairs_are_quoted() {
    let mut arb = TriAngleArb::new(ada_catalog(), &bridges(), None, None);
    assert!(arb.check_deadline(10, 1000).is_none());
    assert!(arb.on_tick(quote(1, 50_000_000, 1, 49_000_000, 1)).is_empty());
    assert!(arb.on_tick(quote(2, 800, 1, 790, 1)).is_empty());
    assert!(!arb.running());
    assert_eq!(arb.uninitialized(), vec![3]);
    assert!(arb.on_tick(quote(3, 6_100_000_000_000, 1, 6_099_000_000_000, 1)).is_empty());
    assert!(arb.running());
    assert_eq!(arb.on_tick(quote(2, 801, 1, 790, 1)), vec![0]);
    let [t0, t1, t2] = arb.tickers_of(0);
    assert_eq!(t0.ba[0], 50_000_000);
    assert_eq!(t1.ba[0], 801);
    assert_eq!(t2.bb[0], 6_099_000_000_000);
}

#[test]
fn unknown_symbol_changes_nothing() {
    let mut arb = TriAngleArb::new(ada_catalog(), &bridges(), None, None);
    arb.check_deadline(0, 0);
    let before: Vec<[u64; 4]> = arb.id_pairs().iter().map(|p| [p.tick.ba[0], p.tick.ba[1], p.tick.bb[0], p.tick.bb[1]]).collect();
    let r = arb.on_feed_event("DOGEUSDT", "0.1", "10", "0.09", "10").unwrap();
    assert!(r.is_empty());
    let after: Vec<[u64; 4]> = arb.id_pairs().iter().map(|p| [p.tick.ba[0], p.tick.ba[1], p.tick.bb[0], p.tick.bb[1]]).collect();
    assert_eq!(before, after);
}

#[test]
fn known_symbol_updates_its_quote() {
    let mut arb = TriAngleArb::new(ada_catalog(), &bridges(), None, None);
    arb.check_deadline(0, 0);
    let r = arb.on_feed_event("ADABTC", "0.00000800", "1000", "0.00000790", "1000").unwrap();
    assert_eq!(r, vec![0]);
    assert_eq!(arb.id_pairs()[1].tick.ba, [800, 100_000_000_000]);
    assert_eq!(arb.id_pairs()[1].tick.bb, [790, 100_000_000_000]);
    assert_eq!(arb.symbol_index("BTCUSDT"), Some(3));
}

#[test]
fn unreadable_number_is_refused() {
    let mut arb = TriAngleArb::new(ada_catalog(), &bridges(), None, None);
    let r = arb.on_feed_event("ADABTC", "0.0000x", "1", "1", "1");
    assert_eq!(r, Err(FeedError::BadNumber));
    assert_eq!(arb.id_pairs()[1].tick.ba, [0, 0]);
}

#[test]
fn decimals_read_in_units_of_ten_to_minus_eight() {
    assert_eq!(parse_fixed("0.00000800"), Some(800));
    assert_eq!(parse_fixed("61000"), Some(6_100_000_000_000));
    assert_eq!(parse_fixed("0.5"), Some(50_000_000));
    assert_eq!(parse_fixed("1."), Some(100_000_000));
    assert_eq!(parse_fixed("184467440737.09551615"), Some(u64::MAX));
    assert_eq!(parse_fixed("184467440737.09551616"), None);
    assert_eq!(parse_fixed("99999999999999999999"), None);
    assert_eq!(parse_fixed("1.123456789"), None);
    assert_eq!(parse_fixed(".5"), None);
    assert_eq!(parse_fixed(""), None);
    assert_eq!(parse_fixed("1e5"), None);
    assert_eq!(parse_fixed("-1"), None);
}

#[test]
fn ticker_from_feed_strings() {
    let t = Ticker::from(4, "0.50", "1000", "0.49", "1000.5").unwrap();
    assert_eq!(t.idx, 4);
    assert_eq!(t.ba, [50_000_000, 100_000_000_000]);
    assert_eq!(t.bb, [49_000_000, 100_050_000_000]);
    assert!(Ticker::from(4, "0.50", "x", "0.49", "1").is_none());
}

#[test]
fn zero_ask_is_not_ready() {
    let q = quote(1, 10, 1, 9, 1);
    let z = quote(2, 0, 1, 9, 1);
    assert!(asks_ready(&q, &q, &q));
    assert!(!asks_ready(&q, &z, &q));
    assert!(!asks_ready(&Ticker::default(), &q, &q));
}

fn info(symbol: &str, base: &str, quote: &str, status: &str, step: Option<&str>) -> SymbolInfo {
    SymbolInfo {
        symbol: symbol.to_string(),
        base_asset: base.to_string(),
        quote_asset: quote.to_string(),
        status: status.to_string(),
        step_size: step.map(|s| s.to_string()),
    }
}

#[test]
fn catalog_numbers_active_instruments_from_one() {
    let symbols = vec![
        info("ADAUSDT", "ADA", "USDT", "TRADING", Some("0.10000000")),
        info("OLDBTC", "OLD", "BTC", "BREAK", Some("1.00000000")),
        info("BTCUSDT", "BTC", "USDT", "TRADING", None),
    ];
    let pairs = get_pairs(&symbols, 99_900_000).unwrap();
    assert_eq!(pairs.len(), 2);
    assert_eq!(pairs[0].get_symbol_idx(), 1);
    assert_eq!(pairs[0].get_symbol(), "ADAUSDT");
    assert_eq!(pairs[0].get_symbol_id(), "ADA/USDT");
    assert_eq!(pairs[0].get_step(), 10_000_000);
    assert_eq!(pairs[1].get_symbol_idx(), 2);
    assert_eq!(pairs[1].text(), "BTC/USDT");
    assert_eq!(pairs[1].get_step(), 0);
    assert_eq!(pairs[1].fee, 99_900_000);
}

#[test]
fn catalog_refuses_bad_entries() {
    let bad_asset = vec![info("XX", "X/Y", "USDT", "TRADING", None)];
    assert_eq!(get_pairs(&bad_asset, 1).unwrap_err(), CatalogError::BadAsset);
    let same = vec![info("XX", "USDT", "USDT", "TRADING", None)];
    assert_eq!(get_pairs(&same, 1).unwrap_err(), CatalogError::BadAsset);
    let empty = vec![info("XX", "", "USDT", "TRADING", None)];
    assert_eq!(get_pairs(&empty, 1).unwrap_err(), CatalogError::BadAsset);
    let bad_step = vec![info("ADAUSDT", "ADA", "USDT", "TRADING", Some("0.1.0"))];
    assert_eq!(get_pairs(&bad_step, 1).unwrap_err(), CatalogError::BadStep);
    let inactive_bad = vec![info("XX", "X/Y", "USDT", "HALT", None)];
    assert!(get_pairs(&inactive_bad, 1).unwrap().is_empty());
}

#[test]
fn pair_accessors() {
    let p = pair(9, "ETH", "BTC");
    assert_eq!(p.base(), "ETH");
    assert_eq!(p.quote(), "BTC");
    assert_eq!(p.get_base_asset(), "ETH");
    assert_eq!(p.get_quote_asset(), "BTC");
    assert!(p.has_asset("BTC".to_string()));
    assert!(!p.has_asset("USDT".to_string()));
    assert_eq!(p.get_the_other("BTC".to_string()), "ETH");
    assert_eq!(p.get_the_other("ETH".to_string()), "BTC");
    assert_eq!(p.get_the_other("USDT".to_string()), "");
    assert!(p == pair(10, "BTC", "ETH"));
    assert!(p != pair(11, "ETH", "USDT"));
}

#[test]
fn ticker_cache_numbers_symbols_in_order() {
    let pairs = ada_catalog();
    let tris = derive_tri_pairs(&pairs, &bridges(), None, None);
    let cache = TickerCache::new(vec![("ADA".to_string(), tris), ("ETH".to_string(), Vec::new())]);
    assert_eq!(cache.symbol_id, vec!["ADA".to_string(), "ETH".to_string()]);
    assert_eq!(cache.pairs[0].len(), 1);
    assert!(cache.pairs[1].is_empty());
}

#[test]
fn catalog_lookup_by_text_and_id() {
    let arb = TriAngleArb::new(ada_catalog(), &bridges(), None, None);
    assert_eq!(arb.text_index("BTC/USDT"), Some(3));
    assert_eq!(arb.text_index("USDT/BTC"), None);
    assert_eq!(arb.pair_by_id(2).unwrap().text(), "ADA/BTC");
    assert!(arb.pair_by_id(0).is_none());
    assert!(arb.pair_by_id(4).is_none());
}

#[test]
fn bridge_list_order_picks_the_first_direction() {
    let pairs = vec![pair(1, "ADA", "USDT"), pair(2, "ADA", "BTC"), pair(3, "BTC", "USDT"), pair(4, "USDT", "BTC")];
    let a = derive_tri_pairs(&pairs, &bridges(), None, None);
    assert_eq!(a.len(), 1);
    assert_eq!(a[0].pairs, [1, 2, 3]);
    assert_eq!(a[0].dirs, [Side::SideBuy, Side::SideSell, Side::SideSell]);
    let b = derive_tri_pairs(&pairs, &vec!["USDT".to_string(), "BTC".to_string()], None, None);
    assert_eq!(b.len(), 1);
    assert_eq!(b[0].pairs, [1, 2, 4]);
    assert_eq!(b[0].dirs, [Side::SideBuy, Side::SideSell, Side::SideBuy]);
}

#[test]
fn find_coin_prefers_quote_a_over_quote_b() {
    let pairs = vec![pair(1, "ADA", "USDT"), pair(2, "ADA", "BTC"), pair(3, "BTC", "USDT"), pair(4, "USDT", "BTC")];
    let found = find_coin_tri_pairs("ADA", &pairs, &vec![2, 3]).unwrap();
    assert_eq!(found.len(), 1);
    assert_eq!(found[0].pairs, [1, 2, 4]);
}

#[test]
fn derivation_is_reproducible_and_ordered() {
    let pairs = three_coin_catalog();
    let a = derive_tri_pairs(&pairs, &bridges(), None, None);
    let b = derive_tri_pairs(&pairs, &bridges(), None, None);
    let coins: Vec<&str> = a.iter().map(|t| t.coin.as_str()).collect();
    assert_eq!(coins, vec!["ADA", "ETH", "XRP"]);
    assert_eq!(a.len(), b.len());
    for (x, y) in a.iter().zip(b.iter()) {
        assert_eq!((x.coin.clone(), x.name.clone(), x.pairs, x.dirs), (y.coin.clone(), y.name.clone(), y.pairs, y.dirs));
    }
}

#[test]
fn catalog_reports_the_first_bad_entry() {
    let symbols = vec![
        info("ADAUSDT", "ADA", "USDT", "TRADING", Some("0.1")),
        info("ETHBTC", "ETH", "BTC", "TRADING", Some("1e-3")),
        info("XX", "X/Y", "USDT", "TRADING", None),
    ];
    assert_eq!(get_pairs(&symbols, 1).unwrap_err(), CatalogError::BadStep);
    let symbols = vec![
        info("XX", "X/Y", "USDT", "TRADING", Some("1e-3")),
        info("ETHBTC", "ETH", "BTC", "TRADING", Some("oops")),
    ];
    assert_eq!(get_pairs(&symbols, 1).unwrap_err(), CatalogError::BadAsset);
}
