use lotstash::amount::Amount;
use lotstash::assets::{AssetFilter, AssetHost, AssetSymbol, HostFilter};
use lotstash::data::Stash;
use lotstash::yf::{MarketPrice, PriceList};

fn amt(s: &str) -> Amount {
    match Amount::parse(s) {
        Ok(a) => a,
        Err(_) => panic!("amount must parse"),
    }
}

fn add(stash: &mut Stash, sym: &str, size: &str, cost: &str, host: &str, time: u64) {
    stash.add_lot_at(
        AssetSymbol::parse(sym),
        amt(size),
        amt(cost),
        AssetHost::parse(host),
        time,
    );
}

#[test]
fn ids_are_monotonic_and_never_reused() {
    let mut stash = Stash::new();
    assert_eq!(stash.max_lot_id(), 0);
    add(&mut stash, "aapl", "1", "100", "vault", 10);
    add(&mut stash, "msft", "2", "200", "vault", 11);
    assert_eq!(stash.max_lot_id(), 2);
    let removed = stash.remove_lot(1);
    assert!(removed.is_some());
    // the counter does not move back
    assert_eq!(stash.max_lot_id(), 2);
    add(&mut stash, "goog", "3", "300", "vault", 12);
    // the freed id is not reused
    let ids: Vec<u64> = stash.lots().iter().map(|(id, _)| *id).collect();
    assert_eq!(ids, vec![2, 3]);
    assert_eq!(stash.max_lot_id(), 3);
}

#[test]
fn remove_absent_id_is_a_noop() {
    let mut stash = Stash::new();
    add(&mut stash, "aapl", "1", "100", "vault", 10);
    assert!(stash.remove_lot(99).is_none());
    assert_eq!(stash.lots().len(), 1);
    assert_eq!(stash.max_lot_id(), 1);
}

#[test]
fn lot_fields_are_recorded() {
    let mut stash = Stash::new();
    add(&mut stash, "aapl", "2.5", "300", "vault", 42);
    let (id, lot) = &stash.lots()[0];
    assert_eq!(*id, 1);
    assert_eq!(lot.asset.as_str(), "AAPL");
    assert_eq!(lot.size.as_str(), "2.5");
    assert_eq!(lot.basis.cost.as_str(), "300");
    // the basis mirrors the size as its count
    assert_eq!(lot.basis.count.as_str(), "2.5");
    assert_eq!(lot.basis.time, 42);
    assert_eq!(lot.basis.host.as_str(), "vault");
    assert_eq!(lot.host.as_str(), "vault");
}

#[test]
fn to_lots_applies_both_filters() {
    let mut stash = Stash::new();
    add(&mut stash, "aapl", "1", "10", "vault", 1);
    add(&mut stash, "msft", "2", "20", "vault", 2);
    add(&mut stash, "aapl", "3", "30", "drawer", 3);

    // both pass-all: every lot, in id order
    let all = stash.to_lots(&AssetFilter::new(&None), &HostFilter::new(&None));
    let ids: Vec<u64> = all.iter().map(|(id, _)| *id).collect();
    assert_eq!(ids, vec![1, 2, 3]);

    // by asset only
    let af = AssetFilter::new(&Some("aapl".to_string()));
    let got = stash.to_lots(&af, &HostFilter::new(&None));
    let ids: Vec<u64> = got.iter().map(|(id, _)| *id).collect();
    assert_eq!(ids, vec![1, 3]);

    // asset AND host must both pass
    let hf = HostFilter::new(&Some("vault".to_string()));
    let got = stash.to_lots(&af, &hf);
    let ids: Vec<u64> = got.iter().map(|(id, _)| *id).collect();
    assert_eq!(ids, vec![1]);
}

#[test]
fn assets_dedups_adjacent_repeats_only() {
    let mut stash = Stash::new();
    add(&mut stash, "aapl", "1", "10", "v", 1);
    add(&mut stash, "aapl", "1", "10", "v", 2);
    add(&mut stash, "msft", "1", "10", "v", 3);
    add(&mut stash, "aapl", "1", "10", "v", 4);
    let names: Vec<String> = stash.assets().iter().map(|a| a.as_str().to_string()).collect();
    // interleaved repeats stay; only adjacent ones collapse
    assert_eq!(names, vec!["AAPL", "MSFT", "AAPL"]);
}

#[test]
fn sorting_by_asset_keeps_the_lots() {
    let mut stash = Stash::new();
    add(&mut stash, "msft", "1", "10", "v", 1);
    add(&mut stash, "aapl", "2", "20", "v", 2);
    add(&mut stash, "goog", "3", "30", "v", 3);
    add(&mut stash, "aapl", "4", "40", "v", 4);
    let sorted = lotstash::data::sort_lots_by_asset(
        stash.to_lots(&AssetFilter::new(&None), &HostFilter::new(&None)),
    );
    let view: Vec<(u64, String)> =
        sorted.iter().map(|(id, l)| (*id, l.asset.as_str().to_string())).collect();
    assert_eq!(
        view,
        vec![
            (2, "AAPL".to_string()),
            (4, "AAPL".to_string()),
            (3, "GOOG".to_string()),
            (1, "MSFT".to_string()),
        ]
    );
}

fn price(sym: &str, level: &str) -> MarketPrice {
    MarketPrice {
        symbol: sym.to_string(),
        asset: format!("{} Inc.", sym),
        level: amt(level),
        currency: "USD".to_string(),
        epoch: 1,
    }
}

#[test]
fn valuation_terms_multiply_out() {
    let mut stash = Stash::new();
    add(&mut stash, "x", "2.0", "100", "vault", 1);
    let prices = PriceList::from_vec(vec![price("X", "150.0")]);
    let map = prices.to_map();
    let terms = match stash.value_terms(&map) {
        Ok(t) => t,
        Err(_) => panic!("price map covers every asset"),
    };
    assert_eq!(terms.len(), 1);
    let mut total: f64 = 0.0;
    for (size, level) in &terms {
        let s: f64 = size.as_str().parse().unwrap();
        let l: f64 = level.as_str().parse().unwrap();
        total += s * l;
    }
    assert_eq!(total, 300.0);
}

#[test]
fn valuation_is_all_or_nothing() {
    let mut stash = Stash::new();
    add(&mut stash, "x", "2.0", "100", "vault", 1);
    add(&mut stash, "y", "1.0", "50", "vault", 2);
    let prices = PriceList::from_vec(vec![price("X", "150.0")]);
    let map = prices.to_map();
    match stash.value_terms(&map) {
        Ok(_) => panic!("missing price must fail valuation"),
        Err(e) => assert_eq!(e.asset.as_str(), "Y"),
    }
}
