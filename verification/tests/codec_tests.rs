use lotstash::amount::Amount;
use lotstash::assets::{AssetHost, AssetSymbol};
use lotstash::codec::{decode_stash, encode_stash};
use lotstash::data::Stash;
use lotstash::num::{parse_u64, u64_to_dec};

fn amt(s: &str) -> Amount {
    match Amount::parse(s) {
        Ok(a) => a,
        Err(_) => panic!("amount must parse"),
    }
}

fn add(stash: &mut Stash, sym: &str, size: &str, cost: &str, host: &str, time: u64) {
    stash.add_lot_at(
        AssetSymbol::parse(sym),
        amt(size),
        amt(cost),
        AssetHost::parse(host),
        time,
    );
}

#[test]
fn encode_writes_the_documented_form() {
    let mut stash = Stash::new();
    add(&mut stash, "aapl", "2.5", "100", "Vault", 1700000000);
    let expected = "{\"max_lot_id\":1,\"lots\":{\"1\":{\"asset\":\"AAPL\",\"size\":\"2.5\",\"basis\":{\"cost\":\"100\",\"count\":\"2.5\",\"time\":1700000000,\"host\":\"Vault\"},\"host\":\"Vault\"}}}";
    assert_eq!(encode_stash(&stash), expected);
}

#[test]
fn empty_ledger_round_trips() {
    let stash = Stash::new();
    let text = encode_stash(&stash);
    assert_eq!(text, "{\"max_lot_id\":0,\"lots\":{}}");
    match decode_stash(&text) {
        Some(back) => {
            assert_eq!(back.max_lot_id(), 0);
            assert_eq!(back.lots().len(), 0);
        },
        None => panic!("the canonical form must decode"),
    }
}

fn assert_same(a: &Stash, b: &Stash) {
    assert_eq!(a.max_lot_id(), b.max_lot_id());
    assert_eq!(a.lots().len(), b.lots().len());
    for i in 0..a.lots().len() {
        let (ida, la) = &a.lots()[i];
        let (idb, lb) = &b.lots()[i];
        assert_eq!(ida, idb);
        assert_eq!(la.asset.as_str(), lb.asset.as_str());
        assert_eq!(la.size.as_str(), lb.size.as_str());
        assert_eq!(la.basis.cost.as_str(), lb.basis.cost.as_str());
        assert_eq!(la.basis.count.as_str(), lb.basis.count.as_str());
        assert_eq!(la.basis.time, lb.basis.time);
        assert_eq!(la.basis.host.as_str(), lb.basis.host.as_str());
        assert_eq!(la.host.as_str(), lb.host.as_str());
    }
}

#[test]
fn populated_ledger_round_trips() {
    let mut stash = Stash::new();
    add(&mut stash, "aapl", "2.5", "100", "vault", 1700000000);
    add(&mut stash, "msft", "-1e3", "inf", "drawer", 1700000001);
    stash.remove_lot(1);
    add(&mut stash, "goog", ".5", "0.25", "vault", 1700000002);
    let text = encode_stash(&stash);
    match decode_stash(&text) {
        Some(back) => assert_same(&stash, &back),
        None => panic!("the canonical form must decode"),
    }
}

#[test]
fn escaped_text_round_trips() {
    let mut stash = Stash::new();
    add(
        &mut stash,
        "aapl",
        "1",
        "1",
        "a\"quote\\slash\nnewline\tand\u{1F} end",
        7,
    );
    let text = encode_stash(&stash);
    match decode_stash(&text) {
        Some(back) => assert_same(&stash, &back),
        None => panic!("escaped text must decode"),
    }
}

#[test]
fn decode_rejects_malformed_text() {
    assert!(decode_stash("").is_none());
    assert!(decode_stash("{}").is_none());
    assert!(decode_stash("{\"max_lot_id\":1,\"lots\":{}").is_none());
    assert!(decode_stash("{\"max_lot_id\":1,\"lots\":{}}trailing").is_none());
    // an id above the counter breaks the ledger invariant
    assert!(decode_stash("{\"max_lot_id\":0,\"lots\":{\"1\":{\"asset\":\"A\",\"size\":\"1\",\"basis\":{\"cost\":\"1\",\"count\":\"1\",\"time\":1,\"host\":\"h\"},\"host\":\"h\"}}}")
    .is_none());
}

#[test]
fn decimal_text_round_trips() {
    let values: [u64; 6] = [0, 1, 9, 10, 1700000000, u64::MAX];
    for v in values {
        let text = u64_to_dec(v);
        assert_eq!(parse_u64(&text), Some(v));
    }
    assert_eq!(u64_to_dec(0), "0");
    assert_eq!(u64_to_dec(18446744073709551615), "18446744073709551615");
}

#[test]
fn parse_u64_matches_std() {
    let inputs = [
        "0", "7", "007", "+7", "18446744073709551615", "18446744073709551616", "", "+", "-1",
        "1a", " 1",
    ];
    for s in inputs {
        assert_eq!(
            parse_u64(s),
            s.parse::<u64>().ok(),
            "disagreement on {:?}",
            s
        );
    }
}

#[test]
fn price_list_renders_as_json() {
    let prices = lotstash::yf::PriceList::from_vec(vec![lotstash::yf::MarketPrice {
        symbol: "AAPL".to_string(),
        asset: "Apple Inc.".to_string(),
        level: amt("123.45"),
        currency: "USD".to_string(),
        epoch: 1731800000,
    }]);
    let expected = "[{\"symbol\":\"AAPL\",\"asset\":\"Apple Inc.\",\"level\":\"123.45\",\"currency\":\"USD\",\"epoch\":1731800000}]";
    assert_eq!(prices.to_json(), expected);
}
