use lotstash::amount::Amount;
use lotstash::assets::AssetSymbol;
use lotstash::yf::{
    check_price_count, normalize_symbols, pattern_20241117, price_list_from_summary, quote_url,
    MarketPrice, PriceList,
};

fn early_doc() -> String {
    let row_a = "<tr><td><a title=\"Apple Inc.\">AAPL</a></td><td><fin-streamer value=\"123.45\">123.45</fin-streamer></td><td>c3</td><td>c4</td><td>USD</td><td><fin-streamer value=\"1731800000\">then</fin-streamer></td></tr>";
    let row_b = "<tr><td><a title=\"Microsoft Corporation\">MSFT</a></td><td><fin-streamer value=\"420.5\">420.5</fin-streamer></td><td>c3</td><td>c4</td><td>USD</td><td><fin-streamer value=\"1731800001\">then</fin-streamer></td></tr>";
    format!(
        "<html><body><table><tbody>{}{}</tbody></table></body></html>",
        row_a, row_b
    )
}

fn doc_20241117() -> String {
    let row_a = "<tr><td><a title=\"Apple Inc.\">AAPL</a></td><td><fin-streamer data-field=\"regularMarketPrice\" data-value=\"123.45\">123.45</fin-streamer></td><td>c3</td><td>c4</td><td>c5</td><td>USD</td></tr>";
    let row_b = "<tr><td><a title=\"Microsoft Corporation\">MSFT</a></td><td><fin-streamer data-field=\"regularMarketPrice\" data-value=\"420.5\">420.5</fin-streamer></td><td>c3</td><td>c4</td><td>c5</td><td>USD</td></tr>";
    format!(
        "<html><body><table><tbody>{}{}</tbody></table></body></html>",
        row_a, row_b
    )
}

#[test]
fn print_json() {
    let prices = match price_list_from_summary(&early_doc()) {
        Ok(p) => p,
        Err(_) => panic!("extraction must succeed on the summary page"),
    };
    let json = prices.to_json();
    println!("{}", json);
}

#[test]
fn parse_20241117() {
    let html = doc_20241117();
    let pattern = match easy_scraper::Pattern::new(pattern_20241117()) {
        Ok(p) => p,
        Err(e) => panic!("pattern must compile: {}", e),
    };
    let matches = pattern.matches(&html);
    assert_eq!(2, matches.len());
}

#[test]
fn extraction_reads_the_timestamp_layout() {
    let prices = match price_list_from_summary(&early_doc()) {
        Ok(p) => p,
        Err(_) => panic!("extraction must succeed"),
    };
    assert_eq!(prices.len(), 2);
    let p0 = prices.get(0);
    assert_eq!(p0.symbol, "AAPL");
    assert_eq!(p0.asset, "Apple Inc.");
    assert_eq!(p0.level.as_str(), "123.45");
    assert_eq!(p0.currency, "USD");
    // the epoch comes from the captured cell, not the clock
    assert_eq!(p0.epoch, 1731800000);
    assert_eq!(prices.get(1).symbol, "MSFT");
    assert_eq!(prices.get(1).epoch, 1731800001);
}

#[test]
fn extraction_falls_back_to_newer_layout() {
    let prices = match price_list_from_summary(&doc_20241117()) {
        Ok(p) => p,
        Err(_) => panic!("extraction must succeed"),
    };
    assert_eq!(prices.len(), 2);
    assert_eq!(prices.get(0).symbol, "AAPL");
    assert_eq!(prices.get(1).symbol, "MSFT");
    assert_eq!(prices.get(0).level.as_str(), "123.45");
    // no timestamp cell in this layout: the epoch falls back to "now"
    assert!(prices.get(0).epoch > 1731800001);
}

#[test]
fn extraction_of_nonmatching_page_is_empty_not_error() {
    let prices = match price_list_from_summary("<html></html>") {
        Ok(p) => p,
        Err(_) => panic!("a non-matching page is not an error"),
    };
    assert_eq!(prices.len(), 0);
}

#[test]
fn extraction_is_deterministic() {
    let html = early_doc();
    let a = match lotstash::yf::extract_with_now(&html, 7) {
        Ok(p) => p,
        Err(_) => panic!("extraction must succeed"),
    };
    let b = match lotstash::yf::extract_with_now(&html, 7) {
        Ok(p) => p,
        Err(_) => panic!("extraction must succeed"),
    };
    assert_eq!(a.len(), b.len());
    for i in 0..a.len() {
        let (x, y) = (a.get(i), b.get(i));
        assert_eq!(x.symbol, y.symbol);
        assert_eq!(x.asset, y.asset);
        assert_eq!(x.level.as_str(), y.level.as_str());
        assert_eq!(x.currency, y.currency);
        assert_eq!(x.epoch, y.epoch);
    }
}

#[test]
fn extraction_rejects_non_numeric_price() {
    let html = "<html><body><table><tbody><tr><td><a title=\"Apple Inc.\">AAPL</a></td><td><fin-streamer value=\"not-a-price\">x</fin-streamer></td><td>c3</td><td>c4</td><td>USD</td><td><fin-streamer value=\"1731800000\">then</fin-streamer></td></tr></tbody></table></body></html>";
    match price_list_from_summary(html) {
        Ok(_) => panic!("a non-numeric price cell must fail extraction"),
        Err(lotstash::yf::ExtractError::Parse(e)) => assert_eq!(e.text, "not-a-price"),
        Err(lotstash::yf::ExtractError::Pattern(_)) => panic!("wrong error kind"),
    }
}

#[test]
fn normalize_sorts_and_dedups() {
    let syms = vec![
        AssetSymbol::parse("msft"),
        AssetSymbol::parse("aapl"),
        AssetSymbol::parse("MSFT"),
        AssetSymbol::parse("goog"),
    ];
    let norm = normalize_symbols(&syms);
    let names: Vec<&str> = norm.iter().map(|s| s.as_str()).collect();
    assert_eq!(names, vec!["AAPL", "GOOG", "MSFT"]);
}

#[test]
fn quote_url_joins_symbols() {
    let syms = vec![AssetSymbol::parse("aapl"), AssetSymbol::parse("msft")];
    assert_eq!(
        quote_url(&syms),
        "https://finance.yahoo.com/quotes/AAPL,MSFT/view/v1?ncid=yahooproperties_portfolios_pbody"
    );
}

fn one_price(sym: &str) -> MarketPrice {
    MarketPrice {
        symbol: sym.to_string(),
        asset: sym.to_string(),
        level: Amount::parse("1.0").ok().unwrap(),
        currency: "USD".to_string(),
        epoch: 5,
    }
}

#[test]
fn short_price_list_fails_count_check() {
    let prices = PriceList::from_vec(vec![one_price("A")]);
    let symbols = vec![AssetSymbol::parse("a"), AssetSymbol::parse("b")];
    match check_price_count(&prices, &symbols, "http://example/q", "page-text") {
        Ok(_) => panic!("a short price list must not pass silently"),
        Err(e) => {
            assert_eq!(e.got_len, 1);
            assert_eq!(e.expected_len, 2);
            let got: Vec<&str> = e.got_symbols.iter().map(|s| s.as_str()).collect();
            assert_eq!(got, vec!["A"]);
            let expected: Vec<&str> = e.expected_symbols.iter().map(|s| s.as_str()).collect();
            assert_eq!(expected, vec!["A", "B"]);
            assert_eq!(e.url, "http://example/q");
            assert_eq!(e.text, "page-text");
        },
    }
}

#[test]
fn matching_count_passes() {
    let prices = PriceList::from_vec(vec![one_price("A"), one_price("B")]);
    let symbols = vec![AssetSymbol::parse("a"), AssetSymbol::parse("b")];
    assert!(check_price_count(&prices, &symbols, "u", "t").is_ok());
}

#[test]
fn to_map_last_write_wins() {
    let mut second = one_price("A");
    second.epoch = 9;
    let prices = PriceList::from_vec(vec![one_price("A"), second]);
    let map = prices.to_map();
    match map.get(&AssetSymbol::parse("a")) {
        Some(p) => assert_eq!(p.epoch, 9),
        None => panic!("symbol must be in the map"),
    }
    assert!(map.get(&AssetSymbol::parse("zzz")).is_none());
}
