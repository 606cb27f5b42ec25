use lotstash::amount::Amount;
use lotstash::assets::{AssetFilter, AssetHost, AssetSymbol, HostFilter};

#[test]
fn symbol_parse_uppercases() {
    assert_eq!(AssetSymbol::parse("aapl").as_str(), "AAPL");
    assert_eq!(AssetSymbol::parse("MsFt-B").as_str(), "MSFT-B");
    assert_eq!(AssetSymbol::parse("").as_str(), "");
}

#[test]
fn symbol_parse_matches_std_uppercase() {
    let inputs = ["aapl", "Brk.b", "xyz9", "ümlaut", "straße", "ΑβΓ", ""];
    for s in inputs {
        assert_eq!(AssetSymbol::parse(s).as_str(), s.to_uppercase());
    }
}

#[test]
fn symbol_parse_is_idempotent() {
    let inputs = ["aapl", "Brk.b", "straße", "ΑβΓ", "MSFT"];
    for s in inputs {
        let once = AssetSymbol::parse(s);
        let twice = AssetSymbol::parse(once.as_str());
        assert_eq!(once.as_str(), twice.as_str());
    }
}

#[test]
fn host_parse_trims_edges_only() {
    assert_eq!(AssetHost::parse("  left cheek\t\n").as_str(), "left cheek");
    assert_eq!(AssetHost::parse("no-trim").as_str(), "no-trim");
    assert_eq!(AssetHost::parse("   ").as_str(), "");
    assert_eq!(AssetHost::parse("").as_str(), "");
    // interior whitespace is preserved
    assert_eq!(AssetHost::parse(" a  b ").as_str(), "a  b");
}

#[test]
fn host_parse_matches_std_trim() {
    let inputs = [
        "  x  ",
        "\u{00A0}pad\u{3000}",
        "\u{2028}line\u{2029}",
        "\u{1680}\u{2000}mid dle\u{200A}\u{205F}",
        "\u{0085}y",
        "plain",
        "\t\r\n",
    ];
    for s in inputs {
        assert_eq!(AssetHost::parse(s).as_str(), s.trim());
    }
}

#[test]
fn host_default_label() {
    assert_eq!(AssetHost::default().as_str(), "Left cheek");
}

#[test]
fn asset_filter_absent_or_empty_passes_everything() {
    let any = AssetFilter::new(&None);
    assert!(any.pass(&AssetSymbol::parse("aapl")));
    let empty = AssetFilter::new(&Some(String::new()));
    assert!(empty.pass(&AssetSymbol::parse("msft")));
}

#[test]
fn asset_filter_one_passes_exact_match_only() {
    let f = AssetFilter::new(&Some("aapl".to_string()));
    assert!(f.pass(&AssetSymbol::parse("AAPL")));
    assert!(f.pass(&AssetSymbol::parse("aapl")));
    assert!(!f.pass(&AssetSymbol::parse("MSFT")));
}

#[test]
fn host_filter_one_passes_exact_match_only() {
    let f = HostFilter::new(&Some(" vault ".to_string()));
    assert!(f.pass(&AssetHost::parse("vault")));
    assert!(f.pass(&AssetHost::parse("  vault  ")));
    assert!(!f.pass(&AssetHost::parse("drawer")));
    let any = HostFilter::new(&None);
    assert!(any.pass(&AssetHost::parse("anything")));
    let empty = HostFilter::new(&Some(String::new()));
    assert!(empty.pass(&AssetHost::parse("anything")));
}

#[test]
fn amount_accepts_what_f64_accepts() {
    let inputs = [
        "1", "-2.5", ".5", "1.", "1e5", "1E-5", "inf", "-Infinity", "NaN", "+3.25e+2", "0.0",
        "007", "1.e5", "", ".", "e5", "1e", "abc", "--1", "1.2.3", "1 ", " 1", "+-1", "0x10",
        "1e+", "nAn", "INF",
    ];
    for s in inputs {
        assert_eq!(
            Amount::parse(s).is_ok(),
            s.parse::<f64>().is_ok(),
            "disagreement on {:?}",
            s
        );
    }
}

#[test]
fn parse_symbols_parses_every_request() {
    let args = lotstash::args::MarketArgs {
        symbols: vec!["aapl".to_string(), "msft".to_string()],
    };
    let syms = lotstash::args::parse_symbols(&args);
    let names: Vec<&str> = syms.iter().map(|s| s.as_str()).collect();
    assert_eq!(names, vec!["AAPL", "MSFT"]);
}

#[test]
fn amount_keeps_text_verbatim() {
    let a = match Amount::parse("2.50") {
        Ok(a) => a,
        Err(_) => panic!("2.50 must parse"),
    };
    assert_eq!(a.as_str(), "2.50");
    match Amount::parse("two") {
        Ok(_) => panic!("non-numeric text must be rejected"),
        Err(e) => assert_eq!(e.text, "two"),
    }
}
