use vstd::prelude::*;
use vstd::string::StrSliceExecFns;

use crate::amount::{is_f64_text, Amount, ParseError};
use crate::assets::{sym_views, AssetSymbol};
use crate::clock::now_epoch;
use crate::num::{parse_u64, u64_from_dec};
use crate::text::{lex_le, lex_lt};

verus! {

// ---------------------------------------------------------------------------
// Page patterns
// ---------------------------------------------------------------------------
//
// Each known layout of the quote page is one row template, kept as data so
// that a new layout is one more template, not new parsing code. Templates are
// tried in order; the first one yielding any row wins.

pub open spec fn early_pattern_text() -> Seq<char> {
    r#"
    <table><tbody><tr>
        <td><a title="{{asset}}">{{symbol}}</a></td>
        <td><fin-streamer value="{{share_price}}"></fin-streamer></td>
        <td></td>
        <td></td>
        <td>{{share_price_currency}}</td>
        <td><fin-streamer value="{{unix_epoch}}"></fin-streamer></td>
    </tr></tbody></table>
    "#@
}

/// The row template with an explicit timestamp cell.
pub fn early_pattern() -> (r: &'static str)
    ensures
        r@ == early_pattern_text(),
{
    r#"
    <table><tbody><tr>
        <td><a title="{{asset}}">{{symbol}}</a></td>
        <td><fin-streamer value="{{share_price}}"></fin-streamer></td>
        <td></td>
        <td></td>
        <td>{{share_price_currency}}</td>
        <td><fin-streamer value="{{unix_epoch}}"></fin-streamer></td>
    </tr></tbody></table>
    "#
}

pub open spec fn pattern_20241117_text() -> Seq<char> {
    r#"
    <table><tbody><tr>
        <td><a title="{{asset}}">{{symbol}}</a></td>
        <td><fin-streamer data-field="regularMarketPrice" data-value="{{share_price}}"></fin-streamer></td>
        <td></td>
        <td></td>
        <td></td>
        <td>{{share_price_currency}}</td>
    </tr></tbody></table>
    "#@
}

/// The row template without a timestamp cell; rows matched by it take the
/// clock at extraction as their epoch.
pub fn pattern_20241117() -> (r: &'static str)
    ensures
        r@ == pattern_20241117_text(),
{
    r#"
    <table><tbody><tr>
        <td><a title="{{asset}}">{{symbol}}</a></td>
        <td><fin-streamer data-field="regularMarketPrice" data-value="{{share_price}}"></fin-streamer></td>
        <td></td>
        <td></td>
        <td></td>
        <td>{{share_price_currency}}</td>
    </tr></tbody></table>
    "#
}

// ---------------------------------------------------------------------------
// Scraped rows
// ---------------------------------------------------------------------------

/// Spec-level image of one scraped row.
pub ghost struct RowV {
    pub asset: Option<Seq<char>>,
    pub symbol: Option<Seq<char>>,
    pub price: Option<Seq<char>>,
    pub currency: Option<Seq<char>>,
    pub epoch: Option<Seq<char>>,
}

/// One row captured from the page: the cells the active template bound.
pub struct ScrapeRow {
    pub asset: Option<String>,
    pub symbol: Option<String>,
    pub price: Option<String>,
    pub currency: Option<String>,
    pub epoch: Option<String>,
}

impl View for ScrapeRow {
    type V = RowV;

    open spec fn view(&self) -> RowV {
        RowV {
            asset: match self.asset {
                Some(ref s) => Some(s@),
                None => None,
            },
            symbol: match self.symbol {
                Some(ref s) => Some(s@),
                None => None,
            },
            price: match self.price {
                Some(ref s) => Some(s@),
                None => None,
            },
            currency: match self.currency {
                Some(ref s) => Some(s@),
                None => None,
            },
            epoch: match self.epoch {
                Some(ref s) => Some(s@),
                None => None,
            },
        }
    }
}

pub open spec fn row_views(rows: Seq<ScrapeRow>) -> Seq<RowV> {
    rows.map_values(|r: ScrapeRow| r@)
}

/// The rows a template yields on a document, or the template compiler's
/// message: a function of the two texts alone.
pub uninterp spec fn rows_of(pat: Seq<char>, html: Seq<char>) -> Result<Seq<RowV>, Seq<char>>;

/// Relies on easy_scraper::Pattern::new and Pattern::matches: for fixed
/// pattern text, the list of capture maps is a function of the pattern and
/// the document alone, and each map binds a subset of the pattern's
/// placeholder names. The scraper can panic on other pattern texts (an
/// unbalanced placeholder, or one beside regex metacharacters), so only the
/// library's two templates are admitted.
#[verifier::external_body]
fn scrape(pat: &str, html: &str) -> (r: Result<Vec<ScrapeRow>, String>)
    requires
        pat@ == early_pattern_text() || pat@ == pattern_20241117_text(),
    ensures
        r matches Ok(rows) ==> rows_of(pat@, html@) matches Ok(rv) && rv == row_views(rows@),
        r matches Err(e) ==> rows_of(pat@, html@) matches Err(ev) && ev == e@,
{
    let p = easy_scraper::Pattern::new(pat)?;
    Ok(p.matches(html).into_iter().map(|m| ScrapeRow {
        asset: m.get("asset").cloned(),
        symbol: m.get("symbol").cloned(),
        price: m.get("share_price").cloned(),
        currency: m.get("share_price_currency").cloned(),
        epoch: m.get("unix_epoch").cloned(),
    }).collect())
}

// ---------------------------------------------------------------------------
// MarketPrice and PriceList
// ---------------------------------------------------------------------------

/// Spec-level image of a `MarketPrice`.
pub ghost struct MarketPriceV {
    pub symbol: Seq<char>,
    pub asset: Seq<char>,
    pub level: Seq<char>,
    pub currency: Seq<char>,
    pub epoch: u64,
}

/// One externally observed quote. `level` carries the price's decimal text;
/// `epoch` is the observation time in seconds since the Unix epoch.
#[derive(Debug, Clone)]
pub struct MarketPrice {
    pub symbol: String,
    pub asset: String,
    pub level: Amount,
    pub currency: String,
    pub epoch: u64,
}

impl View for MarketPrice {
    type V = MarketPriceV;

    open spec fn view(&self) -> MarketPriceV {
        MarketPriceV {
            symbol: self.symbol@,
            asset: self.asset@,
            level: self.level@,
            currency: self.currency@,
            epoch: self.epoch,
        }
    }
}

impl MarketPrice {
    pub fn duplicate(&self) -> (r: MarketPrice)
        ensures
            r@ == self@,
    {
        MarketPrice {
            symbol: self.symbol.clone(),
            asset: self.asset.clone(),
            level: self.level.duplicate(),
            currency: self.currency.clone(),
            epoch: self.epoch,
        }
    }
}

pub open spec fn prices_views(v: Seq<MarketPrice>) -> Seq<MarketPriceV> {
    v.map_values(|p: MarketPrice| p@)
}

/// The ordered prices one fetch produced.
#[derive(Debug, Clone)]
pub struct PriceList(Vec<MarketPrice>);

impl View for PriceList {
    type V = Seq<MarketPriceV>;

    closed spec fn view(&self) -> Seq<MarketPriceV> {
        prices_views(self.0@)
    }
}

impl PriceList {
    pub fn from_vec(v: Vec<MarketPrice>) -> (r: PriceList)
        ensures
            r@ == prices_views(v@),
    {
        PriceList(v)
    }

    pub fn len(&self) -> (r: usize)
        ensures
            r == self@.len(),
    {
        self.0.len()
    }

    pub fn get(&self, i: usize) -> (r: &MarketPrice)
        requires
            i < self@.len(),
        ensures
            r@ == self@[i as int],
    {
        &self.0[i]
    }

    /// Borrow the prices in fetch order.
    pub fn iter(&self) -> (r: &Vec<MarketPrice>)
        ensures
            prices_views(r@) == self@,
    {
        &self.0
    }
}

// ---------------------------------------------------------------------------
// PriceMap
// ---------------------------------------------------------------------------

/// The mapping an entry list denotes: later entries overwrite earlier ones.
pub open spec fn entries_map(s: Seq<(AssetSymbol, MarketPrice)>) -> Map<Seq<char>, MarketPriceV>
    decreases s.len(),
{
    if s.len() == 0 {
        Map::empty()
    } else {
        entries_map(s.drop_last()).insert(s.last().0@, s.last().1@)
    }
}

/// Prices keyed by normalized symbol text; on duplicate symbols the last
/// write wins.
pub struct PriceMap(Vec<(AssetSymbol, MarketPrice)>);

impl View for PriceMap {
    type V = Map<Seq<char>, MarketPriceV>;

    closed spec fn view(&self) -> Map<Seq<char>, MarketPriceV> {
        entries_map(self.0@)
    }
}

impl PriceMap {
    pub fn new() -> (r: PriceMap)
        ensures
            r@ == Map::<Seq<char>, MarketPriceV>::empty(),
    {
        let r = PriceMap(Vec::new());
        proof {
            assert(r.0@.len() == 0);
        }
        r
    }

    pub fn insert(&mut self, sym: AssetSymbol, price: MarketPrice)
        ensures
            final (self)@ == old(self)@.insert(sym@, price@),
    {
        self.0.push((sym, price));
        proof {
            assert(self.0@.drop_last() =~= old(self).0@);
        }
    }

    /// The last price recorded under the symbol, if any.
    pub fn get(&self, sym: &AssetSymbol) -> (r: Option<&MarketPrice>)
        ensures
            self@.contains_key(sym@) ==> (r matches Some(p) && p@ == self@[sym@]),
            !self@.contains_key(sym@) ==> r is None,
    {
        let n: usize = self.0.len();
        let mut i: usize = 0;
        let mut found: Option<usize> = None;
        proof {
            assert(self.0@.take(0) =~= Seq::<(AssetSymbol, MarketPrice)>::empty());
        }
        while i < n
            invariant
                0 <= i <= n,
                n == self.0@.len(),
                match found {
                    None => !entries_map(self.0@.take(i as int)).contains_key(sym@),
                    Some(fi) => fi < i && entries_map(self.0@.take(i as int)).contains_key(sym@)
                        && entries_map(self.0@.take(i as int))[sym@] == self.0@[fi as int].1@
                        && self.0@[fi as int].0@ == sym@,
                },
            decreases n - i,
        {
            proof {
                assert(self.0@.take(i + 1).drop_last() =~= self.0@.take(i as int));
                assert(self.0@.take(i + 1).last() == self.0@[i as int]);
            }
            let same: bool = self.0[i].0.eq(sym);
            if same {
                found = Some(i);
            }
            i = i + 1;
        }
        proof {
            assert(self.0@.take(n as int) =~= self.0@);
        }
        match found {
            Some(fi) => Some(&self.0[fi].1),
            None => None,
        }
    }
}

/// The map a price list denotes: each price under its normalized symbol,
/// later prices overwriting earlier ones.
pub open spec fn map_of_prices(ps: Seq<MarketPriceV>) -> Map<Seq<char>, MarketPriceV>
    decreases ps.len(),
{
    if ps.len() == 0 {
        Map::empty()
    } else {
        map_of_prices(ps.drop_last()).insert(
            crate::text::upper_of(ps.last().symbol),
            ps.last(),
        )
    }
}

impl PriceList {
    /// Key every price by its normalized symbol; on duplicate symbols the
    /// last price in the list wins.
    pub fn to_map(&self) -> (r: PriceMap)
        ensures
            r@ == map_of_prices(self@),
    {
        let mut m = PriceMap::new();
        let n: usize = self.0.len();
        let mut i: usize = 0;
        proof {
            assert(self@.take(0) =~= Seq::<MarketPriceV>::empty());
        }
        while i < n
            invariant
                0 <= i <= n,
                n == self.0@.len(),
                self@.len() == n,
                m@ == map_of_prices(self@.take(i as int)),
                forall|k: int| 0 <= k < n ==> (#[trigger] self@[k]) == self.0@[k]@,
            decreases n - i,
        {
            proof {
                assert(self@.take(i + 1).drop_last() =~= self@.take(i as int));
                assert(self@.take(i + 1).last() == self@[i as int]);
            }
            let sym = crate::assets::AssetSymbol::parse(self.0[i].symbol.as_str());
            let price = self.0[i].duplicate();
            m.insert(sym, price);
            i = i + 1;
        }
        proof {
            assert(self@.take(n as int) =~= self@);
        }
        m
    }
}

// ---------------------------------------------------------------------------
// Extraction
// ---------------------------------------------------------------------------

/// Spec-level image of an `ExtractError`.
pub ghost enum ExtractErrorV {
    Pattern(Seq<char>),
    Parse(Seq<char>),
}

/// Why extraction failed: the template did not compile (the compiler's
/// message), or a captured numeric cell was rejected (the offending text).
pub enum ExtractError {
    Pattern(String),
    Parse(ParseError),
}

impl View for ExtractError {
    type V = ExtractErrorV;

    open spec fn view(&self) -> ExtractErrorV {
        match self {
            ExtractError::Pattern(s) => ExtractErrorV::Pattern(s@),
            ExtractError::Parse(p) => ExtractErrorV::Parse(p.text@),
        }
    }
}

/// One row's price: the named cells verbatim, the price text checked against
/// the floating-point grammar, the epoch parsed from its cell or defaulted to
/// `now`. An error carries the offending text (empty for a missing cell).
pub open spec fn build_row(row: RowV, now: u64) -> Result<MarketPriceV, Seq<char>> {
    match (row.symbol, row.asset, row.currency, row.price) {
        (Some(sym), Some(asset), Some(cur), Some(price)) => {
            if !is_f64_text(price) {
                Err(price)
            } else {
                match row.epoch {
                    None => Ok(
                        MarketPriceV {
                            symbol: sym,
                            asset: asset,
                            level: price,
                            currency: cur,
                            epoch: now,
                        },
                    ),
                    Some(es) => match u64_from_dec(es) {
                        Some(v) => Ok(
                            MarketPriceV {
                                symbol: sym,
                                asset: asset,
                                level: price,
                                currency: cur,
                                epoch: v,
                            },
                        ),
                        None => Err(es),
                    },
                }
            }
        },
        _ => Err(Seq::empty()),
    }
}

/// The prices of all rows in order; the first failing row's error wins.
pub open spec fn build_rows(rows: Seq<RowV>, now: u64) -> Result<Seq<MarketPriceV>, Seq<char>>
    decreases rows.len(),
{
    if rows.len() == 0 {
        Ok(Seq::empty())
    } else {
        match build_rows(rows.drop_last(), now) {
            Ok(front) => match build_row(rows.last(), now) {
                Ok(p) => Ok(front.push(p)),
                Err(e) => Err(e),
            },
            Err(e) => Err(e),
        }
    }
}

proof fn lemma_build_rows_err(rows: Seq<RowV>, now: u64, k: int)
    requires
        0 <= k <= rows.len(),
        build_rows(rows.take(k), now) is Err,
    ensures
        build_rows(rows, now) == build_rows(rows.take(k), now),
    decreases rows.len() - k,
{
    if k == rows.len() {
        assert(rows.take(k) =~= rows);
    } else {
        assert(rows.take(k + 1).drop_last() =~= rows.take(k));
        lemma_build_rows_err(rows, now, k + 1);
    }
}

/// What extraction means: the first template's rows if it yields any, else
/// the second's; their prices built row by row. A template that does not
/// compile fails extraction with its message.
pub open spec fn spec_extract(html: Seq<char>, now: u64) -> Result<Seq<MarketPriceV>, ExtractErrorV> {
    match rows_of(early_pattern_text(), html) {
        Err(e) => Err(ExtractErrorV::Pattern(e)),
        Ok(rows0) => {
            if rows0.len() > 0 {
                match build_rows(rows0, now) {
                    Ok(ps) => Ok(ps),
                    Err(t) => Err(ExtractErrorV::Parse(t)),
                }
            } else {
                match rows_of(pattern_20241117_text(), html) {
                    Err(e) => Err(ExtractErrorV::Pattern(e)),
                    Ok(rows1) => match build_rows(rows1, now) {
                        Ok(ps) => Ok(ps),
                        Err(t) => Err(ExtractErrorV::Parse(t)),
                    },
                }
            }
        },
    }
}

/// Build the prices of already-scraped rows.
fn build_prices(rows: &Vec<ScrapeRow>, now: u64) -> (r: Result<Vec<MarketPrice>, ParseError>)
    ensures
        r matches Ok(ps) ==> build_rows(row_views(rows@), now) == Ok::<Seq<MarketPriceV>, Seq<char>>(
            prices_views(ps@),
        ),
        r matches Err(e) ==> build_rows(row_views(rows@), now) matches Err(t) && e.text@ == t,
{
    let ghost rv = row_views(rows@);
    let n: usize = rows.len();
    let mut out: Vec<MarketPrice> = Vec::new();
    let mut i: usize = 0;
    proof {
        assert(rv.take(0) =~= Seq::<RowV>::empty());
        assert(prices_views(out@) =~= Seq::<MarketPriceV>::empty());
    }
    while i < n
        invariant
            0 <= i <= n,
            n == rows@.len(),
            rv == row_views(rows@),
            rv.len() == n,
            build_rows(rv.take(i as int), now) == Ok::<Seq<MarketPriceV>, Seq<char>>(
                prices_views(out@),
            ),
        decreases n - i,
    {
        proof {
            assert(rv.take(i + 1).drop_last() =~= rv.take(i as int));
            assert(rv.take(i + 1).last() == rv[i as int]);
            assert(rv[i as int] == rows@[i as int]@);
        }
        let row = &rows[i];
        let sym: &String = match &row.symbol {
            Some(s) => s,
            None => {
                proof {
                    assert(build_rows(rv.take(i + 1), now) == Err::<Seq<MarketPriceV>, Seq<char>>(
                        Seq::empty(),
                    ));
                    lemma_build_rows_err(rv, now, i + 1);
                }
                return Err(ParseError { text: String::new() });
            },
        };
        let asset: &String = match &row.asset {
            Some(s) => s,
            None => {
                proof {
                    assert(build_rows(rv.take(i + 1), now) == Err::<Seq<MarketPriceV>, Seq<char>>(
                        Seq::empty(),
                    ));
                    lemma_build_rows_err(rv, now, i + 1);
                }
                return Err(ParseError { text: String::new() });
            },
        };
        let cur: &String = match &row.currency {
            Some(s) => s,
            None => {
                proof {
                    assert(build_rows(rv.take(i + 1), now) == Err::<Seq<MarketPriceV>, Seq<char>>(
                        Seq::empty(),
                    ));
                    lemma_build_rows_err(rv, now, i + 1);
                }
                return Err(ParseError { text: String::new() });
            },
        };
        let price: &String = match &row.price {
            Some(s) => s,
            None => {
                proof {
                    assert(build_rows(rv.take(i + 1), now) == Err::<Seq<MarketPriceV>, Seq<char>>(
                        Seq::empty(),
                    ));
                    lemma_build_rows_err(rv, now, i + 1);
                }
                return Err(ParseError { text: String::new() });
            },
        };
        let level: Amount = match Amount::parse(price.as_str()) {
            Ok(a) => a,
            Err(pe) => {
                proof {
                    assert(build_rows(rv.take(i + 1), now) == Err::<Seq<MarketPriceV>, Seq<char>>(
                        price@,
                    ));
                    lemma_build_rows_err(rv, now, i + 1);
                }
                return Err(pe);
            },
        };
        let epoch: u64 = match &row.epoch {
            None => now,
            Some(es) => match parse_u64(es.as_str()) {
                Some(v) => v,
                None => {
                    proof {
                        assert(build_rows(rv.take(i + 1), now) == Err::<
                            Seq<MarketPriceV>,
                            Seq<char>,
                        >(es@));
                        lemma_build_rows_err(rv, now, i + 1);
                    }
                    return Err(ParseError { text: es.clone() });
                },
            },
        };
        let mp = MarketPrice {
            symbol: sym.clone(),
            asset: asset.clone(),
            level,
            currency: cur.clone(),
            epoch,
        };
        proof {
            assert(build_row(rv[i as int], now) == Ok::<MarketPriceV, Seq<char>>(mp@));
        }
        let ghost prev = out@;
        out.push(mp);
        proof {
            assert(prices_views(out@) =~= prices_views(prev).push(mp@));
            assert(build_rows(rv.take(i + 1), now) == Ok::<Seq<MarketPriceV>, Seq<char>>(
                prices_views(out@),
            ));
        }
        i = i + 1;
    }
    proof {
        assert(rv.take(n as int) =~= rv);
    }
    Ok(out)
}

pub open spec fn extract_result_view(r: Result<PriceList, ExtractError>) -> Result<
    Seq<MarketPriceV>,
    ExtractErrorV,
> {
    match r {
        Ok(pl) => Ok(pl@),
        Err(e) => Err(e@),
    }
}

/// Extract a price list from page text: the first template yielding any row
/// wins; no row at all is an empty list, not an error. Rows without a
/// timestamp cell get `now` as their epoch.
pub fn extract_with_now(html: &str, now: u64) -> (r: Result<PriceList, ExtractError>)
    ensures
        extract_result_view(r) == spec_extract(html@, now),
{
    let rows: Vec<ScrapeRow> = match scrape(early_pattern(), html) {
        Err(msg) => {
            return Err(ExtractError::Pattern(msg));
        },
        Ok(rows0) => {
            if rows0.len() > 0 {
                rows0
            } else {
                match scrape(pattern_20241117(), html) {
                    Err(msg) => {
                        return Err(ExtractError::Pattern(msg));
                    },
                    Ok(rows1) => rows1,
                }
            }
        },
    };
    match build_prices(&rows, now) {
        Ok(ps) => Ok(PriceList::from_vec(ps)),
        Err(pe) => Err(ExtractError::Parse(pe)),
    }
}

/// Extract a price list from page text, timestamping rows without a
/// timestamp cell with the wall clock at extraction: whatever the clock
/// read, the result is exactly `spec_extract` of the text at that reading.
pub fn price_list_from_summary(html: &str) -> (r: Result<PriceList, ExtractError>)
    ensures
        exists|now: u64| extract_result_view(r) == spec_extract(html@, now),
{
    let now: u64 = now_epoch();
    let r = extract_with_now(html, now);
    proof {
        assert(extract_result_view(r) == spec_extract(html@, now));
    }
    r
}

// ---------------------------------------------------------------------------
// Fetch coordination
// ---------------------------------------------------------------------------

proof fn lemma_contains_push<A>(s: Seq<A>, x: A, y: A)
    ensures
        s.push(x).contains(y) <==> (s.contains(y) || y == x),
{
    if s.push(x).contains(y) {
        let w = choose|w: int| 0 <= w < s.push(x).len() && s.push(x)[w] == y;
        if w < s.len() {
            assert(s[w] == y);
        }
    }
    if s.contains(y) {
        let w = choose|w: int| 0 <= w < s.len() && s[w] == y;
        assert(s.push(x)[w] == y);
    }
    if y == x {
        assert(s.push(x)[s.len() as int] == y);
    }
}

proof fn lemma_contains_insert<A>(s: Seq<A>, pos: int, x: A, y: A)
    requires
        0 <= pos <= s.len(),
    ensures
        s.insert(pos, x).contains(y) <==> (s.contains(y) || y == x),
{
    s.insert_ensures(pos, x);
    let t = s.insert(pos, x);
    if t.contains(y) {
        let w = choose|w: int| 0 <= w < t.len() && t[w] == y;
        if w < pos {
            assert(s[w] == y);
        } else if w > pos {
            assert(t[(w - 1) + 1] == s[w - 1]);
            assert(s[w - 1] == y);
        }
    }
    if s.contains(y) {
        let w = choose|w: int| 0 <= w < s.len() && s[w] == y;
        if w < pos {
            assert(t[w] == y);
        } else {
            assert(t[w + 1] == y);
        }
    }
    if y == x {
        assert(t[pos] == y);
    }
}

/// Strictly ascending in code-point order: sorted, with no duplicates.
pub open spec fn strictly_sorted(v: Seq<Seq<char>>) -> bool {
    forall|i: int, j: int| 0 <= i < j < v.len() ==> lex_lt(#[trigger] v[i], #[trigger] v[j])
}

/// Sort the requested symbols and drop duplicates: the normalized, minimal
/// request that makes the outbound query and its diagnostics deterministic.
pub fn normalize_symbols(symbols: &Vec<AssetSymbol>) -> (r: Vec<AssetSymbol>)
    ensures
        strictly_sorted(sym_views(r@)),
        forall|x: Seq<char>|
            #[trigger] sym_views(r@).contains(x) <==> sym_views(symbols@).contains(x),
{
    let n: usize = symbols.len();
    let mut out: Vec<AssetSymbol> = Vec::new();
    let mut i: usize = 0;
    proof {
        assert(sym_views(out@) =~= Seq::<Seq<char>>::empty());
        assert(sym_views(symbols@.take(0)) =~= Seq::<Seq<char>>::empty());
    }
    while i < n
        invariant
            0 <= i <= n,
            n == symbols@.len(),
            strictly_sorted(sym_views(out@)),
            forall|x: Seq<char>|
                #[trigger] sym_views(out@).contains(x) <==> sym_views(
                    symbols@.take(i as int),
                ).contains(x),
        decreases n - i,
    {
        let ghost ov = sym_views(out@);
        let ghost pv = sym_views(symbols@.take(i as int));
        proof {
            assert(sym_views(symbols@.take(i + 1)) =~= pv.push(symbols@[i as int]@));
        }
        let s = &symbols[i];
        let m: usize = out.len();
        let mut j: usize = 0;
        while j < m && !crate::text::str_le(s.as_str(), out[j].as_str())
            invariant
                0 <= j <= m,
                m == out@.len(),
                s@ == symbols@[i as int]@,
                strictly_sorted(sym_views(out@)),
                forall|k: int| 0 <= k < j ==> lex_lt(#[trigger] sym_views(out@)[k], s@),
            decreases m - j,
        {
            proof {
                crate::text::lemma_lex_le_total(s@, out@[j as int]@);
                assert(sym_views(out@)[j as int] == out@[j as int]@);
            }
            j = j + 1;
        }
        if j < m && out[j].eq(s) {
            proof {
                assert(sym_views(out@)[j as int] == s@);
                assert(sym_views(out@).contains(s@));
                assert forall|x: Seq<char>|
                    #[trigger] sym_views(out@).contains(x) <==> pv.push(s@).contains(x) by {
                    lemma_contains_push(pv, s@, x);
                }
            }
        } else {
            let dup = s.duplicate();
            let ghost sv = s@;
            if j < m {
                out.insert(j, dup);
            } else {
                out.push(dup);
            }
            proof {
                // views after insertion
                assert(sym_views(out@) =~= if (j as int) < ov.len() {
                    ov.insert(j as int, sv)
                } else {
                    ov.push(sv)
                });
                let nv = sym_views(out@);
                if (j as int) < ov.len() {
                    ov.insert_ensures(j as int, sv);
                    // strict order is kept around the insertion point
                    assert(lex_le(sv, ov[j as int]) && sv != ov[j as int]);
                    assert(lex_lt(sv, ov[j as int]));
                    assert forall|a: int, b: int|
                        0 <= a < b < nv.len() implies lex_lt(#[trigger] nv[a], #[trigger] nv[b]) by {
                        if b < j {
                            assert(nv[a] == ov[a] && nv[b] == ov[b]);
                        } else if b == j {
                            assert(nv[a] == ov[a] && nv[b] == sv);
                        } else if a < j {
                            assert(nv[a] == ov[a] && nv[b] == ov[b - 1]);
                            if a < b - 1 {
                            } else {
                            }
                        } else if a == j {
                            assert(nv[a] == sv && nv[b] == ov[b - 1]);
                            if b - 1 == j {
                            } else {
                                crate::text::lemma_lex_lt_trans(sv, ov[j as int], ov[b - 1]);
                            }
                        } else {
                            assert(nv[a] == ov[a - 1] && nv[b] == ov[b - 1]);
                        }
                    }
                    assert forall|x: Seq<char>|
                        #[trigger] nv.contains(x) <==> pv.push(sv).contains(x) by {
                        lemma_contains_insert(ov, j as int, sv, x);
                        lemma_contains_push(pv, sv, x);
                    }
                } else {
                    assert forall|a: int, b: int|
                        0 <= a < b < nv.len() implies lex_lt(#[trigger] nv[a], #[trigger] nv[b]) by {
                        if b < nv.len() - 1 {
                            assert(nv[a] == ov[a] && nv[b] == ov[b]);
                        } else {
                            assert(nv[b] == sv);
                            assert(lex_lt(ov[a], sv));
                        }
                    }
                    assert forall|x: Seq<char>|
                        #[trigger] nv.contains(x) <==> pv.push(sv).contains(x) by {
                        lemma_contains_push(ov, sv, x);
                        lemma_contains_push(pv, sv, x);
                    }
                }
            }
        }
        i = i + 1;
    }
    proof {
        assert(symbols@.take(n as int) =~= symbols@);
    }
    out
}

/// The quote page's address.
pub open spec fn url_prefix() -> Seq<char> {
    "https://finance.yahoo.com/quotes/"@
}

pub open spec fn url_suffix() -> Seq<char> {
    "/view/v1?ncid=yahooproperties_portfolios_pbody"@
}

/// The symbol texts joined with commas.
pub open spec fn joined_symbols(v: Seq<Seq<char>>) -> Seq<char>
    decreases v.len(),
{
    if v.len() == 0 {
        Seq::empty()
    } else if v.len() == 1 {
        v[0]
    } else {
        joined_symbols(v.drop_last()) + ","@ + v.last()
    }
}

/// The outbound request target for a symbol list: the quote page's URL with
/// the symbols comma-separated, in the order given.
pub fn quote_url(symbols: &Vec<AssetSymbol>) -> (r: String)
    ensures
        r@ == url_prefix() + joined_symbols(sym_views(symbols@)) + url_suffix(),
{
    let mut url = String::new();
    url.append("https://finance.yahoo.com/quotes/");
    let n: usize = symbols.len();
    let mut i: usize = 0;
    proof {
        assert(sym_views(symbols@.take(0)) =~= Seq::<Seq<char>>::empty());
        assert(url@ =~= url_prefix() + joined_symbols(sym_views(symbols@.take(0))));
    }
    while i < n
        invariant
            0 <= i <= n,
            n == symbols@.len(),
            url@ == url_prefix() + joined_symbols(sym_views(symbols@.take(i as int))),
        decreases n - i,
    {
        proof {
            assert(sym_views(symbols@.take(i + 1)).drop_last() =~= sym_views(
                symbols@.take(i as int),
            ));
            assert(sym_views(symbols@.take(i + 1)).last() == symbols@[i as int]@);
        }
        if i > 0 {
            url.append(",");
        }
        url.append(symbols[i].as_str());
        proof {
            assert(url@ =~= url_prefix() + joined_symbols(sym_views(symbols@.take(i + 1))));
        }
        i = i + 1;
    }
    url.append("/view/v1?ncid=yahooproperties_portfolios_pbody");
    proof {
        assert(symbols@.take(n as int) =~= symbols@);
        assert(url@ =~= url_prefix() + joined_symbols(sym_views(symbols@)) + url_suffix());
    }
    url
}

/// A fetched price list answered a different number of symbols than were
/// requested. Carries the full diagnostic payload: both counts, the
/// extracted symbols (normalized), the requested symbols, the request URL
/// and the raw page text.
pub struct CountMismatchError {
    pub got_len: usize,
    pub got_symbols: Vec<AssetSymbol>,
    pub expected_len: usize,
    pub expected_symbols: Vec<AssetSymbol>,
    pub url: String,
    pub text: String,
}

/// The normalized symbol of each price in a list.
pub open spec fn price_symbols(ps: Seq<MarketPriceV>) -> Seq<Seq<char>> {
    ps.map_values(|p: MarketPriceV| crate::text::upper_of(p.symbol))
}

/// Validate a fetched list against the deduplicated request: the number of
/// prices must equal the number of requested symbols, else the mismatch
/// fails loudly with diagnostics — a short list never passes silently.
pub fn check_price_count(
    prices: &PriceList,
    symbols: &Vec<AssetSymbol>,
    url: &str,
    text: &str,
) -> (r: Result<(), CountMismatchError>)
    ensures
        r is Ok <==> prices@.len() == symbols@.len(),
        r matches Err(e) ==> e.got_len == prices@.len() && e.expected_len == symbols@.len()
            && e.got_len != e.expected_len && strictly_sorted(sym_views(e.got_symbols@)) && (
        forall|x: Seq<char>|
            #[trigger] sym_views(e.got_symbols@).contains(x) <==> price_symbols(
                prices@,
            ).contains(x)) && sym_views(e.expected_symbols@) == sym_views(symbols@) && e.url@
            == url@ && e.text@ == text@,
{
    let got: usize = prices.len();
    let exp: usize = symbols.len();
    if got == exp {
        return Ok(());
    }
    let mut gs: Vec<AssetSymbol> = Vec::new();
    let mut i: usize = 0;
    while i < got
        invariant
            0 <= i <= got,
            got == prices@.len(),
            gs@.len() == i,
            forall|k: int|
                0 <= k < i ==> (#[trigger] gs@[k])@ == crate::text::upper_of(prices@[k].symbol),
        decreases got - i,
    {
        let p = prices.get(i);
        gs.push(AssetSymbol::parse(p.symbol.as_str()));
        i = i + 1;
    }
    proof {
        assert(sym_views(gs@) =~= price_symbols(prices@));
    }
    let got_symbols = normalize_symbols(&gs);
    let mut es: Vec<AssetSymbol> = Vec::new();
    let mut k: usize = 0;
    while k < exp
        invariant
            0 <= k <= exp,
            exp == symbols@.len(),
            es@.len() == k,
            forall|j: int| 0 <= j < k ==> (#[trigger] es@[j])@ == symbols@[j]@,
        decreases exp - k,
    {
        es.push(symbols[k].duplicate());
        k = k + 1;
    }
    proof {
        assert(sym_views(es@) =~= sym_views(symbols@));
    }
    Err(
        CountMismatchError {
            got_len: got,
            got_symbols,
            expected_len: exp,
            expected_symbols: es,
            url: url.to_owned(),
            text: text.to_owned(),
        },
    )
}

// ---------------------------------------------------------------------------
// Laws of extraction
// ---------------------------------------------------------------------------

/// Law: extraction is deterministic — the result is a function of the page
/// text and the clock reading alone, so two extractions of the same text
/// with the same reading agree.
pub proof fn lemma_extract_deterministic(
    html: Seq<char>,
    now: u64,
    r1: Result<Seq<MarketPriceV>, ExtractErrorV>,
    r2: Result<Seq<MarketPriceV>, ExtractErrorV>,
)
    requires
        r1 == spec_extract(html, now),
        r2 == spec_extract(html, now),
    ensures
        r1 == r2,
{
}

proof fn lemma_build_rows_ok_pointwise(rows: Seq<RowV>, now: u64, ps: Seq<MarketPriceV>)
    requires
        build_rows(rows, now) == Ok::<Seq<MarketPriceV>, Seq<char>>(ps),
    ensures
        ps.len() == rows.len(),
        forall|i: int|
            0 <= i < rows.len() ==> build_row(rows[i], now) == Ok::<MarketPriceV, Seq<char>>(
                ps[i],
            ),
    decreases rows.len(),
{
    if rows.len() > 0 {
        let front = build_rows(rows.drop_last(), now);
        assert(front is Ok);
        let fps = front->Ok_0;
        lemma_build_rows_ok_pointwise(rows.drop_last(), now, fps);
        assert(ps == fps.push(build_row(rows.last(), now)->Ok_0));
        assert forall|i: int|
            0 <= i < rows.len() implies build_row(rows[i], now) == Ok::<MarketPriceV, Seq<char>>(
            ps[i],
        ) by {
            if i < rows.len() - 1 {
                assert(rows.drop_last()[i] == rows[i]);
                assert(ps[i] == fps[i]);
            } else {
                assert(rows[i] == rows.last());
            }
        }
    }
}

/// Law: fallback correctness — when the first template yields no row and the
/// fallback template yields rows, a successful extraction builds its prices
/// from exactly those rows: one price per row, each taking its symbol from
/// the row's symbol cell, and each row without a timestamp capture getting
/// `now` as its epoch.
pub proof fn lemma_extract_fallback(
    html: Seq<char>,
    now: u64,
    rows: Seq<RowV>,
    ps: Seq<MarketPriceV>,
)
    requires
        rows_of(early_pattern_text(), html) matches Ok(r0) && r0.len() == 0,
        rows_of(pattern_20241117_text(), html) == Ok::<Seq<RowV>, Seq<char>>(rows),
        spec_extract(html, now) == Ok::<Seq<MarketPriceV>, ExtractErrorV>(ps),
    ensures
        build_rows(rows, now) == Ok::<Seq<MarketPriceV>, Seq<char>>(ps),
        ps.len() == rows.len(),
        forall|i: int|
            0 <= i < rows.len() ==> (rows[i].symbol matches Some(s) && (#[trigger] ps[i]).symbol
                == s),
        forall|i: int|
            0 <= i < rows.len() && rows[i].epoch is None ==> (#[trigger] ps[i]).epoch == now,
{
    assert(build_rows(rows, now) == Ok::<Seq<MarketPriceV>, Seq<char>>(ps));
    lemma_build_rows_ok_pointwise(rows, now, ps);
}

} // verus!
