use vstd::prelude::*;

use crate::assets::AssetSymbol;
use crate::text::upper_of;

verus! {

/// The symbols requested on the command line, already comma-split.
pub struct MarketArgs {
    pub symbols: Vec<String>,
}

/// How many matching lots to remove.
pub struct RemoveLotArgs {
    pub count: usize,
}

/// Parse every requested symbol. Symbol parsing is total, so the whole
/// request parses, in order.
pub fn parse_symbols(args: &MarketArgs) -> (r: Vec<AssetSymbol>)
    ensures
        r@.len() == args.symbols@.len(),
        forall|i: int|
            0 <= i < r@.len() ==> (#[trigger] r@[i])@ == upper_of(args.symbols@[i]@),
{
    let n: usize = args.symbols.len();
    let mut out: Vec<AssetSymbol> = Vec::new();
    let mut i: usize = 0;
    while i < n
        invariant
            0 <= i <= n,
            n == args.symbols@.len(),
            out@.len() == i,
            forall|k: int|
                0 <= k < i ==> (#[trigger] out@[k])@ == upper_of(args.symbols@[k]@),
        decreases n - i,
    {
        out.push(AssetSymbol::parse(args.symbols[i].as_str()));
        i = i + 1;
    }
    out
}

} // verus!
