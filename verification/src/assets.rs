use vstd::prelude::*;

use crate::text::{to_upper, trim, trim_spec, upper_of};

verus! {

// ---------------------------------------------------------------------------
// AssetSymbol
// ---------------------------------------------------------------------------

/// A normalized ticker symbol: always stored in upper case, whatever the case
/// of the input it was parsed from.
#[derive(Debug, Clone)]
pub struct AssetSymbol(String);

impl View for AssetSymbol {
    type V = Seq<char>;

    closed spec fn view(&self) -> Seq<char> {
        self.0@
    }
}

impl PartialEq for AssetSymbol {
    fn eq(&self, other: &AssetSymbol) -> (r: bool) {
        self.0 == other.0
    }
}

impl vstd::std_specs::cmp::PartialEqSpecImpl for AssetSymbol {
    open spec fn obeys_eq_spec() -> bool {
        true
    }

    open spec fn eq_spec(&self, other: &AssetSymbol) -> bool {
        self@ == other@
    }
}

impl AssetSymbol {
    /// Upper-case the input; never fails, whatever the input. Normalization
    /// is idempotent: the result is its own normalized form, so parsing a
    /// parsed symbol's text gives the same symbol.
    pub fn parse(text: &str) -> (r: AssetSymbol)
        ensures
            r@ == upper_of(text@),
            upper_of(r@) == r@,
    {
        AssetSymbol(to_upper(text))
    }

    /// Wrap already-normalized text verbatim, as the persisted form stores it.
    pub(crate) fn from_raw(text: String) -> (r: AssetSymbol)
        ensures
            r@ == text@,
    {
        AssetSymbol(text)
    }

    pub fn as_str(&self) -> (r: &str)
        ensures
            r@ == self@,
    {
        self.0.as_str()
    }

    pub fn duplicate(&self) -> (r: AssetSymbol)
        ensures
            r@ == self@,
    {
        AssetSymbol(self.0.clone())
    }
}

/// The texts of a sequence of symbols.
pub open spec fn sym_views(s: Seq<AssetSymbol>) -> Seq<Seq<char>> {
    s.map_values(|a: AssetSymbol| a@)
}

// ---------------------------------------------------------------------------
// AssetHost
// ---------------------------------------------------------------------------

/// A free-text custody-location label, trimmed of surrounding whitespace.
#[derive(Debug, Clone)]
pub struct AssetHost(String);

impl View for AssetHost {
    type V = Seq<char>;

    closed spec fn view(&self) -> Seq<char> {
        self.0@
    }
}

impl PartialEq for AssetHost {
    fn eq(&self, other: &AssetHost) -> (r: bool) {
        self.0 == other.0
    }
}

impl vstd::std_specs::cmp::PartialEqSpecImpl for AssetHost {
    open spec fn obeys_eq_spec() -> bool {
        true
    }

    open spec fn eq_spec(&self, other: &AssetHost) -> bool {
        self@ == other@
    }
}

impl AssetHost {
    /// Strip leading and trailing whitespace; never fails, whatever the input.
    pub fn parse(text: &str) -> (r: AssetHost)
        ensures
            r@ == trim_spec(text@),
    {
        AssetHost(trim(text))
    }

    /// Wrap already-trimmed text verbatim, as the persisted form stores it.
    pub(crate) fn from_raw(text: String) -> (r: AssetHost)
        ensures
            r@ == text@,
    {
        AssetHost(text)
    }

    pub fn as_str(&self) -> (r: &str)
        ensures
            r@ == self@,
    {
        self.0.as_str()
    }

    pub fn duplicate(&self) -> (r: AssetHost)
        ensures
            r@ == self@,
    {
        AssetHost(self.0.clone())
    }
}

impl Default for AssetHost {
    /// The label used when no custody host is given.
    fn default() -> (r: AssetHost)
        ensures
            r@ == "Left cheek"@,
    {
        AssetHost("Left cheek".to_owned())
    }
}

// ---------------------------------------------------------------------------
// Filters
// ---------------------------------------------------------------------------

/// Keeps either every asset, or exactly one symbol.
pub enum AssetFilter {
    Any,
    One(AssetSymbol),
}

impl AssetFilter {
    /// What the filter lets through, as a predicate on a symbol's text.
    pub open spec fn spec_pass(&self, v: Seq<char>) -> bool {
        match self {
            AssetFilter::Any => true,
            AssetFilter::One(f) => f@ == v,
        }
    }

    /// An absent or empty filter string keeps everything; any other string
    /// keeps exactly the symbol it parses to.
    pub fn new(value: &Option<String>) -> (r: AssetFilter)
        ensures
            value is None ==> r is Any,
            value matches Some(s) ==> if s@.len() == 0 {
                r is Any
            } else {
                r matches AssetFilter::One(f) && f@ == upper_of(s@)
            },
    {
        match value {
            Some(s) => {
                if s.as_str().is_empty() {
                    AssetFilter::Any
                } else {
                    AssetFilter::One(AssetSymbol::parse(s.as_str()))
                }
            },
            None => AssetFilter::Any,
        }
    }

    pub fn pass(&self, value: &AssetSymbol) -> (r: bool)
        ensures
            r == self.spec_pass(value@),
    {
        match self {
            AssetFilter::Any => true,
            AssetFilter::One(f) => f == value,
        }
    }
}

/// Keeps either every custody host, or exactly one label.
pub enum HostFilter {
    Any,
    One(AssetHost),
}

impl HostFilter {
    /// What the filter lets through, as a predicate on a host's text.
    pub open spec fn spec_pass(&self, v: Seq<char>) -> bool {
        match self {
            HostFilter::Any => true,
            HostFilter::One(f) => f@ == v,
        }
    }

    /// An absent or empty filter string keeps everything; any other string
    /// keeps exactly the host label it parses to.
    pub fn new(value: &Option<String>) -> (r: HostFilter)
        ensures
            value is None ==> r is Any,
            value matches Some(s) ==> if s@.len() == 0 {
                r is Any
            } else {
                r matches HostFilter::One(f) && f@ == trim_spec(s@)
            },
    {
        match value {
            Some(s) => {
                if s.as_str().is_empty() {
                    HostFilter::Any
                } else {
                    HostFilter::One(AssetHost::parse(s.as_str()))
                }
            },
            None => HostFilter::Any,
        }
    }

    pub fn pass(&self, value: &AssetHost) -> (r: bool)
        ensures
            r == self.spec_pass(value@),
    {
        match self {
            HostFilter::Any => true,
            HostFilter::One(f) => f == value,
        }
    }
}

} // verus!
