use vstd::prelude::*;

use crate::amount::Amount;
use crate::assets::{AssetFilter, AssetHost, AssetSymbol, HostFilter};
use crate::clock::now_epoch;

verus! {

// ---------------------------------------------------------------------------
// Basis and Lot
// ---------------------------------------------------------------------------

/// Spec-level image of a `Basis`.
pub ghost struct BasisV {
    pub cost: Seq<char>,
    pub count: Seq<char>,
    pub time: u64,
    pub host: Seq<char>,
}

/// The immutable record of an acquisition: price paid, quantity at
/// acquisition time, the time itself (seconds since the Unix epoch), and the
/// custody host, captured redundantly with the lot's.
#[derive(Debug, Clone)]
pub struct Basis {
    pub cost: Amount,
    pub count: Amount,
    pub time: u64,
    pub host: AssetHost,
}

impl View for Basis {
    type V = BasisV;

    open spec fn view(&self) -> BasisV {
        BasisV { cost: self.cost@, count: self.count@, time: self.time, host: self.host@ }
    }
}

impl Basis {
    pub fn duplicate(&self) -> (r: Basis)
        ensures
            r@ == self@,
    {
        Basis {
            cost: self.cost.duplicate(),
            count: self.count.duplicate(),
            time: self.time,
            host: self.host.duplicate(),
        }
    }
}

/// Spec-level image of a `Lot`.
pub ghost struct LotV {
    pub asset: Seq<char>,
    pub size: Seq<char>,
    pub basis: BasisV,
    pub host: Seq<char>,
}

/// One purchased quantity of one asset, owned by the ledger under a unique id.
#[derive(Debug, Clone)]
pub struct Lot {
    pub asset: AssetSymbol,
    pub size: Amount,
    pub basis: Basis,
    pub host: AssetHost,
}

impl View for Lot {
    type V = LotV;

    open spec fn view(&self) -> LotV {
        LotV { asset: self.asset@, size: self.size@, basis: self.basis@, host: self.host@ }
    }
}

impl Lot {
    pub fn duplicate(&self) -> (r: Lot)
        ensures
            r@ == self@,
    {
        Lot {
            asset: self.asset.duplicate(),
            size: self.size.duplicate(),
            basis: self.basis.duplicate(),
            host: self.host.duplicate(),
        }
    }
}

/// The monetary texts of a lot lie in the floating-point grammar, as every
/// lot the library builds or decodes has them.
pub open spec fn lot_texts_wf(l: LotV) -> bool {
    crate::amount::is_f64_text(l.size) && crate::amount::is_f64_text(l.basis.cost)
        && crate::amount::is_f64_text(l.basis.count)
}

/// A well-formed ledger image: ids strictly increasing and within the
/// counter, every lot's monetary texts in the floating-point grammar.
pub open spec fn stash_v_wf(sv: StashV) -> bool {
    (forall|i: int, j: int|
        0 <= i < j < sv.lots.len() ==> (#[trigger] sv.lots[i]).0 < (#[trigger] sv.lots[j]).0)
        && (forall|i: int|
        0 <= i < sv.lots.len() ==> 1 <= (#[trigger] sv.lots[i]).0 <= sv.max_lot_id) && (forall|
        i: int,
    |
        0 <= i < sv.lots.len() ==> lot_texts_wf((#[trigger] sv.lots[i]).1))
}

/// A valuation was asked for an asset the price map does not quote.
pub struct MissingPriceError {
    pub asset: AssetSymbol,
}

impl Lot {
    /// The (size, price level) texts for this lot against a price map, or
    /// the asset the map misses. The numeric product is the caller's.
    pub fn value_term(&self, prices: &crate::yf::PriceMap) -> (r: Result<
        (Amount, Amount),
        MissingPriceError,
    >)
        ensures
            r is Ok <==> prices@.contains_key(self@.asset),
            r matches Ok(t) ==> t.0@ == self@.size && t.1@ == prices@[self@.asset].level,
            r matches Err(e) ==> e.asset@ == self@.asset && !prices@.contains_key(self@.asset),
    {
        match prices.get(&self.asset) {
            Some(p) => Ok((self.size.duplicate(), p.level.duplicate())),
            None => Err(MissingPriceError { asset: self.asset.duplicate() }),
        }
    }
}

// ---------------------------------------------------------------------------
// Stash
// ---------------------------------------------------------------------------

/// Spec-level image of a `Stash`.
pub ghost struct StashV {
    pub max_lot_id: u64,
    pub lots: Seq<(u64, LotV)>,
}

/// The ledger: a monotonic id counter and the lots keyed by id, kept in
/// ascending id order. Ids are never reused, even after removal.
#[derive(Debug, Clone)]
pub struct Stash {
    max_lot_id: u64,
    lots: Vec<(u64, Lot)>,
}

impl View for Stash {
    type V = StashV;

    closed spec fn view(&self) -> StashV {
        StashV {
            max_lot_id: self.max_lot_id,
            lots: self.lots@.map_values(|p: (u64, Lot)| (p.0, p.1@)),
        }
    }
}

impl Stash {
    /// Ids are strictly increasing (so unique, and iteration is id-ordered),
    /// and every id lies between 1 and the counter.
    pub open spec fn wf(&self) -> bool {
        let l = self@.lots;
        (forall|i: int, j: int|
            0 <= i < j < l.len() ==> (#[trigger] l[i]).0 < (#[trigger] l[j]).0) && (forall|i: int|
            0 <= i < l.len() ==> 1 <= (#[trigger] l[i]).0 <= self@.max_lot_id)
    }

    pub fn new() -> (r: Stash)
        ensures
            r.wf(),
            r@.max_lot_id == 0,
            r@.lots.len() == 0,
    {
        Stash { max_lot_id: 0, lots: Vec::new() }
    }

    pub fn max_lot_id(&self) -> (r: u64)
        ensures
            r == self@.max_lot_id,
    {
        self.max_lot_id
    }

    /// Borrow the lots, in ascending id order.
    pub fn lots(&self) -> (r: &Vec<(u64, Lot)>)
        ensures
            Self::pair_views(r@) == self@.lots,
    {
        &self.lots
    }

    /// Rebuild a ledger from decoded parts; private so that only paths that
    /// establish the invariant can construct one.
    pub(crate) fn from_parts(max_lot_id: u64, lots: Vec<(u64, Lot)>) -> (r: Stash)
        requires
            forall|i: int, j: int|
                0 <= i < j < lots@.len() ==> (#[trigger] lots@[i]).0 < (#[trigger] lots@[j]).0,
            forall|i: int| 0 <= i < lots@.len() ==> 1 <= (#[trigger] lots@[i]).0 <= max_lot_id,
        ensures
            r.wf(),
            r@.max_lot_id == max_lot_id,
            r@.lots == Self::pair_views(lots@),
    {
        let r = Stash { max_lot_id, lots };
        proof {
            assert(forall|i: int|
                0 <= i < r@.lots.len() ==> (#[trigger] r@.lots[i]).0 == r.lots@[i].0);
        }
        r
    }

    pub open spec fn pair_views(v: Seq<(u64, Lot)>) -> Seq<(u64, LotV)> {
        v.map_values(|p: (u64, Lot)| (p.0, p.1@))
    }

    /// Insert a new lot under id `max_lot_id + 1` with the given acquisition
    /// time, and advance the counter. The basis mirrors the size as its count.
    pub fn add_lot_at(
        &mut self,
        asset: AssetSymbol,
        size: Amount,
        cost: Amount,
        host: AssetHost,
        time: u64,
    )
        requires
            old(self).wf(),
            old(self)@.max_lot_id < u64::MAX,
        ensures
            final (self).wf(),
            final (self)@.max_lot_id == old(self)@.max_lot_id + 1,
            final (self)@.lots == old(self)@.lots.push(
                (
                    (old(self)@.max_lot_id + 1) as u64,
                    LotV {
                        asset: asset@,
                        size: size@,
                        basis: BasisV { cost: cost@, count: size@, time: time, host: host@ },
                        host: host@,
                    },
                ),
            ),
    {
        let next_id: u64 = self.max_lot_id + 1;
        let basis = Basis { cost, count: size.duplicate(), time, host: host.duplicate() };
        let lot = Lot { asset, size, basis, host };
        self.lots.push((next_id, lot));
        self.max_lot_id = next_id;
        proof {
            assert(self@.lots =~= old(self)@.lots.push(
                (
                    next_id,
                    LotV {
                        asset: lot.asset@,
                        size: lot.size@,
                        basis: BasisV {
                            cost: lot.basis.cost@,
                            count: lot.basis.count@,
                            time: time,
                            host: lot.basis.host@,
                        },
                        host: lot.host@,
                    },
                ),
            ));
            assert forall|i: int, j: int|
                0 <= i < j < self@.lots.len() implies self@.lots[i].0 < self@.lots[j].0 by {
                if j < self@.lots.len() - 1 {
                    assert(old(self)@.lots[i].0 < old(self)@.lots[j].0);
                } else {
                    assert(old(self).wf());
                    if i < self@.lots.len() - 1 {
                        assert(old(self)@.lots[i].0 <= old(self)@.max_lot_id);
                    }
                }
            }
        }
    }

    /// Insert a new lot timestamped with the wall clock now. The new entry's
    /// id, asset, size, cost, count and host are pinned; only the time comes
    /// from the clock.
    pub fn add_lot(&mut self, asset: AssetSymbol, size: Amount, cost: Amount, host: AssetHost)
        requires
            old(self).wf(),
            old(self)@.max_lot_id < u64::MAX,
        ensures
            final (self).wf(),
            final (self)@.max_lot_id == old(self)@.max_lot_id + 1,
            final (self)@.lots.len() == old(self)@.lots.len() + 1,
            final (self)@.lots.take(old(self)@.lots.len() as int) == old(self)@.lots,
            final (self)@.lots.last().0 == old(self)@.max_lot_id + 1,
            final (self)@.lots.last().1.asset == asset@,
            final (self)@.lots.last().1.size == size@,
            final (self)@.lots.last().1.basis.cost == cost@,
            final (self)@.lots.last().1.basis.count == size@,
            final (self)@.lots.last().1.basis.host == host@,
            final (self)@.lots.last().1.host == host@,
    {
        let time: u64 = now_epoch();
        self.add_lot_at(asset, size, cost, host, time);
        proof {
            assert(self@.lots.take(old(self)@.lots.len() as int) =~= old(self)@.lots);
        }
    }

    pub open spec fn spec_has_id(l: Seq<(u64, LotV)>, id: u64) -> bool {
        exists|i: int| 0 <= i < l.len() && l[i].0 == id
    }

    pub open spec fn spec_idx_of(l: Seq<(u64, LotV)>, id: u64) -> int {
        choose|i: int| 0 <= i < l.len() && l[i].0 == id
    }

    /// Remove and return the lot stored under `id`; an absent id is a no-op
    /// yielding `None`, not an error. The counter never moves.
    pub fn remove_lot(&mut self, id: u64) -> (r: Option<Lot>)
        requires
            old(self).wf(),
        ensures
            final (self).wf(),
            final (self)@.max_lot_id == old(self)@.max_lot_id,
            Self::spec_has_id(old(self)@.lots, id) ==> {
                let i = Self::spec_idx_of(old(self)@.lots, id);
                r matches Some(lot) && lot@ == old(self)@.lots[i].1 && final (self)@.lots == old(
                    self,
                )@.lots.remove(i)
            },
            !Self::spec_has_id(old(self)@.lots, id) ==> r is None && final (self)@.lots == old(
                self,
            )@.lots,
    {
        let n: usize = self.lots.len();
        let mut i: usize = 0;
        while i < n
            invariant
                0 <= i <= n,
                n == self.lots@.len(),
                *self == *old(self),
                old(self).wf(),
                forall|k: int| 0 <= k < i ==> (#[trigger] self@.lots[k]).0 != id,
            decreases n - i,
        {
            if self.lots[i].0 == id {
                proof {
                    assert(old(self)@.lots[i as int].0 == id);
                }
                let (_found_id, lot) = self.lots.remove(i);
                proof {
                    let l = old(self)@.lots;
                    l.remove_ensures(i as int);
                    assert(Self::spec_has_id(l, id));
                    let ci = Self::spec_idx_of(l, id);
                    assert(0 <= ci < l.len() && l[ci].0 == id);
                    assert(ci == i) by {
                        if ci < i {
                            assert(l[ci].0 < l[i as int].0);
                        }
                        if ci > i {
                            assert(l[i as int].0 < l[ci].0);
                        }
                    }
                    assert(self@.lots =~= l.remove(i as int)) by {
                        assert forall|k: int|
                            0 <= k < self@.lots.len() implies self@.lots[k] == l.remove(
                            i as int,
                        )[k] by {
                            assert(self@.lots[k] == (self.lots@[k].0, self.lots@[k].1@));
                            if k < i {
                                assert(self.lots@[k] == old(self).lots@[k]);
                                assert(l.remove(i as int)[k] == l[k]);
                            } else {
                                assert(self.lots@[k] == old(self).lots@[k + 1]);
                                assert(l.remove(i as int)[k] == l[k + 1]);
                            }
                        }
                    }
                    assert forall|a: int, b: int|
                        0 <= a < b < self@.lots.len() implies (#[trigger] self@.lots[a]).0 < (
                    #[trigger] self@.lots[b]).0 by {
                        if b < i {
                            assert(l[a].0 < l[b].0);
                        } else if a < i {
                            assert(l[a].0 < l[b + 1].0);
                        } else {
                            assert(l[a + 1].0 < l[b + 1].0);
                        }
                    }
                }
                return Some(lot);
            }
            i = i + 1;
        }
        proof {
            assert(!Self::spec_has_id(old(self)@.lots, id));
        }
        None
    }

    // -----------------------------------------------------------------------
    // Queries
    // -----------------------------------------------------------------------

    pub open spec fn lot_assets(l: Seq<(u64, LotV)>) -> Seq<Seq<char>> {
        l.map_values(|p: (u64, LotV)| p.1.asset)
    }

    /// Adjacent-duplicate removal, as `Vec::dedup` performs it: a repeat is
    /// dropped only when it immediately follows its equal.
    pub open spec fn adj_dedup(s: Seq<Seq<char>>) -> Seq<Seq<char>>
        decreases s.len(),
    {
        if s.len() == 0 {
            Seq::empty()
        } else {
            let rest = Self::adj_dedup(s.drop_last());
            if rest.len() > 0 && rest.last() == s.last() {
                rest
            } else {
                rest.push(s.last())
            }
        }
    }

    /// The assets held, in first-seen (id-ascending) order, with adjacent
    /// repeats removed. Interleaved repeats are kept, as the id-order dedup
    /// of the ledger has it.
    pub fn assets(&self) -> (r: Vec<AssetSymbol>)
        ensures
            crate::assets::sym_views(r@) == Self::adj_dedup(Self::lot_assets(self@.lots)),
    {
        let ghost aseq = Self::lot_assets(self@.lots);
        let mut out: Vec<AssetSymbol> = Vec::new();
        let n: usize = self.lots.len();
        let mut i: usize = 0;
        while i < n
            invariant
                0 <= i <= n,
                n == self.lots@.len(),
                aseq == Self::lot_assets(self@.lots),
                aseq.len() == n,
                crate::assets::sym_views(out@) == Self::adj_dedup(aseq.take(i as int)),
            decreases n - i,
        {
            proof {
                assert(aseq[i as int] == self@.lots[i as int].1.asset);
                assert(aseq.take(i + 1).drop_last() =~= aseq.take(i as int));
                assert(aseq.take(i + 1).last() == aseq[i as int]);
            }
            let cur = &self.lots[i].1.asset;
            let push_it: bool = if out.len() == 0 {
                true
            } else {
                let k: usize = out.len() - 1;
                let same: bool = out[k].eq(cur);
                proof {
                    assert(crate::assets::sym_views(out@)[k as int] == out@[k as int]@);
                }
                !same
            };
            if push_it {
                out.push(cur.duplicate());
                proof {
                    assert(crate::assets::sym_views(out@) =~= Self::adj_dedup(aseq.take(i + 1)));
                }
            } else {
                proof {
                    assert(crate::assets::sym_views(out@) =~= Self::adj_dedup(aseq.take(i + 1)));
                }
            }
            i = i + 1;
        }
        proof {
            assert(aseq.take(n as int) =~= aseq);
        }
        out
    }

    /// The lots that pass both filters, in the order they sit in the ledger.
    pub open spec fn filtered_lots(l: Seq<(u64, LotV)>, af: AssetFilter, hf: HostFilter) -> Seq<
        (u64, LotV),
    >
        decreases l.len(),
    {
        if l.len() == 0 {
            Seq::empty()
        } else {
            let rest = Self::filtered_lots(l.drop_last(), af, hf);
            if af.spec_pass(l.last().1.asset) && hf.spec_pass(l.last().1.host) {
                rest.push(l.last())
            } else {
                rest
            }
        }
    }

    /// The lots whose asset passes `asset_filter` and whose host passes
    /// `host_filter` (both must pass), with their ids, in ascending id order.
    pub fn to_lots(&self, asset_filter: &AssetFilter, host_filter: &HostFilter) -> (r: Vec<
        (u64, Lot),
    >)
        ensures
            Self::pair_views(r@) == Self::filtered_lots(
                self@.lots,
                *asset_filter,
                *host_filter,
            ),
    {
        let ghost l = self@.lots;
        let mut out: Vec<(u64, Lot)> = Vec::new();
        let n: usize = self.lots.len();
        let mut i: usize = 0;
        while i < n
            invariant
                0 <= i <= n,
                n == self.lots@.len(),
                l == self@.lots,
                l.len() == n,
                Self::pair_views(out@) == Self::filtered_lots(
                    l.take(i as int),
                    *asset_filter,
                    *host_filter,
                ),
            decreases n - i,
        {
            proof {
                assert(l.take(i + 1).drop_last() =~= l.take(i as int));
                assert(l.take(i + 1).last() == l[i as int]);
                assert(l[i as int] == (self.lots@[i as int].0, self.lots@[i as int].1@));
            }
            let entry = &self.lots[i];
            if asset_filter.pass(&entry.1.asset) && host_filter.pass(&entry.1.host) {
                out.push((entry.0, entry.1.duplicate()));
                proof {
                    assert(Self::pair_views(out@) =~= Self::filtered_lots(
                        l.take(i + 1),
                        *asset_filter,
                        *host_filter,
                    ));
                }
            } else {
                proof {
                    assert(Self::pair_views(out@) =~= Self::filtered_lots(
                        l.take(i + 1),
                        *asset_filter,
                        *host_filter,
                    ));
                }
            }
            i = i + 1;
        }
        proof {
            assert(l.take(n as int) =~= l);
        }
        out
    }

    /// Index of the first lot whose asset the price map misses.
    pub open spec fn first_missing(
        l: Seq<(u64, LotV)>,
        m: Map<Seq<char>, crate::yf::MarketPriceV>,
    ) -> int
        decreases l.len(),
    {
        if l.len() == 0 {
            0
        } else if !m.contains_key(l[0].1.asset) {
            0
        } else {
            1 + Self::first_missing(l.drop_first(), m)
        }
    }

    proof fn lemma_first_missing_at(
        l: Seq<(u64, LotV)>,
        m: Map<Seq<char>, crate::yf::MarketPriceV>,
        j: int,
    )
        requires
            0 <= j < l.len(),
            forall|k: int| 0 <= k < j ==> m.contains_key((#[trigger] l[k]).1.asset),
            !m.contains_key(l[j].1.asset),
        ensures
            Self::first_missing(l, m) == j,
        decreases l.len(),
    {
        if j == 0 {
        } else {
            assert(m.contains_key(l[0].1.asset));
            let t = l.drop_first();
            assert forall|k: int| 0 <= k < j - 1 implies m.contains_key(
                (#[trigger] t[k]).1.asset,
            ) by {
                assert(t[k] == l[k + 1]);
            }
            assert(t[j - 1] == l[j]);
            Self::lemma_first_missing_at(t, m, j - 1);
        }
    }

    /// The (size, price level) text pairs for every lot in the ledger, in id
    /// order, or the first held asset the price map does not quote:
    /// valuation is all-or-nothing, never a partial sum.
    pub fn value_terms(&self, prices: &crate::yf::PriceMap) -> (r: Result<
        Vec<(Amount, Amount)>,
        MissingPriceError,
    >)
        ensures
            r is Ok <==> (forall|i: int|
                0 <= i < self@.lots.len() ==> prices@.contains_key(
                    (#[trigger] self@.lots[i]).1.asset,
                )),
            r matches Ok(terms) ==> terms@.len() == self@.lots.len() && (forall|i: int|
                0 <= i < terms@.len() ==> (#[trigger] terms@[i]).0@ == self@.lots[i].1.size
                    && terms@[i].1@ == prices@[self@.lots[i].1.asset].level),
            r matches Err(e) ==> {
                let fm = Self::first_missing(self@.lots, prices@);
                0 <= fm < self@.lots.len() && e.asset@ == self@.lots[fm].1.asset
                    && !prices@.contains_key(self@.lots[fm].1.asset)
            },
    {
        let n: usize = self.lots.len();
        let mut out: Vec<(Amount, Amount)> = Vec::new();
        let mut i: usize = 0;
        while i < n
            invariant
                0 <= i <= n,
                n == self.lots@.len(),
                self@.lots.len() == n,
                out@.len() == i,
                forall|k: int|
                    0 <= k < i ==> prices@.contains_key((#[trigger] self@.lots[k]).1.asset),
                forall|k: int|
                    0 <= k < i ==> (#[trigger] out@[k]).0@ == self@.lots[k].1.size && out@[k].1@
                        == prices@[self@.lots[k].1.asset].level,
            decreases n - i,
        {
            proof {
                assert(self@.lots[i as int] == (self.lots@[i as int].0, self.lots@[i as int].1@));
            }
            match self.lots[i].1.value_term(prices) {
                Ok(t) => {
                    out.push(t);
                },
                Err(e) => {
                    proof {
                        Self::lemma_first_missing_at(self@.lots, prices@, i as int);
                    }
                    return Err(e);
                },
            }
            i = i + 1;
        }
        Ok(out)
    }

    /// Law: no two lots ever share an id — the ids in a well-formed ledger
    /// are pairwise distinct, whatever sequence of insertions and removals
    /// produced it.
    pub proof fn lemma_ids_unique(&self)
        requires
            self.wf(),
        ensures
            forall|i: int, j: int|
                0 <= i < self@.lots.len() && 0 <= j < self@.lots.len() && i != j
                    ==> self@.lots[i].0 != self@.lots[j].0,
    {
        assert forall|i: int, j: int|
            0 <= i < self@.lots.len() && 0 <= j < self@.lots.len() && i != j
            implies self@.lots[i].0 != self@.lots[j].0 by {
            if i < j {
                assert(self@.lots[i].0 < self@.lots[j].0);
            } else {
                assert(self@.lots[j].0 < self@.lots[i].0);
            }
        }
    }

    /// Law: a pass-all filter pair keeps every lot — filtering with two
    /// `Any` filters is the identity, so `to_lots` then returns all lots in
    /// ascending id order.
    pub proof fn lemma_filtered_lots_any(l: Seq<(u64, LotV)>)
        ensures
            Self::filtered_lots(l, AssetFilter::Any, HostFilter::Any) == l,
        decreases l.len(),
    {
        if l.len() == 0 {
            assert(Self::filtered_lots(l, AssetFilter::Any, HostFilter::Any) =~= l);
        } else {
            Self::lemma_filtered_lots_any(l.drop_last());
            assert(Self::filtered_lots(l, AssetFilter::Any, HostFilter::Any) =~= l.drop_last().push(
                l.last(),
            ));
            assert(l.drop_last().push(l.last()) =~= l);
        }
    }

    /// Law: filter composition — a lot appears in the filtered view exactly
    /// when it sits in the ledger and passes both filters.
    pub proof fn lemma_filtered_lots_exact(
        l: Seq<(u64, LotV)>,
        af: AssetFilter,
        hf: HostFilter,
        p: (u64, LotV),
    )
        ensures
            Self::filtered_lots(l, af, hf).contains(p) <==> (l.contains(p) && af.spec_pass(
                p.1.asset,
            ) && hf.spec_pass(p.1.host)),
        decreases l.len(),
    {
        if l.len() == 0 {
        } else {
            Self::lemma_filtered_lots_exact(l.drop_last(), af, hf, p);
            let rest = Self::filtered_lots(l.drop_last(), af, hf);
            let kept = af.spec_pass(l.last().1.asset) && hf.spec_pass(l.last().1.host);
            assert(l.contains(p) <==> (l.drop_last().contains(p) || p == l.last())) by {
                if l.contains(p) {
                    let w = choose|w: int| 0 <= w < l.len() && l[w] == p;
                    if w < l.len() - 1 {
                        assert(l.drop_last()[w] == p);
                    }
                }
                if l.drop_last().contains(p) {
                    let w = choose|w: int| 0 <= w < l.drop_last().len() && l.drop_last()[w] == p;
                    assert(l[w] == p);
                }
                if p == l.last() {
                    assert(l[l.len() - 1] == p);
                }
            }
            if kept {
                assert(Self::filtered_lots(l, af, hf) == rest.push(l.last()));
                assert(rest.push(l.last()).contains(p) <==> (rest.contains(p) || p == l.last()))
                    by {
                    if rest.push(l.last()).contains(p) {
                        let w = choose|w: int|
                            0 <= w < rest.push(l.last()).len() && rest.push(l.last())[w] == p;
                        if w < rest.len() {
                            assert(rest[w] == p);
                        }
                    }
                    if rest.contains(p) {
                        let w = choose|w: int| 0 <= w < rest.len() && rest[w] == p;
                        assert(rest.push(l.last())[w] == p);
                    }
                    if p == l.last() {
                        assert(rest.push(l.last())[rest.len() as int] == p);
                    }
                }
            }
        }
    }
}

/// Reorder lots by asset text for display: ascending by symbol, keeping
/// exactly the given lots. The selection takes the first-found minimum, so
/// equal-asset lots come out in their given order, though the contract
/// states only the ordering and the kept multiset.
pub fn sort_lots_by_asset(lots: Vec<(u64, Lot)>) -> (r: Vec<(u64, Lot)>)
    ensures
        r@.to_multiset() == lots@.to_multiset(),
        r@.len() == lots@.len(),
        forall|i: int, j: int|
            0 <= i < j < r@.len() ==> crate::text::lex_le(
                (#[trigger] r@[i]).1.asset@,
                (#[trigger] r@[j]).1.asset@,
            ),
{
    let ghost orig = lots@;
    let mut rem = lots;
    let mut out: Vec<(u64, Lot)> = Vec::new();
    proof {
        out@.to_multiset_ensures();
        rem@.to_multiset_ensures();
        assert(out@.to_multiset().add(rem@.to_multiset()) =~= orig.to_multiset());
    }
    while rem.len() > 0
        invariant
            out@.to_multiset().add(rem@.to_multiset()) == orig.to_multiset(),
            out@.len() + rem@.len() == orig.len(),
            forall|i: int, j: int|
                0 <= i < j < out@.len() ==> crate::text::lex_le(
                    (#[trigger] out@[i]).1.asset@,
                    (#[trigger] out@[j]).1.asset@,
                ),
            forall|i: int, j: int|
                0 <= i < out@.len() && 0 <= j < rem@.len() ==> crate::text::lex_le(
                    (#[trigger] out@[i]).1.asset@,
                    (#[trigger] rem@[j]).1.asset@,
                ),
        decreases rem@.len(),
    {
        let n: usize = rem.len();
        let mut mi: usize = 0;
        let mut k: usize = 1;
        proof {
            crate::text::lemma_lex_le_refl(rem@[0].1.asset@);
        }
        while k < n
            invariant
                0 <= mi < k <= n,
                n == rem@.len(),
                forall|t: int|
                    0 <= t < k ==> crate::text::lex_le(
                        rem@[mi as int].1.asset@,
                        (#[trigger] rem@[t]).1.asset@,
                    ),
            decreases n - k,
        {
            if !crate::text::str_le(rem[mi].1.asset.as_str(), rem[k].1.asset.as_str()) {
                proof {
                    crate::text::lemma_lex_le_total(rem@[mi as int].1.asset@, rem@[k as int].1.asset@);
                }
                let ghost prev_mi = mi as int;
                mi = k;
                proof {
                    assert forall|t: int|
                        0 <= t < k + 1 implies crate::text::lex_le(
                        rem@[mi as int].1.asset@,
                        (#[trigger] rem@[t]).1.asset@,
                    ) by {
                        if t < k {
                            crate::text::lemma_lex_le_trans(
                                rem@[mi as int].1.asset@,
                                rem@[prev_mi].1.asset@,
                                rem@[t].1.asset@,
                            );
                        } else {
                            crate::text::lemma_lex_le_refl(rem@[mi as int].1.asset@);
                        }
                    }
                }
            }
            k = k + 1;
        }
        let ghost prev_rem = rem@;
        let ghost prev_out = out@;
        let e = rem.remove(mi);
        out.push(e);
        proof {
            prev_rem.to_multiset_ensures();
            prev_out.to_multiset_ensures();
            prev_rem.remove_ensures(mi as int);
            assert(rem@.to_multiset() == prev_rem.to_multiset().remove(e));
            assert(out@.to_multiset() == prev_out.to_multiset().insert(e));
            assert(prev_rem.contains(e)) by {
                assert(prev_rem[mi as int] == e);
            }
            assert(prev_rem.to_multiset().count(e) > 0);
            assert(out@.to_multiset().add(rem@.to_multiset()) =~= prev_out.to_multiset().add(
                prev_rem.to_multiset(),
            ));
            assert forall|i: int, j: int|
                0 <= i < out@.len() && 0 <= j < rem@.len() implies crate::text::lex_le(
                (#[trigger] out@[i]).1.asset@,
                (#[trigger] rem@[j]).1.asset@,
            ) by {
                let pj = if j < mi {
                    j
                } else {
                    j + 1
                };
                assert(rem@[j] == prev_rem[pj]);
                if i < out@.len() - 1 {
                    assert(out@[i] == prev_out[i]);
                } else {
                    assert(out@[i] == e);
                }
            }
            assert forall|i: int, j: int|
                0 <= i < j < out@.len() implies crate::text::lex_le(
                (#[trigger] out@[i]).1.asset@,
                (#[trigger] out@[j]).1.asset@,
            ) by {
                if j < out@.len() - 1 {
                    assert(out@[i] == prev_out[i] && out@[j] == prev_out[j]);
                } else {
                    assert(out@[i] == prev_out[i]);
                    assert(out@[j] == e);
                    assert(prev_rem[mi as int] == e);
                }
            }
        }
    }
    proof {
        rem@.to_multiset_ensures();
        assert(rem@.to_multiset() =~= vstd::multiset::Multiset::<(u64, Lot)>::empty());
        assert(out@.to_multiset().add(vstd::multiset::Multiset::<(u64, Lot)>::empty()) =~= out@.to_multiset());
        out@.to_multiset_ensures();
    }
    out
}

impl Default for Stash {
    /// An empty ledger: counter at zero, no lots.
    fn default() -> (r: Stash)
        ensures
            r.wf(),
            r@.max_lot_id == 0,
            r@.lots.len() == 0,
    {
        Stash::new()
    }
}

} // verus!
