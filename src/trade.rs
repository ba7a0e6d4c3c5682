//! Trades produced by one event, and the aggregated result reported for it.
use vstd::prelude::*;

verus! {

/// One trade against a resting order: its id, its price in ticks and the quantity filled.
pub type Fill = (Seq<char>, u64, nat);

/// Largest price in ticks.
pub const MAX_PRICE: u64 = 0xFFFF_FFFF_FFFF_FFFFu64;

pub open spec fn fills_ids(fills: Seq<Fill>) -> Seq<Seq<char>> {
    fills.map_values(|f: Fill| f.0)
}

/// Total quantity traded.
pub open spec fn fills_qty(fills: Seq<Fill>) -> nat
    decreases fills.len(),
{
    if fills.len() == 0 {
        0
    } else {
        fills_qty(fills.drop_last()) + fills.last().2
    }
}

/// Sum of price times quantity over the trades.
pub open spec fn fills_notional(fills: Seq<Fill>) -> nat
    decreases fills.len(),
{
    if fills.len() == 0 {
        0
    } else {
        fills_notional(fills.drop_last()) + (fills.last().1 as nat) * fills.last().2
    }
}

/// What a result records: the ids touched, in order, the quantity and the notional.
pub struct ResultModel {
    pub ids: Seq<Seq<char>>,
    pub qty: nat,
    pub notional: nat,
}

/// The model after recording further trades.
pub open spec fn extend(m: ResultModel, fills: Seq<Fill>) -> ResultModel {
    ResultModel {
        ids: m.ids + fills_ids(fills),
        qty: m.qty + fills_qty(fills),
        notional: m.notional + fills_notional(fills),
    }
}

/// The model of a result that records exactly `fills`.
pub open spec fn result_of(fills: Seq<Fill>) -> ResultModel {
    extend(ResultModel { ids: Seq::empty(), qty: 0, notional: 0 }, fills)
}

pub proof fn lemma_fills_additive(a: Seq<Fill>, b: Seq<Fill>)
    ensures
        fills_qty(a + b) == fills_qty(a) + fills_qty(b),
        fills_notional(a + b) == fills_notional(a) + fills_notional(b),
        fills_ids(a + b) == fills_ids(a) + fills_ids(b),
    decreases b.len(),
{
    assert(fills_ids(a + b) =~= fills_ids(a) + fills_ids(b));
    if b.len() > 0 {
        lemma_fills_additive(a, b.drop_last());
        assert((a + b).drop_last() =~= a + b.drop_last());
    } else {
        assert(a + b =~= a);
    }
}

pub proof fn lemma_extend_twice(m: ResultModel, a: Seq<Fill>, b: Seq<Fill>)
    ensures
        extend(extend(m, a), b) == extend(m, a + b),
{
    lemma_fills_additive(a, b);
    assert(extend(extend(m, a), b).ids =~= extend(m, a + b).ids);
}

/// The notional never exceeds the largest price times the quantity.
pub proof fn lemma_notional_bound(fills: Seq<Fill>)
    ensures
        fills_notional(fills) <= MAX_PRICE * fills_qty(fills),
    decreases fills.len(),
{
    if fills.len() > 0 {
        lemma_notional_bound(fills.drop_last());
        let n = fills_notional(fills.drop_last());
        let q = fills_qty(fills.drop_last());
        let p = fills.last().1 as nat;
        let f = fills.last().2;
        assert(n + p * f <= MAX_PRICE * (q + f)) by (nonlinear_arith)
            requires
                n <= MAX_PRICE * q,
                p <= MAX_PRICE,
        ;
    }
}

/// The aggregated outcome of one event.
///
/// `executed_notional_` is the exact sum of price times quantity over the trades;
/// the volume-weighted price is `executed_notional_ / executed_qty_`.
#[derive(Clone, Debug)]
pub struct MatchingResult {
    pub matched_order_ids_: Vec<String>,
    pub executed_qty_: u32,
    pub executed_notional_: u128,
}

impl View for MatchingResult {
    type V = ResultModel;

    open spec fn view(&self) -> ResultModel {
        ResultModel {
            ids: self.matched_order_ids_@.map_values(|s: String| s@),
            qty: self.executed_qty_ as nat,
            notional: self.executed_notional_ as nat,
        }
    }
}

impl MatchingResult {
    /// The notional fits the quantity: what every result built from trades satisfies.
    pub open spec fn bounded(&self) -> bool {
        self.executed_notional_ <= MAX_PRICE * self.executed_qty_
    }

    /// The empty result: no ids, no quantity, no notional.
    pub fn new() -> (r: MatchingResult)
        ensures
            r@ == result_of(Seq::empty()),
            r.bounded(),
    {
        let r = MatchingResult {
            matched_order_ids_: Vec::new(),
            executed_qty_: 0,
            executed_notional_: 0,
        };
        assert(r@.ids =~= result_of(Seq::empty()).ids);
        r
    }

    /// Records one trade.
    pub fn record(&mut self, id: String, price: u64, qty: u32)
        requires
            old(self).bounded(),
            old(self).executed_qty_ + qty <= u32::MAX,
        ensures
            final(self)@ == extend(old(self)@, seq![(id@, price, qty as nat)]),
            final(self).bounded(),
    {
        let ghost fills = seq![(id@, price, qty as nat)];
        let ghost id_view = id@;
        proof {
            assert(fills.drop_last() =~= Seq::<Fill>::empty());
            assert(fills_qty(fills.drop_last()) == 0);
            assert(fills_notional(fills.drop_last()) == 0);
            assert(fills_ids(fills) =~= seq![id_view]);
            assert(fills_qty(fills) == qty as nat);
            assert(fills_notional(fills) == (price as nat) * (qty as nat));
        }
        let n = self.executed_notional_;
        let q = self.executed_qty_;
        assert(n + (price as nat) * (qty as nat) <= MAX_PRICE * (q + qty)) by (nonlinear_arith)
            requires
                n <= MAX_PRICE * q,
                price <= MAX_PRICE,
        ;
        assert(MAX_PRICE * (q + qty) <= MAX_PRICE * u32::MAX) by (nonlinear_arith)
            requires
                q + qty <= u32::MAX,
        ;
        assert((price as nat) * (qty as nat) <= MAX_PRICE * u32::MAX) by (nonlinear_arith)
            requires
                price <= MAX_PRICE,
                qty <= u32::MAX,
        ;
        self.matched_order_ids_.push(id);
        self.executed_qty_ = q + qty;
        self.executed_notional_ = n + (price as u128) * (qty as u128);
        assert(final(self)@.ids =~= extend(old(self)@, fills).ids);
    }

    /// Whether nothing traded.
    pub fn is_empty(&self) -> (r: bool)
        ensures
            r == (self.executed_qty_ == 0),
    {
        self.executed_qty_ == 0
    }

    /// The volume-weighted price in ticks, rounded down; 0 when nothing traded.
    pub fn executed_price(&self) -> (r: u64)
        requires
            self.bounded(),
        ensures
            self.executed_qty_ == 0 ==> r == 0,
            self.executed_qty_ > 0 ==> r == self.executed_notional_ / (self.executed_qty_ as u128),
            self.executed_qty_ > 0 ==> r * self.executed_qty_ <= self.executed_notional_
                < (r + 1) * self.executed_qty_,
    {
        if self.executed_qty_ == 0 {
            0
        } else {
            let q = self.executed_qty_ as u128;
            let n = self.executed_notional_;
            let r = n / q;
            assert(r <= MAX_PRICE) by (nonlinear_arith)
                requires
                    n <= MAX_PRICE * q,
                    q > 0,
                    r == n / q,
            ;
            assert(r * q <= n < (r + 1) * q) by (nonlinear_arith)
                requires
                    q > 0,
                    r == n / q,
            ;
            r as u64
        }
    }
}

} // verus!
