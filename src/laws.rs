//! Properties of the matching core that relate several operations or hold of every
//! input, stated over the models and proved.
use vstd::prelude::*;

use crate::book::{
    BookModel, book_add, book_match, book_wf, flatten, lemma_flatten_position,
    lemma_flatten_split, lemma_sweep, side_of, side_wf, sweep,
};
use crate::level::LevelModel;
use crate::engine::{book_or_empty, books_wf, cxl_spec, new_spec, residual, rpl_spec};
use crate::order::{Order, OrderSide, OrderType};
use crate::trade::{Fill, fills_notional, fills_qty, result_of};

verus! {

/// After a new order, quantity left over means the opposite side offers nothing more
/// to trade with: it is empty, or its best price does not cross. For a limit buy the
/// best ask is then above the order's price, for a limit sell the best bid below it;
/// a market order with quantity left has emptied the opposite side.
pub proof fn law_residual_not_marketable(m: Map<Seq<char>, BookModel>, o: Order)
    requires
        books_wf(m),
    ensures
        ({
            let (m2, fills) = new_spec(m, o);
            let opp = side_of(m2[o.symbol_@], o.side_.opposite());
            residual(o, fills) > 0 ==> {
                &&& o.type_ == OrderType::Mkt ==> opp.len() == 0
                &&& (o.type_ == OrderType::Limit && o.side_ == OrderSide::Buy && opp.len() > 0)
                    ==> opp[0].price > o.price_
                &&& (o.type_ == OrderType::Limit && o.side_ == OrderSide::Sell && opp.len() > 0)
                    ==> opp[0].price < o.price_
            }
        }),
{
    let b0 = book_or_empty(m, o.symbol_@);
    if !m.contains_key(o.symbol_@) {
        assert(book_wf(b0)) by {
            assert(crate::book::book_orders(b0) =~= Seq::<Order>::empty());
        }
    }
    let opp_side = o.side_.opposite();
    lemma_sweep(side_of(b0, opp_side), opp_side, o.qty_ as nat, o);
    let (b1, fills) = book_match(b0, o);
    let left = residual(o, fills);
    let (m2, f2) = new_spec(m, o);
    if left > 0 && o.type_ == OrderType::Limit {
        let b2 = book_add(b1, o.with_qty(left));
        assert(side_of(b2, opp_side) == side_of(b1, opp_side));
    }
    assert(m2[o.symbol_@] == if left > 0 && o.type_ == OrderType::Limit {
        book_add(b1, o.with_qty(left))
    } else {
        b1
    });
}

/// A replace is a cancel of the replaced order followed by a new order with the submitted
/// fields: it fails exactly when the cancel would, and otherwise ends in the same books
/// with the same trades.
pub proof fn law_replace_is_cancel_then_new(m: Map<Seq<char>, BookModel>, o: Order)
    ensures
        rpl_spec(m, o) == match cxl_spec(m, o) {
            Ok(m2) => Ok(new_spec(m2, o)),
            Err(e) => Err(e),
        },
{
}

/// Time priority: of two orders resting at one level, A entered before B, an incoming
/// order that reaches B has filled A completely first.
pub proof fn law_time_priority(
    levels: Seq<LevelModel>,
    side: OrderSide,
    l: int,
    i: int,
    j: int,
    want: nat,
    incoming: Order,
)
    requires
        side_wf(levels, side),
        0 <= l < levels.len(),
        0 <= i < j < levels[l].orders.len(),
    ensures
        ({
            let (ls, fills) = sweep(levels, want, incoming);
            let base = flatten(levels.take(l)).len();
            let a = levels[l].orders[i];
            let b = levels[l].orders[j];
            fills.len() > base + j ==> {
                &&& fills[base + i] == (a.id_@, a.price_, a.qty_ as nat)
                &&& fills[base + j].0 == b.id_@
                &&& a.entry_time_ <= b.entry_time_
            }
        }),
{
    lemma_sweep(levels, side, want, incoming);
    lemma_flatten_position(levels, l, i);
    lemma_flatten_position(levels, l, j);
}

/// Price priority: of two levels of one side, the better-priced one is consumed
/// completely, oldest order first, before any order of the other is touched.
pub proof fn law_price_priority(
    levels: Seq<LevelModel>,
    side: OrderSide,
    l1: int,
    l2: int,
    want: nat,
    incoming: Order,
)
    requires
        side_wf(levels, side),
        0 <= l1 < l2 < levels.len(),
    ensures
        side.better(levels[l1].price, levels[l2].price),
        ({
            let (ls, fills) = sweep(levels, want, incoming);
            let base1 = flatten(levels.take(l1)).len();
            let base2 = flatten(levels.take(l2)).len();
            fills.len() > base2 ==> forall|i: int|
                0 <= i < levels[l1].orders.len() ==> fills[base1 + i] == (
                    (#[trigger] levels[l1].orders[i]).id_@,
                    levels[l1].price,
                    levels[l1].orders[i].qty_ as nat,
                )
        }),
{
    lemma_sweep(levels, side, want, incoming);
    let base1 = flatten(levels.take(l1)).len();
    let base2 = flatten(levels.take(l2)).len();
    let v2 = levels.take(l2);
    lemma_flatten_split(v2, l1);
    assert(v2.take(l1) =~= levels.take(l1));
    assert(v2[l1] == levels[l1]);
    assert(base1 + levels[l1].orders.len() <= base2);
    assert forall|i: int| 0 <= i < levels[l1].orders.len() implies flatten(levels)[base1 + i]
        == #[trigger] levels[l1].orders[i] by {
        lemma_flatten_position(levels, l1, i);
    }
    assert(crate::level::level_wf(levels[l1]));
}

/// The result of an event records exactly the sum of price times quantity over its
/// trades, and their total quantity; where every trade has price `p`, that sum is `p`
/// times the quantity, so the volume-weighted price is `p` exactly.
pub proof fn law_notional_of_trades(fills: Seq<Fill>, p: u64)
    ensures
        result_of(fills).notional == fills_notional(fills),
        result_of(fills).qty == fills_qty(fills),
        (forall|i: int| 0 <= i < fills.len() ==> (#[trigger] fills[i]).1 == p) ==> fills_notional(
            fills,
        ) == p * fills_qty(fills),
    decreases fills.len(),
{
    if fills.len() > 0 {
        law_notional_of_trades(fills.drop_last(), p);
        if forall|i: int| 0 <= i < fills.len() ==> (#[trigger] fills[i]).1 == p {
            let t = fills.drop_last();
            assert forall|i: int| 0 <= i < t.len() implies (#[trigger] t[i]).1 == p by {
                assert(t[i] == fills[i]);
            }
            let q = fills_qty(t);
            let f = fills.last().2;
            assert(fills.last().1 == p);
            assert(p * q + p * f == p * (q + f)) by (nonlinear_arith);
            assert(fills_notional(fills) == fills_notional(t) + (p as nat) * f);
            assert(fills_qty(fills) == q + f);
        }
    } else {
        assert(p * fills_qty(fills) == 0) by (nonlinear_arith)
            requires
                fills_qty(fills) == 0,
        ;
    }
}

} // verus!
