//! The order book of one symbol: bids best-high, asks best-low, levels keyed by price.
use vstd::prelude::*;

use crate::level::{
    Level, LevelModel, has_id, ids_of, lemma_level_take, lemma_level_wf_remove, lemma_time_slot_bound,
    level_take, level_wf, rests_at,
    same_but_qty, time_slot, without_id,
};
use crate::order::{Order, OrderSide};
use crate::trade::{Fill, MatchingResult, extend, fills_qty, lemma_extend_twice, result_of};

verus! {

/// What a book holds: its bid levels, best (highest) first, and its ask levels,
/// best (lowest) first.
pub struct BookModel {
    pub bids: Seq<LevelModel>,
    pub asks: Seq<LevelModel>,
}

/// Levels of one side: each of that side, not empty and well formed; prices strictly
/// worse from front to back, so no two levels share a price.
pub open spec fn side_wf(levels: Seq<LevelModel>, side: OrderSide) -> bool {
    &&& forall|i: int|
        0 <= i < levels.len() ==> (#[trigger] levels[i]).side == side && levels[i].orders.len()
            > 0 && level_wf(levels[i])
    &&& forall|i: int, j: int|
        0 <= i < j < levels.len() ==> side.better(
            (#[trigger] levels[i]).price,
            (#[trigger] levels[j]).price,
        )
}

/// All orders of a side in priority order: best level first, oldest first within a level.
pub open spec fn flatten(levels: Seq<LevelModel>) -> Seq<Order>
    decreases levels.len(),
{
    if levels.len() == 0 {
        Seq::empty()
    } else {
        levels[0].orders + flatten(levels.drop_first())
    }
}

/// Every resting order of the book.
pub open spec fn book_orders(b: BookModel) -> Seq<Order> {
    flatten(b.bids) + flatten(b.asks)
}

/// The book's invariant: both sides well formed and no id resting twice.
pub open spec fn book_wf(b: BookModel) -> bool {
    &&& side_wf(b.bids, OrderSide::Buy)
    &&& side_wf(b.asks, OrderSide::Sell)
    &&& ids_of(book_orders(b)).no_duplicates()
}

pub open spec fn side_of(b: BookModel, side: OrderSide) -> Seq<LevelModel> {
    match side {
        OrderSide::Buy => b.bids,
        OrderSide::Sell => b.asks,
    }
}

pub open spec fn with_side(b: BookModel, side: OrderSide, levels: Seq<LevelModel>) -> BookModel {
    match side {
        OrderSide::Buy => BookModel { bids: levels, ..b },
        OrderSide::Sell => BookModel { asks: levels, ..b },
    }
}

/// Matches an incoming order against levels of the opposite side: best level first,
/// going on to the next level while quantity is left and its price is marketable.
pub open spec fn sweep(levels: Seq<LevelModel>, want: nat, incoming: Order) -> (
    Seq<LevelModel>,
    Seq<Fill>,
)
    decreases levels.len(),
{
    if want == 0 || levels.len() == 0 || !incoming.crosses(levels[0].price) {
        (levels, Seq::empty())
    } else {
        let (rest, fills) = level_take(levels[0].orders, want);
        if rest.len() == 0 {
            let (ls, fs) = sweep(levels.drop_first(), (want - fills_qty(fills)) as nat, incoming);
            (ls, fills + fs)
        } else {
            (levels.update(0, LevelModel { orders: rest, ..levels[0] }), fills)
        }
    }
}

/// The book after matching `incoming`, and the trades.
pub open spec fn book_match(b: BookModel, incoming: Order) -> (BookModel, Seq<Fill>) {
    let opp = incoming.side_.opposite();
    let (levels, fills) = sweep(side_of(b, opp), incoming.qty_ as nat, incoming);
    (with_side(b, opp, levels), fills)
}

/// The number of levels whose price is strictly better than `price`.
pub open spec fn price_slot(levels: Seq<LevelModel>, side: OrderSide, price: u64) -> nat
    decreases levels.len(),
{
    if levels.len() == 0 || !side.better(levels[0].price, price) {
        0
    } else {
        1 + price_slot(levels.drop_first(), side, price)
    }
}

/// The levels after `o` comes to rest: joins the level at its price, or a new level.
pub open spec fn side_add(levels: Seq<LevelModel>, o: Order) -> Seq<LevelModel> {
    let p = price_slot(levels, o.side_, o.price_) as int;
    if p < levels.len() && levels[p].price == o.price_ {
        levels.update(
            p,
            LevelModel {
                orders: levels[p].orders.insert(time_slot(levels[p].orders, o.entry_time_) as int, o),
                ..levels[p]
            },
        )
    } else {
        levels.insert(p, LevelModel { side: o.side_, price: o.price_, orders: seq![o] })
    }
}

/// The book after `o` comes to rest on its side.
pub open spec fn book_add(b: BookModel, o: Order) -> BookModel {
    with_side(b, o.side_, side_add(side_of(b, o.side_), o))
}

pub open spec fn side_has_id(levels: Seq<LevelModel>, id: Seq<char>) -> bool {
    exists|l: int| 0 <= l < levels.len() && has_id((#[trigger] levels[l]).orders, id)
}

pub open spec fn level_of_id(levels: Seq<LevelModel>, id: Seq<char>) -> int {
    choose|l: int| 0 <= l < levels.len() && has_id((#[trigger] levels[l]).orders, id)
}

/// The levels without the order whose id is `id`; a level left empty goes too.
pub open spec fn side_remove(levels: Seq<LevelModel>, id: Seq<char>) -> Seq<LevelModel> {
    if side_has_id(levels, id) {
        let l = level_of_id(levels, id);
        let orders = without_id(levels[l].orders, id);
        if orders.len() == 0 {
            levels.remove(l)
        } else {
            levels.update(l, LevelModel { orders, ..levels[l] })
        }
    } else {
        levels
    }
}

/// The book after removing the order `id` from `side`, if it rests there.
pub open spec fn book_remove(b: BookModel, side: OrderSide, id: Seq<char>) -> BookModel {
    with_side(b, side, side_remove(side_of(b, side), id))
}

pub proof fn lemma_flatten_concat(a: Seq<LevelModel>, b: Seq<LevelModel>)
    ensures
        flatten(a + b) == flatten(a) + flatten(b),
    decreases a.len(),
{
    if a.len() == 0 {
        assert(a + b =~= b);
        assert(flatten(a) + flatten(b) =~= flatten(b));
    } else {
        lemma_flatten_concat(a.drop_first(), b);
        assert((a + b).drop_first() =~= a.drop_first() + b);
        assert(flatten(a + b) =~= flatten(a) + flatten(b));
    }
}

/// A flattened side split around level `i`.
pub proof fn lemma_flatten_split(levels: Seq<LevelModel>, i: int)
    requires
        0 <= i < levels.len(),
    ensures
        flatten(levels) == flatten(levels.take(i)) + levels[i].orders + flatten(
            levels.skip(i + 1),
        ),
{
    assert(levels =~= levels.take(i) + (seq![levels[i]] + levels.skip(i + 1)));
    lemma_flatten_concat(levels.take(i), seq![levels[i]] + levels.skip(i + 1));
    lemma_flatten_concat(seq![levels[i]], levels.skip(i + 1));
    assert(seq![levels[i]].drop_first() =~= Seq::<LevelModel>::empty());
    assert(flatten(seq![levels[i]].drop_first()) == Seq::<Order>::empty());
    assert(flatten(seq![levels[i]]) =~= levels[i].orders);
    assert(flatten(levels) =~= flatten(levels.take(i)) + levels[i].orders + flatten(
        levels.skip(i + 1),
    ));
}

pub proof fn lemma_ids_of_concat(a: Seq<Order>, b: Seq<Order>)
    ensures
        ids_of(a + b) == ids_of(a) + ids_of(b),
{
    assert(ids_of(a + b) =~= ids_of(a) + ids_of(b));
}

/// What one sweep does: trades follow the side's priority order, each but the last
/// filling its order completely; the levels left are a suffix, the front one possibly
/// reduced; and a sweep that leaves quantity stops only at an empty side or an
/// unmarketable price.
pub proof fn lemma_sweep(levels: Seq<LevelModel>, side: OrderSide, want: nat, incoming: Order)
    requires
        side_wf(levels, side),
    ensures
        ({
            let (ls, fills) = sweep(levels, want, incoming);
            let q = flatten(levels);
            let d = levels.len() - ls.len();
            &&& fills_qty(fills) <= want
            &&& fills_qty(fills) < want ==> ls.len() == 0 || !incoming.crosses(ls[0].price)
            &&& side_wf(ls, side)
            &&& 0 <= d <= levels.len()
            &&& forall|i: int| 1 <= i < ls.len() ==> #[trigger] ls[i] == levels[i + d]
            &&& ls.len() > 0 ==> ls[0].price == levels[d].price
            &&& fills.len() <= q.len()
            &&& forall|i: int|
                0 <= i < fills.len() ==> (#[trigger] fills[i]).0 == q[i].id_@ && fills[i].1
                    == q[i].price_
            &&& forall|i: int| 0 <= i < fills.len() - 1 ==> (#[trigger] fills[i]).2 == q[i].qty_
            &&& exists|m: int| 0 <= m <= q.len() && ids_of(flatten(ls)) == ids_of(q).skip(m)
        }),
    decreases levels.len(),
{
    let (ls, fills) = sweep(levels, want, incoming);
    let q = flatten(levels);
    if want == 0 || levels.len() == 0 || !incoming.crosses(levels[0].price) {
        assert(ids_of(q).skip(0) =~= ids_of(q));
        assert(fills_qty(fills) == 0);
    } else {
        let l0 = levels[0];
        let tail = levels.drop_first();
        assert(level_wf(l0));
        lemma_level_take(l0.orders, want);
        let (rest, f0) = level_take(l0.orders, want);
        let k = l0.orders.len() - rest.len();
        assert(q == l0.orders + flatten(tail));
        if rest.len() == 0 {
            let w = (want - fills_qty(f0)) as nat;
            assert(side_wf(tail, side)) by {
                assert forall|i: int, j: int| 0 <= i < j < tail.len() implies side.better(
                    (#[trigger] tail[i]).price,
                    (#[trigger] tail[j]).price,
                ) by {
                    assert(tail[i] == levels[i + 1] && tail[j] == levels[j + 1]);
                }
            }
            lemma_sweep(tail, side, w, incoming);
            let (ls2, fs) = sweep(tail, w, incoming);
            crate::trade::lemma_fills_additive(f0, fs);
            assert(fills == f0 + fs);
            assert(f0.len() == l0.orders.len());
            let qt = flatten(tail);
            assert forall|i: int| 0 <= i < fills.len() implies (#[trigger] fills[i]).0
                == q[i].id_@ && fills[i].1 == q[i].price_ by {
                if i >= f0.len() {
                    assert(fills[i] == fs[i - f0.len()]);
                    assert(q[i] == qt[i - f0.len()]);
                } else {
                    assert(fills[i] == f0[i]);
                    assert(q[i] == l0.orders[i]);
                }
            }
            assert forall|i: int| 0 <= i < fills.len() - 1 implies (#[trigger] fills[i]).2
                == q[i].qty_ by {
                if i >= f0.len() {
                    assert(fills[i] == fs[i - f0.len()]);
                    assert(q[i] == qt[i - f0.len()]);
                } else {
                    assert(fills[i] == f0[i]);
                    assert(q[i] == l0.orders[i]);
                }
            }
            let m2 = choose|m: int| 0 <= m <= qt.len() && ids_of(flatten(ls2)) == ids_of(qt).skip(m);
            lemma_ids_of_concat(l0.orders, qt);
            assert(ids_of(q).skip(l0.orders.len() + m2) =~= ids_of(qt).skip(m2));
            let d2 = tail.len() - ls2.len();
            assert forall|i: int| 1 <= i < ls.len() implies #[trigger] ls[i] == levels[i + (
            levels.len() - ls.len())] by {
                assert(ls2[i] == tail[i + d2]);
            }
            if ls.len() > 0 {
                assert(ls2[0].price == tail[d2].price);
            }
        } else {
            let nl = LevelModel { orders: rest, ..l0 };
            assert(fills_qty(fills) == want);
            assert(level_wf(nl)) by {
                assert forall|i: int| 0 <= i < rest.len() implies rests_at(
                    #[trigger] rest[i],
                    nl.side,
                    nl.price,
                ) by {
                    assert(same_but_qty(rest[i], l0.orders[i + k]));
                    assert(rest[i].with_qty(l0.orders[i + k].qty_) == l0.orders[i + k]);
                }
                assert forall|i: int, j: int| 0 <= i < j < rest.len() implies (#[trigger] rest[i]).entry_time_
                    <= (#[trigger] rest[j]).entry_time_ by {
                    assert(same_but_qty(rest[i], l0.orders[i + k]));
                    assert(same_but_qty(rest[j], l0.orders[j + k]));
                    assert(rest[i].with_qty(l0.orders[i + k].qty_) == l0.orders[i + k]);
                    assert(rest[j].with_qty(l0.orders[j + k].qty_) == l0.orders[j + k]);
                }
            }
            assert forall|i: int| 0 <= i < fills.len() implies (#[trigger] fills[i]).0
                == q[i].id_@ && fills[i].1 == q[i].price_ by {
                assert(q[i] == l0.orders[i]);
            }
            assert forall|i: int| 0 <= i < fills.len() - 1 implies (#[trigger] fills[i]).2
                == q[i].qty_ by {
                assert(q[i] == l0.orders[i]);
            }
            assert(ls == levels.update(0, nl));
            assert(flatten(ls) == rest + flatten(tail)) by {
                assert(ls.drop_first() =~= tail);
            }
            lemma_ids_of_concat(rest, flatten(tail));
            lemma_ids_of_concat(l0.orders, flatten(tail));
            assert(ids_of(rest) =~= ids_of(l0.orders).skip(k)) by {
                assert forall|i: int| 0 <= i < rest.len() implies ids_of(rest)[i] == ids_of(
                    l0.orders,
                ).skip(k)[i] by {
                    assert(same_but_qty(rest[i], l0.orders[i + k]));
                    assert(rest[i].with_qty(l0.orders[i + k].qty_) == l0.orders[i + k]);
                }
            }
            assert(ids_of(flatten(ls)) =~= ids_of(q).skip(k));
            assert(side_wf(ls, side)) by {
                assert forall|i: int, j: int| 0 <= i < j < ls.len() implies side.better(
                    (#[trigger] ls[i]).price,
                    (#[trigger] ls[j]).price,
                ) by {
                    assert(ls[j] == levels[j]);
                    assert(side.better(levels[i].price, levels[j].price));
                }
            }
        }
    }
}

pub proof fn lemma_no_dup_skip(a: Seq<Seq<char>>, b: Seq<Seq<char>>, m: int)
    requires
        (a + b).no_duplicates(),
        0 <= m <= b.len(),
    ensures
        (a + b.skip(m)).no_duplicates(),
{
    let s = a + b;
    let t = a + b.skip(m);
    assert forall|i: int, j: int| 0 <= i < t.len() && 0 <= j < t.len() && i != j implies t[i]
        != t[j] by {
        let i2 = if i < a.len() { i } else { i + m };
        let j2 = if j < a.len() { j } else { j + m };
        assert(t[i] == s[i2]);
        assert(t[j] == s[j2]);
    }
}

pub proof fn lemma_no_dup_skip_front(a: Seq<Seq<char>>, b: Seq<Seq<char>>, m: int)
    requires
        (a + b).no_duplicates(),
        0 <= m <= a.len(),
    ensures
        (a.skip(m) + b).no_duplicates(),
{
    let s = a + b;
    let t = a.skip(m) + b;
    assert forall|i: int, j: int| 0 <= i < t.len() && 0 <= j < t.len() && i != j implies t[i]
        != t[j] by {
        assert(t[i] == s[i + m]);
        assert(t[j] == s[j + m]);
    }
}

pub open spec fn levels_view(v: Seq<Level>) -> Seq<LevelModel> {
    v.map_values(|l: Level| l@)
}

/// Matches against the levels of one side, best first, while quantity is left and
/// the front level is marketable; emptied levels are removed.
fn sweep_levels(
    levels: &mut Vec<Level>,
    incoming: &Order,
    remaining: &mut u32,
    result: &mut MatchingResult,
)
    requires
        forall|i: int| 0 <= i < old(levels)@.len() ==> level_wf(#[trigger] levels_view(old(levels)@)[i]),
        old(result).bounded(),
        old(result).executed_qty_ + *old(remaining) <= u32::MAX,
    ensures
        ({
            let (ls, fills) = sweep(levels_view(old(levels)@), *old(remaining) as nat, *incoming);
            &&& levels_view(final(levels)@) == ls
            &&& *final(remaining) == *old(remaining) - fills_qty(fills)
            &&& final(result)@ == extend(old(result)@, fills)
        }),
        final(result).bounded(),
{
    let ghost l0 = levels_view(levels@);
    let ghost want0 = *remaining as nat;
    let ghost r0 = result@;
    let ghost total = result.executed_qty_ + *remaining;
    let ghost acc: Seq<Fill> = Seq::empty();
    proof {
        assert(acc + sweep(l0, want0, *incoming).1 =~= sweep(l0, want0, *incoming).1);
        assert(extend(r0, acc).ids =~= r0.ids);
    }
    while *remaining > 0 && levels.len() > 0 && incoming.is_marketable_against(levels[0].price_)
        invariant
            forall|i: int| 0 <= i < levels@.len() ==> level_wf(#[trigger] levels_view(levels@)[i]),
            result.bounded(),
            result.executed_qty_ + *remaining == total,
            total <= u32::MAX,
            result@ == extend(r0, acc),
            ({
                let (ls, fs) = sweep(levels_view(levels@), *remaining as nat, *incoming);
                ls == sweep(l0, want0, *incoming).0 && acc + fs == sweep(l0, want0, *incoming).1
            }),
            *remaining == want0 - fills_qty(acc),
        decreases levels@.len() + *remaining,
    {
        let ghost cur = levels_view(levels@);
        let ghost rem = *remaining as nat;
        let ghost rb = result@;
        let mut lvl = levels.remove(0);
        assert(lvl@ == cur[0]);
        assert(levels_view(levels@) =~= cur.drop_first());
        proof {
            lemma_level_take(cur[0].orders, rem);
        }
        lvl.match_order(remaining, result);
        let ghost f0 = level_take(cur[0].orders, rem).1;
        if lvl.orders_.len() > 0 {
            levels.insert(0, lvl);
            assert(levels_view(levels@) =~= cur.update(0, LevelModel { orders: lvl@.orders, ..cur[0] }));
            proof {
                assert(acc + f0 + Seq::<Fill>::empty() =~= acc + f0);
            }
        } else {
            proof {
                let (ls2, fs2) = sweep(cur.drop_first(), (rem - fills_qty(f0)) as nat, *incoming);
                assert(acc + (f0 + fs2) =~= acc + f0 + fs2);
            }
        }
        proof {
            lemma_extend_twice(r0, acc, f0);
            crate::trade::lemma_fills_additive(acc, f0);
            acc = acc + f0;
            assert forall|i: int| 0 <= i < levels@.len() implies level_wf(
                #[trigger] levels_view(levels@)[i],
            ) by {
                if lvl.orders_@.len() == 0 || i > 0 {
                    assert(levels_view(levels@)[i] == cur[i + if lvl.orders_@.len() == 0 { 1int } else { 0 }]);
                }
            }
        }
    }
    proof {
        assert(acc + Seq::<Fill>::empty() =~= acc);
    }
}

proof fn lemma_price_slot(levels: Seq<LevelModel>, side: OrderSide, price: u64, i: int)
    requires
        0 <= i <= levels.len(),
        forall|j: int| 0 <= j < i ==> side.better((#[trigger] levels[j]).price, price),
        i == levels.len() || !side.better(levels[i].price, price),
    ensures
        price_slot(levels, side, price) == i,
    decreases i,
{
    if i > 0 {
        let t = levels.drop_first();
        assert forall|j: int| 0 <= j < i - 1 implies side.better((#[trigger] t[j]).price, price) by {
            assert(t[j] == levels[j + 1]);
        }
        lemma_price_slot(t, side, price, i - 1);
    }
}

proof fn lemma_no_dup_insert(s: Seq<Seq<char>>, k: int, x: Seq<char>)
    requires
        s.no_duplicates(),
        !s.contains(x),
        0 <= k <= s.len(),
    ensures
        s.insert(k, x).no_duplicates(),
{
    let t = s.insert(k, x);
    assert forall|i: int, j: int| 0 <= i < t.len() && 0 <= j < t.len() && i != j implies t[i]
        != t[j] by {
        if i != k && j != k {
            let i2 = if i < k { i } else { i - 1 };
            let j2 = if j < k { j } else { j - 1 };
            assert(t[i] == s[i2]);
            assert(t[j] == s[j2]);
        } else if i == k {
            let j2 = if j < k { j } else { j - 1 };
            assert(t[j] == s[j2]);
        } else {
            let i2 = if i < k { i } else { i - 1 };
            assert(t[i] == s[i2]);
        }
    }
}

proof fn lemma_side_add_existing(v: Seq<LevelModel>, side: OrderSide, i: int, o: Order, ts: int)
    requires
        side_wf(v, side),
        0 <= i < v.len(),
        0 <= ts <= v[i].orders.len(),
        level_wf(LevelModel { orders: v[i].orders.insert(ts, o), ..v[i] }),
    ensures
        ({
            let nv = v.update(i, LevelModel { orders: v[i].orders.insert(ts, o), ..v[i] });
            &&& side_wf(nv, side)
            &&& flatten(nv) == flatten(v).insert(flatten(v.take(i)).len() + ts, o)
            &&& flatten(v.take(i)).len() + ts <= flatten(v).len()
        }),
{
    let nl = LevelModel { orders: v[i].orders.insert(ts, o), ..v[i] };
    let nv = v.update(i, nl);
    lemma_flatten_split(v, i);
    lemma_flatten_split(nv, i);
    assert(nv.take(i) =~= v.take(i));
    assert(nv.skip(i + 1) =~= v.skip(i + 1));
    let k = flatten(v.take(i)).len() + ts;
    assert(flatten(nv) =~= flatten(v).insert(k, o));
    assert forall|a: int, b: int| 0 <= a < b < nv.len() implies side.better(
        (#[trigger] nv[a]).price,
        (#[trigger] nv[b]).price,
    ) by {
        assert(side.better(v[a].price, v[b].price));
    }
}

proof fn lemma_side_add_new(v: Seq<LevelModel>, i: int, o: Order)
    requires
        side_wf(v, o.side_),
        rests_at(o, o.side_, o.price_),
        0 <= i <= v.len(),
        forall|j: int| 0 <= j < i ==> o.side_.better((#[trigger] v[j]).price, o.price_),
        i < v.len() ==> !o.side_.better(v[i].price, o.price_) && v[i].price != o.price_,
    ensures
        ({
            let nv = v.insert(i, LevelModel { side: o.side_, price: o.price_, orders: seq![o] });
            &&& side_wf(nv, o.side_)
            &&& flatten(nv) == flatten(v).insert(flatten(v.take(i)).len() as int, o)
            &&& flatten(v.take(i)).len() <= flatten(v).len()
        }),
{
    let side = o.side_;
    let nl = LevelModel { side: o.side_, price: o.price_, orders: seq![o] };
    let nv = v.insert(i, nl);
    lemma_flatten_concat(v.take(i), v.skip(i));
    assert(v =~= v.take(i) + v.skip(i));
    assert(nv =~= v.take(i) + (seq![nl] + v.skip(i)));
    lemma_flatten_concat(v.take(i), seq![nl] + v.skip(i));
    lemma_flatten_concat(seq![nl], v.skip(i));
    assert(seq![nl].drop_first() =~= Seq::<LevelModel>::empty());
    assert(flatten(seq![nl].drop_first()) == Seq::<Order>::empty());
    assert(flatten(seq![nl]) =~= seq![o]);
    let k = flatten(v.take(i)).len() as int;
    assert(flatten(nv) =~= flatten(v).insert(k, o));
    assert(level_wf(nl));
    assert forall|a: int, b: int| 0 <= a < b < nv.len() implies side.better(
        (#[trigger] nv[a]).price,
        (#[trigger] nv[b]).price,
    ) by {
        if b < i {
            assert(side.better(v[a].price, v[b].price));
        } else if a < i && b == i {
        } else if a < i {
            assert(nv[b] == v[b - 1]);
            assert(side.better(v[a].price, v[b - 1].price));
        } else if a == i {
            assert(nv[b] == v[b - 1]);
            if b - 1 > i {
                assert(side.better(v[i].price, v[b - 1].price));
            }
        } else {
            assert(nv[a] == v[a - 1]);
            assert(nv[b] == v[b - 1]);
            assert(side.better(v[a - 1].price, v[b - 1].price));
        }
    }
    assert forall|a: int| 0 <= a < nv.len() implies (#[trigger] nv[a]).side == side
        && nv[a].orders.len() > 0 && level_wf(nv[a]) by {
        if a < i {
            assert(nv[a] == v[a]);
        } else if a > i {
            assert(nv[a] == v[a - 1]);
        }
    }
}

/// Puts `o` to rest among the levels of its side.
fn add_to_side(levels: &mut Vec<Level>, o: Order)
    requires
        side_wf(levels_view(old(levels)@), o.side_),
        rests_at(o, o.side_, o.price_),
    ensures
        levels_view(final(levels)@) == side_add(levels_view(old(levels)@), o),
        side_wf(levels_view(final(levels)@), o.side_),
        exists|k: int|
            0 <= k <= flatten(levels_view(old(levels)@)).len() && flatten(
                levels_view(final(levels)@),
            ) == flatten(levels_view(old(levels)@)).insert(k, o),
{
    let ghost v = levels_view(levels@);
    let side = o.side_;
    let mut i: usize = 0;
    while i < levels.len() && side.is_better(levels[i].price_, o.price_)
        invariant
            0 <= i <= v.len(),
            levels_view(levels@) == v,
            forall|j: int| 0 <= j < i ==> side.better((#[trigger] v[j]).price, o.price_),
        decreases v.len() - i,
    {
        i = i + 1;
    }
    proof {
        lemma_price_slot(v, side, o.price_, i as int);
    }
    if i < levels.len() && levels[i].price_ == o.price_ {
        let mut lvl = levels.remove(i);
        assert(lvl@ == v[i as int]);
        let ghost ts = time_slot(v[i as int].orders, o.entry_time_);
        lvl.add_order(o);
        levels.insert(i, lvl);
        proof {
            assert(levels_view(levels@) =~= v.update(i as int, lvl@));
            lemma_time_slot_bound(v[i as int].orders, o.entry_time_);
            lemma_side_add_existing(v, side, i as int, o, ts as int);
        }
    } else {
        let lvl = Level::from_first_order(o);
        levels.insert(i, lvl);
        proof {
            assert(levels_view(levels@) =~= v.insert(i as int, lvl@));
            lemma_side_add_new(v, i as int, o);
        }
    }
}

pub proof fn lemma_no_dup_parts(a: Seq<Seq<char>>, b: Seq<Seq<char>>)
    requires
        (a + b).no_duplicates(),
    ensures
        a.no_duplicates(),
        b.no_duplicates(),
        forall|i: int, j: int| 0 <= i < a.len() && 0 <= j < b.len() ==> a[i] != b[j],
{
    let s = a + b;
    assert forall|i: int, j: int| 0 <= i < a.len() && 0 <= j < a.len() && i != j implies a[i]
        != a[j] by {
        assert(a[i] == s[i] && a[j] == s[j]);
    }
    assert forall|i: int, j: int| 0 <= i < b.len() && 0 <= j < b.len() && i != j implies b[i]
        != b[j] by {
        assert(b[i] == s[a.len() + i] && b[j] == s[a.len() + j]);
    }
    assert forall|i: int, j: int| 0 <= i < a.len() && 0 <= j < b.len() implies a[i] != b[j] by {
        assert(a[i] == s[i] && b[j] == s[a.len() + j]);
    }
}

proof fn lemma_no_dup_remove(s: Seq<Seq<char>>, k: int)
    requires
        s.no_duplicates(),
        0 <= k < s.len(),
    ensures
        s.remove(k).no_duplicates(),
{
    let t = s.remove(k);
    assert forall|i: int, j: int| 0 <= i < t.len() && 0 <= j < t.len() && i != j implies t[i]
        != t[j] by {
        let i2 = if i < k { i } else { i + 1 };
        let j2 = if j < k { j } else { j + 1 };
        assert(t[i] == s[i2]);
        assert(t[j] == s[j2]);
    }
}

/// The orders of level `l` sit in the flattened side from `flatten(v.take(l)).len()` on.
pub proof fn lemma_flatten_position(v: Seq<LevelModel>, l: int, i: int)
    requires
        0 <= l < v.len(),
        0 <= i < v[l].orders.len(),
    ensures
        flatten(v)[flatten(v.take(l)).len() + i] == v[l].orders[i],
        flatten(v.take(l)).len() + v[l].orders.len() <= flatten(v).len(),
{
    lemma_flatten_split(v, l);
}

/// With unique ids, an id rests in one level at most, and ids within a level are unique.
proof fn lemma_id_level_unique(v: Seq<LevelModel>, l1: int, l2: int, id: Seq<char>)
    requires
        ids_of(flatten(v)).no_duplicates(),
        0 <= l1 < v.len(),
        0 <= l2 < v.len(),
        has_id(v[l1].orders, id),
        has_id(v[l2].orders, id),
    ensures
        l1 == l2,
{
    if l1 != l2 {
        let (a, b) = if l1 < l2 { (l1, l2) } else { (l2, l1) };
        let i = choose|i: int| 0 <= i < v[a].orders.len() && (#[trigger] v[a].orders[i]).id_@ == id;
        let j = choose|j: int| 0 <= j < v[b].orders.len() && (#[trigger] v[b].orders[j]).id_@ == id;
        lemma_flatten_position(v, a, i);
        lemma_flatten_position(v, b, j);
        let vb = v.take(b);
        lemma_flatten_split(vb, a);
        assert(vb.take(a) =~= v.take(a));
        assert(vb[a] == v[a]);
        let pa = flatten(v.take(a)).len() + i;
        let pb = flatten(v.take(b)).len() + j;
        assert(pa < pb);
        assert(ids_of(flatten(v))[pa] == ids_of(flatten(v))[pb]);
    }
}

proof fn lemma_level_ids_unique(v: Seq<LevelModel>, l: int)
    requires
        ids_of(flatten(v)).no_duplicates(),
        0 <= l < v.len(),
    ensures
        ids_of(v[l].orders).no_duplicates(),
{
    let o = v[l].orders;
    let base = flatten(v.take(l)).len();
    assert forall|i: int, j: int| 0 <= i < o.len() && 0 <= j < o.len() && i != j implies ids_of(
        o,
    )[i] != ids_of(o)[j] by {
        lemma_flatten_position(v, l, i);
        lemma_flatten_position(v, l, j);
        assert(ids_of(flatten(v))[base + i] == ids_of(o)[i]);
        assert(ids_of(flatten(v))[base + j] == ids_of(o)[j]);
    }
}

proof fn lemma_side_remove_order(v: Seq<LevelModel>, side: OrderSide, l: int, j: int)
    requires
        side_wf(v, side),
        0 <= l < v.len(),
        0 <= j < v[l].orders.len(),
    ensures
        ({
            let o = v[l].orders.remove(j);
            let nv = if o.len() == 0 {
                v.remove(l)
            } else {
                v.update(l, LevelModel { orders: o, ..v[l] })
            };
            &&& side_wf(nv, side)
            &&& flatten(nv) == flatten(v).remove(flatten(v.take(l)).len() + j)
        }),
{
    let o = v[l].orders.remove(j);
    lemma_flatten_split(v, l);
    let k = flatten(v.take(l)).len() + j;
    if o.len() == 0 {
        let nv = v.remove(l);
        assert(nv =~= v.take(l) + v.skip(l + 1));
        lemma_flatten_concat(v.take(l), v.skip(l + 1));
        assert(v[l].orders.len() == 1);
        assert(flatten(nv) =~= flatten(v).remove(k));
        assert forall|a: int, b: int| 0 <= a < b < nv.len() implies side.better(
            (#[trigger] nv[a]).price,
            (#[trigger] nv[b]).price,
        ) by {
            let a2 = if a < l { a } else { a + 1 };
            let b2 = if b < l { b } else { b + 1 };
            assert(nv[a] == v[a2] && nv[b] == v[b2]);
        }
        assert forall|a: int| 0 <= a < nv.len() implies (#[trigger] nv[a]).side == side
            && nv[a].orders.len() > 0 && level_wf(nv[a]) by {
            let a2 = if a < l { a } else { a + 1 };
            assert(nv[a] == v[a2]);
        }
    } else {
        let nl = LevelModel { orders: o, ..v[l] };
        let nv = v.update(l, nl);
        lemma_level_wf_remove(v[l], j);
        lemma_flatten_split(nv, l);
        assert(nv.take(l) =~= v.take(l));
        assert(nv.skip(l + 1) =~= v.skip(l + 1));
        assert(flatten(nv) =~= flatten(v).remove(k));
        assert forall|a: int, b: int| 0 <= a < b < nv.len() implies side.better(
            (#[trigger] nv[a]).price,
            (#[trigger] nv[b]).price,
        ) by {
            assert(side.better(v[a].price, v[b].price));
        }
    }
}

/// Removes the order `id` from the levels of one side, if it rests there.
fn remove_from_side(levels: &mut Vec<Level>, id: &String, Ghost(side): Ghost<OrderSide>) -> (r: bool)
    requires
        side_wf(levels_view(old(levels)@), side),
        ids_of(flatten(levels_view(old(levels)@))).no_duplicates(),
    ensures
        r == side_has_id(levels_view(old(levels)@), id@),
        levels_view(final(levels)@) == side_remove(levels_view(old(levels)@), id@),
        side_wf(levels_view(final(levels)@), side),
        r ==> exists|k: int|
            0 <= k < flatten(levels_view(old(levels)@)).len() && flatten(
                levels_view(final(levels)@),
            ) == flatten(levels_view(old(levels)@)).remove(k) && (#[trigger] flatten(
                levels_view(old(levels)@),
            )[k]).id_@ == id@,
        !r ==> levels_view(final(levels)@) == levels_view(old(levels)@),
{
    let ghost v = levels_view(levels@);
    let mut l: usize = 0;
    while l < levels.len()
        invariant
            0 <= l <= v.len(),
            levels_view(levels@) == v,
            v == levels_view(old(levels)@),
            side_wf(v, side),
            ids_of(flatten(v)).no_duplicates(),
            forall|j: int| 0 <= j < l ==> !has_id((#[trigger] v[j]).orders, id@),
        decreases v.len() - l,
    {
        if levels[l].has_order(id) {
            let mut lvl = levels.remove(l);
            assert(lvl@ == v[l as int]);
            proof {
                let c = level_of_id(v, id@);
                assert(side_has_id(v, id@));
                lemma_id_level_unique(v, c, l as int, id@);
                lemma_level_ids_unique(v, l as int);
            }
            let ghost j = crate::level::id_index(v[l as int].orders, id@);
            assert(v[l as int].orders[j].id_@ == id@);
            lvl.remove_order(id);
            proof {
                lemma_side_remove_order(v, side, l as int, j);
                lemma_flatten_position(v, l as int, j);
            }
            if lvl.orders_.len() > 0 {
                levels.insert(l, lvl);
                assert(levels_view(levels@) =~= v.update(l as int, lvl@));
            } else {
                assert(levels_view(levels@) =~= v.remove(l as int));
            }
            return true;
        }
        l = l + 1;
    }
    false
}

proof fn lemma_gone_after_remove(s: Seq<Order>, k: int)
    requires
        ids_of(s).no_duplicates(),
        0 <= k < s.len(),
    ensures
        !has_id(s.remove(k), s[k].id_@),
{
    let t = s.remove(k);
    if has_id(t, s[k].id_@) {
        let i = choose|i: int| 0 <= i < t.len() && (#[trigger] t[i]).id_@ == s[k].id_@;
        let i2 = if i < k { i } else { i + 1 };
        assert(t[i] == s[i2]);
        assert(ids_of(s)[i2] == ids_of(s)[k]);
    }
}

/// The two sides of one symbol's book.
#[derive(Debug)]
pub struct OrderBook {
    pub bids_: Vec<Level>,
    pub asks_: Vec<Level>,
}

impl View for OrderBook {
    type V = BookModel;

    open spec fn view(&self) -> BookModel {
        BookModel { bids: levels_view(self.bids_@), asks: levels_view(self.asks_@) }
    }
}

proof fn lemma_side_levels_wf(levels: Seq<LevelModel>, side: OrderSide)
    requires
        side_wf(levels, side),
    ensures
        forall|i: int| 0 <= i < levels.len() ==> level_wf(#[trigger] levels[i]),
{
}

impl OrderBook {
    /// An empty book.
    pub fn new() -> (r: OrderBook)
        ensures
            r@ == (BookModel { bids: Seq::empty(), asks: Seq::empty() }),
            book_wf(r@),
    {
        let r = OrderBook { bids_: Vec::new(), asks_: Vec::new() };
        assert(r@.bids =~= Seq::<LevelModel>::empty());
        assert(r@.asks =~= Seq::<LevelModel>::empty());
        assert(book_orders(r@) =~= Seq::<Order>::empty());
        r
    }

    /// Matches `incoming` against the opposite side; leaves its unfilled quantity in
    /// `incoming.qty_` and returns the trades.
    pub fn match_order(&mut self, incoming: &mut Order) -> (r: MatchingResult)
        requires
            book_wf(old(self)@),
        ensures
            ({
                let (b, fills) = book_match(old(self)@, *old(incoming));
                &&& final(self)@ == b
                &&& r@ == result_of(fills)
                &&& *final(incoming) == old(incoming).with_qty(
                    (old(incoming).qty_ - fills_qty(fills)) as u32,
                )
            }),
            r.bounded(),
            book_wf(final(self)@),
            forall|id: Seq<char>|
                !has_id(book_orders(old(self)@), id) ==> !has_id(book_orders(final(self)@), id),
    {
        let mut result = MatchingResult::new();
        let mut remaining = incoming.qty_;
        let ghost old_book = self@;
        let ghost inc = *incoming;
        match incoming.side_ {
            OrderSide::Buy => {
                proof {
                    lemma_side_levels_wf(old_book.asks, OrderSide::Sell);
                    lemma_sweep(old_book.asks, OrderSide::Sell, inc.qty_ as nat, inc);
                }
                sweep_levels(&mut self.asks_, incoming, &mut remaining, &mut result);
                proof {
                    let (ls, fills) = sweep(old_book.asks, inc.qty_ as nat, inc);
                    let m = choose|m: int|
                        0 <= m <= flatten(old_book.asks).len() && ids_of(flatten(ls)) == ids_of(
                            flatten(old_book.asks),
                        ).skip(m);
                    lemma_ids_of_concat(flatten(old_book.bids), flatten(old_book.asks));
                    lemma_ids_of_concat(flatten(old_book.bids), flatten(ls));
                    lemma_no_dup_skip(ids_of(flatten(old_book.bids)), ids_of(flatten(old_book.asks)), m);
                    let a = ids_of(flatten(old_book.bids));
                    let b = ids_of(flatten(old_book.asks));
                    assert forall|id: Seq<char>| !has_id(book_orders(old_book), id) implies !has_id(
                        book_orders(self@),
                        id,
                    ) by {
                        if has_id(book_orders(self@), id) {
                            let i = choose|i: int| 0 <= i < book_orders(self@).len() && (#[trigger] book_orders(self@)[i]).id_@ == id;
                            assert(ids_of(book_orders(self@))[i] == id);
                            assert(ids_of(book_orders(self@)) == a + b.skip(m));
                            let i2 = if i < a.len() { i } else { i + m };
                            assert((a + b)[i2] == id);
                            assert(book_orders(old_book)[i2].id_@ == id);
                        }
                    }
                }
            },
            OrderSide::Sell => {
                proof {
                    lemma_side_levels_wf(old_book.bids, OrderSide::Buy);
                    lemma_sweep(old_book.bids, OrderSide::Buy, inc.qty_ as nat, inc);
                }
                sweep_levels(&mut self.bids_, incoming, &mut remaining, &mut result);
                proof {
                    let (ls, fills) = sweep(old_book.bids, inc.qty_ as nat, inc);
                    let m = choose|m: int|
                        0 <= m <= flatten(old_book.bids).len() && ids_of(flatten(ls)) == ids_of(
                            flatten(old_book.bids),
                        ).skip(m);
                    lemma_ids_of_concat(flatten(old_book.bids), flatten(old_book.asks));
                    lemma_ids_of_concat(flatten(ls), flatten(old_book.asks));
                    lemma_no_dup_skip_front(ids_of(flatten(old_book.bids)), ids_of(flatten(old_book.asks)), m);
                    let a = ids_of(flatten(old_book.bids));
                    let b = ids_of(flatten(old_book.asks));
                    assert forall|id: Seq<char>| !has_id(book_orders(old_book), id) implies !has_id(
                        book_orders(self@),
                        id,
                    ) by {
                        if has_id(book_orders(self@), id) {
                            let i = choose|i: int| 0 <= i < book_orders(self@).len() && (#[trigger] book_orders(self@)[i]).id_@ == id;
                            assert(ids_of(book_orders(self@))[i] == id);
                            assert(ids_of(book_orders(self@)) == a.skip(m) + b);
                            assert((a + b)[i + m] == id);
                            assert(book_orders(old_book)[i + m].id_@ == id);
                        }
                    }
                }
            },
        }
        incoming.qty_ = remaining;
        result
    }
}

impl OrderBook {
    /// Puts `o` to rest: into the level at its side and price, created if absent.
    pub fn add_order(&mut self, o: Order)
        requires
            book_wf(old(self)@),
            rests_at(o, o.side_, o.price_),
            !has_id(book_orders(old(self)@), o.id_@),
        ensures
            final(self)@ == book_add(old(self)@, o),
            book_wf(final(self)@),
    {
        let ghost b = self@;
        let ghost id = o.id_@;
        proof {
            lemma_ids_of_concat(flatten(b.bids), flatten(b.asks));
            assert(!ids_of(book_orders(b)).contains(id)) by {
                if ids_of(book_orders(b)).contains(id) {
                    let i = choose|i: int| 0 <= i < ids_of(book_orders(b)).len() && ids_of(book_orders(b))[i] == id;
                    assert(book_orders(b)[i].id_@ == id);
                }
            }
        }
        match o.side_ {
            OrderSide::Buy => {
                add_to_side(&mut self.bids_, o);
                proof {
                    let k = choose|k: int|
                        0 <= k <= flatten(b.bids).len() && flatten(self@.bids) == flatten(b.bids).insert(k, o);
                    assert(book_orders(self@) =~= book_orders(b).insert(k, o));
                    assert(ids_of(book_orders(self@)) =~= ids_of(book_orders(b)).insert(k, id));
                    lemma_no_dup_insert(ids_of(book_orders(b)), k, id);
                }
            },
            OrderSide::Sell => {
                add_to_side(&mut self.asks_, o);
                proof {
                    let k = choose|k: int|
                        0 <= k <= flatten(b.asks).len() && flatten(self@.asks) == flatten(b.asks).insert(k, o);
                    let k2 = flatten(b.bids).len() + k;
                    assert(book_orders(self@) =~= book_orders(b).insert(k2, o));
                    assert(ids_of(book_orders(self@)) =~= ids_of(book_orders(b)).insert(k2, id));
                    lemma_no_dup_insert(ids_of(book_orders(b)), k2, id);
                }
            },
        }
    }
}

proof fn lemma_book_after_remove(b: BookModel, side: OrderSide, ls: Seq<LevelModel>, k: int)
    requires
        book_wf(b),
        side_wf(ls, side),
        0 <= k < flatten(side_of(b, side)).len(),
        flatten(ls) == flatten(side_of(b, side)).remove(k),
    ensures
        book_wf(with_side(b, side, ls)),
        !has_id(book_orders(with_side(b, side, ls)), flatten(side_of(b, side))[k].id_@),
{
    let nb = with_side(b, side, ls);
    lemma_ids_of_concat(flatten(b.bids), flatten(b.asks));
    let k2 = match side {
        OrderSide::Buy => k,
        OrderSide::Sell => flatten(b.bids).len() + k,
    };
    assert(book_orders(nb) =~= book_orders(b).remove(k2));
    assert(book_orders(b)[k2] == flatten(side_of(b, side))[k]);
    assert(ids_of(book_orders(nb)) =~= ids_of(book_orders(b)).remove(k2));
    lemma_no_dup_remove(ids_of(book_orders(b)), k2);
    lemma_gone_after_remove(book_orders(b), k2);
}

impl OrderBook {
    /// Removes the resting order with `o`'s id from `o`'s side; says whether there was one.
    pub fn remove_order_by_id(&mut self, o: &Order) -> (r: bool)
        requires
            book_wf(old(self)@),
        ensures
            r == side_has_id(side_of(old(self)@, o.side_), o.id_@),
            final(self)@ == book_remove(old(self)@, o.side_, o.id_@),
            book_wf(final(self)@),
            r ==> !has_id(book_orders(final(self)@), o.id_@),
            !r ==> final(self)@ == old(self)@,
    {
        let ghost b = self@;
        proof {
            lemma_ids_of_concat(flatten(b.bids), flatten(b.asks));
            lemma_no_dup_parts(ids_of(flatten(b.bids)), ids_of(flatten(b.asks)));
        }
        let r = match o.side_ {
            OrderSide::Buy => remove_from_side(&mut self.bids_, &o.id_, Ghost(OrderSide::Buy)),
            OrderSide::Sell => remove_from_side(&mut self.asks_, &o.id_, Ghost(OrderSide::Sell)),
        };
        proof {
            let old_side = side_of(b, o.side_);
            let new_side = side_of(self@, o.side_);
            assert(self@ == with_side(b, o.side_, new_side));
            if r {
                let k = choose|k: int|
                    0 <= k < flatten(old_side).len() && flatten(new_side) == flatten(old_side).remove(k)
                        && (#[trigger] flatten(old_side)[k]).id_@ == o.id_@;
                lemma_book_after_remove(b, o.side_, new_side, k);
            } else {
                assert(self@ =~= b);
            }
        }
        r
    }
}

proof fn lemma_has_id_flatten(v: Seq<LevelModel>, id: Seq<char>)
    ensures
        has_id(flatten(v), id) == side_has_id(v, id),
    decreases v.len(),
{
    if v.len() > 0 {
        let t = v.drop_first();
        lemma_has_id_flatten(t, id);
        let a = v[0].orders;
        let b = flatten(t);
        assert(flatten(v) == a + b);
        if has_id(a + b, id) {
            let i = choose|i: int| 0 <= i < (a + b).len() && (#[trigger] (a + b)[i]).id_@ == id;
            if i < a.len() {
                assert(a[i] == (a + b)[i]);
                assert(has_id(v[0].orders, id));
            } else {
                assert(b[i - a.len()] == (a + b)[i]);
                let l = choose|l: int| 0 <= l < t.len() && has_id((#[trigger] t[l]).orders, id);
                assert(t[l] == v[l + 1]);
            }
        }
        if side_has_id(v, id) {
            let l = choose|l: int| 0 <= l < v.len() && has_id((#[trigger] v[l]).orders, id);
            let i = choose|i: int| 0 <= i < v[l].orders.len() && (#[trigger] v[l].orders[i]).id_@ == id;
            if l == 0 {
                assert((a + b)[i] == a[i]);
            } else {
                assert(t[l - 1] == v[l]);
                assert(side_has_id(t, id));
                let j = choose|j: int| 0 <= j < b.len() && (#[trigger] b[j]).id_@ == id;
                assert((a + b)[a.len() + j] == b[j]);
            }
        }
    } else {
        assert(flatten(v) =~= Seq::<Order>::empty());
    }
}

fn side_has_order(levels: &Vec<Level>, id: &String) -> (r: bool)
    ensures
        r == side_has_id(levels_view(levels@), id@),
{
    let mut l: usize = 0;
    while l < levels.len()
        invariant
            0 <= l <= levels@.len(),
            forall|j: int| 0 <= j < l ==> !has_id((#[trigger] levels_view(levels@)[j]).orders, id@),
        decreases levels@.len() - l,
    {
        if levels[l].has_order(id) {
            assert(has_id(levels_view(levels@)[l as int].orders, id@));
            return true;
        }
        l = l + 1;
    }
    false
}

impl OrderBook {
    /// Whether an order with id `id` rests on either side.
    pub fn has_order_id(&self, id: &String) -> (r: bool)
        ensures
            r == has_id(book_orders(self@), id@),
    {
        let b = side_has_order(&self.bids_, id) || side_has_order(&self.asks_, id);
        proof {
            lemma_has_id_flatten(self@.bids, id@);
            lemma_has_id_flatten(self@.asks, id@);
            let x = flatten(self@.bids);
            let y = flatten(self@.asks);
            if has_id(x + y, id@) {
                let i = choose|i: int| 0 <= i < (x + y).len() && (#[trigger] (x + y)[i]).id_@ == id@;
                if i < x.len() {
                    assert(x[i] == (x + y)[i]);
                } else {
                    assert(y[i - x.len()] == (x + y)[i]);
                }
            }
            if has_id(x, id@) {
                let i = choose|i: int| 0 <= i < x.len() && (#[trigger] x[i]).id_@ == id@;
                assert((x + y)[i] == x[i]);
            }
            if has_id(y, id@) {
                let i = choose|i: int| 0 <= i < y.len() && (#[trigger] y[i]).id_@ == id@;
                assert((x + y)[x.len() + i] == y[i]);
            }
        }
        b
    }
}

} // verus!
