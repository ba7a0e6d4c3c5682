//! A price level: the orders resting at one price on one side, oldest first.
use vstd::prelude::*;

use crate::order::{Order, OrderSide, OrderType};
use crate::trade::{extend, Fill, MatchingResult, fills_qty, lemma_extend_twice};

verus! {

/// What a level holds: its side, its price and its orders, oldest first.
pub struct LevelModel {
    pub side: OrderSide,
    pub price: u64,
    pub orders: Seq<Order>,
}

/// An order that may rest at (`side`, `price`): same side and price, a limit order,
/// with a positive quantity.
pub open spec fn rests_at(o: Order, side: OrderSide, price: u64) -> bool {
    &&& o.side_ == side
    &&& o.price_ == price
    &&& o.type_ == OrderType::Limit
    &&& o.qty_ > 0
}

/// Equal to `b` in every field but the quantity.
pub open spec fn same_but_qty(a: Order, b: Order) -> bool {
    a.with_qty(b.qty_) == b
}

pub open spec fn ids_of(orders: Seq<Order>) -> Seq<Seq<char>> {
    orders.map_values(|o: Order| o.id_@)
}

pub open spec fn has_id(orders: Seq<Order>, id: Seq<char>) -> bool {
    exists|i: int| 0 <= i < orders.len() && (#[trigger] orders[i]).id_@ == id
}

/// Every order rests at the level's side and price, and entry times never decrease.
pub open spec fn level_wf(l: LevelModel) -> bool {
    &&& forall|i: int| 0 <= i < l.orders.len() ==> rests_at(#[trigger] l.orders[i], l.side, l.price)
    &&& forall|i: int, j: int|
        0 <= i < j < l.orders.len() ==> (#[trigger] l.orders[i]).entry_time_
            <= (#[trigger] l.orders[j]).entry_time_
}

/// The position at which an order entered at time `t` joins: after every order
/// entered at or before `t`.
pub open spec fn time_slot(orders: Seq<Order>, t: u64) -> nat
    decreases orders.len(),
{
    if orders.len() == 0 {
        0
    } else if orders.last().entry_time_ <= t {
        orders.len()
    } else {
        time_slot(orders.drop_last(), t)
    }
}

pub proof fn lemma_time_slot_bound(orders: Seq<Order>, t: u64)
    ensures
        time_slot(orders, t) <= orders.len(),
    decreases orders.len(),
{
    if orders.len() > 0 {
        lemma_time_slot_bound(orders.drop_last(), t);
    }
}

/// The position of the order with id `id`, where ids are unique.
pub open spec fn id_index(orders: Seq<Order>, id: Seq<char>) -> int {
    choose|i: int| 0 <= i < orders.len() && (#[trigger] orders[i]).id_@ == id
}

/// The orders without the one whose id is `id`, if there is one.
pub open spec fn without_id(orders: Seq<Order>, id: Seq<char>) -> Seq<Order> {
    if has_id(orders, id) {
        orders.remove(id_index(orders, id))
    } else {
        orders
    }
}

/// Fills quantity `want` from the front of `orders`: the remaining orders and the trades.
/// A front order larger than what is left keeps its place with a reduced quantity.
pub open spec fn level_take(orders: Seq<Order>, want: nat) -> (Seq<Order>, Seq<Fill>)
    decreases orders.len(),
{
    if want == 0 || orders.len() == 0 {
        (orders, Seq::empty())
    } else {
        let f = orders[0];
        if want < f.qty_ {
            (
                orders.update(0, f.with_qty((f.qty_ - want) as u32)),
                seq![(f.id_@, f.price_, want)],
            )
        } else {
            let (rest, fills) = level_take(orders.drop_first(), (want - f.qty_) as nat);
            (rest, seq![(f.id_@, f.price_, f.qty_ as nat)] + fills)
        }
    }
}

/// What `level_take` does: `k` front orders are filled completely and removed, the
/// next one may be filled in part, the rest are untouched; trades follow the orders.
pub proof fn lemma_level_take(orders: Seq<Order>, want: nat)
    requires
        forall|i: int| 0 <= i < orders.len() ==> (#[trigger] orders[i]).qty_ > 0,
    ensures
        ({
            let (rest, fills) = level_take(orders, want);
            let k = orders.len() - rest.len();
            &&& 0 <= k <= orders.len()
            &&& fills_qty(fills) <= want
            &&& rest.len() > 0 ==> fills_qty(fills) == want
            &&& (want > 0 && orders.len() > 0) ==> fills_qty(fills) > 0
            &&& k <= fills.len() <= k + 1
            &&& forall|i: int|
                0 <= i < fills.len() ==> (#[trigger] fills[i]).0 == orders[i].id_@ && fills[i].1
                    == orders[i].price_
            &&& forall|i: int| 0 <= i < k ==> (#[trigger] fills[i]).2 == orders[i].qty_
            &&& forall|i: int|
                0 <= i < rest.len() ==> same_but_qty(#[trigger] rest[i], orders[i + k]) && 0
                    < rest[i].qty_ <= orders[i + k].qty_
            &&& forall|i: int| 1 <= i < rest.len() ==> #[trigger] rest[i] == orders[i + k]
            &&& fills.len() == k + 1 ==> rest.len() > 0 && rest[0].qty_ + fills[k].2
                == orders[k].qty_
        }),
    decreases orders.len(),
{
    let (rest, fills) = level_take(orders, want);
    if want == 0 || orders.len() == 0 {
        assert(fills_qty(fills) == 0);
    } else {
        let f = orders[0];
        if want < f.qty_ {
            let single: Seq<Fill> = seq![(f.id_@, f.price_, want)];
            assert(single.drop_last() =~= Seq::<Fill>::empty());
            assert(fills_qty(single.drop_last()) == 0);
            assert(fills_qty(fills) == want);
            assert forall|i: int| 0 <= i < rest.len() implies same_but_qty(
                #[trigger] rest[i],
                orders[i],
            ) by {
                if i == 0 {
                    assert(rest[0].with_qty(orders[0].qty_) =~= orders[0]);
                }
            }
        } else {
            let tail = orders.drop_first();
            let w = (want - f.qty_) as nat;
            lemma_level_take(tail, w);
            let (rest2, fills2) = level_take(tail, w);
            let head: Seq<Fill> = seq![(f.id_@, f.price_, f.qty_ as nat)];
            assert(fills == head + fills2);
            crate::trade::lemma_fills_additive(head, fills2);
            assert(head.drop_last() =~= Seq::<Fill>::empty());
            assert(fills_qty(head.drop_last()) == 0);
            assert(fills_qty(head) == f.qty_);
            let k = orders.len() - rest.len();
            assert forall|i: int| 0 <= i < fills.len() implies (#[trigger] fills[i]).0
                == orders[i].id_@ && fills[i].1 == orders[i].price_ by {
                if i > 0 {
                    assert(fills[i] == fills2[i - 1]);
                    assert(orders[i] == tail[i - 1]);
                }
            }
            assert forall|i: int| 0 <= i < k implies (#[trigger] fills[i]).2 == orders[i].qty_ by {
                if i > 0 {
                    assert(fills[i] == fills2[i - 1]);
                    assert(orders[i] == tail[i - 1]);
                }
            }
            assert forall|i: int| 0 <= i < rest.len() implies same_but_qty(
                #[trigger] rest[i],
                orders[i + k],
            ) && 0 < rest[i].qty_ <= orders[i + k].qty_ by {
                assert(orders[i + k] == tail[i + k - 1]);
            }
            assert forall|i: int| 1 <= i < rest.len() implies #[trigger] rest[i] == orders[i + k] by {
                assert(orders[i + k] == tail[i + k - 1]);
            }
            if fills.len() == k + 1 {
                assert(fills[k] == fills2[k - 1]);
                assert(orders[k] == tail[k - 1]);
            }
        }
    }
}

/// The orders at one price on one side.
#[derive(Clone, Debug)]
pub struct Level {
    pub orders_: Vec<Order>,
    pub price_: u64,
    pub side_: OrderSide,
}

impl View for Level {
    type V = LevelModel;

    open spec fn view(&self) -> LevelModel {
        LevelModel { side: self.side_, price: self.price_, orders: self.orders_@ }
    }
}

impl Level {
    /// An empty level at the order's side and price.
    pub fn from_order(o: &Order) -> (r: Level)
        ensures
            r@ == (LevelModel { side: o.side_, price: o.price_, orders: Seq::empty() }),
    {
        let r = Level { orders_: Vec::new(), price_: o.price_, side_: o.side_ };
        assert(r@.orders =~= Seq::<Order>::empty());
        r
    }

    /// A level holding just `o`, at its side and price.
    pub fn from_first_order(o: Order) -> (r: Level)
        ensures
            r@ == (LevelModel { side: o.side_, price: o.price_, orders: seq![o] }),
    {
        let mut r = Level::from_order(&o);
        r.orders_.push(o);
        assert(r@.orders =~= seq![o]);
        r
    }

    /// Adds `o` behind every order that entered at or before it.
    pub fn add_order(&mut self, o: Order)
        requires
            level_wf(old(self)@),
            rests_at(o, old(self).side_, old(self).price_),
        ensures
            final(self)@ == (LevelModel {
                orders: old(self)@.orders.insert(
                    time_slot(old(self)@.orders, o.entry_time_) as int,
                    o,
                ),
                ..old(self)@
            }),
            level_wf(final(self)@),
    {
        let ghost orders = self.orders_@;
        let t = o.entry_time_;
        let mut i: usize = self.orders_.len();
        assert(orders.take(i as int) =~= orders);
        while i > 0 && self.orders_[i - 1].entry_time_ > t
            invariant
                0 <= i <= orders.len(),
                self.orders_@ == orders,
                time_slot(orders, t) == time_slot(orders.take(i as int), t),
                forall|j: int| i <= j < orders.len() ==> (#[trigger] orders[j]).entry_time_ > t,
            decreases i,
        {
            assert(orders.take(i as int).drop_last() =~= orders.take(i - 1));
            i = i - 1;
        }
        proof {
            if i > 0 {
                assert(orders.take(i as int).last() == orders[i - 1]);
            } else {
                assert(orders.take(0) =~= Seq::<Order>::empty());
            }
            assert(orders == orders.take(orders.len() as int));
        }
        self.orders_.insert(i, o);
        proof {
            let n = self.orders_@;
            assert forall|a: int, b: int| 0 <= a < b < n.len() implies (#[trigger] n[a]).entry_time_
                <= (#[trigger] n[b]).entry_time_ by {
                if a < i && b > i {
                    assert(n[a] == orders[a]);
                    assert(n[b] == orders[b - 1]);
                } else if a < i && b == i {
                    assert(orders[a].entry_time_ <= orders[i - 1].entry_time_);
                } else if a < i {
                    assert(n[b] == orders[b]);
                } else if a == i {
                    assert(n[b] == orders[b - 1]);
                } else {
                    assert(n[a] == orders[a - 1]);
                    assert(n[b] == orders[b - 1]);
                }
            }
            assert forall|a: int| 0 <= a < n.len() implies rests_at(
                #[trigger] n[a],
                self.side_,
                self.price_,
            ) by {
                if a < i {
                    assert(n[a] == orders[a]);
                } else if a > i {
                    assert(n[a] == orders[a - 1]);
                }
            }
        }
    }

    /// Removes the order whose id is `id`; says whether there was one.
    pub fn remove_order(&mut self, id: &String) -> (r: bool)
        requires
            ids_of(old(self)@.orders).no_duplicates(),
        ensures
            r == has_id(old(self)@.orders, id@),
            final(self)@ == (LevelModel {
                orders: without_id(old(self)@.orders, id@),
                ..old(self)@
            }),
    {
        let ghost orders = self.orders_@;
        let mut i: usize = 0;
        while i < self.orders_.len()
            invariant
                0 <= i <= orders.len(),
                self.orders_@ == orders,
                orders == old(self)@.orders,
                self.side_ == old(self).side_,
                self.price_ == old(self).price_,
                ids_of(orders).no_duplicates(),
                forall|j: int| 0 <= j < i ==> (#[trigger] orders[j]).id_@ != id@,
            decreases orders.len() - i,
        {
            if self.orders_[i].id_ == *id {
                proof {
                    assert(orders[i as int].id_@ == id@);
                    assert(has_id(orders, id@));
                    let c = id_index(orders, id@);
                    assert(0 <= c < orders.len() && orders[c].id_@ == id@);
                    assert(ids_of(orders).no_duplicates());
                    assert(ids_of(orders).len() == orders.len());
                    assert(ids_of(orders)[c] == orders[c].id_@);
                    assert(ids_of(orders)[i as int] == orders[i as int].id_@);
                    assert(c == i);
                }
                self.orders_.remove(i);
                return true;
            }
            i = i + 1;
        }
        assert(!has_id(orders, id@));
        false
    }

    /// Fills as much of `remaining` as the level holds, oldest order first, recording
    /// each trade in `result`.
    pub fn match_order(&mut self, remaining: &mut u32, result: &mut MatchingResult)
        requires
            level_wf(old(self)@),
            old(result).bounded(),
            old(result).executed_qty_ + *old(remaining) <= u32::MAX,
        ensures
            ({
                let (rest, fills) = level_take(old(self)@.orders, *old(remaining) as nat);
                &&& final(self)@ == (LevelModel { orders: rest, ..old(self)@ })
                &&& *final(remaining) == *old(remaining) - fills_qty(fills)
                &&& final(result)@ == extend(old(result)@, fills)
            }),
            final(result).bounded(),
            final(result).executed_qty_ + *final(remaining) == old(result).executed_qty_
                + *old(remaining),
            level_wf(final(self)@),
    {
        let ghost orig = self.orders_@;
        let ghost want0 = *remaining as nat;
        let ghost r0 = result@;
        let ghost total = result.executed_qty_ + *remaining;
        let ghost acc: Seq<Fill> = Seq::empty();
        proof {
            assert(acc + level_take(orig, want0).1 =~= level_take(orig, want0).1);
            assert(extend(r0, acc).ids =~= r0.ids);
        }
        while *remaining > 0 && self.orders_.len() > 0
            invariant
                level_wf(self@),
                self.side_ == old(self).side_,
                self.price_ == old(self).price_,
                result.bounded(),
                result.executed_qty_ + *remaining == total,
                total <= u32::MAX,
                result@ == extend(r0, acc),
                ({
                    let (rest, fills) = level_take(self.orders_@, *remaining as nat);
                    rest == level_take(orig, want0).0 && acc + fills == level_take(orig, want0).1
                }),
                *remaining == want0 - fills_qty(acc),
            decreases *remaining,
        {
            let ghost cur = self.orders_@;
            let ghost rem = *remaining as nat;
            let front_qty = self.orders_[0].qty_;
            let front_price = self.orders_[0].price_;
            let front_id = self.orders_[0].id_.clone();
            let ghost fill: Fill;
            if *remaining < front_qty {
                proof {
                    fill = (front_id@, front_price, rem);
                }
                let mut f = self.orders_.remove(0);
                f.qty_ = front_qty - *remaining;
                self.orders_.insert(0, f);
                assert(self.orders_@ =~= cur.update(0, cur[0].with_qty((front_qty - rem) as u32)));
                result.record(front_id, front_price, *remaining);
                *remaining = 0;
                proof {
                    assert(level_take(cur, rem).1 == seq![fill]);
                    assert forall|a: int| 0 <= a < self.orders_@.len() implies rests_at(
                        #[trigger] self.orders_@[a],
                        self.side_,
                        self.price_,
                    ) by {
                        assert(cur[a].side_ == self.side_);
                    }
                    assert forall|a: int, b: int|
                        0 <= a < b < self.orders_@.len() implies (#[trigger] self.orders_@[a]).entry_time_
                        <= (#[trigger] self.orders_@[b]).entry_time_ by {
                        assert(cur[a].entry_time_ <= cur[b].entry_time_);
                    }
                }
            } else {
                proof {
                    fill = (front_id@, front_price, front_qty as nat);
                }
                self.orders_.remove(0);
                assert(self.orders_@ =~= cur.drop_first());
                result.record(front_id, front_price, front_qty);
                *remaining = *remaining - front_qty;
                proof {
                    let (rest2, fills2) = level_take(cur.drop_first(), *remaining as nat);
                    assert(level_take(cur, rem).1 == seq![fill] + fills2);
                    assert(acc + (seq![fill] + fills2) =~= acc.push(fill) + fills2);
                    assert forall|a: int, b: int|
                        0 <= a < b < self.orders_@.len() implies (#[trigger] self.orders_@[a]).entry_time_
                        <= (#[trigger] self.orders_@[b]).entry_time_ by {
                        assert(cur[a + 1].entry_time_ <= cur[b + 1].entry_time_);
                    }
                    assert forall|a: int| 0 <= a < self.orders_@.len() implies rests_at(
                        #[trigger] self.orders_@[a],
                        self.side_,
                        self.price_,
                    ) by {
                        assert(self.orders_@[a] == cur[a + 1]);
                    }
                }
            }
            proof {
                lemma_extend_twice(r0, acc, seq![fill]);
                assert(acc.push(fill) =~= acc + seq![fill]);
                assert(acc.push(fill).drop_last() =~= acc);
                acc = acc.push(fill);
            }
        }
        proof {
            assert(acc + Seq::<Fill>::empty() =~= acc);
        }
    }

    /// Whether an order with id `id` rests here.
    pub fn has_order(&self, id: &String) -> (r: bool)
        ensures
            r == has_id(self@.orders, id@),
    {
        let mut i: usize = 0;
        while i < self.orders_.len()
            invariant
                0 <= i <= self.orders_@.len(),
                forall|j: int| 0 <= j < i ==> (#[trigger] self.orders_@[j]).id_@ != id@,
            decreases self.orders_@.len() - i,
        {
            if self.orders_[i].id_ == *id {
                assert(self.orders_@[i as int].id_@ == id@);
                return true;
            }
            i = i + 1;
        }
        false
    }
}

/// Removing an order keeps a level well formed.
pub proof fn lemma_level_wf_remove(l: LevelModel, j: int)
    requires
        level_wf(l),
        0 <= j < l.orders.len(),
    ensures
        level_wf(LevelModel { orders: l.orders.remove(j), ..l }),
{
    let o = l.orders.remove(j);
    assert forall|a: int| 0 <= a < o.len() implies rests_at(#[trigger] o[a], l.side, l.price) by {
        if a >= j {
            assert(o[a] == l.orders[a + 1]);
        }
    }
    assert forall|a: int, b: int| 0 <= a < b < o.len() implies (#[trigger] o[a]).entry_time_
        <= (#[trigger] o[b]).entry_time_ by {
        let a2 = if a < j { a } else { a + 1 };
        let b2 = if b < j { b } else { b + 1 };
        assert(o[a] == l.orders[a2]);
        assert(o[b] == l.orders[b2]);
    }
}

} // verus!
