//! The matching engine: one book per symbol, and the dispatch of new, replace and
//! cancel events.
use vstd::prelude::*;

use crate::book::{
    BookModel, OrderBook, book_add, book_match, book_orders, book_remove, book_wf, side_has_id,
    side_of,
};
use crate::level::has_id;
use crate::order::{EventType, Order, OrderType};
use crate::trade::{Fill, MatchingResult, fills_qty, result_of};

verus! {

/// Why an event was refused.
#[derive(Clone, Copy, Debug, PartialEq, Eq, Structural)]
pub enum MatchError {
    /// A replace or cancel named a symbol that has no book.
    UnknownSymbol,
    /// A replace or cancel named an id that does not rest on the order's side.
    OrderNotFound,
}

pub open spec fn empty_book() -> BookModel {
    BookModel { bids: Seq::empty(), asks: Seq::empty() }
}

/// The book of `symbol`, or an empty one where none exists yet.
pub open spec fn book_or_empty(m: Map<Seq<char>, BookModel>, symbol: Seq<char>) -> BookModel {
    if m.contains_key(symbol) {
        m[symbol]
    } else {
        empty_book()
    }
}

/// A new order: match it, then rest what is left of a limit order. The book of its
/// symbol is created if needed. Returns the books and the trades.
pub open spec fn new_spec(m: Map<Seq<char>, BookModel>, o: Order) -> (
    Map<Seq<char>, BookModel>,
    Seq<Fill>,
) {
    let (b1, fills) = book_match(book_or_empty(m, o.symbol_@), o);
    let left = (o.qty_ - fills_qty(fills)) as u32;
    let b2 = if left > 0 && o.type_ == OrderType::Limit {
        book_add(b1, o.with_qty(left))
    } else {
        b1
    };
    (m.insert(o.symbol_@, b2), fills)
}

/// A cancel: the books without the order, or why not.
pub open spec fn cxl_spec(m: Map<Seq<char>, BookModel>, o: Order) -> Result<
    Map<Seq<char>, BookModel>,
    MatchError,
> {
    if !m.contains_key(o.symbol_@) {
        Err(MatchError::UnknownSymbol)
    } else if !side_has_id(side_of(m[o.symbol_@], o.side_), o.id_@) {
        Err(MatchError::OrderNotFound)
    } else {
        Ok(m.insert(o.symbol_@, book_remove(m[o.symbol_@], o.side_, o.id_@)))
    }
}

/// A replace: the replaced order leaves the book and the new fields go through the
/// path of a new order, without the replaced order's time priority.
pub open spec fn rpl_spec(m: Map<Seq<char>, BookModel>, o: Order) -> Result<
    (Map<Seq<char>, BookModel>, Seq<Fill>),
    MatchError,
> {
    if !m.contains_key(o.symbol_@) {
        Err(MatchError::UnknownSymbol)
    } else if !side_has_id(side_of(m[o.symbol_@], o.side_), o.id_@) {
        Err(MatchError::OrderNotFound)
    } else {
        let b = book_remove(m[o.symbol_@], o.side_, o.id_@);
        Ok(new_spec(m.insert(o.symbol_@, b), o))
    }
}

/// The quantity an order keeps after the trades.
pub open spec fn residual(o: Order, fills: Seq<Fill>) -> u32 {
    (o.qty_ - fills_qty(fills)) as u32
}

/// Whether `id` rests in the book of `symbol`.
pub open spec fn rests_in(m: Map<Seq<char>, BookModel>, symbol: Seq<char>, id: Seq<char>) -> bool {
    m.contains_key(symbol) && has_id(book_orders(m[symbol]), id)
}

/// The outcome of any event: the books and the trades, or why the event was refused.
pub open spec fn event_spec(kind: EventType, m: Map<Seq<char>, BookModel>, o: Order) -> Result<
    (Map<Seq<char>, BookModel>, Seq<Fill>),
    MatchError,
> {
    match kind {
        EventType::New => Ok(new_spec(m, o)),
        EventType::Rpl => rpl_spec(m, o),
        EventType::Cxl => match cxl_spec(m, o) {
            Ok(m2) => Ok((m2, Seq::empty())),
            Err(e) => Err(e),
        },
    }
}

/// Every book satisfies the book invariant.
pub open spec fn books_wf(m: Map<Seq<char>, BookModel>) -> bool {
    forall|s: Seq<char>| #[trigger] m.contains_key(s) ==> book_wf(m[s])
}

/// What an event asks of its order: a positive quantity for a new or replacing order,
/// and for a new order an id that does not already rest in its symbol's book.
pub open spec fn event_ok(kind: EventType, m: Map<Seq<char>, BookModel>, o: Order) -> bool {
    &&& kind != EventType::Cxl ==> o.qty_ > 0
    &&& kind == EventType::New ==> !rests_in(m, o.symbol_@, o.id_@)
}

pub open spec fn entries_map(e: Seq<(String, OrderBook)>) -> Map<Seq<char>, BookModel> {
    Map::new(
        |s: Seq<char>| exists|i: int| 0 <= i < e.len() && (#[trigger] e[i]).0@ == s,
        |s: Seq<char>| e[choose|i: int| 0 <= i < e.len() && (#[trigger] e[i]).0@ == s].1@,
    )
}

pub open spec fn symbols_unique(e: Seq<(String, OrderBook)>) -> bool {
    forall|i: int, j: int|
        0 <= i < e.len() && 0 <= j < e.len() && i != j ==> (#[trigger] e[i]).0@ != (#[trigger] e[j]).0@
}

proof fn lemma_entries_lookup(e: Seq<(String, OrderBook)>, i: int)
    requires
        symbols_unique(e),
        0 <= i < e.len(),
    ensures
        entries_map(e).contains_key(e[i].0@),
        entries_map(e)[e[i].0@] == e[i].1@,
{
    let s = e[i].0@;
    assert(entries_map(e).dom().contains(s));
    let c = choose|c: int| 0 <= c < e.len() && (#[trigger] e[c]).0@ == s;
    assert(c == i);
}

proof fn lemma_entries_update(e: Seq<(String, OrderBook)>, i: int, b: OrderBook)
    requires
        symbols_unique(e),
        0 <= i < e.len(),
    ensures
        symbols_unique(e.update(i, (e[i].0, b))),
        entries_map(e.update(i, (e[i].0, b))) == entries_map(e).insert(e[i].0@, b@),
{
    let n = e.update(i, (e[i].0, b));
    let s = e[i].0@;
    assert forall|a: int, c: int|
        0 <= a < n.len() && 0 <= c < n.len() && a != c implies (#[trigger] n[a]).0@ != (
        #[trigger] n[c]).0@ by {
        assert(n[a].0 == e[a].0 && n[c].0 == e[c].0);
    }
    assert forall|t: Seq<char>| #[trigger]
        entries_map(n).dom().contains(t) <==> entries_map(e).insert(s, b@).dom().contains(t) by {
        if exists|a: int| 0 <= a < e.len() && (#[trigger] e[a]).0@ == t {
            let a = choose|a: int| 0 <= a < e.len() && (#[trigger] e[a]).0@ == t;
            assert(n[a].0@ == t);
        }
        if exists|a: int| 0 <= a < n.len() && (#[trigger] n[a]).0@ == t {
            let a = choose|a: int| 0 <= a < n.len() && (#[trigger] n[a]).0@ == t;
            assert(e[a].0@ == t);
        }
    }
    assert forall|t: Seq<char>| #[trigger]
        entries_map(n).dom().contains(t) implies entries_map(n)[t] == entries_map(e).insert(
        s,
        b@,
    )[t] by {
        let a = choose|a: int| 0 <= a < n.len() && (#[trigger] n[a]).0@ == t;
        if t == s {
            assert(a == i);
        } else {
            assert(e[a].0@ == t);
            lemma_entries_lookup(e, a);
        }
    }
    assert(entries_map(n) =~= entries_map(e).insert(s, b@));
}

proof fn lemma_entries_push(e: Seq<(String, OrderBook)>, sym: String, b: OrderBook)
    requires
        symbols_unique(e),
        !entries_map(e).contains_key(sym@),
    ensures
        symbols_unique(e.push((sym, b))),
        entries_map(e.push((sym, b))) == entries_map(e).insert(sym@, b@),
{
    let n = e.push((sym, b));
    let last = e.len() as int;
    assert forall|a: int, c: int|
        0 <= a < n.len() && 0 <= c < n.len() && a != c implies (#[trigger] n[a]).0@ != (
        #[trigger] n[c]).0@ by {
        if a == last {
            assert(!(exists|x: int| 0 <= x < e.len() && (#[trigger] e[x]).0@ == sym@));
            assert(n[c] == e[c]);
        } else if c == last {
            assert(!(exists|x: int| 0 <= x < e.len() && (#[trigger] e[x]).0@ == sym@));
            assert(n[a] == e[a]);
        } else {
            assert(n[a] == e[a] && n[c] == e[c]);
        }
    }
    assert forall|t: Seq<char>| #[trigger]
        entries_map(n).dom().contains(t) <==> entries_map(e).insert(sym@, b@).dom().contains(t) by {
        if exists|a: int| 0 <= a < e.len() && (#[trigger] e[a]).0@ == t {
            let a = choose|a: int| 0 <= a < e.len() && (#[trigger] e[a]).0@ == t;
            assert(n[a].0@ == t);
        }
        if t == sym@ {
            assert(n[last].0@ == t);
        }
        if exists|a: int| 0 <= a < n.len() && (#[trigger] n[a]).0@ == t {
            let a = choose|a: int| 0 <= a < n.len() && (#[trigger] n[a]).0@ == t;
            if a < last {
                assert(e[a].0@ == t);
            }
        }
    }
    assert forall|t: Seq<char>| #[trigger]
        entries_map(n).dom().contains(t) implies entries_map(n)[t] == entries_map(e).insert(
        sym@,
        b@,
    )[t] by {
        let a = choose|a: int| 0 <= a < n.len() && (#[trigger] n[a]).0@ == t;
        lemma_entries_lookup(n, a);
        if a < last {
            assert(n[a] == e[a]);
            lemma_entries_lookup(e, a);
        }
    }
    assert(entries_map(n) =~= entries_map(e).insert(sym@, b@));
}

/// The books of all symbols, each created on the first event for its symbol.
#[derive(Debug)]
pub struct MatchingEngine {
    books_: Vec<(String, OrderBook)>,
}

impl View for MatchingEngine {
    type V = Map<Seq<char>, BookModel>;

    closed spec fn view(&self) -> Map<Seq<char>, BookModel> {
        entries_map(self.books_@)
    }
}

impl MatchingEngine {
    /// The representation invariant: one entry per symbol, every book well formed.
    pub closed spec fn wf(&self) -> bool {
        &&& symbols_unique(self.books_@)
        &&& forall|i: int| 0 <= i < self.books_@.len() ==> book_wf((#[trigger] self.books_@[i]).1@)
    }

    proof fn lemma_wf_books(&self)
        requires
            self.wf(),
        ensures
            books_wf(self@),
    {
        assert forall|s: Seq<char>| #[trigger] self@.contains_key(s) implies book_wf(self@[s]) by {
            let i = choose|i: int| 0 <= i < self.books_@.len() && (#[trigger] self.books_@[i]).0@ == s;
            lemma_entries_lookup(self.books_@, i);
        }
    }

    /// An engine with no books.
    pub fn new() -> (r: MatchingEngine)
        ensures
            r.wf(),
            r@ == Map::<Seq<char>, BookModel>::empty(),
    {
        let r = MatchingEngine { books_: Vec::new() };
        assert(r@ =~= Map::<Seq<char>, BookModel>::empty());
        r
    }

    fn find_book(&self, symbol: &String) -> (r: Option<usize>)
        ensures
            match r {
                Some(i) => i < self.books_@.len() && self.books_@[i as int].0@ == symbol@,
                None => !self@.contains_key(symbol@),
            },
    {
        let mut i: usize = 0;
        while i < self.books_.len()
            invariant
                0 <= i <= self.books_@.len(),
                forall|j: int| 0 <= j < i ==> (#[trigger] self.books_@[j]).0@ != symbol@,
            decreases self.books_@.len() - i,
        {
            if self.books_[i].0 == *symbol {
                return Some(i);
            }
            i = i + 1;
        }
        None
    }

    /// Whether a book exists for `p_symbol`.
    pub fn contains(&self, p_symbol: &String) -> (r: bool)
        ensures
            r == self@.contains_key(p_symbol@),
    {
        self.find_book(p_symbol).is_some()
    }

    /// Whether an order with `p_order`'s id rests in the book of its symbol.
    pub fn has_resting_order(&self, p_order: &Order) -> (r: bool)
        requires
            self.wf(),
        ensures
            r == rests_in(self@, p_order.symbol_@, p_order.id_@),
    {
        match self.find_book(&p_order.symbol_) {
            None => false,
            Some(i) => {
                proof {
                    lemma_entries_lookup(self.books_@, i as int);
                }
                self.books_[i].1.has_order_id(&p_order.id_)
            },
        }
    }

    /// The index of the entry of `symbol`, created with an empty book if absent.
    fn book_index(&mut self, symbol: &String) -> (r: usize)
        requires
            old(self).wf(),
        ensures
            final(self).wf(),
            r < final(self).books_@.len(),
            final(self).books_@[r as int].0@ == symbol@,
            final(self)@ == old(self)@.insert(symbol@, book_or_empty(old(self)@, symbol@)),
    {
        match self.find_book(symbol) {
            Some(i) => {
                proof {
                    lemma_entries_lookup(self.books_@, i as int);
                    assert(self@ =~= self@.insert(symbol@, book_or_empty(self@, symbol@)));
                }
                i
            },
            None => {
                let ghost e = self.books_@;
                let book = OrderBook::new();
                let sym = symbol.clone();
                proof {
                    lemma_entries_push(e, sym, book);
                }
                self.books_.push((sym, book));
                proof {
                    assert forall|i: int| 0 <= i < self.books_@.len() implies book_wf(
                        (#[trigger] self.books_@[i]).1@,
                    ) by {
                        if i < e.len() {
                            assert(self.books_@[i] == e[i]);
                        }
                    }
                }
                self.books_.len() - 1
            },
        }
    }

    /// Matches a new order, then rests what is left of a limit order; the book of its
    /// symbol is created on first use. The unfilled quantity is left in `p_order.qty_`.
    pub fn process_new_order(&mut self, p_order: &mut Order) -> (r: Result<
        MatchingResult,
        MatchError,
    >)
        requires
            old(self).wf(),
            event_ok(EventType::New, old(self)@, *old(p_order)),
        ensures
            final(self).wf(),
            books_wf(final(self)@),
            ({
                let (m, fills) = new_spec(old(self)@, *old(p_order));
                &&& r is Ok
                &&& r.unwrap()@ == result_of(fills)
                &&& r.unwrap().bounded()
                &&& final(self)@ == m
                &&& *final(p_order) == old(p_order).with_qty(residual(*old(p_order), fills))
            }),
    {
        let ghost m0 = self@;
        let i = self.book_index(&p_order.symbol_);
        let ghost e1 = self.books_@;
        proof {
            lemma_entries_lookup(e1, i as int);
        }
        let (sym, mut book) = self.books_.remove(i);
        assert(book@ == book_or_empty(m0, p_order.symbol_@));
        proof {
            if !m0.contains_key(p_order.symbol_@) {
                assert(book_orders(book@) =~= Seq::<Order>::empty());
            }
        }
        let result = self.match_and_rest(&mut book, p_order);
        self.books_.insert(i, (sym, book));
        proof {
            assert(self.books_@ =~= e1.update(i as int, (e1[i as int].0, book)));
            lemma_entries_update(e1, i as int, book);
            assert(self@ =~= m0.insert(old(p_order).symbol_@, book@));
            assert forall|j: int| 0 <= j < self.books_@.len() implies book_wf(
                (#[trigger] self.books_@[j]).1@,
            ) by {
                if j != i {
                    assert(self.books_@[j] == e1[j]);
                }
            }
            self.lemma_wf_books();
        }
        Ok(result)
    }

    /// Matches `o` in `book` and rests what is left of a limit order.
    fn match_and_rest(&self, book: &mut OrderBook, o: &mut Order) -> (r: MatchingResult)
        requires
            book_wf(old(book)@),
            !has_id(book_orders(old(book)@), old(o).id_@),
        ensures
            ({
                let (b1, fills) = book_match(old(book)@, *old(o));
                let left = residual(*old(o), fills);
                &&& r@ == result_of(fills)
                &&& r.bounded()
                &&& final(book)@ == if left > 0 && old(o).type_ == OrderType::Limit {
                    book_add(b1, old(o).with_qty(left))
                } else {
                    b1
                }
                &&& *final(o) == old(o).with_qty(left)
            }),
            book_wf(final(book)@),
    {
        let result = book.match_order(o);
        if o.qty_ > 0 && matches!(o.type_, OrderType::Limit) {
            let rest = o.duplicate();
            book.add_order(rest);
        }
        result
    }

    /// Removes the replaced order, then treats the replacement as a new order: it may
    /// trade at once, and it rests, if it does, with its own entry time.
    pub fn process_rpl_order(&mut self, p_order: &mut Order) -> (r: Result<
        MatchingResult,
        MatchError,
    >)
        requires
            old(self).wf(),
            event_ok(EventType::Rpl, old(self)@, *old(p_order)),
        ensures
            final(self).wf(),
            books_wf(final(self)@),
            match rpl_spec(old(self)@, *old(p_order)) {
                Ok((m, fills)) => {
                    &&& r is Ok
                    &&& r.unwrap()@ == result_of(fills)
                    &&& r.unwrap().bounded()
                    &&& final(self)@ == m
                    &&& *final(p_order) == old(p_order).with_qty(residual(*old(p_order), fills))
                },
                Err(e) => r == Err::<MatchingResult, MatchError>(e) && final(self)@ == old(self)@
                    && *final(p_order) == *old(p_order),
            },
    {
        let ghost m0 = self@;
        proof {
            self.lemma_wf_books();
        }
        match self.find_book(&p_order.symbol_) {
            None => Err(MatchError::UnknownSymbol),
            Some(i) => {
                let ghost e1 = self.books_@;
                proof {
                    lemma_entries_lookup(e1, i as int);
                }
                let (sym, mut book) = self.books_.remove(i);
                let removed = book.remove_order_by_id(p_order);
                if !removed {
                    self.books_.insert(i, (sym, book));
                    proof {
                        assert(self.books_@ =~= e1.update(i as int, (e1[i as int].0, book)));
                        lemma_entries_update(e1, i as int, book);
                        assert(self@ =~= m0);
                        assert forall|j: int| 0 <= j < self.books_@.len() implies book_wf(
                            (#[trigger] self.books_@[j]).1@,
                        ) by {
                            if j != i {
                                assert(self.books_@[j] == e1[j]);
                            }
                        }
                        self.lemma_wf_books();
                    }
                    return Err(MatchError::OrderNotFound);
                }
                let result = self.match_and_rest(&mut book, p_order);
                self.books_.insert(i, (sym, book));
                proof {
                    assert(self.books_@ =~= e1.update(i as int, (e1[i as int].0, book)));
                    lemma_entries_update(e1, i as int, book);
                    let b1 = book_remove(m0[old(p_order).symbol_@], old(p_order).side_, old(p_order).id_@);
                    let m1 = m0.insert(old(p_order).symbol_@, b1);
                    assert(book_or_empty(m1, old(p_order).symbol_@) == b1);
                    assert(self@ =~= m1.insert(old(p_order).symbol_@, book@));
                    assert forall|j: int| 0 <= j < self.books_@.len() implies book_wf(
                        (#[trigger] self.books_@[j]).1@,
                    ) by {
                        if j != i {
                            assert(self.books_@[j] == e1[j]);
                        }
                    }
                    self.lemma_wf_books();
                }
                Ok(result)
            },
        }
    }

    /// Removes the order; never triggers matching.
    pub fn process_cxl_order(&mut self, p_order: &mut Order) -> (r: Result<
        MatchingResult,
        MatchError,
    >)
        requires
            old(self).wf(),
        ensures
            final(self).wf(),
            books_wf(final(self)@),
            *final(p_order) == *old(p_order),
            match cxl_spec(old(self)@, *old(p_order)) {
                Ok(m) => r is Ok && r.unwrap()@ == result_of(Seq::empty()) && r.unwrap().bounded()
                    && final(self)@ == m,
                Err(e) => r == Err::<MatchingResult, MatchError>(e) && final(self)@ == old(self)@,
            },
    {
        let ghost m0 = self@;
        proof {
            self.lemma_wf_books();
        }
        match self.find_book(&p_order.symbol_) {
            None => Err(MatchError::UnknownSymbol),
            Some(i) => {
                let ghost e1 = self.books_@;
                proof {
                    lemma_entries_lookup(e1, i as int);
                }
                let (sym, mut book) = self.books_.remove(i);
                let removed = book.remove_order_by_id(p_order);
                self.books_.insert(i, (sym, book));
                proof {
                    assert(self.books_@ =~= e1.update(i as int, (e1[i as int].0, book)));
                    lemma_entries_update(e1, i as int, book);
                    assert forall|j: int| 0 <= j < self.books_@.len() implies book_wf(
                        (#[trigger] self.books_@[j]).1@,
                    ) by {
                        if j != i {
                            assert(self.books_@[j] == e1[j]);
                        }
                    }
                    self.lemma_wf_books();
                }
                if !removed {
                    proof {
                        assert(self@ =~= m0);
                    }
                    return Err(MatchError::OrderNotFound);
                }
                Ok(MatchingResult::new())
            },
        }
    }
}

/// Routes one event to the engine: the single entry point of the matching core.
pub fn process_event(
    p_event_type: EventType,
    p_order: &mut Order,
    p_order_book_collection: &mut MatchingEngine,
) -> (r: Result<MatchingResult, MatchError>)
    requires
        old(p_order_book_collection).wf(),
        event_ok(p_event_type, old(p_order_book_collection)@, *old(p_order)),
    ensures
        final(p_order_book_collection).wf(),
        books_wf(final(p_order_book_collection)@),
        match event_spec(p_event_type, old(p_order_book_collection)@, *old(p_order)) {
            Ok((m, fills)) => {
                &&& r is Ok
                &&& r.unwrap()@ == result_of(fills)
                &&& r.unwrap().bounded()
                &&& final(p_order_book_collection)@ == m
                &&& *final(p_order) == old(p_order).with_qty(residual(*old(p_order), fills))
            },
            Err(e) => r == Err::<MatchingResult, MatchError>(e) && final(p_order_book_collection)@
                == old(p_order_book_collection)@ && *final(p_order) == *old(p_order),
        },
{
    match p_event_type {
        EventType::New => p_order_book_collection.process_new_order(p_order),
        EventType::Rpl => p_order_book_collection.process_rpl_order(p_order),
        EventType::Cxl => {
            let r = p_order_book_collection.process_cxl_order(p_order);
            proof {
                assert(fills_qty(Seq::<Fill>::empty()) == 0);
                assert(old(p_order).with_qty(old(p_order).qty_) == *old(p_order));
            }
            r
        },
    }
}

} // verus!
