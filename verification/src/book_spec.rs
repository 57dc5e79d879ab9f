//! The mathematical model of the order book and of price-time priority matching.
//!
//! A side of the book is a sequence of price levels in ascending price order; each level
//! is a first-in first-out queue of resting orders.  Asks are matched from the lowest
//! level up, bids from the highest level down.
//!
//! The model follows the decimals exactly as `rust_decimal` computes them (see
//! `sum_amount` and `diff_amount`); the `*_exact` predicates say that every addition and
//! subtraction that matching performs is one that `rust_decimal` does without rounding.
use crate::amount::{
    add_exact, diff_amount, lemma_diff_amount, lemma_sum_amount, min_amount, sub_exact,
    sum_amount, Amount,
};
use crate::order::{FillView, Order, Side};
use vstd::prelude::*;

verus! {

/// A price level as the contracts see it.
pub struct LevelView {
    pub price: Amount,
    pub orders: Seq<Order>,
}

/// The order book as the contracts see it.
pub struct BookView {
    pub market: Seq<char>,
    pub market_id: u128,
    pub bids: Seq<LevelView>,
    pub asks: Seq<LevelView>,
    pub last_traded_price: Amount,
}

pub open spec fn min_int(a: int, b: int) -> int {
    if a <= b {
        a
    } else {
        b
    }
}

/// The fill between resting order `m` and incoming order `t` for quantity `x`.
pub open spec fn fill_of(m: Order, t: Order, x: Amount) -> FillView {
    FillView {
        market_id: t.market_id,
        maker_order_id: m.order_id,
        taker_order_id: t.order_id,
        taker_user_id: t.user_id,
        maker_user_id: m.user_id,
        price: m.price,
        quantity: x,
    }
}

/// The quantity traded between resting order `m` and incoming order `t`: the smaller of
/// what is left of each (what is left of `m` when they are equal).
pub open spec fn match_qty(m: Order, t: Order) -> Amount {
    min_amount(
        diff_amount(m.quantity, m.filled_quantity),
        diff_amount(t.quantity, t.filled_quantity),
    )
}

/// The arithmetic of one trade between `m` and `t` is exact: what is left of each, and
/// both new filled quantities.
pub open spec fn step_exact(m: Order, t: Order) -> bool {
    let x = match_qty(m, t);
    &&& sub_exact(m.quantity, m.filled_quantity)
    &&& sub_exact(t.quantity, t.filled_quantity)
    &&& add_exact(t.filled_quantity, x)
    &&& add_exact(m.filled_quantity, x)
}

/// Matching the incoming order `t` against one queue, front first, while both sides have
/// quantity left: the resting queue afterwards, the incoming order afterwards, and the fills.
pub open spec fn sweep_queue(q: Seq<Order>, t: Order) -> (Seq<Order>, Order, Seq<FillView>)
    decreases q.len(),
{
    if q.len() == 0 || !t.is_open() {
        (q, t, seq![])
    } else {
        let m = q[0];
        let x = match_qty(m, t);
        let m2 = m.with_filled(sum_amount(m.filled_quantity, x));
        let t2 = t.with_filled(sum_amount(t.filled_quantity, x));
        let f = fill_of(m, t, x);
        if m2.filled_quantity.value() == m.quantity.value() {
            let (r, t3, fs) = sweep_queue(q.drop_first(), t2);
            (r, t3, seq![f] + fs)
        } else {
            (q.update(0, m2), t2, seq![f])
        }
    }
}

/// Every trade of `sweep_queue(q, t)` is exact.
pub open spec fn queue_exact(q: Seq<Order>, t: Order) -> bool
    decreases q.len(),
{
    if q.len() == 0 || !t.is_open() {
        true
    } else {
        let m = q[0];
        let x = match_qty(m, t);
        let t2 = t.with_filled(sum_amount(t.filled_quantity, x));
        &&& step_exact(m, t)
        &&& (sum_amount(m.filled_quantity, x).value() == m.quantity.value() ==> queue_exact(
            q.drop_first(),
            t2,
        ))
    }
}

/// Levels after matching, with the level whose queue is now empty left out.
pub open spec fn keep_level(price: Amount, q: Seq<Order>) -> Seq<LevelView> {
    if q.len() == 0 {
        seq![]
    } else {
        seq![LevelView { price: price, orders: q }]
    }
}

/// An incoming bid matched against the asks: from the lowest level up, up to the first
/// level priced above the bid.
pub open spec fn sweep_asks(levels: Seq<LevelView>, t: Order) -> (Seq<LevelView>, Order, Seq<
    FillView,
>)
    decreases levels.len(),
{
    if levels.len() == 0 || levels[0].price.value() > t.price.value() {
        (levels, t, seq![])
    } else {
        let (q, t1, f1) = sweep_queue(levels[0].orders, t);
        let (rest, t2, f2) = sweep_asks(levels.drop_first(), t1);
        (keep_level(levels[0].price, q) + rest, t2, f1 + f2)
    }
}

/// Every trade of `sweep_asks(levels, t)` is exact.
pub open spec fn asks_exact(levels: Seq<LevelView>, t: Order) -> bool
    decreases levels.len(),
{
    if levels.len() == 0 || levels[0].price.value() > t.price.value() {
        true
    } else {
        let t1 = sweep_queue(levels[0].orders, t).1;
        queue_exact(levels[0].orders, t) && asks_exact(levels.drop_first(), t1)
    }
}

/// An incoming ask matched against the bids: from the highest level down, down to the
/// first level priced below the ask.
pub open spec fn sweep_bids(levels: Seq<LevelView>, t: Order) -> (Seq<LevelView>, Order, Seq<
    FillView,
>)
    decreases levels.len(),
{
    if levels.len() == 0 || t.price.value() > levels.last().price.value() {
        (levels, t, seq![])
    } else {
        let (q, t1, f1) = sweep_queue(levels.last().orders, t);
        let (rest, t2, f2) = sweep_bids(levels.drop_last(), t1);
        (rest + keep_level(levels.last().price, q), t2, f1 + f2)
    }
}

/// Every trade of `sweep_bids(levels, t)` is exact.
pub open spec fn bids_exact(levels: Seq<LevelView>, t: Order) -> bool
    decreases levels.len(),
{
    if levels.len() == 0 || t.price.value() > levels.last().price.value() {
        true
    } else {
        let t1 = sweep_queue(levels.last().orders, t).1;
        queue_exact(levels.last().orders, t) && bids_exact(levels.drop_last(), t1)
    }
}

/// Adding a resting order at the back of the queue of its price level, and creating that
/// level (keyed by the order's price) where there is none.
pub open spec fn insert_resting(levels: Seq<LevelView>, o: Order) -> Seq<LevelView>
    decreases levels.len(),
{
    if levels.len() == 0 {
        seq![LevelView { price: o.price, orders: seq![o] }]
    } else if o.price.value() < levels[0].price.value() {
        seq![LevelView { price: o.price, orders: seq![o] }] + levels
    } else if o.price.value() == levels[0].price.value() {
        seq![LevelView { price: levels[0].price, orders: levels[0].orders.push(o) }]
            + levels.drop_first()
    } else {
        seq![levels[0]] + insert_resting(levels.drop_first(), o)
    }
}

/// The sum of the quantities of a sequence of fills, by value.
pub open spec fn fill_total(fs: Seq<FillView>) -> int
    decreases fs.len(),
{
    if fs.len() == 0 {
        0
    } else {
        fill_total(fs.drop_last()) + fs.last().quantity.value()
    }
}

/// The executed quantity as it is added up, fill by fill, from a zero of scale zero.
pub open spec fn fills_sum(fs: Seq<FillView>) -> Amount
    decreases fs.len(),
{
    if fs.len() == 0 {
        Amount { mantissa: 0, scale: 0 }
    } else {
        sum_amount(fills_sum(fs.drop_last()), fs.last().quantity)
    }
}

/// Every addition of `fills_sum(fs)` is exact.
pub open spec fn fills_sum_exact(fs: Seq<FillView>) -> bool
    decreases fs.len(),
{
    fs.len() == 0 || (fills_sum_exact(fs.drop_last()) && add_exact(
        fills_sum(fs.drop_last()),
        fs.last().quantity,
    ))
}

/// The matching part of placing `o`: the other side afterwards, the order afterwards and
/// the fills.
pub open spec fn match_spec(b: BookView, o: Order) -> (Seq<LevelView>, Order, Seq<FillView>) {
    match o.side {
        Side::Ask => sweep_bids(b.bids, o),
        Side::Bid => sweep_asks(b.asks, o),
    }
}

/// Placing `o` on `b` is exact: every trade, and every addition to the executed quantity.
pub open spec fn place_exact(b: BookView, o: Order) -> bool {
    &&& match o.side {
        Side::Ask => bids_exact(b.bids, o),
        Side::Bid => asks_exact(b.asks, o),
    }
    &&& fills_sum_exact(match_spec(b, o).2)
}

/// Placing order `o`: it is matched against the opposite side, and what is left of it
/// rests on its own side.  The result is the book afterwards, the order afterwards and the
/// fills; the executed quantity is `fills_sum` of the fills.
pub open spec fn place_spec(b: BookView, o: Order) -> (BookView, Order, Seq<FillView>) {
    let (other, t, fs) = match_spec(b, o);
    let (bids, asks) = match o.side {
        Side::Ask => (
            other,
            if t.is_open() {
                insert_resting(b.asks, t)
            } else {
                b.asks
            },
        ),
        Side::Bid => (
            if t.is_open() {
                insert_resting(b.bids, t)
            } else {
                b.bids
            },
            other,
        ),
    };
    let last = if fills_sum(fs).value() > 0 {
        fs.last().price
    } else {
        b.last_traded_price
    };
    (
        BookView {
            market: b.market,
            market_id: b.market_id,
            bids: bids,
            asks: asks,
            last_traded_price: last,
        },
        t,
        fs,
    )
}

// ---------------------------------------------------------------------------------------
// Well-formedness of a side of the book
/// A resting order on a level of the given price and side holds valid decimals and still
/// has quantity left.
pub open spec fn rests_at(o: Order, price: Amount, side: Side) -> bool {
    &&& o.wf()
    &&& o.price.value() == price.value()
    &&& o.side == side
    &&& o.is_open()
}

pub open spec fn level_ok(l: LevelView, side: Side) -> bool {
    &&& l.price.wf()
    &&& l.orders.len() > 0
    &&& forall|j: int| 0 <= j < l.orders.len() ==> #[trigger] rests_at(l.orders[j], l.price, side)
}

/// Levels are in strictly ascending price order.
pub open spec fn sorted(levels: Seq<LevelView>) -> bool {
    forall|i: int, j: int|
        0 <= i < j < levels.len() ==> #[trigger] levels[i].price.value()
            < #[trigger] levels[j].price.value()
}

/// A side of the book: ascending, distinct price levels, none of them empty, holding open
/// orders of that side at the level's price.
pub open spec fn side_ok(levels: Seq<LevelView>, side: Side) -> bool {
    &&& sorted(levels)
    &&& forall|i: int| 0 <= i < levels.len() ==> #[trigger] level_ok(levels[i], side)
}

pub open spec fn book_ok(b: BookView) -> bool {
    side_ok(b.bids, Side::Bid) && side_ok(b.asks, Side::Ask) && b.last_traded_price.wf()
}

/// The best bid is below the best ask.
pub open spec fn uncrossed(b: BookView) -> bool {
    b.bids.len() > 0 && b.asks.len() > 0 ==> b.bids.last().price.value()
        < b.asks[0].price.value()
}

/// A fill of `t` at price `price`: valid decimals, a positive quantity.
pub open spec fn fill_ok(f: FillView, t: Order) -> bool {
    &&& f.quantity.wf()
    &&& f.price.wf()
    &&& f.quantity.value() > 0
    &&& f.taker_order_id == t.order_id
}

/// Fills of `t`, all at the price of `price`.
pub open spec fn fills_at(fs: Seq<FillView>, t: Order, price: Amount) -> bool {
    forall|k: int|
        0 <= k < fs.len() ==> #[trigger] fill_ok(fs[k], t) && fs[k].price.value() == price.value()
}

// ---------------------------------------------------------------------------------------
// Facts about one trade and about matching one queue
/// One exact trade: the quantity traded is the smaller of what is left of each order, and
/// both filled quantities grow by it.
pub proof fn lemma_step(m: Order, t: Order)
    requires
        m.wf(),
        t.wf(),
        step_exact(m, t),
    ensures
        match_qty(m, t).wf(),
        match_qty(m, t).value() == min_int(m.remaining(), t.remaining()),
        sum_amount(m.filled_quantity, match_qty(m, t)).wf(),
        sum_amount(m.filled_quantity, match_qty(m, t)).value() == m.filled_quantity.value()
            + match_qty(m, t).value(),
        sum_amount(t.filled_quantity, match_qty(m, t)).wf(),
        sum_amount(t.filled_quantity, match_qty(m, t)).value() == t.filled_quantity.value()
            + match_qty(m, t).value(),
{
    lemma_diff_amount(m.quantity, m.filled_quantity);
    lemma_diff_amount(t.quantity, t.filled_quantity);
    let x = match_qty(m, t);
    lemma_sum_amount(m.filled_quantity, x);
    lemma_sum_amount(t.filled_quantity, x);
}

/// The incoming order after matching one queue is the same order with more filled, up to
/// its quantity; every fill is positive and conserved; the queue left holds resting orders
/// and, when the incoming order still has quantity left, is empty.
#[verifier::spinoff_prover]
#[verifier::rlimit(100)]
pub proof fn lemma_sweep_queue(q: Seq<Order>, t: Order, price: Amount, side: Side)
    requires
        forall|j: int| 0 <= j < q.len() ==> #[trigger] rests_at(q[j], price, side),
        price.wf(),
        t.wf(),
        queue_exact(q, t),
    ensures
        sweep_queue(q, t).1 == t.with_filled(sweep_queue(q, t).1.filled_quantity),
        sweep_queue(q, t).1.wf(),
        sweep_queue(q, t).1.filled_quantity.value() == t.filled_quantity.value() + fill_total(
            sweep_queue(q, t).2,
        ),
        t.is_open() ==> sweep_queue(q, t).1.filled_quantity.value() <= t.quantity.value(),
        !t.is_open() ==> sweep_queue(q, t).2.len() == 0 && sweep_queue(q, t).1 == t
            && sweep_queue(q, t).0 == q,
        forall|j: int|
            0 <= j < sweep_queue(q, t).0.len() ==> #[trigger] rests_at(
                sweep_queue(q, t).0[j],
                price,
                side,
            ),
        sweep_queue(q, t).0.len() <= q.len(),
        sweep_queue(q, t).1.is_open() ==> sweep_queue(q, t).0.len() == 0,
        fills_at(sweep_queue(q, t).2, t, price),
    decreases q.len(),
{
    if q.len() == 0 || !t.is_open() {
        assert(sweep_queue(q, t) == (q, t, Seq::<FillView>::empty()));
        assert(fill_total(Seq::<FillView>::empty()) == 0);
        assert(t == t.with_filled(t.filled_quantity));
        assert(sweep_queue(q, t).2.len() == 0);
        assert forall|k: int| 0 <= k < sweep_queue(q, t).2.len() implies #[trigger] fill_ok(
            sweep_queue(q, t).2[k],
            t,
        ) && sweep_queue(q, t).2[k].price.value() == price.value() by {}
        assert(fills_at(sweep_queue(q, t).2, t, price));
    } else {
        let m = q[0];
        assert(rests_at(q[0], price, side));
        lemma_step(m, t);
        let x = match_qty(m, t);
        let m2 = m.with_filled(sum_amount(m.filled_quantity, x));
        let t2 = t.with_filled(sum_amount(t.filled_quantity, x));
        let f = fill_of(m, t, x);
        assert(fill_ok(f, t));
        if m2.filled_quantity.value() == m.quantity.value() {
            let q1 = q.drop_first();
            assert forall|j: int| 0 <= j < q1.len() implies #[trigger] rests_at(
                q1[j],
                price,
                side,
            ) by {
                assert(q1[j] == q[j + 1]);
                assert(rests_at(q[j + 1], price, side));
            }
            lemma_sweep_queue(q1, t2, price, side);
            let (r, t3, fs) = sweep_queue(q1, t2);
            assert(sweep_queue(q, t) == (r, t3, seq![f] + fs));
            assert(t3 == t.with_filled(t3.filled_quantity));
            assert(t2.is_open() ==> t3.filled_quantity.value() <= t.quantity.value());
            assert(!t2.is_open() ==> t3 == t2);
            lemma_fill_total_prepend(f, fs);
            assert((seq![f] + fs)[0] == f);
            assert forall|k: int| 0 <= k < (seq![f] + fs).len() implies #[trigger] fill_ok(
                (seq![f] + fs)[k],
                t,
            ) && (seq![f] + fs)[k].price.value() == price.value() by {
                assert(fills_at(fs, t2, price));
                if k > 0 {
                    assert((seq![f] + fs)[k] == fs[k - 1]);
                    assert(fill_ok(fs[k - 1], t2));
                }
            }
            assert(fills_at(seq![f] + fs, t, price));
            assert(sweep_queue(q, t).2 == seq![f] + fs);
            assert(fills_at(sweep_queue(q, t).2, t, price));
        } else {
            let r = q.update(0, m2);
            assert(rests_at(m2, price, side));
            assert forall|j: int| 0 <= j < r.len() implies #[trigger] rests_at(r[j], price, side) by {
                if j > 0 {
                    assert(r[j] == q[j]);
                    assert(rests_at(q[j], price, side));
                }
            }
            assert(sweep_queue(q, t) == (r, t2, seq![f]));
            lemma_fill_total_prepend(f, seq![]);
            assert(seq![f] + Seq::<FillView>::empty() =~= seq![f]);
            assert(fill_total(seq![f]) == x.value());
            assert(seq![f][0] == f);
            assert(!t2.is_open());
            assert(r.len() == q.len());
            assert forall|k: int| 0 <= k < sweep_queue(q, t).2.len() implies #[trigger] fill_ok(
                sweep_queue(q, t).2[k],
                t,
            ) && sweep_queue(q, t).2[k].price.value() == price.value() by {
                assert(k == 0);
                assert(sweep_queue(q, t).2[k] == f);
            }
            assert(fills_at(sweep_queue(q, t).2, t, price));
        }
    }
}

pub proof fn lemma_fill_total_prepend(f: FillView, fs: Seq<FillView>)
    ensures
        fill_total(seq![f] + fs) == f.quantity.value() + fill_total(fs),
    decreases fs.len(),
{
    if fs.len() == 0 {
        assert(seq![f] + fs =~= seq![f]);
        assert(seq![f].drop_last() =~= Seq::<FillView>::empty());
        assert(fill_total(Seq::<FillView>::empty()) == 0);
        assert(seq![f].last() == f);
        assert(fill_total(seq![f]) == fill_total(seq![f].drop_last()) + f.quantity.value());
    } else {
        let s = seq![f] + fs;
        assert(s.drop_last() =~= seq![f] + fs.drop_last());
        assert(s.last() == fs.last());
        lemma_fill_total_prepend(f, fs.drop_last());
        assert(fill_total(s) == fill_total(s.drop_last()) + s.last().quantity.value());
    }
}

pub proof fn lemma_fill_total_append(a: Seq<FillView>, b: Seq<FillView>)
    ensures
        fill_total(a + b) == fill_total(a) + fill_total(b),
    decreases b.len(),
{
    if b.len() == 0 {
        assert(a + b =~= a);
    } else {
        assert((a + b).drop_last() =~= a + b.drop_last());
        lemma_fill_total_append(a, b.drop_last());
    }
}


// ---------------------------------------------------------------------------------------
// Facts about matching a side
pub proof fn lemma_side_ok_drop_first(levels: Seq<LevelView>, side: Side)
    requires
        side_ok(levels, side),
        levels.len() > 0,
    ensures
        side_ok(levels.drop_first(), side),
        forall|k: int|
            0 <= k < levels.drop_first().len() ==> #[trigger] levels.drop_first()[k].price.value()
                > levels[0].price.value(),
{
    let d = levels.drop_first();
    assert forall|k: int| 0 <= k < d.len() implies #[trigger] level_ok(d[k], side) by {
        assert(d[k] == levels[k + 1]);
        assert(level_ok(levels[k + 1], side));
    }
    assert forall|i: int, j: int| 0 <= i < j < d.len() implies #[trigger] d[i].price.value()
        < #[trigger] d[j].price.value() by {
        assert(d[i] == levels[i + 1]);
        assert(d[j] == levels[j + 1]);
        assert(levels[i + 1].price.value() < levels[j + 1].price.value());
    }
    assert forall|k: int| 0 <= k < d.len() implies #[trigger] d[k].price.value()
        > levels[0].price.value() by {
        assert(d[k] == levels[k + 1]);
        assert(levels[0].price.value() < levels[k + 1].price.value());
    }
}

pub proof fn lemma_side_ok_drop_last(levels: Seq<LevelView>, side: Side)
    requires
        side_ok(levels, side),
        levels.len() > 0,
    ensures
        side_ok(levels.drop_last(), side),
        forall|k: int|
            0 <= k < levels.drop_last().len() ==> #[trigger] levels.drop_last()[k].price.value()
                < levels.last().price.value(),
{
    let d = levels.drop_last();
    assert forall|k: int| 0 <= k < d.len() implies #[trigger] level_ok(d[k], side) by {
        assert(d[k] == levels[k]);
        assert(level_ok(levels[k], side));
    }
    assert forall|i: int, j: int| 0 <= i < j < d.len() implies #[trigger] d[i].price.value()
        < #[trigger] d[j].price.value() by {
        assert(d[i] == levels[i]);
        assert(d[j] == levels[j]);
        assert(levels[i].price.value() < levels[j].price.value());
    }
    assert forall|k: int| 0 <= k < d.len() implies #[trigger] d[k].price.value()
        < levels.last().price.value() by {
        assert(d[k] == levels[k]);
        assert(levels[k].price.value() < levels[levels.len() - 1].price.value());
    }
}

/// Matching an incoming bid against the asks keeps the asks well formed and never above
/// their old best price, fills at or below the bid's limit, and fills the bid by the total
/// of the fills; when the bid still has quantity left, no ask at or below its limit is left.
#[verifier::spinoff_prover]
#[verifier::rlimit(80)]
pub proof fn lemma_sweep_asks(levels: Seq<LevelView>, t: Order)
    requires
        side_ok(levels, Side::Ask),
        t.wf(),
        asks_exact(levels, t),
    ensures
        ({
            let (r, t2, fs) = sweep_asks(levels, t);
            &&& side_ok(r, Side::Ask)
            &&& levels.len() > 0 ==> forall|k: int|
                0 <= k < r.len() ==> #[trigger] r[k].price.value() >= levels[0].price.value()
            &&& t2 == t.with_filled(t2.filled_quantity)
            &&& t2.wf()
            &&& t2.filled_quantity.value() == t.filled_quantity.value() + fill_total(fs)
            &&& t.is_open() ==> t2.filled_quantity.value() <= t.quantity.value()
            &&& !t.is_open() ==> fs.len() == 0 && r == levels && t2 == t
            &&& t2.is_open() ==> forall|k: int|
                0 <= k < r.len() ==> #[trigger] r[k].price.value() > t.price.value()
            &&& forall|k: int|
                0 <= k < fs.len() ==> #[trigger] fill_ok(fs[k], t) && fs[k].price.value()
                    <= t.price.value()
            &&& levels.len() > 0 ==> forall|k: int|
                0 <= k < fs.len() ==> #[trigger] fs[k].price.value() >= levels[0].price.value()
            &&& forall|i: int, j: int|
                0 <= i < j < fs.len() ==> #[trigger] fs[i].price.value()
                    <= #[trigger] fs[j].price.value()
        }),
    decreases levels.len(),
{
    if levels.len() == 0 || levels[0].price.value() > t.price.value() {
        if levels.len() > 0 {
            assert forall|k: int| 0 <= k < levels.len() implies #[trigger] levels[k].price.value()
                >= levels[0].price.value() by {
                if k > 0 {
                    assert(levels[0].price.value() < levels[k].price.value());
                }
            }
        }
    } else {
        let l0 = levels[0];
        assert(level_ok(l0, Side::Ask));
        lemma_sweep_queue(l0.orders, t, l0.price, Side::Ask);
        let (q, t1, f1) = sweep_queue(l0.orders, t);
        let d = levels.drop_first();
        lemma_side_ok_drop_first(levels, Side::Ask);
        lemma_sweep_asks(d, t1);
        let (rest, t2, f2) = sweep_asks(d, t1);
        let r = keep_level(l0.price, q) + rest;
        lemma_fill_total_append(f1, f2);
        if d.len() > 0 {
            assert forall|k: int| 0 <= k < rest.len() implies #[trigger] rest[k].price.value()
                > l0.price.value() by {
                assert(rest[k].price.value() >= d[0].price.value());
            }
        } else {
            assert(rest.len() == 0);
        }
        if q.len() > 0 {
            let nl = LevelView { price: l0.price, orders: q };
            assert(level_ok(nl, Side::Ask));
            assert(r == seq![nl] + rest);
            assert forall|k: int| 0 <= k < r.len() implies #[trigger] level_ok(r[k], Side::Ask) by {
                if k > 0 {
                    assert(r[k] == rest[k - 1]);
                }
            }
            assert forall|i: int, j: int| 0 <= i < j < r.len() implies #[trigger] r[i].price.value()
                < #[trigger] r[j].price.value() by {
                assert(r[j] == rest[j - 1]);
                if i > 0 {
                    assert(r[i] == rest[i - 1]);
                }
            }
            assert forall|k: int| 0 <= k < r.len() implies #[trigger] r[k].price.value()
                >= levels[0].price.value() by {
                if k > 0 {
                    assert(r[k] == rest[k - 1]);
                }
            }
        } else {
            assert(r =~= rest);
        }
        if !t.is_open() {
            assert(t1 == t);
            assert(q == l0.orders);
            assert(seq![l0] + d =~= levels);
        }
        if !t1.is_open() {
            assert(f2.len() == 0);
            assert(t2 == t1);
        }
        let fs = f1 + f2;
        assert(t1.price == t.price && t1.order_id == t.order_id);
        assert forall|k: int| 0 <= k < fs.len() implies #[trigger] fill_ok(fs[k], t)
            && fs[k].price.value() <= t.price.value() by {
            if k < f1.len() {
                assert(fs[k] == f1[k]);
                assert(fill_ok(f1[k], t));
            } else {
                assert(fs[k] == f2[k - f1.len()]);
                assert(fill_ok(f2[k - f1.len()], t1));
            }
        }
        if d.len() > 0 {
            assert forall|k: int| 0 <= k < f2.len() implies #[trigger] f2[k].price.value()
                > l0.price.value() by {
                assert(f2[k].price.value() >= d[0].price.value());
            }
        }
        assert forall|k: int| 0 <= k < fs.len() implies #[trigger] fs[k].price.value()
            >= levels[0].price.value() by {
            if k < f1.len() {
                assert(fs[k] == f1[k]);
                assert(fill_ok(f1[k], t));
            } else {
                assert(fs[k] == f2[k - f1.len()]);
            }
        }
        assert forall|i: int, j: int| 0 <= i < j < fs.len() implies #[trigger] fs[i].price.value()
            <= #[trigger] fs[j].price.value() by {
            if j < f1.len() {
                assert(fs[i] == f1[i]);
                assert(fs[j] == f1[j]);
                assert(fill_ok(f1[i], t) && fill_ok(f1[j], t));
            } else if i < f1.len() {
                assert(fs[i] == f1[i]);
                assert(fs[j] == f2[j - f1.len()]);
                assert(fill_ok(f1[i], t));
            } else {
                assert(fs[i] == f2[i - f1.len()]);
                assert(fs[j] == f2[j - f1.len()]);
            }
        }
    }
}

/// Matching an incoming ask against the bids: the mirror image of [`lemma_sweep_asks`].
#[verifier::spinoff_prover]
#[verifier::rlimit(80)]
pub proof fn lemma_sweep_bids(levels: Seq<LevelView>, t: Order)
    requires
        side_ok(levels, Side::Bid),
        t.wf(),
        bids_exact(levels, t),
    ensures
        ({
            let (r, t2, fs) = sweep_bids(levels, t);
            &&& side_ok(r, Side::Bid)
            &&& levels.len() > 0 ==> forall|k: int|
                0 <= k < r.len() ==> #[trigger] r[k].price.value() <= levels.last().price.value()
            &&& t2 == t.with_filled(t2.filled_quantity)
            &&& t2.wf()
            &&& t2.filled_quantity.value() == t.filled_quantity.value() + fill_total(fs)
            &&& t.is_open() ==> t2.filled_quantity.value() <= t.quantity.value()
            &&& !t.is_open() ==> fs.len() == 0 && r == levels && t2 == t
            &&& t2.is_open() ==> forall|k: int|
                0 <= k < r.len() ==> #[trigger] r[k].price.value() < t.price.value()
            &&& forall|k: int|
                0 <= k < fs.len() ==> #[trigger] fill_ok(fs[k], t) && fs[k].price.value()
                    >= t.price.value()
            &&& levels.len() > 0 ==> forall|k: int|
                0 <= k < fs.len() ==> #[trigger] fs[k].price.value()
                    <= levels.last().price.value()
            &&& forall|i: int, j: int|
                0 <= i < j < fs.len() ==> #[trigger] fs[i].price.value()
                    >= #[trigger] fs[j].price.value()
        }),
    decreases levels.len(),
{
    if levels.len() == 0 || t.price.value() > levels.last().price.value() {
        if levels.len() > 0 {
            assert forall|k: int| 0 <= k < levels.len() implies #[trigger] levels[k].price.value()
                <= levels.last().price.value() by {
                if k < levels.len() - 1 {
                    assert(levels[k].price.value() < levels[levels.len() - 1].price.value());
                }
            }
        }
    } else {
        let ll = levels.last();
        assert(level_ok(levels[levels.len() - 1], Side::Bid));
        lemma_sweep_queue(ll.orders, t, ll.price, Side::Bid);
        let (q, t1, f1) = sweep_queue(ll.orders, t);
        let d = levels.drop_last();
        lemma_side_ok_drop_last(levels, Side::Bid);
        lemma_sweep_bids(d, t1);
        let (rest, t2, f2) = sweep_bids(d, t1);
        let r = rest + keep_level(ll.price, q);
        lemma_fill_total_append(f1, f2);
        if d.len() > 0 {
            assert forall|k: int| 0 <= k < rest.len() implies #[trigger] rest[k].price.value()
                < ll.price.value() by {
                assert(rest[k].price.value() <= d.last().price.value());
                assert(d.last() == d[d.len() - 1]);
            }
        } else {
            assert(rest.len() == 0);
        }
        if q.len() > 0 {
            let nl = LevelView { price: ll.price, orders: q };
            assert(level_ok(nl, Side::Bid));
            assert(r == rest + seq![nl]);
            assert forall|k: int| 0 <= k < r.len() implies #[trigger] level_ok(r[k], Side::Bid) by {
                if k < rest.len() {
                    assert(r[k] == rest[k]);
                }
            }
            assert forall|i: int, j: int| 0 <= i < j < r.len() implies #[trigger] r[i].price.value()
                < #[trigger] r[j].price.value() by {
                assert(r[i] == rest[i]);
                if j < rest.len() {
                    assert(r[j] == rest[j]);
                }
            }
            assert forall|k: int| 0 <= k < r.len() implies #[trigger] r[k].price.value()
                <= levels.last().price.value() by {
                if k < rest.len() {
                    assert(r[k] == rest[k]);
                }
            }
        } else {
            assert(r =~= rest);
        }
        if !t.is_open() {
            assert(t1 == t);
            assert(q == ll.orders);
            assert(d.push(ll) =~= levels);
        }
        if !t1.is_open() {
            assert(f2.len() == 0);
            assert(t2 == t1);
        }
        let fs = f1 + f2;
        assert(t1.price == t.price && t1.order_id == t.order_id);
        assert forall|k: int| 0 <= k < fs.len() implies #[trigger] fill_ok(fs[k], t)
            && fs[k].price.value() >= t.price.value() by {
            if k < f1.len() {
                assert(fs[k] == f1[k]);
                assert(fill_ok(f1[k], t));
            } else {
                assert(fs[k] == f2[k - f1.len()]);
                assert(fill_ok(f2[k - f1.len()], t1));
            }
        }
        if d.len() > 0 {
            assert forall|k: int| 0 <= k < f2.len() implies #[trigger] f2[k].price.value()
                < ll.price.value() by {
                assert(f2[k].price.value() <= d.last().price.value());
                assert(d.last() == d[d.len() - 1]);
            }
        }
        assert forall|k: int| 0 <= k < fs.len() implies #[trigger] fs[k].price.value()
            <= levels.last().price.value() by {
            if k < f1.len() {
                assert(fs[k] == f1[k]);
                assert(fill_ok(f1[k], t));
            } else {
                assert(fs[k] == f2[k - f1.len()]);
            }
        }
        assert forall|i: int, j: int| 0 <= i < j < fs.len() implies #[trigger] fs[i].price.value()
            >= #[trigger] fs[j].price.value() by {
            if j < f1.len() {
                assert(fs[i] == f1[i]);
                assert(fs[j] == f1[j]);
                assert(fill_ok(f1[i], t) && fill_ok(f1[j], t));
            } else if i < f1.len() {
                assert(fs[i] == f1[i]);
                assert(fs[j] == f2[j - f1.len()]);
                assert(fill_ok(f1[i], t));
            } else {
                assert(fs[i] == f2[i - f1.len()]);
                assert(fs[j] == f2[j - f1.len()]);
            }
        }
    }
}

// ---------------------------------------------------------------------------------------
// Facts about adding a resting order
/// Adding a resting order keeps a side well formed, and every price of the side afterwards
/// is a price it had before or the order's own price.
pub proof fn lemma_insert_resting(levels: Seq<LevelView>, o: Order, side: Side, lb: int, ub: int)
    requires
        side_ok(levels, side),
        o.wf(),
        o.side == side,
        o.is_open(),
        lb <= o.price.value() <= ub,
        forall|i: int| 0 <= i < levels.len() ==> lb <= #[trigger] levels[i].price.value() <= ub,
    ensures
        side_ok(insert_resting(levels, o), side),
        forall|k: int|
            0 <= k < insert_resting(levels, o).len() ==> lb <= #[trigger] insert_resting(
                levels,
                o,
            )[k].price.value() <= ub,
    decreases levels.len(),
{
    let r = insert_resting(levels, o);
    let nl = LevelView { price: o.price, orders: seq![o] };
    assert(rests_at(o, o.price, side));
    assert(level_ok(nl, side)) by {
        assert forall|j: int| 0 <= j < nl.orders.len() implies #[trigger] rests_at(
            nl.orders[j],
            nl.price,
            side,
        ) by {
            assert(nl.orders[j] == o);
        }
    }
    if levels.len() == 0 {
        assert(r == seq![nl]);
    } else if o.price.value() < levels[0].price.value() {
        assert(r == seq![nl] + levels);
        assert forall|k: int| 0 <= k < r.len() implies #[trigger] level_ok(r[k], side) by {
            if k > 0 {
                assert(r[k] == levels[k - 1]);
            }
        }
        assert forall|i: int, j: int| 0 <= i < j < r.len() implies #[trigger] r[i].price.value()
            < #[trigger] r[j].price.value() by {
            assert(r[j] == levels[j - 1]);
            if i > 0 {
                assert(r[i] == levels[i - 1]);
            } else if j - 1 > 0 {
                assert(levels[0].price.value() < levels[j - 1].price.value());
            }
        }
        assert forall|k: int| 0 <= k < r.len() implies lb <= #[trigger] r[k].price.value() <= ub by {
            if k > 0 {
                assert(r[k] == levels[k - 1]);
            }
        }
    } else if o.price.value() == levels[0].price.value() {
        let l0 = levels[0];
        assert(level_ok(l0, side));
        let ml = LevelView { price: l0.price, orders: l0.orders.push(o) };
        assert(level_ok(ml, side)) by {
            assert forall|j: int| 0 <= j < ml.orders.len() implies #[trigger] rests_at(
                ml.orders[j],
                ml.price,
                side,
            ) by {
                if j < l0.orders.len() {
                    assert(ml.orders[j] == l0.orders[j]);
                } else {
                    assert(ml.orders[j] == o);
                }
            }
        }
        assert(r == seq![ml] + levels.drop_first());
        assert forall|k: int| 0 <= k < r.len() implies #[trigger] level_ok(r[k], side) by {
            if k > 0 {
                assert(r[k] == levels[k]);
            }
        }
        assert forall|i: int, j: int| 0 <= i < j < r.len() implies #[trigger] r[i].price.value()
            < #[trigger] r[j].price.value() by {
            assert(r[j] == levels[j]);
            if i > 0 {
                assert(r[i] == levels[i]);
            }
            assert(levels[0].price.value() < levels[j].price.value());
        }
        assert forall|k: int| 0 <= k < r.len() implies lb <= #[trigger] r[k].price.value() <= ub by {
            if k > 0 {
                assert(r[k] == levels[k]);
            }
        }
    } else {
        let d = levels.drop_first();
        lemma_side_ok_drop_first(levels, side);
        lemma_insert_resting(d, o, side, levels[0].price.value(), ub);
        let rd = insert_resting(d, o);
        assert(r == seq![levels[0]] + rd);
        assert(level_ok(levels[0], side));
        assert forall|k: int| 0 <= k < r.len() implies #[trigger] level_ok(r[k], side) by {
            if k > 0 {
                assert(r[k] == rd[k - 1]);
            }
        }
        assert forall|i: int, j: int| 0 <= i < j < r.len() implies #[trigger] r[i].price.value()
            < #[trigger] r[j].price.value() by {
            assert(r[j] == rd[j - 1]);
            if i > 0 {
                assert(r[i] == rd[i - 1]);
            } else {
                // rd's prices are above levels[0]'s: they come from d or are o's price
                if rd[j - 1].price.value() == levels[0].price.value() {
                    assert(false) by {
                        lemma_insert_resting_above(d, o, levels[0].price.value());
                    }
                }
            }
        }
        assert forall|k: int| 0 <= k < r.len() implies lb <= #[trigger] r[k].price.value() <= ub by {
            if k > 0 {
                assert(r[k] == rd[k - 1]);
                assert(lb <= levels[0].price.value());
            }
        }
    }
}

/// Adding a resting order priced above `p` to levels priced above `p` gives levels priced
/// above `p`.
pub proof fn lemma_insert_resting_above(levels: Seq<LevelView>, o: Order, p: int)
    requires
        o.price.value() > p,
        forall|i: int| 0 <= i < levels.len() ==> #[trigger] levels[i].price.value() > p,
    ensures
        forall|k: int|
            0 <= k < insert_resting(levels, o).len() ==> #[trigger] insert_resting(
                levels,
                o,
            )[k].price.value() > p,
    decreases levels.len(),
{
    let r = insert_resting(levels, o);
    if levels.len() == 0 {
    } else if o.price.value() < levels[0].price.value() {
        assert forall|k: int| 0 <= k < r.len() implies #[trigger] r[k].price.value() > p by {
            if k > 0 {
                assert(r[k] == levels[k - 1]);
            }
        }
    } else if o.price.value() == levels[0].price.value() {
        assert forall|k: int| 0 <= k < r.len() implies #[trigger] r[k].price.value() > p by {
            if k > 0 {
                assert(r[k] == levels[k]);
            }
        }
    } else {
        let d = levels.drop_first();
        assert forall|i: int| 0 <= i < d.len() implies #[trigger] d[i].price.value() > p by {
            assert(d[i] == levels[i + 1]);
        }
        lemma_insert_resting_above(d, o, p);
        let rd = insert_resting(d, o);
        assert forall|k: int| 0 <= k < r.len() implies #[trigger] r[k].price.value() > p by {
            if k > 0 {
                assert(r[k] == rd[k - 1]);
            }
        }
    }
}

// ---------------------------------------------------------------------------------------
// Facts about placing an order
pub proof fn lemma_sorted_bounds(levels: Seq<LevelView>)
    requires
        sorted(levels),
        levels.len() > 0,
    ensures
        forall|i: int|
            0 <= i < levels.len() ==> levels[0].price.value() <= #[trigger] levels[i].price.value()
                <= levels.last().price.value(),
{
    assert forall|i: int| 0 <= i < levels.len() implies levels[0].price.value()
        <= #[trigger] levels[i].price.value() <= levels.last().price.value() by {
        if i > 0 {
            assert(levels[0].price.value() < levels[i].price.value());
        }
        if i < levels.len() - 1 {
            assert(levels[i].price.value() < levels[levels.len() - 1].price.value());
        }
    }
}

/// The fills of placing `o`: valid, positive, with `o`, at `o`'s limit price or better,
/// and in price priority (ascending prices for a bid, descending for an ask).
pub open spec fn placed_fills_ok(fs: Seq<FillView>, o: Order) -> bool {
    &&& forall|k: int|
        0 <= k < fs.len() ==> #[trigger] fill_ok(fs[k], o) && (o.side == Side::Bid
            ==> fs[k].price.value() <= o.price.value()) && (o.side == Side::Ask
            ==> fs[k].price.value() >= o.price.value())
    &&& forall|i: int, j: int|
        0 <= i < j < fs.len() ==> (o.side == Side::Bid ==> #[trigger] fs[i].price.value()
            <= #[trigger] fs[j].price.value()) && (o.side == Side::Ask ==> fs[i].price.value()
            >= fs[j].price.value())
}

/// Placing an order keeps the book well formed and never crosses it; the order comes out
/// the same order with more filled, by exactly the total of the fills; every fill is
/// positive, is with the placed order, and is at the order's limit price or better.
#[verifier::spinoff_prover]
#[verifier::rlimit(40)]
pub proof fn lemma_place_spec(b: BookView, o: Order)
    requires
        book_ok(b),
        o.wf(),
        place_exact(b, o),
    ensures
        ({
            let (b2, t, fs) = place_spec(b, o);
            &&& book_ok(b2)
            &&& uncrossed(b) ==> uncrossed(b2)
            &&& b2.market == b.market && b2.market_id == b.market_id
            &&& t == o.with_filled(t.filled_quantity)
            &&& t.wf()
            &&& t.filled_quantity.value() == o.filled_quantity.value() + fill_total(fs)
            &&& o.is_open() ==> t.filled_quantity.value() <= o.quantity.value()
            &&& !o.is_open() ==> fs.len() == 0
            &&& fills_sum(fs).wf()
            &&& fills_sum(fs).value() == fill_total(fs)
            &&& placed_fills_ok(fs, o)
        }),
{
    let (b2, t, fs) = place_spec(b, o);
    assert forall|k: int| 0 <= k < fs.len() implies (#[trigger] fs[k]).quantity.wf()
        && fs[k].price.wf() by {
        match o.side {
            Side::Bid => {
                lemma_sweep_asks(b.asks, o);
                assert(fill_ok(fs[k], o));
            },
            Side::Ask => {
                lemma_sweep_bids(b.bids, o);
                assert(fill_ok(fs[k], o));
            },
        }
    }
    lemma_fills_sum(fs);
    if fs.len() > 0 {
        assert(fs.last() == fs[fs.len() - 1]);
    }
    match o.side {
        Side::Bid => {
            lemma_sweep_asks(b.asks, o);
            let (asks, t1, f1) = sweep_asks(b.asks, o);
            assert(t == t1 && fs == f1 && b2.asks == asks);
            assert forall|k: int| 0 <= k < fs.len() implies #[trigger] fill_ok(fs[k], o) && (o.side
                == Side::Bid ==> fs[k].price.value() <= o.price.value()) && (o.side == Side::Ask
                ==> fs[k].price.value() >= o.price.value()) by {
                assert(fill_ok(f1[k], o));
            }
            assert forall|i: int, j: int| 0 <= i < j < fs.len() implies (o.side == Side::Bid
                ==> #[trigger] fs[i].price.value() <= #[trigger] fs[j].price.value()) && (o.side
                == Side::Ask ==> fs[i].price.value() >= fs[j].price.value()) by {
                assert(f1[i].price.value() <= f1[j].price.value());
            }
            assert(placed_fills_ok(fs, o));
            if t.is_open() {
                let ub = if asks.len() > 0 {
                    asks[0].price.value() - 1
                } else {
                    o.price.value()
                };
                let lb = if b.bids.len() > 0 && b.bids[0].price.value() < o.price.value() {
                    b.bids[0].price.value()
                } else {
                    o.price.value()
                };
                if b.bids.len() > 0 {
                    lemma_sorted_bounds(b.bids);
                }
                if uncrossed(b) && asks.len() > 0 {
                    assert(b.asks.len() > 0);
                    assert(asks[0].price.value() >= b.asks[0].price.value());
                    assert(asks[0].price.value() > o.price.value());
                    lemma_insert_resting(b.bids, t, Side::Bid, lb, ub);
                    let nb = insert_resting(b.bids, t);
                    assert(nb.last() == nb[nb.len() - 1]);
                } else {
                    let big = if b.bids.len() > 0 && b.bids.last().price.value() > o.price.value() {
                        b.bids.last().price.value()
                    } else {
                        o.price.value()
                    };
                    lemma_insert_resting(b.bids, t, Side::Bid, lb, big);
                }
            } else {
                if uncrossed(b) && b.bids.len() > 0 && asks.len() > 0 {
                    assert(asks[0].price.value() >= b.asks[0].price.value());
                }
            }
        },
        Side::Ask => {
            lemma_sweep_bids(b.bids, o);
            let (bids, t1, f1) = sweep_bids(b.bids, o);
            assert(t == t1 && fs == f1 && b2.bids == bids);
            assert forall|k: int| 0 <= k < fs.len() implies #[trigger] fill_ok(fs[k], o) && (o.side
                == Side::Bid ==> fs[k].price.value() <= o.price.value()) && (o.side == Side::Ask
                ==> fs[k].price.value() >= o.price.value()) by {
                assert(fill_ok(f1[k], o));
            }
            assert forall|i: int, j: int| 0 <= i < j < fs.len() implies (o.side == Side::Bid
                ==> #[trigger] fs[i].price.value() <= #[trigger] fs[j].price.value()) && (o.side
                == Side::Ask ==> fs[i].price.value() >= fs[j].price.value()) by {
                assert(f1[i].price.value() >= f1[j].price.value());
            }
            assert(placed_fills_ok(fs, o));
            if t.is_open() {
                let lb = if bids.len() > 0 {
                    bids.last().price.value() + 1
                } else {
                    o.price.value()
                };
                let ub = if b.asks.len() > 0 && b.asks.last().price.value() > o.price.value() {
                    b.asks.last().price.value()
                } else {
                    o.price.value()
                };
                if b.asks.len() > 0 {
                    lemma_sorted_bounds(b.asks);
                }
                if uncrossed(b) && bids.len() > 0 {
                    assert(b.bids.len() > 0);
                    assert(bids.last() == bids[bids.len() - 1]);
                    assert(bids.last().price.value() <= b.bids.last().price.value());
                    assert(bids.last().price.value() < o.price.value());
                    lemma_insert_resting(b.asks, t, Side::Ask, lb, ub);
                    let na = insert_resting(b.asks, t);
                    assert(na[0].price.value() >= lb);
                } else {
                    let small = if b.asks.len() > 0 && b.asks[0].price.value() < o.price.value() {
                        b.asks[0].price.value()
                    } else {
                        o.price.value()
                    };
                    lemma_insert_resting(b.asks, t, Side::Ask, small, ub);
                }
            } else {
                if uncrossed(b) && b.asks.len() > 0 && bids.len() > 0 {
                    assert(bids.last() == bids[bids.len() - 1]);
                    assert(bids.last().price.value() <= b.bids.last().price.value());
                }
            }
        },
    }
    assert(book_ok(b2));
    assert(t == o.with_filled(t.filled_quantity));
    assert(t.wf());
    assert(t.filled_quantity.value() == o.filled_quantity.value() + fill_total(fs));
    assert(placed_fills_ok(fs, o));
}

/// Adding a resting order after the levels priced below it.
pub proof fn lemma_insert_at(levels: Seq<LevelView>, o: Order, i: int)
    requires
        0 <= i <= levels.len(),
        forall|k: int| 0 <= k < i ==> #[trigger] levels[k].price.value() < o.price.value(),
    ensures
        insert_resting(levels, o) == levels.take(i) + insert_resting(levels.skip(i), o),
    decreases i,
{
    if i == 0 {
        assert(levels.take(0) + insert_resting(levels.skip(0), o) =~= insert_resting(levels, o)) by {
            assert(levels.skip(0) =~= levels);
        }
    } else {
        let d = levels.drop_first();
        assert(levels[0].price.value() < o.price.value());
        assert forall|k: int| 0 <= k < i - 1 implies #[trigger] d[k].price.value()
            < o.price.value() by {
            assert(d[k] == levels[k + 1]);
        }
        lemma_insert_at(d, o, i - 1);
        assert(d.skip(i - 1) =~= levels.skip(i));
        assert(seq![levels[0]] + d.take(i - 1) =~= levels.take(i));
        assert(seq![levels[0]] + (d.take(i - 1) + insert_resting(d.skip(i - 1), o)) =~= levels.take(
            i,
        ) + insert_resting(levels.skip(i), o));
    }
}

/// Where every addition is exact, the executed quantity is a valid decimal holding the
/// total of the fills.
pub proof fn lemma_fills_sum(fs: Seq<FillView>)
    requires
        fills_sum_exact(fs),
        forall|k: int| 0 <= k < fs.len() ==> (#[trigger] fs[k]).quantity.wf(),
    ensures
        fills_sum(fs).wf(),
        fills_sum(fs).value() == fill_total(fs),
    decreases fs.len(),
{
    if fs.len() > 0 {
        let d = fs.drop_last();
        assert forall|k: int| 0 <= k < d.len() implies (#[trigger] d[k]).quantity.wf() by {
            assert(d[k] == fs[k]);
        }
        lemma_fills_sum(d);
        assert(fs[fs.len() - 1].quantity.wf());
        lemma_sum_amount(fills_sum(d), fs.last().quantity);
    }
}

/// The additions of a prefix of the fills are among those of all of them.
pub proof fn lemma_fills_sum_prefix(a: Seq<FillView>, b: Seq<FillView>)
    requires
        fills_sum_exact(a + b),
    ensures
        fills_sum_exact(a),
    decreases b.len(),
{
    if b.len() == 0 {
        assert(a + b =~= a);
    } else {
        assert((a + b).drop_last() =~= a + b.drop_last());
        lemma_fills_sum_prefix(a, b.drop_last());
    }
}

/// Fills of positive quantity have a positive total exactly when there is one.
pub proof fn lemma_fill_total_pos(fs: Seq<FillView>)
    requires
        forall|k: int| 0 <= k < fs.len() ==> #[trigger] fs[k].quantity.value() > 0,
    ensures
        fill_total(fs) >= 0,
        fs.len() > 0 ==> fill_total(fs) > 0,
    decreases fs.len(),
{
    if fs.len() > 0 {
        let d = fs.drop_last();
        assert forall|k: int| 0 <= k < d.len() implies #[trigger] d[k].quantity.value() > 0 by {
            assert(d[k] == fs[k]);
        }
        lemma_fill_total_pos(d);
        assert(fs[fs.len() - 1].quantity.value() > 0);
    }
}

/// Placing order `o` where the arithmetic is exact, of either side: when the quantity
/// executed is positive there was a fill, and the last traded price becomes the price of
/// the last fill; otherwise it stays.
pub proof fn lemma_place_spec_last_price(b: BookView, o: Order)
    ensures
        ({
            let (b2, t, fs) = place_spec(b, o);
            &&& fills_sum(fs).value() > 0 ==> fs.len() > 0 && b2.last_traded_price
                == fs[fs.len() - 1].price
            &&& fills_sum(fs).value() <= 0 ==> b2.last_traded_price == b.last_traded_price
        }),
{
    let fs = place_spec(b, o).2;
    if fs.len() == 0 {
        assert(fills_sum(fs) == Amount { mantissa: 0, scale: 0 });
    }
}

} // verus!
