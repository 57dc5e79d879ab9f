//! Matching as the book runs it on every input, `rust_decimal`'s rounding included.
//!
//! `book_spec` models matching where every addition and subtraction is exact, and proves
//! its laws there.  Here the same loops are written over the decimals `rust_decimal`
//! computes in every case (`add_of`, `sub_of`), one trade at a time: with rounding, a
//! resting order need not leave its queue when it is filled, so a queue is run trade by
//! trade, up to `step_limit` trades.  Where the arithmetic is exact, the two models agree
//! (`lemma_place_run_exact`).
use crate::amount::{add_ok, add_of, min_amount, sub_ok, sub_of, sum_amount, Amount};
use crate::book_spec::{
    asks_exact, bids_exact, fill_of, fills_sum, fills_sum_exact, insert_resting, keep_level,
    lemma_step, match_qty, place_exact, place_spec, queue_exact, sorted,
    sweep_asks, sweep_bids, sweep_queue, uncrossed, BookView, LevelView,
};
use crate::order::{FillView, Order, Side};
use vstd::prelude::*;

verus! {

/// More trades than one queue can see in any run of matching that returns: every trade
/// adds a fill to a vector, and no vector holds this many.
pub open spec fn step_limit() -> nat {
    0x1_0000_0000_0000_0000
}

/// The quantity traded between resting order `m` and incoming order `t`: the smaller of
/// what is left of each, as `rust_decimal` computes it (what is left of `m` when equal).
pub open spec fn trade_qty(m: Order, t: Order) -> Amount {
    min_amount(
        sub_of(m.quantity, m.filled_quantity),
        sub_of(t.quantity, t.filled_quantity),
    )
}

/// `rust_decimal` does the arithmetic of one trade between `m` and `t` without
/// overflowing.
pub open spec fn trade_ok(m: Order, t: Order) -> bool {
    let x = trade_qty(m, t);
    &&& sub_ok(m.quantity, m.filled_quantity)
    &&& sub_ok(t.quantity, t.filled_quantity)
    &&& add_ok(t.filled_quantity, x)
    &&& add_ok(m.filled_quantity, x)
}

/// The queue after one trade of its front order `m` with `t`: without `m` when `m` is now
/// filled to its quantity, with `m`'s new filled quantity otherwise.
pub open spec fn queue_after(q: Seq<Order>, t: Order) -> Seq<Order> {
    let m = q[0];
    let m2 = m.with_filled(add_of(m.filled_quantity, trade_qty(m, t)));
    if m2.filled_quantity.value() == m.quantity.value() {
        q.drop_first()
    } else {
        q.update(0, m2)
    }
}

/// Matching `t` against queue `q` for at most `n` trades, while both have quantity left:
/// the queue afterwards, the incoming order afterwards, and the fills.
pub open spec fn run_queue(q: Seq<Order>, t: Order, n: nat) -> (Seq<Order>, Order, Seq<FillView>)
    decreases n,
{
    if q.len() == 0 || !t.is_open() || n == 0 {
        (q, t, seq![])
    } else {
        let m = q[0];
        let x = trade_qty(m, t);
        let t2 = t.with_filled(add_of(t.filled_quantity, x));
        let (r, t3, fs) = run_queue(queue_after(q, t), t2, (n - 1) as nat);
        (r, t3, seq![fill_of(m, t, x)] + fs)
    }
}

/// No trade of `run_queue(q, t, n)` overflows.
pub open spec fn run_ok(q: Seq<Order>, t: Order, n: nat) -> bool
    decreases n,
{
    if q.len() == 0 || !t.is_open() || n == 0 {
        true
    } else {
        let t2 = t.with_filled(add_of(t.filled_quantity, trade_qty(q[0], t)));
        trade_ok(q[0], t) && run_ok(queue_after(q, t), t2, (n - 1) as nat)
    }
}

/// An incoming bid run against the asks, from the lowest level up to the first level
/// priced above it; levels left empty are removed.
pub open spec fn run_asks(levels: Seq<LevelView>, t: Order) -> (Seq<LevelView>, Order, Seq<
    FillView,
>)
    decreases levels.len(),
{
    if levels.len() == 0 || levels[0].price.value() > t.price.value() {
        (levels, t, seq![])
    } else {
        let (q, t1, f1) = run_queue(levels[0].orders, t, step_limit());
        let (rest, t2, f2) = run_asks(levels.drop_first(), t1);
        (keep_level(levels[0].price, q) + rest, t2, f1 + f2)
    }
}

/// No trade of `run_asks(levels, t)` overflows.
pub open spec fn run_asks_ok(levels: Seq<LevelView>, t: Order) -> bool
    decreases levels.len(),
{
    if levels.len() == 0 || levels[0].price.value() > t.price.value() {
        true
    } else {
        let t1 = run_queue(levels[0].orders, t, step_limit()).1;
        run_ok(levels[0].orders, t, step_limit()) && run_asks_ok(levels.drop_first(), t1)
    }
}

/// An incoming ask run against the bids, from the highest level down to the first level
/// priced below it; levels left empty are removed.
pub open spec fn run_bids(levels: Seq<LevelView>, t: Order) -> (Seq<LevelView>, Order, Seq<
    FillView,
>)
    decreases levels.len(),
{
    if levels.len() == 0 || t.price.value() > levels.last().price.value() {
        (levels, t, seq![])
    } else {
        let (q, t1, f1) = run_queue(levels.last().orders, t, step_limit());
        let (rest, t2, f2) = run_bids(levels.drop_last(), t1);
        (rest + keep_level(levels.last().price, q), t2, f1 + f2)
    }
}

/// No trade of `run_bids(levels, t)` overflows.
pub open spec fn run_bids_ok(levels: Seq<LevelView>, t: Order) -> bool
    decreases levels.len(),
{
    if levels.len() == 0 || t.price.value() > levels.last().price.value() {
        true
    } else {
        let t1 = run_queue(levels.last().orders, t, step_limit()).1;
        run_ok(levels.last().orders, t, step_limit()) && run_bids_ok(levels.drop_last(), t1)
    }
}

/// The executed quantity as `rust_decimal` adds it up, fill by fill, from a zero of scale
/// zero.
pub open spec fn fills_total_of(fs: Seq<FillView>) -> Amount
    decreases fs.len(),
{
    if fs.len() == 0 {
        Amount { mantissa: 0, scale: 0 }
    } else {
        add_of(fills_total_of(fs.drop_last()), fs.last().quantity)
    }
}

/// No addition of `fills_total_of(fs)` overflows.
pub open spec fn fills_total_ok(fs: Seq<FillView>) -> bool
    decreases fs.len(),
{
    fs.len() == 0 || (fills_total_ok(fs.drop_last()) && add_ok(
        fills_total_of(fs.drop_last()),
        fs.last().quantity,
    ))
}

/// The matching part of placing `o` on `b`: the other side afterwards, the order afterwards
/// and the fills.
pub open spec fn match_run(b: BookView, o: Order) -> (Seq<LevelView>, Order, Seq<FillView>) {
    match o.side {
        Side::Ask => run_bids(b.bids, o),
        Side::Bid => run_asks(b.asks, o),
    }
}

/// `rust_decimal` places `o` on `b` without overflowing.
pub open spec fn place_ok(b: BookView, o: Order) -> bool {
    &&& match o.side {
        Side::Ask => run_bids_ok(b.bids, o),
        Side::Bid => run_asks_ok(b.asks, o),
    }
    &&& fills_total_ok(match_run(b, o).2)
}

/// Placing order `o` on `b`, as the book does it on every input: the book afterwards, the
/// order afterwards and the fills; the executed quantity is `fills_total_of` the fills.
pub open spec fn place_run(b: BookView, o: Order) -> (BookView, Order, Seq<FillView>) {
    let (other, t, fs) = match_run(b, o);
    let (bids, asks) = match o.side {
        Side::Ask => (
            other,
            if t.is_open() {
                insert_resting(b.asks, t)
            } else {
                b.asks
            },
        ),
        Side::Bid => (
            if t.is_open() {
                insert_resting(b.bids, t)
            } else {
                b.bids
            },
            other,
        ),
    };
    let last = if fills_total_of(fs).value() > 0 {
        fs.last().price
    } else {
        b.last_traded_price
    };
    (
        BookView {
            market: b.market,
            market_id: b.market_id,
            bids: bids,
            asks: asks,
            last_traded_price: last,
        },
        t,
        fs,
    )
}

// ---------------------------------------------------------------------------------------
// Where the arithmetic is exact, the book runs the model of `book_spec`
/// Every order of every level holds valid decimals, and no queue is longer than
/// `step_limit`.
pub open spec fn levels_valid(levels: Seq<LevelView>) -> bool {
    &&& forall|i: int, j: int|
        0 <= i < levels.len() && 0 <= j < levels[i].orders.len() ==> (
        #[trigger] levels[i].orders[j]).wf()
    &&& forall|i: int| 0 <= i < levels.len() ==> (#[trigger] levels[i]).orders.len() < step_limit()
}

/// An exact run of one queue is `sweep_queue`, and overflows nowhere.
pub proof fn lemma_run_queue_exact(q: Seq<Order>, t: Order, n: nat)
    requires
        forall|j: int| 0 <= j < q.len() ==> (#[trigger] q[j]).wf(),
        t.wf(),
        queue_exact(q, t),
        n > q.len(),
    ensures
        run_queue(q, t, n) == sweep_queue(q, t),
        run_ok(q, t, n),
        sweep_queue(q, t).1.wf(),
    decreases q.len(),
{
    if q.len() == 0 || !t.is_open() {
    } else {
        let m = q[0];
        lemma_step(m, t);
        let x = match_qty(m, t);
        assert(trade_qty(m, t) == x);
        let t2 = t.with_filled(sum_amount(t.filled_quantity, x));
        let m2 = m.with_filled(sum_amount(m.filled_quantity, x));
        assert(add_of(t.filled_quantity, x) == sum_amount(t.filled_quantity, x));
        assert(add_of(m.filled_quantity, x) == sum_amount(m.filled_quantity, x));
        assert(trade_ok(m, t));
        if m2.filled_quantity.value() == m.quantity.value() {
            let q1 = q.drop_first();
            assert(queue_after(q, t) == q1);
            assert forall|j: int| 0 <= j < q1.len() implies (#[trigger] q1[j]).wf() by {
                assert(q1[j] == q[j + 1]);
            }
            lemma_run_queue_exact(q1, t2, (n - 1) as nat);
        } else {
            assert(queue_after(q, t) == q.update(0, m2));
            assert(!t2.is_open());
            assert(run_queue(q.update(0, m2), t2, (n - 1) as nat) == (q.update(0, m2), t2, Seq::<
                FillView,
            >::empty()));
            assert(run_ok(q.update(0, m2), t2, (n - 1) as nat));
            assert(seq![fill_of(m, t, x)] + Seq::<FillView>::empty() =~= seq![fill_of(m, t, x)]);
        }
    }
}

/// An exact run against the asks is `sweep_asks`, and overflows nowhere.
pub proof fn lemma_run_asks_exact(levels: Seq<LevelView>, t: Order)
    requires
        levels_valid(levels),
        t.wf(),
        asks_exact(levels, t),
    ensures
        run_asks(levels, t) == sweep_asks(levels, t),
        run_asks_ok(levels, t),
        sweep_asks(levels, t).1.wf(),
    decreases levels.len(),
{
    if levels.len() == 0 || levels[0].price.value() > t.price.value() {
    } else {
        let q = levels[0].orders;
        assert forall|j: int| 0 <= j < q.len() implies (#[trigger] q[j]).wf() by {
            assert(levels[0].orders[j].wf());
        }
        assert(levels[0].orders.len() < step_limit());
        lemma_run_queue_exact(q, t, step_limit());
        let t1 = sweep_queue(q, t).1;
        let d = levels.drop_first();
        assert forall|i: int, j: int| 0 <= i < d.len() && 0 <= j < d[i].orders.len() implies (
        #[trigger] d[i].orders[j]).wf() by {
            assert(d[i] == levels[i + 1]);
            assert(levels[i + 1].orders[j].wf());
        }
        assert forall|i: int| 0 <= i < d.len() implies (#[trigger] d[i]).orders.len()
            < step_limit() by {
            assert(d[i] == levels[i + 1]);
        }
        lemma_run_asks_exact(d, t1);
    }
}

/// An exact run against the bids is `sweep_bids`, and overflows nowhere.
pub proof fn lemma_run_bids_exact(levels: Seq<LevelView>, t: Order)
    requires
        levels_valid(levels),
        t.wf(),
        bids_exact(levels, t),
    ensures
        run_bids(levels, t) == sweep_bids(levels, t),
        run_bids_ok(levels, t),
        sweep_bids(levels, t).1.wf(),
    decreases levels.len(),
{
    if levels.len() == 0 || t.price.value() > levels.last().price.value() {
    } else {
        let k = levels.len() - 1;
        let q = levels.last().orders;
        assert forall|j: int| 0 <= j < q.len() implies (#[trigger] q[j]).wf() by {
            assert(levels[k].orders[j].wf());
        }
        assert(levels[k].orders.len() < step_limit());
        lemma_run_queue_exact(q, t, step_limit());
        let t1 = sweep_queue(q, t).1;
        let d = levels.drop_last();
        assert forall|i: int, j: int| 0 <= i < d.len() && 0 <= j < d[i].orders.len() implies (
        #[trigger] d[i].orders[j]).wf() by {
            assert(d[i] == levels[i]);
            assert(levels[i].orders[j].wf());
        }
        assert forall|i: int| 0 <= i < d.len() implies (#[trigger] d[i]).orders.len()
            < step_limit() by {
            assert(d[i] == levels[i]);
        }
        lemma_run_bids_exact(d, t1);
    }
}

/// Exact additions of the executed quantity are the ones `fills_sum` makes.
pub proof fn lemma_fills_total_exact(fs: Seq<FillView>)
    requires
        fills_sum_exact(fs),
    ensures
        fills_total_of(fs) == fills_sum(fs),
        fills_total_ok(fs),
    decreases fs.len(),
{
    if fs.len() > 0 {
        lemma_fills_total_exact(fs.drop_last());
    }
}

/// Where placing `o` on `b` is exact, the book runs the model of `book_spec` and
/// overflows nowhere: `place_run` is `place_spec`.
pub proof fn lemma_place_run_exact(b: BookView, o: Order)
    requires
        levels_valid(b.bids),
        levels_valid(b.asks),
        o.wf(),
        place_exact(b, o),
    ensures
        place_run(b, o) == place_spec(b, o),
        place_ok(b, o),
{
    match o.side {
        Side::Bid => lemma_run_asks_exact(b.asks, o),
        Side::Ask => lemma_run_bids_exact(b.bids, o),
    }
    let fs = match_run(b, o).2;
    lemma_fills_total_exact(fs);
}

// ---------------------------------------------------------------------------------------
// The shape the book keeps on every input
/// A resting order on a level of the given price and side.
pub open spec fn held_at(o: Order, price: Amount, side: Side) -> bool {
    o.price.value() == price.value() && o.side == side
}

pub open spec fn level_shape(l: LevelView, side: Side) -> bool {
    &&& l.orders.len() > 0
    &&& forall|j: int| 0 <= j < l.orders.len() ==> #[trigger] held_at(l.orders[j], l.price, side)
}

/// A side of the book: ascending, distinct price levels, none of them empty, holding orders
/// of that side at the level's price.
pub open spec fn side_shape(levels: Seq<LevelView>, side: Side) -> bool {
    &&& sorted(levels)
    &&& forall|i: int| 0 <= i < levels.len() ==> #[trigger] level_shape(levels[i], side)
}

pub open spec fn book_shape(b: BookView) -> bool {
    side_shape(b.bids, Side::Bid) && side_shape(b.asks, Side::Ask)
}

pub proof fn lemma_side_shape_drop_first(levels: Seq<LevelView>, side: Side)
    requires
        side_shape(levels, side),
        levels.len() > 0,
    ensures
        side_shape(levels.drop_first(), side),
        forall|k: int|
            0 <= k < levels.drop_first().len() ==> #[trigger] levels.drop_first()[k].price.value()
                > levels[0].price.value(),
{
    let d = levels.drop_first();
    assert forall|k: int| 0 <= k < d.len() implies #[trigger] level_shape(d[k], side) by {
        assert(d[k] == levels[k + 1]);
        assert(level_shape(levels[k + 1], side));
    }
    assert forall|i: int, j: int| 0 <= i < j < d.len() implies #[trigger] d[i].price.value()
        < #[trigger] d[j].price.value() by {
        assert(d[i] == levels[i + 1]);
        assert(d[j] == levels[j + 1]);
        assert(levels[i + 1].price.value() < levels[j + 1].price.value());
    }
    assert forall|k: int| 0 <= k < d.len() implies #[trigger] d[k].price.value()
        > levels[0].price.value() by {
        assert(d[k] == levels[k + 1]);
        assert(levels[0].price.value() < levels[k + 1].price.value());
    }
}

pub proof fn lemma_side_shape_drop_last(levels: Seq<LevelView>, side: Side)
    requires
        side_shape(levels, side),
        levels.len() > 0,
    ensures
        side_shape(levels.drop_last(), side),
        forall|k: int|
            0 <= k < levels.drop_last().len() ==> #[trigger] levels.drop_last()[k].price.value()
                < levels.last().price.value(),
{
    let d = levels.drop_last();
    assert forall|k: int| 0 <= k < d.len() implies #[trigger] level_shape(d[k], side) by {
        assert(d[k] == levels[k]);
        assert(level_shape(levels[k], side));
    }
    assert forall|i: int, j: int| 0 <= i < j < d.len() implies #[trigger] d[i].price.value()
        < #[trigger] d[j].price.value() by {
        assert(d[i] == levels[i]);
        assert(d[j] == levels[j]);
        assert(levels[i].price.value() < levels[j].price.value());
    }
    assert forall|k: int| 0 <= k < d.len() implies #[trigger] d[k].price.value()
        < levels.last().price.value() by {
        assert(d[k] == levels[k]);
        assert(levels[k].price.value() < levels[levels.len() - 1].price.value());
    }
}

/// Adding a resting order keeps the shape of a side, between the bounds `lb` and `ub`.
pub proof fn lemma_insert_shape(levels: Seq<LevelView>, o: Order, side: Side, lb: int, ub: int)
    requires
        side_shape(levels, side),
        o.side == side,
        lb <= o.price.value() <= ub,
        forall|i: int| 0 <= i < levels.len() ==> lb <= #[trigger] levels[i].price.value() <= ub,
    ensures
        side_shape(insert_resting(levels, o), side),
        forall|k: int|
            0 <= k < insert_resting(levels, o).len() ==> lb <= #[trigger] insert_resting(
                levels,
                o,
            )[k].price.value() <= ub,
    decreases levels.len(),
{
    let r = insert_resting(levels, o);
    let nl = LevelView { price: o.price, orders: seq![o] };
    assert(held_at(o, o.price, side));
    assert(level_shape(nl, side)) by {
        assert forall|j: int| 0 <= j < nl.orders.len() implies #[trigger] held_at(
            nl.orders[j],
            nl.price,
            side,
        ) by {
            assert(nl.orders[j] == o);
        }
    }
    if levels.len() == 0 {
        assert(r == seq![nl]);
    } else if o.price.value() < levels[0].price.value() {
        assert(r == seq![nl] + levels);
        assert forall|k: int| 0 <= k < r.len() implies #[trigger] level_shape(r[k], side) by {
            if k > 0 {
                assert(r[k] == levels[k - 1]);
            }
        }
        assert forall|i: int, j: int| 0 <= i < j < r.len() implies #[trigger] r[i].price.value()
            < #[trigger] r[j].price.value() by {
            assert(r[j] == levels[j - 1]);
            if i > 0 {
                assert(r[i] == levels[i - 1]);
            } else if j - 1 > 0 {
                assert(levels[0].price.value() < levels[j - 1].price.value());
            }
        }
        assert forall|k: int| 0 <= k < r.len() implies lb <= #[trigger] r[k].price.value() <= ub by {
            if k > 0 {
                assert(r[k] == levels[k - 1]);
            }
        }
    } else if o.price.value() == levels[0].price.value() {
        let l0 = levels[0];
        assert(level_shape(l0, side));
        let ml = LevelView { price: l0.price, orders: l0.orders.push(o) };
        assert(level_shape(ml, side)) by {
            assert forall|j: int| 0 <= j < ml.orders.len() implies #[trigger] held_at(
                ml.orders[j],
                ml.price,
                side,
            ) by {
                if j < l0.orders.len() {
                    assert(ml.orders[j] == l0.orders[j]);
                } else {
                    assert(ml.orders[j] == o);
                }
            }
        }
        assert(r == seq![ml] + levels.drop_first());
        assert forall|k: int| 0 <= k < r.len() implies #[trigger] level_shape(r[k], side) by {
            if k > 0 {
                assert(r[k] == levels[k]);
            }
        }
        assert forall|i: int, j: int| 0 <= i < j < r.len() implies #[trigger] r[i].price.value()
            < #[trigger] r[j].price.value() by {
            assert(r[j] == levels[j]);
            if i > 0 {
                assert(r[i] == levels[i]);
            }
            assert(levels[0].price.value() < levels[j].price.value());
        }
        assert forall|k: int| 0 <= k < r.len() implies lb <= #[trigger] r[k].price.value() <= ub by {
            if k > 0 {
                assert(r[k] == levels[k]);
            }
        }
    } else {
        let d = levels.drop_first();
        lemma_side_shape_drop_first(levels, side);
        lemma_insert_shape(d, o, side, levels[0].price.value(), ub);
        let rd = insert_resting(d, o);
        assert(r == seq![levels[0]] + rd);
        assert(level_shape(levels[0], side));
        assert forall|k: int| 0 <= k < r.len() implies #[trigger] level_shape(r[k], side) by {
            if k > 0 {
                assert(r[k] == rd[k - 1]);
            }
        }
        assert forall|i: int, j: int| 0 <= i < j < r.len() implies #[trigger] r[i].price.value()
            < #[trigger] r[j].price.value() by {
            assert(r[j] == rd[j - 1]);
            if i > 0 {
                assert(r[i] == rd[i - 1]);
            } else {
                // rd's prices are above levels[0]'s: they come from d or are o's price
                if rd[j - 1].price.value() == levels[0].price.value() {
                    assert(false) by {
                        crate::book_spec::lemma_insert_resting_above(d, o, levels[0].price.value());
                    }
                }
            }
        }
        assert forall|k: int| 0 <= k < r.len() implies lb <= #[trigger] r[k].price.value() <= ub by {
            if k > 0 {
                assert(r[k] == rd[k - 1]);
                assert(lb <= levels[0].price.value());
            }
        }
    }
}

/// Running a queue keeps its orders where they rest, and the incoming order keeps its
/// price, side and identifier.
pub proof fn lemma_run_queue_shape(q: Seq<Order>, t: Order, n: nat, price: Amount, side: Side)
    requires
        forall|j: int| 0 <= j < q.len() ==> #[trigger] held_at(q[j], price, side),
    ensures
        forall|j: int|
            0 <= j < run_queue(q, t, n).0.len() ==> #[trigger] held_at(
                run_queue(q, t, n).0[j],
                price,
                side,
            ),
        run_queue(q, t, n).1.price == t.price,
        run_queue(q, t, n).1.side == t.side,
        run_queue(q, t, n).1.order_id == t.order_id,
        !t.is_open() ==> run_queue(q, t, n) == (q, t, Seq::<FillView>::empty()),
    decreases n,
{
    if q.len() == 0 || !t.is_open() || n == 0 {
    } else {
        let m = q[0];
        let x = trade_qty(m, t);
        let t2 = t.with_filled(add_of(t.filled_quantity, x));
        let q2 = queue_after(q, t);
        assert(held_at(q[0], price, side));
        assert forall|j: int| 0 <= j < q2.len() implies #[trigger] held_at(q2[j], price, side) by {
            let m2 = m.with_filled(add_of(m.filled_quantity, x));
            if m2.filled_quantity.value() == m.quantity.value() {
                assert(q2[j] == q[j + 1]);
                assert(held_at(q[j + 1], price, side));
            } else if j > 0 {
                assert(q2[j] == q[j]);
                assert(held_at(q[j], price, side));
            }
        }
        lemma_run_queue_shape(q2, t2, (n - 1) as nat, price, side);
    }
}

/// Running a bid against the asks keeps their shape and never goes below their old best
/// price; the bid keeps its price and side.
pub proof fn lemma_run_asks_shape(levels: Seq<LevelView>, t: Order)
    requires
        side_shape(levels, Side::Ask),
    ensures
        side_shape(run_asks(levels, t).0, Side::Ask),
        levels.len() > 0 ==> forall|k: int|
            0 <= k < run_asks(levels, t).0.len() ==> #[trigger] run_asks(levels, t).0[k].price.value()
                >= levels[0].price.value(),
        run_asks(levels, t).1.price == t.price,
        run_asks(levels, t).1.side == t.side,
    decreases levels.len(),
{
    if levels.len() == 0 || levels[0].price.value() > t.price.value() {
        if levels.len() > 0 {
            assert forall|k: int| 0 <= k < levels.len() implies #[trigger] levels[k].price.value()
                >= levels[0].price.value() by {
                if k > 0 {
                    assert(levels[0].price.value() < levels[k].price.value());
                }
            }
        }
    } else {
        let l0 = levels[0];
        assert(level_shape(l0, Side::Ask));
        lemma_run_queue_shape(l0.orders, t, step_limit(), l0.price, Side::Ask);
        let (q, t1, f1) = run_queue(l0.orders, t, step_limit());
        let d = levels.drop_first();
        lemma_side_shape_drop_first(levels, Side::Ask);
        lemma_run_asks_shape(d, t1);
        let (rest, t2, f2) = run_asks(d, t1);
        let r = keep_level(l0.price, q) + rest;
        assert(run_asks(levels, t).0 == r);
        if d.len() > 0 {
            assert forall|k: int| 0 <= k < rest.len() implies #[trigger] rest[k].price.value()
                > l0.price.value() by {
                assert(rest[k].price.value() >= d[0].price.value());
            }
        } else {
            assert(rest.len() == 0);
        }
        if q.len() > 0 {
            let nl = LevelView { price: l0.price, orders: q };
            assert(level_shape(nl, Side::Ask));
            assert(r == seq![nl] + rest);
            assert forall|k: int| 0 <= k < r.len() implies #[trigger] level_shape(r[k], Side::Ask) by {
                if k > 0 {
                    assert(r[k] == rest[k - 1]);
                }
            }
            assert forall|i: int, j: int| 0 <= i < j < r.len() implies #[trigger] r[i].price.value()
                < #[trigger] r[j].price.value() by {
                assert(r[j] == rest[j - 1]);
                if i > 0 {
                    assert(r[i] == rest[i - 1]);
                }
            }
            assert forall|k: int| 0 <= k < r.len() implies #[trigger] r[k].price.value()
                >= levels[0].price.value() by {
                if k > 0 {
                    assert(r[k] == rest[k - 1]);
                }
            }
        } else {
            assert(r =~= rest);
        }
    }
}

/// Running an ask against the bids keeps their shape and never goes above their old best
/// price; the ask keeps its price and side.
pub proof fn lemma_run_bids_shape(levels: Seq<LevelView>, t: Order)
    requires
        side_shape(levels, Side::Bid),
    ensures
        side_shape(run_bids(levels, t).0, Side::Bid),
        levels.len() > 0 ==> forall|k: int|
            0 <= k < run_bids(levels, t).0.len() ==> #[trigger] run_bids(levels, t).0[k].price.value()
                <= levels.last().price.value(),
        run_bids(levels, t).1.price == t.price,
        run_bids(levels, t).1.side == t.side,
    decreases levels.len(),
{
    if levels.len() == 0 || t.price.value() > levels.last().price.value() {
        if levels.len() > 0 {
            assert forall|k: int| 0 <= k < levels.len() implies #[trigger] levels[k].price.value()
                <= levels.last().price.value() by {
                if k < levels.len() - 1 {
                    assert(levels[k].price.value() < levels[levels.len() - 1].price.value());
                }
            }
        }
    } else {
        let ll = levels.last();
        assert(level_shape(levels[levels.len() - 1], Side::Bid));
        lemma_run_queue_shape(ll.orders, t, step_limit(), ll.price, Side::Bid);
        let (q, t1, f1) = run_queue(ll.orders, t, step_limit());
        let d = levels.drop_last();
        lemma_side_shape_drop_last(levels, Side::Bid);
        lemma_run_bids_shape(d, t1);
        let (rest, t2, f2) = run_bids(d, t1);
        let r = rest + keep_level(ll.price, q);
        assert(run_bids(levels, t).0 == r);
        if d.len() > 0 {
            assert forall|k: int| 0 <= k < rest.len() implies #[trigger] rest[k].price.value()
                < ll.price.value() by {
                assert(rest[k].price.value() <= d.last().price.value());
                assert(d.last() == d[d.len() - 1]);
            }
        } else {
            assert(rest.len() == 0);
        }
        if q.len() > 0 {
            let nl = LevelView { price: ll.price, orders: q };
            assert(level_shape(nl, Side::Bid));
            assert(r == rest + seq![nl]);
            assert forall|k: int| 0 <= k < r.len() implies #[trigger] level_shape(r[k], Side::Bid) by {
                if k < rest.len() {
                    assert(r[k] == rest[k]);
                }
            }
            assert forall|i: int, j: int| 0 <= i < j < r.len() implies #[trigger] r[i].price.value()
                < #[trigger] r[j].price.value() by {
                assert(r[i] == rest[i]);
                if j < rest.len() {
                    assert(r[j] == rest[j]);
                }
            }
            assert forall|k: int| 0 <= k < r.len() implies #[trigger] r[k].price.value()
                <= levels.last().price.value() by {
                if k < rest.len() {
                    assert(r[k] == rest[k]);
                }
            }
        } else {
            assert(r =~= rest);
        }
    }
}

/// Placing an order, on any input, keeps the shape of the book: ascending, distinct,
/// non-empty price levels holding orders of the level's side at the level's price; the
/// market is unchanged.
pub proof fn lemma_place_run_shape(b: BookView, o: Order)
    requires
        book_shape(b),
    ensures
        book_shape(place_run(b, o).0),
        place_run(b, o).0.market == b.market,
        place_run(b, o).0.market_id == b.market_id,
{
    let (b2, t, fs) = place_run(b, o);
    match o.side {
        Side::Bid => {
            lemma_run_asks_shape(b.asks, o);
            if t.is_open() {
                let lb = if b.bids.len() > 0 && b.bids[0].price.value() < o.price.value() {
                    b.bids[0].price.value()
                } else {
                    o.price.value()
                };
                let ub = if b.bids.len() > 0 && b.bids.last().price.value() > o.price.value() {
                    b.bids.last().price.value()
                } else {
                    o.price.value()
                };
                if b.bids.len() > 0 {
                    crate::book_spec::lemma_sorted_bounds(b.bids);
                }
                lemma_insert_shape(b.bids, t, Side::Bid, lb, ub);
            }
        },
        Side::Ask => {
            lemma_run_bids_shape(b.bids, o);
            if t.is_open() {
                let lb = if b.asks.len() > 0 && b.asks[0].price.value() < o.price.value() {
                    b.asks[0].price.value()
                } else {
                    o.price.value()
                };
                let ub = if b.asks.len() > 0 && b.asks.last().price.value() > o.price.value() {
                    b.asks.last().price.value()
                } else {
                    o.price.value()
                };
                if b.asks.len() > 0 {
                    crate::book_spec::lemma_sorted_bounds(b.asks);
                }
                lemma_insert_shape(b.asks, t, Side::Ask, lb, ub);
            }
        },
    }
}

/// The additions of a prefix of the fills are among those of all of them.
pub proof fn lemma_fills_total_prefix(a: Seq<FillView>, b: Seq<FillView>)
    requires
        fills_total_ok(a + b),
    ensures
        fills_total_ok(a),
    decreases b.len(),
{
    if b.len() == 0 {
        assert(a + b =~= a);
    } else {
        assert((a + b).drop_last() =~= a + b.drop_last());
        lemma_fills_total_prefix(a, b.drop_last());
    }
}

// ---------------------------------------------------------------------------------------
// The book is never left crossed
/// The run of queue `q` ended because the queue or the incoming order ran out, not for
/// want of trades.
pub open spec fn queue_done(q: Seq<Order>, t: Order) -> bool {
    let r = run_queue(q, t, step_limit());
    r.0.len() == 0 || !r.1.is_open()
}

/// Every queue run of `run_asks(levels, t)` ended by `queue_done`.
pub open spec fn asks_done(levels: Seq<LevelView>, t: Order) -> bool
    decreases levels.len(),
{
    if levels.len() == 0 || levels[0].price.value() > t.price.value() {
        true
    } else {
        let t1 = run_queue(levels[0].orders, t, step_limit()).1;
        queue_done(levels[0].orders, t) && asks_done(levels.drop_first(), t1)
    }
}

/// Every queue run of `run_bids(levels, t)` ended by `queue_done`.
pub open spec fn bids_done(levels: Seq<LevelView>, t: Order) -> bool
    decreases levels.len(),
{
    if levels.len() == 0 || t.price.value() > levels.last().price.value() {
        true
    } else {
        let t1 = run_queue(levels.last().orders, t, step_limit()).1;
        queue_done(levels.last().orders, t) && bids_done(levels.drop_last(), t1)
    }
}

/// Every queue run of placing `o` on `b` ended by `queue_done`.
pub open spec fn match_done(b: BookView, o: Order) -> bool {
    match o.side {
        Side::Ask => bids_done(b.bids, o),
        Side::Bid => asks_done(b.asks, o),
    }
}

/// An incoming bid that is still open after running against the asks leaves no ask at or
/// below its limit price.
pub proof fn lemma_run_asks_open(levels: Seq<LevelView>, t: Order)
    requires
        side_shape(levels, Side::Ask),
        asks_done(levels, t),
    ensures
        run_asks(levels, t).1.is_open() ==> forall|k: int|
            0 <= k < run_asks(levels, t).0.len() ==> #[trigger] run_asks(levels, t).0[k].price.value()
                > t.price.value(),
    decreases levels.len(),
{
    if levels.len() == 0 || levels[0].price.value() > t.price.value() {
        assert forall|k: int| 0 <= k < levels.len() implies #[trigger] levels[k].price.value()
            > t.price.value() by {
            if k > 0 {
                assert(levels[0].price.value() < levels[k].price.value());
            }
        }
    } else {
        let l0 = levels[0];
        assert(level_shape(l0, Side::Ask));
        lemma_run_queue_shape(l0.orders, t, step_limit(), l0.price, Side::Ask);
        let (q, t1, f1) = run_queue(l0.orders, t, step_limit());
        let d = levels.drop_first();
        lemma_side_shape_drop_first(levels, Side::Ask);
        lemma_run_asks_open(d, t1);
        lemma_run_asks_closed(d, t1);
        let (rest, t2, f2) = run_asks(d, t1);
        if t2.is_open() {
            assert(t1.is_open());
            assert(q.len() == 0);
            assert(keep_level(l0.price, q) + rest =~= rest);
        }
    }
}

/// An incoming bid that is still open after running against the bids leaves no bid at or
/// above its limit price.
pub proof fn lemma_run_bids_open(levels: Seq<LevelView>, t: Order)
    requires
        side_shape(levels, Side::Bid),
        bids_done(levels, t),
    ensures
        run_bids(levels, t).1.is_open() ==> forall|k: int|
            0 <= k < run_bids(levels, t).0.len() ==> #[trigger] run_bids(levels, t).0[k].price.value()
                < t.price.value(),
    decreases levels.len(),
{
    if levels.len() == 0 || t.price.value() > levels.last().price.value() {
        assert forall|k: int| 0 <= k < levels.len() implies #[trigger] levels[k].price.value()
            < t.price.value() by {
            if k < levels.len() - 1 {
                assert(levels[k].price.value() < levels[levels.len() - 1].price.value());
            }
        }
    } else {
        let ll = levels.last();
        assert(level_shape(levels[levels.len() - 1], Side::Bid));
        lemma_run_queue_shape(ll.orders, t, step_limit(), ll.price, Side::Bid);
        let (q, t1, f1) = run_queue(ll.orders, t, step_limit());
        let d = levels.drop_last();
        lemma_side_shape_drop_last(levels, Side::Bid);
        lemma_run_bids_open(d, t1);
        lemma_run_bids_closed(d, t1);
        let (rest, t2, f2) = run_bids(d, t1);
        if t2.is_open() {
            assert(t1.is_open());
            assert(q.len() == 0);
            assert(rest + keep_level(ll.price, q) =~= rest);
        }
    }
}

/// An incoming order with nothing left runs against the asks without change.
pub proof fn lemma_run_asks_closed(levels: Seq<LevelView>, t: Order)
    ensures
        !t.is_open() ==> run_asks(levels, t).1 == t,
    decreases levels.len(),
{
    if !t.is_open() && !(levels.len() == 0 || levels[0].price.value() > t.price.value()) {
        assert(run_queue(levels[0].orders, t, step_limit()).1 == t);
        lemma_run_asks_closed(levels.drop_first(), t);
    }
}

/// An incoming order with nothing left runs against the bids without change.
pub proof fn lemma_run_bids_closed(levels: Seq<LevelView>, t: Order)
    ensures
        !t.is_open() ==> run_bids(levels, t).1 == t,
    decreases levels.len(),
{
    if !t.is_open() && !(levels.len() == 0 || t.price.value() > levels.last().price.value()) {
        assert(run_queue(levels.last().orders, t, step_limit()).1 == t);
        lemma_run_bids_closed(levels.drop_last(), t);
    }
}

/// Placing an order, on any input on which every queue run ends by `queue_done` (as it
/// does whenever the book returns), never leaves the book crossed.
pub proof fn lemma_place_run_uncrossed(b: BookView, o: Order)
    requires
        book_shape(b),
        uncrossed(b),
        match_done(b, o),
    ensures
        uncrossed(place_run(b, o).0),
{
    let (b2, t, fs) = place_run(b, o);
    match o.side {
        Side::Bid => {
            lemma_run_asks_shape(b.asks, o);
            lemma_run_asks_open(b.asks, o);
            let asks = run_asks(b.asks, o).0;
            if t.is_open() {
                let ub = if asks.len() > 0 {
                    asks[0].price.value() - 1
                } else {
                    o.price.value()
                };
                let lb = if b.bids.len() > 0 && b.bids[0].price.value() < o.price.value() {
                    b.bids[0].price.value()
                } else {
                    o.price.value()
                };
                if b.bids.len() > 0 {
                    crate::book_spec::lemma_sorted_bounds(b.bids);
                }
                if asks.len() > 0 {
                    assert(b.asks.len() > 0);
                    assert(asks[0].price.value() >= b.asks[0].price.value());
                    assert(asks[0].price.value() > o.price.value());
                    lemma_insert_shape(b.bids, t, Side::Bid, lb, ub);
                    let nb = insert_resting(b.bids, t);
                    assert(nb.last() == nb[nb.len() - 1]);
                }
            } else {
                if b.bids.len() > 0 && asks.len() > 0 {
                    assert(asks[0].price.value() >= b.asks[0].price.value());
                }
            }
        },
        Side::Ask => {
            lemma_run_bids_shape(b.bids, o);
            lemma_run_bids_open(b.bids, o);
            let bids = run_bids(b.bids, o).0;
            if t.is_open() {
                let lb = if bids.len() > 0 {
                    bids.last().price.value() + 1
                } else {
                    o.price.value()
                };
                let ub = if b.asks.len() > 0 && b.asks.last().price.value() > o.price.value() {
                    b.asks.last().price.value()
                } else {
                    o.price.value()
                };
                if b.asks.len() > 0 {
                    crate::book_spec::lemma_sorted_bounds(b.asks);
                }
                if bids.len() > 0 {
                    assert(b.bids.len() > 0);
                    assert(bids.last() == bids[bids.len() - 1]);
                    assert(bids.last().price.value() <= b.bids.last().price.value());
                    assert(bids.last().price.value() < o.price.value());
                    lemma_insert_shape(b.asks, t, Side::Ask, lb, ub);
                    let na = insert_resting(b.asks, t);
                    assert(na[0].price.value() >= lb);
                }
            } else {
                if b.asks.len() > 0 && bids.len() > 0 {
                    assert(bids.last() == bids[bids.len() - 1]);
                    assert(bids.last().price.value() <= b.bids.last().price.value());
                }
            }
        },
    }
}

// ---------------------------------------------------------------------------------------
// Who trades with whom, and at what price the book last traded
/// Fill `f` was made against resting order `m`: it names `m` and `m`'s user as maker, at
/// `m`'s price.
pub open spec fn made_by(f: FillView, m: Order) -> bool {
    &&& f.maker_order_id == m.order_id
    &&& f.maker_user_id == m.user_id
    &&& f.price == m.price
}

/// Fill `f` was taken by incoming order `t`: it names `t` and `t`'s user as taker, in
/// `t`'s market.
pub open spec fn taken_by(f: FillView, t: Order) -> bool {
    &&& f.taker_order_id == t.order_id
    &&& f.taker_user_id == t.user_id
    &&& f.market_id == t.market_id
}

/// Every fill of `fs` was taken by `t` and made against one of the orders of `q`.
pub open spec fn fills_against(fs: Seq<FillView>, q: Seq<Order>, t: Order) -> bool {
    forall|k: int|
        0 <= k < fs.len() ==> taken_by(#[trigger] fs[k], t) && exists|j: int|
            0 <= j < q.len() && #[trigger] made_by(fs[k], q[j])
}

/// Every fill of `fs` was taken by `t` and made against one of the resting orders of the
/// levels.
pub open spec fn fills_against_levels(fs: Seq<FillView>, levels: Seq<LevelView>, t: Order) -> bool {
    forall|k: int|
        0 <= k < fs.len() ==> taken_by(#[trigger] fs[k], t) && exists|i: int, j: int|
            0 <= i < levels.len() && 0 <= j < levels[i].orders.len() && #[trigger] made_by(
                fs[k],
                levels[i].orders[j],
            )
}

/// Running a queue: every fill is taken by the incoming order and made against one of the
/// queue's orders; the incoming order afterwards is the same order, filled further.
pub proof fn lemma_run_queue_parties(q: Seq<Order>, t: Order, n: nat)
    ensures
        fills_against(run_queue(q, t, n).2, q, t),
        run_queue(q, t, n).1 == t.with_filled(run_queue(q, t, n).1.filled_quantity),
    decreases n,
{
    if q.len() == 0 || !t.is_open() || n == 0 {
        assert(t == t.with_filled(t.filled_quantity));
    } else {
        let m = q[0];
        let x = trade_qty(m, t);
        let t2 = t.with_filled(add_of(t.filled_quantity, x));
        let q2 = queue_after(q, t);
        let m2 = m.with_filled(add_of(m.filled_quantity, x));
        lemma_run_queue_parties(q2, t2, (n - 1) as nat);
        let fs2 = run_queue(q2, t2, (n - 1) as nat).2;
        let f = fill_of(m, t, x);
        let fs = seq![f] + fs2;
        assert(run_queue(q, t, n).2 == fs);
        assert forall|k: int| 0 <= k < fs.len() implies taken_by(#[trigger] fs[k], t) && exists|
            j: int,
        | 0 <= j < q.len() && #[trigger] made_by(fs[k], q[j]) by {
            if k == 0 {
                assert(fs[0] == f);
                assert(made_by(fs[k], q[0]));
            } else {
                assert(fs[k] == fs2[k - 1]);
                assert(taken_by(fs2[k - 1], t2));
                let j2 = choose|j: int| 0 <= j < q2.len() && #[trigger] made_by(fs2[k - 1], q2[j]);
                if m2.filled_quantity.value() == m.quantity.value() {
                    assert(q2[j2] == q[j2 + 1]);
                    assert(made_by(fs[k], q[j2 + 1]));
                } else if j2 == 0 {
                    assert(q2[0] == m2);
                    assert(made_by(fs[k], q[0]));
                } else {
                    assert(q2[j2] == q[j2]);
                    assert(made_by(fs[k], q[j2]));
                }
            }
        }
    }
}

/// Running a bid against the asks: every fill is taken by the bid and made against one of
/// the asks it ran against; the bid afterwards is the same order, filled further.
pub proof fn lemma_run_asks_parties(levels: Seq<LevelView>, t: Order)
    ensures
        fills_against_levels(run_asks(levels, t).2, levels, t),
        run_asks(levels, t).1 == t.with_filled(run_asks(levels, t).1.filled_quantity),
    decreases levels.len(),
{
    if levels.len() == 0 || levels[0].price.value() > t.price.value() {
        assert(t == t.with_filled(t.filled_quantity));
    } else {
        let q = levels[0].orders;
        lemma_run_queue_parties(q, t, step_limit());
        let (q1, t1, f1) = run_queue(q, t, step_limit());
        let d = levels.drop_first();
        lemma_run_asks_parties(d, t1);
        let f2 = run_asks(d, t1).2;
        let fs = f1 + f2;
        assert forall|k: int| 0 <= k < fs.len() implies taken_by(#[trigger] fs[k], t) && exists|
            i: int,
            j: int,
        | 0 <= i < levels.len() && 0 <= j < levels[i].orders.len() && #[trigger] made_by(
            fs[k],
            levels[i].orders[j],
        ) by {
            if k < f1.len() {
                assert(fs[k] == f1[k]);
                assert(taken_by(f1[k], t));
                let j = choose|j: int| 0 <= j < q.len() && #[trigger] made_by(f1[k], q[j]);
                assert(made_by(fs[k], levels[0].orders[j]));
            } else {
                let k2 = k - f1.len();
                assert(fs[k] == f2[k2]);
                assert(taken_by(f2[k2], t1));
                let (i, j) = choose|i: int, j: int|
                    0 <= i < d.len() && 0 <= j < d[i].orders.len() && #[trigger] made_by(
                        f2[k2],
                        d[i].orders[j],
                    );
                assert(d[i] == levels[i + 1]);
                assert(made_by(fs[k], levels[i + 1].orders[j]));
            }
        }
    }
}

/// Running an ask against the bids: every fill is taken by the ask and made against one of
/// the bids it ran against; the ask afterwards is the same order, filled further.
pub proof fn lemma_run_bids_parties(levels: Seq<LevelView>, t: Order)
    ensures
        fills_against_levels(run_bids(levels, t).2, levels, t),
        run_bids(levels, t).1 == t.with_filled(run_bids(levels, t).1.filled_quantity),
    decreases levels.len(),
{
    if levels.len() == 0 || t.price.value() > levels.last().price.value() {
        assert(t == t.with_filled(t.filled_quantity));
    } else {
        let last = levels.len() - 1;
        let q = levels.last().orders;
        lemma_run_queue_parties(q, t, step_limit());
        let (q1, t1, f1) = run_queue(q, t, step_limit());
        let d = levels.drop_last();
        lemma_run_bids_parties(d, t1);
        let f2 = run_bids(d, t1).2;
        let fs = f1 + f2;
        assert forall|k: int| 0 <= k < fs.len() implies taken_by(#[trigger] fs[k], t) && exists|
            i: int,
            j: int,
        | 0 <= i < levels.len() && 0 <= j < levels[i].orders.len() && #[trigger] made_by(
            fs[k],
            levels[i].orders[j],
        ) by {
            if k < f1.len() {
                assert(fs[k] == f1[k]);
                assert(taken_by(f1[k], t));
                let j = choose|j: int| 0 <= j < q.len() && #[trigger] made_by(f1[k], q[j]);
                assert(levels[last] == levels.last());
                assert(made_by(fs[k], levels[last].orders[j]));
            } else {
                let k2 = k - f1.len();
                assert(fs[k] == f2[k2]);
                assert(taken_by(f2[k2], t1));
                let (i, j) = choose|i: int, j: int|
                    0 <= i < d.len() && 0 <= j < d[i].orders.len() && #[trigger] made_by(
                        f2[k2],
                        d[i].orders[j],
                    );
                assert(d[i] == levels[i]);
                assert(made_by(fs[k], levels[i].orders[j]));
            }
        }
    }
}

/// Placing order `o`: every fill names `o` and its user as taker, in `o`'s market, and
/// names as maker, at its price, one of the resting orders of the other side of the book
/// (asks for a bid, bids for an ask) and that order's user.
pub proof fn lemma_place_run_parties(b: BookView, o: Order)
    ensures
        o.side == Side::Bid ==> fills_against_levels(place_run(b, o).2, b.asks, o),
        o.side == Side::Ask ==> fills_against_levels(place_run(b, o).2, b.bids, o),
{
    match o.side {
        Side::Bid => lemma_run_asks_parties(b.asks, o),
        Side::Ask => lemma_run_bids_parties(b.bids, o),
    }
}

/// Placing order `o`, of either side: when the quantity executed is positive there was a
/// fill, and the last traded price becomes the price of the last fill; otherwise it stays.
pub proof fn lemma_place_run_last_price(b: BookView, o: Order)
    ensures
        ({
            let (b2, t, fs) = place_run(b, o);
            &&& fills_total_of(fs).value() > 0 ==> fs.len() > 0 && b2.last_traded_price
                == fs[fs.len() - 1].price
            &&& fills_total_of(fs).value() <= 0 ==> b2.last_traded_price == b.last_traded_price
        }),
{
    let fs = place_run(b, o).2;
    if fs.len() == 0 {
        assert(fills_total_of(fs) == Amount { mantissa: 0, scale: 0 });
    }
}

} // verus!
