//! The limit order book of one market, with price-time priority matching.
use crate::amount::{
    add_of, amount_min, decimal_add, decimal_eq, decimal_lt, decimal_sub, is_ok, Amount,
};
use crate::book_run::{
    asks_done, bids_done, book_shape, fills_total_of, fills_total_ok, lemma_fills_total_prefix,
    lemma_place_run_exact, lemma_place_run_shape, lemma_place_run_uncrossed,
    lemma_run_asks_shape, lemma_run_bids_shape, levels_valid, match_done, match_run, place_ok,
    place_run, queue_after, queue_done, run_asks, run_asks_ok, run_bids, run_bids_ok, run_ok,
    run_queue, side_shape, step_limit, trade_ok, trade_qty,
};
use crate::book_spec::{
    book_ok, fill_of, insert_resting, keep_level, lemma_insert_at, lemma_place_spec,
    place_exact, place_spec, uncrossed, BookView, LevelView,
};
use crate::clock::{new_id, now};
use crate::errors::BookError;
use crate::order::{Fill, FillView, Order, Side};
use vstd::prelude::*;

verus! {

/// The resting orders at one price, oldest first.
#[derive(Debug)]
pub struct PriceLevel {
    pub price: Amount,
    pub orders: Vec<Order>,
}

/// The order book of one market.  Both sides hold their price levels in ascending price
/// order; the best ask is the first level of `asks`, the best bid the last level of `bids`.
/// Prices are compared by value (`1.0` and `1.00` are one level), so the book keeps the
/// levels sorted itself (`book_shape`).
#[derive(Debug)]
pub struct Orderbook {
    pub market: String,
    pub market_id: u128,
    pub bids: Vec<PriceLevel>,
    pub asks: Vec<PriceLevel>,
    pub last_traded_price: Amount,
}

pub open spec fn levels_view(s: Seq<PriceLevel>) -> Seq<LevelView> {
    s.map_values(|l: PriceLevel| l.view())
}

pub open spec fn fills_view(s: Seq<Fill>) -> Seq<FillView> {
    s.map_values(|f: Fill| f.view())
}

/// The prices of the fills are valid decimals.
pub open spec fn fill_prices_wf(s: Seq<Fill>) -> bool {
    forall|k: int| 0 <= k < s.len() ==> (#[trigger] s[k]).price.wf()
}

/// Every decimal held by the levels is a valid decimal.
pub open spec fn levels_amounts_wf(s: Seq<PriceLevel>) -> bool {
    &&& forall|i: int| 0 <= i < s.len() ==> (#[trigger] s[i]).price.wf()
    &&& forall|i: int, j: int|
        0 <= i < s.len() && 0 <= j < s[i].orders@.len() ==> (#[trigger] s[i].orders@[j]).wf()
}

impl PriceLevel {
    pub open spec fn view(self) -> LevelView {
        LevelView { price: self.price, orders: self.orders@ }
    }
}

impl Orderbook {
    pub open spec fn view(self) -> BookView {
        BookView {
            market: self.market@,
            market_id: self.market_id,
            bids: levels_view(self.bids@),
            asks: levels_view(self.asks@),
            last_traded_price: self.last_traded_price,
        }
    }

    /// The book is well formed: it has the shape of `book_shape`, and every decimal it
    /// holds is a valid decimal.
    pub open spec fn wf(self) -> bool {
        &&& book_shape(self.view())
        &&& levels_amounts_wf(self.bids@)
        &&& levels_amounts_wf(self.asks@)
        &&& self.last_traded_price.wf()
    }

    /// An empty book for the market named `market`, under a fresh random identifier.
    pub fn new(market: String) -> (r: Orderbook)
        ensures
            r.wf(),
            r.market@ == market@,
            r.bids@.len() == 0,
            r.asks@.len() == 0,
            r.last_traded_price.value() == 0,
            r.last_traded_price.scale == 0,
    {
        let market_id = new_id();
        let r = Orderbook {
            market,
            market_id,
            bids: Vec::new(),
            asks: Vec::new(),
            last_traded_price: Amount::zero(),
        };
        proof {
            assert(levels_view(r.bids@) =~= Seq::<LevelView>::empty());
            assert(levels_view(r.asks@) =~= Seq::<LevelView>::empty());
        }
        r
    }

    /// The lowest ask price: the price of the first ask level.
    pub fn best_ask(&self) -> (r: Option<Amount>)
        ensures
            r == (if self.asks@.len() > 0 {
                Some(self.asks@[0].price)
            } else {
                None
            }),
    {
        if self.asks.len() > 0 {
            Some(self.asks[0].price)
        } else {
            None
        }
    }

    /// The highest bid price: the price of the last bid level.
    pub fn best_bid(&self) -> (r: Option<Amount>)
        ensures
            r == (if self.bids@.len() > 0 {
                Some(self.bids@.last().price)
            } else {
                None
            }),
    {
        if self.bids.len() > 0 {
            Some(self.bids[self.bids.len() - 1].price)
        } else {
            None
        }
    }
}

/// One trade between the front order `m` of a queue and the incoming order `taker`: the
/// quantity traded, the maker with its new filled quantity, and the fill.  The incoming
/// order's filled quantity and the executed total grow by the quantity traded.
fn trade(
    m: &Order,
    taker: &mut Order,
    executed: &mut Amount,
    Ghost(done): Ghost<Seq<FillView>>,
    Ghost(later): Ghost<Seq<FillView>>,
) -> (r: (Order, Fill))
    requires
        m.wf(),
        old(taker).wf(),
        trade_ok(*m, *old(taker)),
        *old(executed) == fills_total_of(done),
        old(executed).wf(),
        fills_total_ok(done + (seq![fill_of(*m, *old(taker), trade_qty(*m, *old(taker)))]
            + later)),
    ensures
        ({
            let x = trade_qty(*m, *old(taker));
            let f = fill_of(*m, *old(taker), x);
            &&& *final(taker) == old(taker).with_filled(add_of(old(taker).filled_quantity, x))
            &&& r.0 == m.with_filled(add_of(m.filled_quantity, x))
            &&& r.1.view() == f
            &&& *final(executed) == fills_total_of(done.push(f))
            &&& fills_total_ok(done.push(f) + later)
        }),
        final(taker).wf(),
        final(executed).wf(),
        r.0.wf(),
        r.1.price.wf(),
{
    let ghost x0 = trade_qty(*m, *taker);
    let ghost f0 = fill_of(*m, *taker, x0);
    proof {
        assert(done + (seq![f0] + later) =~= done.push(f0) + later);
        lemma_fills_total_prefix(done.push(f0), later);
        assert(done.push(f0).drop_last() =~= done);
    }
    let maker_rem = decimal_sub(&m.quantity, &m.filled_quantity);
    let taker_rem = decimal_sub(&taker.quantity, &taker.filled_quantity);
    proof {
        assert(maker_rem == crate::amount::sub_of(m.quantity, m.filled_quantity));
        assert(taker_rem == crate::amount::sub_of(taker.quantity, taker.filled_quantity));
    }
    let x = amount_min(maker_rem, taker_rem);
    *executed = decimal_add(executed, &x);
    taker.filled_quantity = decimal_add(&taker.filled_quantity, &x);
    let mut m2 = *m;
    m2.filled_quantity = decimal_add(&m.filled_quantity, &x);
    let fill = Fill {
        market_id: taker.market_id,
        maker_order_id: m.order_id,
        taker_order_id: taker.order_id,
        taker_user_id: taker.user_id,
        maker_user_id: m.user_id,
        price: m.price,
        quantity: x,
        timestamp: now(),
    };
    (m2, fill)
}

/// Matches `taker` against one queue of resting orders, front first, while both have
/// quantity left (for at most `step_limit` trades); fills go to the back of `fills` and
/// their total to `executed`.
#[verifier::spinoff_prover]
#[verifier::rlimit(50)]
fn sweep_queue_exec(
    orders: &mut Vec<Order>,
    taker: &mut Order,
    fills: &mut Vec<Fill>,
    executed: &mut Amount,
    Ghost(later): Ghost<Seq<FillView>>,
)
    requires
        forall|j: int| 0 <= j < old(orders)@.len() ==> (#[trigger] old(orders)@[j]).wf(),
        old(taker).wf(),
        run_ok(old(orders)@, *old(taker), step_limit()),
        *old(executed) == fills_total_of(fills_view(old(fills)@)),
        old(executed).wf(),
        fill_prices_wf(old(fills)@),
        fills_total_ok(fills_view(old(fills)@) + (run_queue(
            old(orders)@,
            *old(taker),
            step_limit(),
        ).2 + later)),
    ensures
        final(orders)@ == run_queue(old(orders)@, *old(taker), step_limit()).0,
        *final(taker) == run_queue(old(orders)@, *old(taker), step_limit()).1,
        fills_view(final(fills)@) == fills_view(old(fills)@) + run_queue(
            old(orders)@,
            *old(taker),
            step_limit(),
        ).2,
        *final(executed) == fills_total_of(fills_view(final(fills)@)),
        final(executed).wf(),
        final(taker).wf(),
        forall|j: int| 0 <= j < final(orders)@.len() ==> (#[trigger] final(orders)@[j]).wf(),
        fill_prices_wf(final(fills)@),
        fills_total_ok(fills_view(final(fills)@) + later),
        queue_done(old(orders)@, *old(taker)),
{
    let ghost q0 = orders@;
    let ghost len0 = fills@.len();
    let ghost t0 = *taker;
    let ghost fl0 = fills_view(fills@);
    let ghost r0 = run_queue(q0, t0, step_limit());
    let mut fuel: u128 = 0x1_0000_0000_0000_0000;
    while fuel > 0 && orders.len() > 0 && decimal_lt(&taker.filled_quantity, &taker.quantity)
        invariant
            fuel <= step_limit(),
            fills@.len() == len0 + (step_limit() - fuel),
            forall|j: int| 0 <= j < orders@.len() ==> (#[trigger] orders@[j]).wf(),
            taker.wf(),
            executed.wf(),
            fill_prices_wf(fills@),
            run_ok(orders@, *taker, fuel as nat),
            *executed == fills_total_of(fills_view(fills@)),
            run_queue(orders@, *taker, fuel as nat).0 == r0.0,
            run_queue(orders@, *taker, fuel as nat).1 == r0.1,
            fills_view(fills@) + run_queue(orders@, *taker, fuel as nat).2 == fl0 + r0.2,
            fills_total_ok(fills_view(fills@) + (run_queue(orders@, *taker, fuel as nat).2
                + later)),
        decreases fuel,
    {
        let m = orders[0];
        let ghost q = orders@;
        let ghost tv = *taker;
        let ghost fl = fills_view(fills@);
        let ghost n = fuel as nat;
        let ghost x = trade_qty(m, tv);
        let ghost f = fill_of(m, tv, x);
        let ghost t2 = tv.with_filled(add_of(tv.filled_quantity, x));
        let ghost rest_fs = run_queue(queue_after(q, tv), t2, (n - 1) as nat).2;
        proof {
            assert(q[0] == m);
            assert(run_queue(q, tv, n).2 == seq![f] + rest_fs);
            assert(fl + ((seq![f] + rest_fs) + later) =~= fl + (seq![f] + (rest_fs + later)));
        }
        let (m2, fill) = trade(&m, taker, executed, Ghost(fl), Ghost(rest_fs + later));
        fills.push(fill);
        proof {
            assert(fills_view(fills@) =~= fl.push(f));
            assert(fl + (seq![f] + rest_fs) =~= fl.push(f) + rest_fs);
        }
        if decimal_eq(&m2.filled_quantity, &m2.quantity) {
            orders.remove(0);
            proof {
                assert(orders@ =~= queue_after(q, tv));
                assert forall|j: int| 0 <= j < orders@.len() implies (#[trigger] orders@[j]).wf() by {
                    assert(orders@[j] == q[j + 1]);
                }
            }
        } else {
            orders.set(0, m2);
            proof {
                assert(orders@ =~= queue_after(q, tv));
                assert forall|j: int| 0 <= j < orders@.len() implies (#[trigger] orders@[j]).wf() by {
                    if j > 0 {
                        assert(orders@[j] == q[j]);
                    }
                }
            }
        }
        fuel = fuel - 1;
    }
    proof {
        assert(run_queue(orders@, *taker, fuel as nat) == (orders@, *taker, Seq::<FillView>::empty()));
        assert(fills_view(fills@) + Seq::<FillView>::empty() =~= fills_view(fills@));
        assert(Seq::<FillView>::empty() + later =~= later);
        // no vector holds `step_limit` fills, so the trades ran out before the limit did
        assert(fills.len() <= usize::MAX);
        assert(fuel > 0);
    }
}

/// Levels whose decimals are valid, joined, are still such levels.
proof fn lemma_amounts_wf_append(a: Seq<PriceLevel>, b: Seq<PriceLevel>)
    requires
        levels_amounts_wf(a),
        levels_amounts_wf(b),
    ensures
        levels_amounts_wf(a + b),
{
    let c = a + b;
    assert forall|i: int, j: int|
        0 <= i < c.len() && 0 <= j < c[i].orders@.len() implies (#[trigger] c[i].orders@[j]).wf() by {
        if i < a.len() {
            assert(c[i] == a[i]);
        } else {
            assert(c[i] == b[i - a.len()]);
        }
    }
    assert forall|i: int| 0 <= i < c.len() implies (#[trigger] c[i]).price.wf() by {
        if i < a.len() {
            assert(c[i] == a[i]);
        } else {
            assert(c[i] == b[i - a.len()]);
        }
    }
}

/// A level whose decimals are valid, alone.
proof fn lemma_level_amounts_wf(l: PriceLevel)
    requires
        l.price.wf(),
        forall|j: int| 0 <= j < l.orders@.len() ==> (#[trigger] l.orders@[j]).wf(),
    ensures
        levels_amounts_wf(seq![l]),
{
    let s = seq![l];
    assert forall|i: int, j: int|
        0 <= i < s.len() && 0 <= j < s[i].orders@.len() implies (#[trigger] s[i].orders@[j]).wf() by {
        assert(s[i] == l);
    }
}

/// Part of levels whose decimals are valid.
proof fn lemma_amounts_wf_subrange(s: Seq<PriceLevel>, lo: int, hi: int)
    requires
        levels_amounts_wf(s),
        0 <= lo <= hi <= s.len(),
    ensures
        levels_amounts_wf(s.subrange(lo, hi)),
        forall|i: int| lo <= i < hi ==> levels_amounts_wf(seq![#[trigger] s[i]]),
{
    let r = s.subrange(lo, hi);
    assert forall|i: int, j: int|
        0 <= i < r.len() && 0 <= j < r[i].orders@.len() implies (#[trigger] r[i].orders@[j]).wf() by {
        assert(r[i] == s[i + lo]);
    }
    assert forall|i: int| 0 <= i < r.len() implies (#[trigger] r[i]).price.wf() by {
        assert(r[i] == s[i + lo]);
    }
    assert forall|i: int| lo <= i < hi implies levels_amounts_wf(seq![#[trigger] s[i]]) by {
        lemma_level_amounts_wf(s[i]);
    }
}

impl Orderbook {
    /// Matches an incoming bid against the asks: from the lowest ask level up to the first
    /// level priced above the bid, each level oldest order first, until the bid is filled.
    /// Ask levels left empty are removed.  Returns the total quantity executed and the
    /// fills, in the order they happened.
    pub fn match_asks(&mut self, order: &mut Order) -> (r: (Amount, Vec<Fill>))
        requires
            old(self).wf(),
            old(order).wf(),
            run_asks_ok(old(self)@.asks, *old(order)),
            fills_total_ok(run_asks(old(self)@.asks, *old(order)).2),
        ensures
            final(self)@.asks == run_asks(old(self)@.asks, *old(order)).0,
            *final(order) == run_asks(old(self)@.asks, *old(order)).1,
            fills_view(r.1@) == run_asks(old(self)@.asks, *old(order)).2,
            asks_done(old(self)@.asks, *old(order)),
            r.0 == fills_total_of(run_asks(old(self)@.asks, *old(order)).2),
            r.0.wf(),
            final(order).wf(),
            fill_prices_wf(r.1@),
            levels_amounts_wf(final(self).asks@),
            final(self).bids == old(self).bids,
            final(self).market == old(self).market,
            final(self).market_id == old(self).market_id,
            final(self).last_traded_price == old(self).last_traded_price,
    {
        let ghost a0 = levels_view(self.asks@);
        let ghost t0 = *order;
        let mut executed = Amount::zero();
        let mut fills: Vec<Fill> = Vec::new();
        let mut rest: Vec<PriceLevel> = Vec::new();
        std::mem::swap(&mut rest, &mut self.asks);
        let mut kept: Vec<PriceLevel> = Vec::new();
        let mut done = false;
        proof {
            assert(levels_view(kept@) + a0 =~= a0);
            assert(fills_view(fills@) =~= Seq::<FillView>::empty());
            assert(Seq::<FillView>::empty() + run_asks(a0, t0).2 =~= run_asks(a0, t0).2);
        }
        while !done && rest.len() > 0
            invariant
                levels_amounts_wf(rest@),
                levels_amounts_wf(kept@),
                order.wf(),
                run_asks_ok(levels_view(rest@), *order),
                executed == fills_total_of(fills_view(fills@)),
                executed.wf(),
                fill_prices_wf(fills@),
                fills_total_ok(fills_view(fills@) + run_asks(levels_view(rest@), *order).2),
                done ==> rest@.len() > 0 && rest@[0].price.value() > order.price.value(),
                levels_view(kept@) + run_asks(levels_view(rest@), *order).0 == run_asks(a0, t0).0,
                run_asks(levels_view(rest@), *order).1 == run_asks(a0, t0).1,
                asks_done(levels_view(rest@), *order) ==> asks_done(a0, t0),
                fills_view(fills@) + run_asks(levels_view(rest@), *order).2 == run_asks(a0, t0).2,
                self.bids == old(self).bids,
                self.market == old(self).market,
                self.market_id == old(self).market_id,
                self.last_traded_price == old(self).last_traded_price,
            decreases rest@.len() + (if done {
                0int
            } else {
                1int
            }),
        {
            let ghost rv = levels_view(rest@);
            proof {
                assert(rv[0] == rest@[0].view());
                assert(rest@[0].price.wf());
            }
            if decimal_lt(&order.price, &rest[0].price) {
                done = true;
            } else {
                let ghost tv = *order;
                let ghost fl = fills_view(fills@);
                let ghost kv = levels_view(kept@);
                let ghost (q, t1, f1) = run_queue(rv[0].orders, tv, step_limit());
                let ghost (rest2, t2, f2) = run_asks(rv.drop_first(), t1);
                let ghost rb = rest@;
                proof {
                    assert(run_asks(rv, tv) == (keep_level(rv[0].price, q) + rest2, t2, f1 + f2));
                    assert(fl + (f1 + f2) =~= fl + (f1 + f2));
                    lemma_amounts_wf_subrange(rb, 1, rb.len() as int);
                    lemma_amounts_wf_subrange(rb, 0, 1);
                }
                let mut level = rest.remove(0);
                proof {
                    assert(rest@ =~= rb.subrange(1, rb.len() as int));
                    assert(levels_view(rest@) =~= rv.drop_first());
                    assert(rv[0] == level.view());
                    assert(levels_amounts_wf(seq![rb[0]]));
                    assert forall|j: int| 0 <= j < level.orders@.len() implies (
                    #[trigger] level.orders@[j]).wf() by {
                        assert(seq![rb[0]][0] == level);
                    }
                }
                sweep_queue_exec(&mut level.orders, order, &mut fills, &mut executed, Ghost(f2));
                if level.orders.len() > 0 {
                    let ghost kb = kept@;
                    kept.push(level);
                    proof {
                        assert(levels_view(kept@) =~= kv + keep_level(rv[0].price, q));
                        lemma_level_amounts_wf(level);
                        lemma_amounts_wf_append(kb, seq![level]);
                        assert(kb + seq![level] =~= kept@);
                    }
                } else {
                    proof {
                        assert(keep_level(rv[0].price, q) =~= Seq::<LevelView>::empty());
                        assert(levels_view(kept@) =~= kv + keep_level(rv[0].price, q));
                    }
                }
                proof {
                    assert(kv + (keep_level(rv[0].price, q) + rest2) =~= (kv + keep_level(
                        rv[0].price,
                        q,
                    )) + rest2);
                    assert(fl + (f1 + f2) =~= (fl + f1) + f2);
                }
            }
        }
        proof {
            let rv = levels_view(rest@);
            assert(run_asks(rv, *order) == (rv, *order, Seq::<FillView>::empty()));
            assert(fills_view(fills@) + Seq::<FillView>::empty() =~= fills_view(fills@));
            lemma_amounts_wf_append(kept@, rest@);
        }
        let ghost kb = kept@;
        let ghost rb = rest@;
        kept.append(&mut rest);
        proof {
            assert(kept@ =~= kb + rb);
            assert(levels_view(kept@) =~= levels_view(kb) + levels_view(rb));
        }
        self.asks = kept;
        (executed, fills)
    }
}

impl Orderbook {
    /// Matches an incoming ask against the bids: from the highest bid level down to the
    /// first level priced below the ask, each level oldest order first, until the ask is
    /// filled.  Bid levels left empty are removed.  Returns the total quantity executed and
    /// the fills, in the order they happened.
    pub fn match_bids(&mut self, order: &mut Order) -> (r: (Amount, Vec<Fill>))
        requires
            old(self).wf(),
            old(order).wf(),
            run_bids_ok(old(self)@.bids, *old(order)),
            fills_total_ok(run_bids(old(self)@.bids, *old(order)).2),
        ensures
            final(self)@.bids == run_bids(old(self)@.bids, *old(order)).0,
            *final(order) == run_bids(old(self)@.bids, *old(order)).1,
            fills_view(r.1@) == run_bids(old(self)@.bids, *old(order)).2,
            bids_done(old(self)@.bids, *old(order)),
            r.0 == fills_total_of(run_bids(old(self)@.bids, *old(order)).2),
            r.0.wf(),
            final(order).wf(),
            fill_prices_wf(r.1@),
            levels_amounts_wf(final(self).bids@),
            final(self).asks == old(self).asks,
            final(self).market == old(self).market,
            final(self).market_id == old(self).market_id,
            final(self).last_traded_price == old(self).last_traded_price,
    {
        let ghost b0 = levels_view(self.bids@);
        let ghost t0 = *order;
        let mut executed = Amount::zero();
        let mut fills: Vec<Fill> = Vec::new();
        let mut rest: Vec<PriceLevel> = Vec::new();
        std::mem::swap(&mut rest, &mut self.bids);
        // the levels already matched and kept, highest first
        let mut kept_rev: Vec<PriceLevel> = Vec::new();
        let mut done = false;
        proof {
            assert(b0 + levels_view(kept_rev@).reverse() =~= b0);
            assert(fills_view(fills@) =~= Seq::<FillView>::empty());
            assert(Seq::<FillView>::empty() + run_bids(b0, t0).2 =~= run_bids(b0, t0).2);
        }
        while !done && rest.len() > 0
            invariant
                levels_amounts_wf(rest@),
                levels_amounts_wf(kept_rev@),
                order.wf(),
                run_bids_ok(levels_view(rest@), *order),
                executed == fills_total_of(fills_view(fills@)),
                executed.wf(),
                fill_prices_wf(fills@),
                fills_total_ok(fills_view(fills@) + run_bids(levels_view(rest@), *order).2),
                done ==> rest@.len() > 0 && order.price.value() > rest@.last().price.value(),
                run_bids(levels_view(rest@), *order).0 + levels_view(kept_rev@).reverse()
                    == run_bids(b0, t0).0,
                run_bids(levels_view(rest@), *order).1 == run_bids(b0, t0).1,
                bids_done(levels_view(rest@), *order) ==> bids_done(b0, t0),
                fills_view(fills@) + run_bids(levels_view(rest@), *order).2 == run_bids(b0, t0).2,
                self.asks == old(self).asks,
                self.market == old(self).market,
                self.market_id == old(self).market_id,
                self.last_traded_price == old(self).last_traded_price,
            decreases rest@.len() + (if done {
                0int
            } else {
                1int
            }),
        {
            let last = rest.len() - 1;
            let ghost rv = levels_view(rest@);
            proof {
                assert(rv.last() == rest@[last as int].view());
                assert(rest@[last as int].price.wf());
            }
            if decimal_lt(&rest[last].price, &order.price) {
                done = true;
            } else {
                let ghost tv = *order;
                let ghost fl = fills_view(fills@);
                let ghost kv = levels_view(kept_rev@);
                let ghost (q, t1, f1) = run_queue(rv.last().orders, tv, step_limit());
                let ghost (rest2, t2, f2) = run_bids(rv.drop_last(), t1);
                let ghost rb = rest@;
                proof {
                    assert(run_bids(rv, tv) == (rest2 + keep_level(rv.last().price, q), t2, f1
                        + f2));
                    lemma_amounts_wf_subrange(rb, 0, last as int);
                    lemma_amounts_wf_subrange(rb, 0, rb.len() as int);
                }
                let mut level = rest.pop().unwrap();
                proof {
                    assert(rest@ =~= rb.subrange(0, last as int));
                    assert(levels_view(rest@) =~= rv.drop_last());
                    assert(rv.last() == level.view());
                    assert(levels_amounts_wf(seq![rb[last as int]]));
                    assert forall|j: int| 0 <= j < level.orders@.len() implies (
                    #[trigger] level.orders@[j]).wf() by {
                        assert(seq![rb[last as int]][0] == level);
                    }
                }
                sweep_queue_exec(&mut level.orders, order, &mut fills, &mut executed, Ghost(f2));
                if level.orders.len() > 0 {
                    let ghost kb = kept_rev@;
                    kept_rev.push(level);
                    proof {
                        assert(levels_view(kept_rev@) =~= kv.push(level.view()));
                        assert(levels_view(kept_rev@).reverse() =~= seq![level.view()]
                            + kv.reverse());
                        assert(keep_level(rv.last().price, q) == seq![level.view()]);
                        lemma_level_amounts_wf(level);
                        lemma_amounts_wf_append(kb, seq![level]);
                        assert(kb + seq![level] =~= kept_rev@);
                    }
                } else {
                    proof {
                        assert(keep_level(rv.last().price, q) =~= Seq::<LevelView>::empty());
                        assert(levels_view(kept_rev@).reverse() =~= keep_level(
                            rv.last().price,
                            q,
                        ) + kv.reverse());
                    }
                }
                proof {
                    assert((rest2 + keep_level(rv.last().price, q)) + kv.reverse() =~= rest2 + (
                    keep_level(rv.last().price, q) + kv.reverse()));
                    assert(fl + (f1 + f2) =~= (fl + f1) + f2);
                }
            }
        }
        proof {
            let rv = levels_view(rest@);
            assert(run_bids(rv, *order) == (rv, *order, Seq::<FillView>::empty()));
            assert(fills_view(fills@) + Seq::<FillView>::empty() =~= fills_view(fills@));
        }
        let ghost target = levels_view(rest@) + levels_view(kept_rev@).reverse();
        while kept_rev.len() > 0
            invariant
                levels_view(rest@) + levels_view(kept_rev@).reverse() == target,
                levels_amounts_wf(rest@),
                levels_amounts_wf(kept_rev@),
            decreases kept_rev@.len(),
        {
            let ghost rb = rest@;
            let ghost kb = kept_rev@;
            proof {
                lemma_amounts_wf_subrange(kb, 0, kb.len() - 1);
                lemma_amounts_wf_subrange(kb, 0, kb.len() as int);
            }
            let l = kept_rev.pop().unwrap();
            rest.push(l);
            proof {
                assert(kept_rev@ =~= kb.subrange(0, kb.len() - 1));
                assert(levels_view(kb) =~= levels_view(kept_rev@).push(l.view()));
                assert(levels_view(kb).reverse() =~= seq![l.view()] + levels_view(
                    kept_rev@,
                ).reverse());
                assert(levels_view(rest@) =~= levels_view(rb).push(l.view()));
                assert(levels_view(rest@) + levels_view(kept_rev@).reverse() =~= levels_view(rb)
                    + levels_view(kb).reverse());
                assert(levels_amounts_wf(seq![kb[kb.len() - 1]]));
                lemma_amounts_wf_append(rb, seq![l]);
                assert(rb + seq![l] =~= rest@);
            }
        }
        proof {
            assert(levels_view(kept_rev@).reverse() =~= Seq::<LevelView>::empty());
            assert(levels_view(rest@) =~= target);
        }
        self.bids = rest;
        (executed, fills)
    }
}

/// Adds a resting order at the back of the queue of its price level, creating the level
/// (keyed by the order's price, in price order) when there is none.
fn insert_resting_exec(levels: &mut Vec<PriceLevel>, o: Order, Ghost(side): Ghost<Side>)
    requires
        side_shape(levels_view(old(levels)@), side),
        levels_amounts_wf(old(levels)@),
        o.wf(),
    ensures
        levels_view(final(levels)@) == insert_resting(levels_view(old(levels)@), o),
        levels_amounts_wf(final(levels)@),
{
    let ghost lv = levels_view(levels@);
    let ghost l0 = levels@;
    let mut i: usize = 0;
    while i < levels.len() && decimal_lt(&levels[i].price, &o.price)
        invariant
            i <= levels@.len(),
            levels@ == l0,
            lv == levels_view(l0),
            levels_amounts_wf(l0),
            o.wf(),
            forall|k: int| 0 <= k < i ==> #[trigger] lv[k].price.value() < o.price.value(),
        decreases levels@.len() - i,
    {
        proof {
            assert(lv[i as int] == levels@[i as int].view());
        }
        i = i + 1;
    }
    proof {
        lemma_insert_at(lv, o, i as int);
        if i < levels@.len() {
            assert(lv[i as int] == levels@[i as int].view());
        }
    }
    let ghost sk = lv.skip(i as int);
    if i < levels.len() && decimal_eq(&levels[i].price, &o.price) {
        let mut lvl = levels.remove(i);
        let ghost lb = lvl;
        lvl.orders.push(o);
        levels.insert(i, lvl);
        proof {
            assert(sk[0] == lb.view());
            assert(sk.drop_first() =~= lv.skip(i + 1));
            assert(insert_resting(sk, o) == seq![
                LevelView { price: lb.price, orders: lb.view().orders.push(o) },
            ] + sk.drop_first());
            assert(levels@ =~= l0.take(i as int) + seq![lvl] + l0.skip(i + 1));
            assert(levels_view(levels@) =~= lv.take(i as int) + (seq![lvl.view()] + lv.skip(
                i + 1,
            )));
            assert forall|k: int, j: int|
                0 <= k < levels@.len() && 0 <= j < levels@[k].orders@.len() implies (
            #[trigger] levels@[k].orders@[j]).wf() by {
                if k != i {
                    assert(levels@[k] == l0[k]);
                } else {
                    assert(levels@[k] == lvl);
                    if j < lb.orders@.len() {
                        assert(lvl.orders@[j] == lb.orders@[j]);
                        assert(l0[k] == lb);
                    }
                }
            }
            assert forall|k: int| 0 <= k < levels@.len() implies (#[trigger] levels@[k]).price.wf() by {
                if k != i {
                    assert(levels@[k] == l0[k]);
                } else {
                    assert(l0[k] == lb);
                }
            }
        }
    } else {
        let mut orders: Vec<Order> = Vec::new();
        orders.push(o);
        let lvl = PriceLevel { price: o.price, orders };
        levels.insert(i, lvl);
        proof {
            if i < lv.len() {
                assert(sk[0] == lv[i as int]);
                assert(!(sk[0].price.value() < o.price.value()));
            }
            assert(lvl.orders@ =~= seq![o]);
            assert(insert_resting(sk, o) == seq![lvl.view()] + sk);
            assert(levels@ =~= l0.take(i as int) + seq![lvl] + l0.skip(i as int));
            assert(levels_view(levels@) =~= lv.take(i as int) + (seq![lvl.view()] + sk));
            assert forall|k: int, j: int|
                0 <= k < levels@.len() && 0 <= j < levels@[k].orders@.len() implies (
            #[trigger] levels@[k].orders@[j]).wf() by {
                if k < i {
                    assert(levels@[k] == l0[k]);
                } else if k > i {
                    assert(levels@[k] == l0[k - 1]);
                } else {
                    assert(levels@[k] == lvl);
                }
            }
            assert forall|k: int| 0 <= k < levels@.len() implies (#[trigger] levels@[k]).price.wf() by {
                if k < i {
                    assert(levels@[k] == l0[k]);
                } else if k > i {
                    assert(levels@[k] == l0[k - 1]);
                }
            }
        }
    }
}

impl Orderbook {
    /// Places an order: it is matched against the opposite side (`match_asks` for a bid,
    /// `match_bids` for an ask); what is left of it rests on its own side at its price,
    /// behind the orders already there; when the quantity executed is positive, the last
    /// traded price becomes the price of the last fill.  Returns the quantity executed and
    /// the fills.  The decimals are those `rust_decimal` computes, rounding included
    /// (`place_run`); where all of the arithmetic is exact, that is `place_spec`, with its
    /// laws.
    ///
    /// `requires` leaves out the orders whose matching would make `rust_decimal` overflow
    /// (`place_ok`; `can_place` tests it), on which it panics.
    pub fn place_order(&mut self, order: Order) -> (r: Result<(Amount, Vec<Fill>), BookError>)
        requires
            old(self).wf(),
            order.wf(),
            place_ok(old(self)@, order),
        ensures
            final(self).wf(),
            r is Ok,
            r matches Ok((executed, fills)) ==> ({
                let (b2, t, fs) = place_run(old(self)@, order);
                &&& final(self)@ == b2
                &&& fills_view(fills@) == fs
                &&& executed == fills_total_of(fs)
                &&& executed.wf()
            }),
            place_exact(old(self)@, order) ==> place_run(old(self)@, order) == place_spec(
                old(self)@,
                order,
            ),
            uncrossed(old(self)@) ==> uncrossed(final(self)@),
            book_ok(old(self)@) && place_exact(old(self)@, order) ==> book_ok(final(self)@),
            r matches Ok((executed, fills)) ==> (executed.value() > 0 ==> fills@.len() > 0
                && final(self).last_traded_price == fills@[fills@.len() - 1].price),
            r matches Ok((executed, fills)) ==> (executed.value() <= 0
                ==> final(self).last_traded_price == old(self).last_traded_price),
            r matches Ok((executed, fills)) ==> forall|k: int|
                0 <= k < fills@.len() ==> #[trigger] fills@[k].taker_order_id == order.order_id
                    && fills@[k].taker_user_id == order.user_id && fills@[k].market_id
                    == order.market_id,
    {
        let ghost b0 = self.view();
        let ghost o0 = order;
        proof {
            lemma_place_run_shape(b0, o0);
            lemma_run_asks_shape(b0.asks, o0);
            lemma_run_bids_shape(b0.bids, o0);
            lemma_levels_valid(self.bids@);
            lemma_levels_valid(self.asks@);
            if place_exact(b0, o0) {
                lemma_place_run_exact(b0, o0);
                if book_ok(b0) {
                    lemma_place_spec(b0, o0);
                }
            }
        }
        let mut order = order;
        let (executed, fills) = match order.side {
            Side::Ask => self.match_bids(&mut order),
            Side::Bid => self.match_asks(&mut order),
        };
        if decimal_lt(&order.filled_quantity, &order.quantity) {
            match order.side {
                Side::Ask => insert_resting_exec(&mut self.asks, order, Ghost(Side::Ask)),
                Side::Bid => insert_resting_exec(&mut self.bids, order, Ghost(Side::Bid)),
            }
        }
        let ghost fs = fills_view(fills@);
        if decimal_lt(&Amount::zero(), &executed) {
            proof {
                if fs.len() == 0 {
                    assert(fills_total_of(fs) == Amount { mantissa: 0, scale: 0 });
                }
                assert(fs.last() == fills@[fills@.len() - 1].view());
            }
            self.last_traded_price = fills[fills.len() - 1].price;
        }
        proof {
            let pr = place_run(b0, o0);
            assert(match_run(b0, o0).2 == fs);
            assert(self.view().bids == pr.0.bids);
            assert(self.view().asks == pr.0.asks);
            assert(self.view().last_traded_price == pr.0.last_traded_price);
            assert(self.view() == place_run(b0, o0).0);
            assert(match_done(b0, o0));
            crate::book_run::lemma_place_run_last_price(b0, o0);
            crate::book_run::lemma_place_run_parties(b0, o0);
            assert forall|k: int| 0 <= k < fills@.len() implies #[trigger] fills@[k].taker_order_id
                == o0.order_id && fills@[k].taker_user_id == o0.user_id && fills@[k].market_id
                == o0.market_id by {
                assert(fs[k] == fills@[k].view());
                assert(crate::book_run::taken_by(fs[k], o0));
            }
            if executed.value() > 0 {
                assert(fs[fs.len() - 1] == fills@[fills@.len() - 1].view());
            }
            if uncrossed(b0) {
                lemma_place_run_uncrossed(b0, o0);
            }
        }
        Ok((executed, fills))
    }
}

/// The orders of levels whose decimals are valid hold valid decimals, and no queue is
/// longer than `step_limit`.
proof fn lemma_levels_valid(s: Seq<PriceLevel>)
    requires
        levels_amounts_wf(s),
    ensures
        levels_valid(levels_view(s)),
{
    let lv = levels_view(s);
    assert forall|i: int, j: int| 0 <= i < lv.len() && 0 <= j < lv[i].orders.len() implies (
    #[trigger] lv[i].orders[j]).wf() by {
        assert(lv[i] == s[i].view());
    }
    assert forall|i: int| 0 <= i < lv.len() implies (#[trigger] lv[i]).orders.len()
        < step_limit() by {
        assert(lv[i] == s[i].view());
        assert(s[i].orders.len() <= usize::MAX);
    }
}

/// Whether the trades of `taker` against one queue, and their additions to the executed
/// total (which stands at `executed`, the total of the fills `fl` so far), are free of
/// overflow; and then the incoming order and the executed total afterwards.  Nothing is
/// changed.
#[verifier::spinoff_prover]
#[verifier::rlimit(80)]
fn check_queue(
    orders: &Vec<Order>,
    taker: Order,
    executed: Amount,
    Ghost(fl): Ghost<Seq<FillView>>,
) -> (r: (bool, Order, Amount))
    requires
        forall|j: int| 0 <= j < orders@.len() ==> (#[trigger] orders@[j]).wf(),
        taker.wf(),
        executed == fills_total_of(fl),
        executed.wf(),
        fills_total_ok(fl),
    ensures
        r.0 == (run_ok(orders@, taker, step_limit()) && fills_total_ok(
            fl + run_queue(orders@, taker, step_limit()).2,
        )),
        r.0 ==> r.1 == run_queue(orders@, taker, step_limit()).1 && r.2 == fills_total_of(
            fl + run_queue(orders@, taker, step_limit()).2,
        ) && r.1.wf() && r.2.wf(),
{
    let ghost q0 = orders@;
    let ghost n0 = step_limit();
    let mut t = taker;
    let mut e = executed;
    let mut j: usize = 0;
    let mut front: Order = if orders.len() > 0 {
        orders[0]
    } else {
        taker
    };
    let mut fuel: u128 = 0x1_0000_0000_0000_0000;
    let ghost mut done: Seq<FillView> = Seq::empty();
    let ghost mut cq: Seq<Order> = q0;
    proof {
        assert(fl + done =~= fl);
        assert(done + run_queue(q0, taker, n0).2 =~= run_queue(q0, taker, n0).2);
    }
    while fuel > 0 && j < orders.len() && decimal_lt(&t.filled_quantity, &t.quantity)
        invariant
            q0 == orders@,
            n0 == step_limit(),
            j <= q0.len(),
            fuel <= n0,
            cq.len() == q0.len() - j,
            j < q0.len() ==> cq[0] == front,
            forall|k: int| 1 <= k < cq.len() ==> #[trigger] cq[k] == q0[j + k],
            forall|k: int| 0 <= k < cq.len() ==> (#[trigger] cq[k]).wf(),
            forall|k: int| 0 <= k < q0.len() ==> (#[trigger] q0[k]).wf(),
            t.wf(),
            e.wf(),
            e == fills_total_of(fl + done),
            fills_total_ok(fl + done),
            run_ok(q0, taker, n0) == run_ok(cq, t, fuel as nat),
            run_queue(q0, taker, n0).1 == run_queue(cq, t, fuel as nat).1,
            run_queue(q0, taker, n0).2 == done + run_queue(cq, t, fuel as nat).2,
        decreases fuel,
    {
        let m = front;
        let ghost n = fuel as nat;
        proof {
            assert(cq[0] == m);
        }
        if !is_ok(&m.quantity, &m.filled_quantity, false) || !is_ok(
            &t.quantity,
            &t.filled_quantity,
            false,
        ) {
            proof {
                assert(!trade_ok(m, t));
                assert(!run_ok(cq, t, n));
            }
            return (false, t, e);
        }
        let maker_rem = decimal_sub(&m.quantity, &m.filled_quantity);
        let taker_rem = decimal_sub(&t.quantity, &t.filled_quantity);
        proof {
            assert(maker_rem == crate::amount::sub_of(m.quantity, m.filled_quantity));
            assert(taker_rem == crate::amount::sub_of(t.quantity, t.filled_quantity));
        }
        let x = amount_min(maker_rem, taker_rem);
        proof {
            assert(trade_qty(m, t) == x);
        }
        if !is_ok(&t.filled_quantity, &x, true) || !is_ok(&m.filled_quantity, &x, true) {
            proof {
                assert(!trade_ok(m, t));
                assert(!run_ok(cq, t, n));
            }
            return (false, t, e);
        }
        let ghost f = fill_of(m, t, x);
        let ghost t2 = t.with_filled(add_of(t.filled_quantity, x));
        let ghost cq2 = queue_after(cq, t);
        let ghost rest_fs = run_queue(cq2, t2, (n - 1) as nat).2;
        proof {
            assert(trade_qty(m, t) == x);
            assert(run_queue(cq, t, n).2 == seq![f] + rest_fs);
            assert(fl + (done + (seq![f] + rest_fs)) =~= (fl + done).push(f) + rest_fs);
            assert((fl + done).push(f).drop_last() =~= fl + done);
        }
        if !is_ok(&e, &x, true) {
            proof {
                if fills_total_ok(fl + run_queue(q0, taker, n0).2) {
                    lemma_fills_total_prefix((fl + done).push(f), rest_fs);
                }
            }
            return (false, t, e);
        }
        e = decimal_add(&e, &x);
        let m_filled = decimal_add(&m.filled_quantity, &x);
        t.filled_quantity = decimal_add(&t.filled_quantity, &x);
        proof {
            done = done.push(f);
            assert(fl + done =~= (fl + done.drop_last()).push(f));
            assert(done.drop_last() + (seq![f] + rest_fs) =~= done + rest_fs);
        }
        if decimal_eq(&m_filled, &m.quantity) {
            proof {
                assert(cq2 == cq.drop_first());
            }
            j = j + 1;
            if j < orders.len() {
                front = orders[j];
            }
            proof {
                let cq_old = cq;
                cq = cq2;
                if j < q0.len() {
                    assert(cq[0] == cq_old[1]);
                    assert(cq_old[1] == q0[j as int]);
                }
                assert forall|k: int| 1 <= k < cq.len() implies #[trigger] cq[k] == q0[j + k] by {
                    assert(cq[k] == cq_old[k + 1]);
                    assert(cq_old[k + 1] == q0[(j - 1) + (k + 1)]);
                }
                assert forall|k: int| 0 <= k < cq.len() implies (#[trigger] cq[k]).wf() by {
                    assert(cq[k] == cq_old[k + 1]);
                }
            }
        } else {
            let mut m2 = m;
            m2.filled_quantity = m_filled;
            front = m2;
            proof {
                assert(cq2 == cq.update(0, m2));
                cq = cq2;
                assert forall|k: int| 1 <= k < cq.len() implies #[trigger] cq[k] == q0[j + k] by {
                    assert(cq[k] == cq.update(0, m2)[k]);
                }
                assert forall|k: int| 0 <= k < cq.len() implies (#[trigger] cq[k]).wf() by {
                    if k > 0 {
                        assert(cq[k] == q0[j + k]);
                    }
                }
            }
        }
        fuel = fuel - 1;
    }
    proof {
        assert(run_queue(cq, t, fuel as nat) == (cq, t, Seq::<FillView>::empty()));
        assert(done + Seq::<FillView>::empty() =~= done);
    }
    (true, t, e)
}

/// Whether matching an incoming bid against the asks `levels` overflows nowhere
/// (`run_asks_ok` and `fills_total_ok` of its fills).  Nothing is changed.
fn check_asks(levels: &Vec<PriceLevel>, taker: Order) -> (r: bool)
    requires
        levels_amounts_wf(levels@),
        taker.wf(),
    ensures
        r == (run_asks_ok(levels_view(levels@), taker) && fills_total_ok(
            run_asks(levels_view(levels@), taker).2,
        )),
{
    let ghost lv = levels_view(levels@);
    let mut t = taker;
    let mut e = Amount::zero();
    let mut i: usize = 0;
    let ghost mut done: Seq<FillView> = Seq::empty();
    proof {
        assert(lv.skip(0) =~= lv);
        assert(done + run_asks(lv, taker).2 =~= run_asks(lv, taker).2);
    }
    while i < levels.len()
        invariant
            lv == levels_view(levels@),
            i <= lv.len(),
            levels_amounts_wf(levels@),
            t.wf(),
            e.wf(),
            e == fills_total_of(done),
            fills_total_ok(done),
            run_asks_ok(lv, taker) == run_asks_ok(lv.skip(i as int), t),
            run_asks(lv, taker).2 == done + run_asks(lv.skip(i as int), t).2,
        decreases lv.len() - i,
    {
        let ghost sk = lv.skip(i as int);
        proof {
            assert(sk[0] == lv[i as int]);
            assert(lv[i as int] == levels@[i as int].view());
            assert(levels@[i as int].price.wf());
            assert(sk.drop_first() =~= lv.skip(i + 1));
        }
        if decimal_lt(&t.price, &levels[i].price) {
            proof {
                assert(run_asks(sk, t) == (sk, t, Seq::<FillView>::empty()));
                assert(done + Seq::<FillView>::empty() =~= done);
            }
            return true;
        }
        let ghost (q, t1, f1) = run_queue(sk[0].orders, t, step_limit());
        let ghost f2 = run_asks(sk.drop_first(), t1).2;
        proof {
            assert forall|j: int| 0 <= j < levels@[i as int].orders@.len() implies (
            #[trigger] levels@[i as int].orders@[j]).wf() by {}
        }
        let (ok, t_next, e_next) = check_queue(
            &levels[i].orders,
            t,
            e,
            Ghost(done),
        );
        proof {
            assert(run_asks(sk, t).2 == f1 + f2);
            assert(done + (f1 + f2) =~= (done + f1) + f2);
        }
        if !ok {
            proof {
                if run_ok(sk[0].orders, t, step_limit()) && fills_total_ok(run_asks(lv, taker).2) {
                    lemma_fills_total_prefix(done + f1, f2);
                }
            }
            return false;
        }
        t = t_next;
        e = e_next;
        proof {
            done = done + f1;
        }
        i = i + 1;
    }
    proof {
        let sk = lv.skip(i as int);
        assert(sk.len() == 0);
        assert(done + Seq::<FillView>::empty() =~= done);
    }
    true
}

/// Whether matching an incoming ask against the bids `levels` overflows nowhere
/// (`run_bids_ok` and `fills_total_ok` of its fills).  Nothing is changed.
fn check_bids(levels: &Vec<PriceLevel>, taker: Order) -> (r: bool)
    requires
        levels_amounts_wf(levels@),
        taker.wf(),
    ensures
        r == (run_bids_ok(levels_view(levels@), taker) && fills_total_ok(
            run_bids(levels_view(levels@), taker).2,
        )),
{
    let ghost lv = levels_view(levels@);
    let mut t = taker;
    let mut e = Amount::zero();
    let mut i: usize = levels.len();
    let ghost mut done: Seq<FillView> = Seq::empty();
    proof {
        assert(lv.take(lv.len() as int) =~= lv);
        assert(done + run_bids(lv, taker).2 =~= run_bids(lv, taker).2);
    }
    while i > 0
        invariant
            lv == levels_view(levels@),
            i <= lv.len(),
            levels_amounts_wf(levels@),
            t.wf(),
            e.wf(),
            e == fills_total_of(done),
            fills_total_ok(done),
            run_bids_ok(lv, taker) == run_bids_ok(lv.take(i as int), t),
            run_bids(lv, taker).2 == done + run_bids(lv.take(i as int), t).2,
        decreases i,
    {
        let k = i - 1;
        let ghost tk = lv.take(i as int);
        proof {
            assert(tk.last() == lv[k as int]);
            assert(lv[k as int] == levels@[k as int].view());
            assert(levels@[k as int].price.wf());
            assert(tk.drop_last() =~= lv.take(k as int));
        }
        if decimal_lt(&levels[k].price, &t.price) {
            proof {
                assert(run_bids(tk, t) == (tk, t, Seq::<FillView>::empty()));
                assert(done + Seq::<FillView>::empty() =~= done);
            }
            return true;
        }
        let ghost (q, t1, f1) = run_queue(tk.last().orders, t, step_limit());
        let ghost f2 = run_bids(tk.drop_last(), t1).2;
        proof {
            assert forall|j: int| 0 <= j < levels@[k as int].orders@.len() implies (
            #[trigger] levels@[k as int].orders@[j]).wf() by {}
        }
        let (ok, t_next, e_next) = check_queue(
            &levels[k].orders,
            t,
            e,
            Ghost(done),
        );
        proof {
            assert(run_bids(tk, t).2 == f1 + f2);
            assert(done + (f1 + f2) =~= (done + f1) + f2);
        }
        if !ok {
            proof {
                if run_ok(tk.last().orders, t, step_limit()) && fills_total_ok(run_bids(lv, taker).2) {
                    lemma_fills_total_prefix(done + f1, f2);
                }
            }
            return false;
        }
        t = t_next;
        e = e_next;
        proof {
            done = done + f1;
        }
        i = k;
    }
    proof {
        let tk = lv.take(i as int);
        assert(tk.len() == 0);
        assert(done + Seq::<FillView>::empty() =~= done);
    }
    true
}

impl Orderbook {
    /// Whether `place_order` can take `order`: it holds valid decimals and `rust_decimal`
    /// does all the arithmetic of its matching without overflowing (`place_ok`).
    pub fn can_place(&self, order: &Order) -> (r: bool)
        requires
            self.wf(),
        ensures
            r == (order.wf() && place_ok(self@, *order)),
    {
        if !(order.price.is_valid() && order.quantity.is_valid()
            && order.filled_quantity.is_valid()) {
            return false;
        }
        match order.side {
            Side::Bid => check_asks(&self.asks, *order),
            Side::Ask => check_bids(&self.bids, *order),
        }
    }
}

impl Orderbook {
    /// The resting orders of the given side at the level priced `price`, oldest first.
    pub fn orders_at(&self, side: Side, price: &Amount) -> (r: Option<&Vec<Order>>)
        requires
            self.wf(),
            price.wf(),
        ensures
            side == Side::Bid ==> level_found(self.bids@, *price, r),
            side == Side::Ask ==> level_found(self.asks@, *price, r),
    {
        match side {
            Side::Bid => find_level(&self.bids, price),
            Side::Ask => find_level(&self.asks, price),
        }
    }
}

/// `r` is the queue of the level priced `price`, or `None` when there is no such level.
pub open spec fn level_found(levels: Seq<PriceLevel>, price: Amount, r: Option<&Vec<Order>>) -> bool {
    match r {
        Some(v) => exists|i: int|
            0 <= i < levels.len() && levels[i].price.value() == price.value()
                && #[trigger] levels[i].orders == *v,
        None => forall|i: int|
            0 <= i < levels.len() ==> #[trigger] levels[i].price.value() != price.value(),
    }
}

fn find_level<'a>(levels: &'a Vec<PriceLevel>, price: &Amount) -> (r:
    Option<&'a Vec<Order>>)
    requires
        levels_amounts_wf(levels@),
        price.wf(),
    ensures
        level_found(levels@, *price, r),
{
    let mut i: usize = 0;
    while i < levels.len()
        invariant
            i <= levels@.len(),
            levels_amounts_wf(levels@),
            price.wf(),
            forall|k: int| 0 <= k < i ==> #[trigger] levels@[k].price.value() != price.value(),
        decreases levels@.len() - i,
    {
        proof {
            assert(levels@[i as int].price.wf());
        }
        if decimal_eq(&levels[i].price, price) {
            let r = &levels[i].orders;
            proof {
                assert(levels@[i as int].orders == *r);
            }
            return Some(r);
        }
        i = i + 1;
    }
    None
}

} // verus!
