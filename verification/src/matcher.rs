//! Price-time priority matching of an incoming order against the book.
use std::collections::VecDeque;

use vstd::prelude::*;

use crate::book::{rest_order, BookModel, OrderBook};
use crate::clock::now_nanos;
use crate::laws::law_fills_within_limit;
use crate::levels::{lemma_ascending_ends, lemma_max_exists, lemma_min_exists};
use crate::models::{Fill, Order, Side};

verus! {

broadcast use {
    vstd::std_specs::vecdeque::group_vec_dequeue_axioms,
    vstd::std_specs::btree::group_btree_axioms,
    vstd::laws_cmp::group_laws_cmp,
};

/// The smaller of two quantities.
pub open spec fn min_qty(a: u64, b: u64) -> u64 {
    if a <= b {
        a
    } else {
        b
    }
}

/// `o` with its remaining quantity replaced by `qty`.
pub open spec fn with_qty(o: Order, qty: u64) -> Order {
    Order { id: o.id, side: o.side, price: o.price, qty: qty, timestamp: o.timestamp }
}

/// Outcome of a taker sweeping one price level.
pub struct LevelSweep {
    /// Fills, in the order they happen.
    pub fills: Seq<Fill>,
    /// The queue that is left at the level.
    pub queue: Seq<Order>,
    /// Quantity of the taker still unfilled.
    pub remaining: u64,
    /// Ids of the makers that were used up, in order.
    pub done: Seq<u64>,
}

/// A taker with `remaining` contracts sweeps the FIFO queue of one level at `price`:
/// the oldest maker trades first, at the level's price, for the smaller of the two
/// quantities; a used-up maker leaves the queue, a partly filled one stays at its head.
pub open spec fn sweep_level(
    queue: Seq<Order>,
    price: u64,
    taker_id: u64,
    remaining: u64,
    now: u64,
) -> LevelSweep
    decreases queue.len(),
{
    if remaining == 0 || queue.len() == 0 {
        LevelSweep { fills: Seq::empty(), queue, remaining, done: Seq::empty() }
    } else {
        let maker = queue[0];
        let q = min_qty(remaining, maker.qty);
        let fill = Fill {
            maker_order_id: maker.id,
            taker_order_id: taker_id,
            price,
            qty: q,
            timestamp: now,
        };
        if q == maker.qty {
            let rest = sweep_level(queue.drop_first(), price, taker_id, (remaining - q) as u64, now);
            LevelSweep {
                fills: seq![fill] + rest.fills,
                queue: rest.queue,
                remaining: rest.remaining,
                done: seq![maker.id] + rest.done,
            }
        } else {
            LevelSweep {
                fills: seq![fill],
                queue: queue.update(0, with_qty(maker, (maker.qty - q) as u64)),
                remaining: (remaining - q) as u64,
                done: Seq::empty(),
            }
        }
    }
}

/// A level at `price` is acceptable to a taker on `taker` side with limit `limit`.
pub open spec fn crosses(taker: Side, limit: u64, price: u64) -> bool {
    match taker {
        Side::Buy => price <= limit,
        Side::Sell => limit <= price,
    }
}

/// `p` is the best level for the taker: the lowest ask for a buyer, the highest bid
/// for a seller.
pub open spec fn is_best_price(levels: Map<u64, Seq<Order>>, taker: Side, p: u64) -> bool {
    &&& levels.contains_key(p)
    &&& forall|q: u64|
        levels.contains_key(q) ==> match taker {
            Side::Buy => p <= q,
            Side::Sell => q <= p,
        }
}

/// The best level of the resting side for a taker on `taker` side.
pub open spec fn best_price(levels: Map<u64, Seq<Order>>, taker: Side) -> u64 {
    choose|p: u64| is_best_price(levels, taker, p)
}

/// Outcome of a taker sweeping the resting side of the book.
pub struct SideSweep {
    /// Fills, in the order they happen.
    pub fills: Seq<Fill>,
    /// The resting side that is left.
    pub levels: Map<u64, Seq<Order>>,
    /// Quantity of the taker still unfilled.
    pub remaining: u64,
    /// Ids of the makers that were used up, in order.
    pub done: Seq<u64>,
}

/// A taker sweeps the resting side level by level, best price first, while it has
/// quantity left and the best level is within its limit. A level left empty is removed.
pub open spec fn sweep_side(
    levels: Map<u64, Seq<Order>>,
    taker: Side,
    limit: u64,
    taker_id: u64,
    remaining: u64,
    now: u64,
) -> SideSweep
    decreases levels.dom().len(),
{
    if remaining == 0 || !levels.dom().finite() || levels.dom().is_empty() {
        SideSweep { fills: Seq::empty(), levels, remaining, done: Seq::empty() }
    } else {
        proof {
            lemma_best_price(levels, taker);
        }
        let p = best_price(levels, taker);
        if !crosses(taker, limit, p) {
            SideSweep { fills: Seq::empty(), levels, remaining, done: Seq::empty() }
        } else {
            let l = sweep_level(levels[p], p, taker_id, remaining, now);
            if l.queue.len() == 0 {
                let rest = sweep_side(levels.remove(p), taker, limit, taker_id, l.remaining, now);
                SideSweep {
                    fills: l.fills + rest.fills,
                    levels: rest.levels,
                    remaining: rest.remaining,
                    done: l.done + rest.done,
                }
            } else {
                SideSweep {
                    fills: l.fills,
                    levels: levels.insert(p, l.queue),
                    remaining: l.remaining,
                    done: l.done,
                }
            }
        }
    }
}

/// The resting side that a taker on `taker` side trades against.
pub open spec fn contra_levels(m: BookModel, taker: Side) -> Map<u64, Seq<Order>> {
    match taker {
        Side::Buy => m.asks,
        Side::Sell => m.bids,
    }
}

/// The sweep of the resting side by `incoming`.
pub open spec fn sweep_book(m: BookModel, incoming: Order, now: u64) -> SideSweep {
    sweep_side(
        contra_levels(m, incoming.side),
        incoming.side,
        incoming.price,
        incoming.id,
        incoming.qty,
        now,
    )
}

/// The book once a sweep by a taker on `taker` side is applied: the resting side is
/// replaced and the used-up makers leave the index.
pub open spec fn apply_sweep(m: BookModel, taker: Side, s: SideSweep) -> BookModel {
    BookModel {
        bids: match taker {
            Side::Buy => m.bids,
            Side::Sell => s.levels,
        },
        asks: match taker {
            Side::Buy => s.levels,
            Side::Sell => m.asks,
        },
        index: m.index.remove_keys(s.done.to_set()),
        sequence: m.sequence,
    }
}

/// The book after `incoming` was processed: the sweep is applied, an unfilled remainder
/// rests at the incoming order's price, and the sequence number grows by one.
pub open spec fn book_after_match(m: BookModel, incoming: Order, now: u64) -> BookModel {
    let s = sweep_book(m, incoming, now);
    let swept = apply_sweep(m, incoming.side, s);
    let rested = if s.remaining > 0 {
        rest_order(swept, with_qty(incoming, s.remaining))
    } else {
        swept
    };
    BookModel {
        bids: rested.bids,
        asks: rested.asks,
        index: rested.index,
        sequence: (m.sequence + 1) as u64,
    }
}

/// The fills produced when `incoming` is processed at time `now`.
pub open spec fn fills_of_match(m: BookModel, incoming: Order, now: u64) -> Seq<Fill> {
    sweep_book(m, incoming, now).fills
}

/// A finite nonempty side has a best price, and `best_price` is it.
pub proof fn lemma_best_price(levels: Map<u64, Seq<Order>>, taker: Side)
    requires
        levels.dom().finite(),
        !levels.dom().is_empty(),
    ensures
        is_best_price(levels, taker, best_price(levels, taker)),
{
    let x = levels.dom().choose();
    assert(levels.dom().contains(x));
    assert(levels.dom().len() > 0);
    match taker {
        Side::Buy => {
            let m = lemma_min_exists(levels.dom());
            assert(is_best_price(levels, taker, m));
        },
        Side::Sell => {
            let m = lemma_max_exists(levels.dom());
            assert(is_best_price(levels, taker, m));
        },
    }
}

/// The best price is unique.
pub proof fn lemma_best_price_is(levels: Map<u64, Seq<Order>>, taker: Side, p: u64)
    requires
        is_best_price(levels, taker, p),
    ensures
        best_price(levels, taker) == p,
{
    let b = best_price(levels, taker);
    assert(is_best_price(levels, taker, b));
    assert(levels.contains_key(b));
    assert(levels.contains_key(p));
}

/// A queue left non-empty by a sweep means the taker was filled completely.
pub proof fn lemma_sweep_level_rest(
    queue: Seq<Order>,
    price: u64,
    taker_id: u64,
    remaining: u64,
    now: u64,
)
    ensures
        sweep_level(queue, price, taker_id, remaining, now).queue.len() > 0 ==> sweep_level(
            queue,
            price,
            taker_id,
            remaining,
            now,
        ).remaining == 0,
        sweep_level(queue, price, taker_id, remaining, now).remaining <= remaining,
    decreases queue.len(),
{
    if remaining > 0 && queue.len() > 0 {
        let q = min_qty(remaining, queue[0].qty);
        if q == queue[0].qty {
            lemma_sweep_level_rest(queue.drop_first(), price, taker_id, (remaining - q) as u64, now);
        }
    }
}

/// The taker sweeps one level's queue in FIFO order.
fn match_level(
    level: &mut VecDeque<Order>,
    price: u64,
    incoming: &mut Order,
    fills: &mut Vec<Fill>,
    filled_ids: &mut Vec<u64>,
    now: u64,
)
    ensures
        ({
            let s = sweep_level(old(level)@, price, old(incoming).id, old(incoming).qty, now);
            &&& final(level)@ == s.queue
            &&& final(fills)@ == old(fills)@ + s.fills
            &&& final(filled_ids)@ == old(filled_ids)@ + s.done
            &&& *final(incoming) == with_qty(*old(incoming), s.remaining)
        }),
{
    let ghost orig = *incoming;
    let ghost target = sweep_level(level@, price, orig.id, orig.qty, now);
    let ghost f0 = fills@;
    let ghost d0 = filled_ids@;

    while incoming.qty > 0 && level.len() > 0
        invariant
            *incoming == with_qty(orig, incoming.qty),
            ({
                let s = sweep_level(level@, price, orig.id, incoming.qty, now);
                &&& fills@ + s.fills == f0 + target.fills
                &&& filled_ids@ + s.done == d0 + target.done
                &&& s.queue == target.queue
                &&& s.remaining == target.remaining
            }),
        decreases level@.len() + (if incoming.qty > 0 {
            1int
        } else {
            0int
        }),
    {
        let ghost q0 = level@;
        let ghost r0 = incoming.qty;
        let maker = level.pop_front().unwrap();
        let fill_qty = if incoming.qty <= maker.qty {
            incoming.qty
        } else {
            maker.qty
        };
        let fill = Fill {
            maker_order_id: maker.id,
            taker_order_id: incoming.id,
            price: price,
            qty: fill_qty,
            timestamp: now,
        };
        fills.push(fill);
        incoming.qty = incoming.qty - fill_qty;
        if fill_qty == maker.qty {
            filled_ids.push(maker.id);
            proof {
                let s0 = sweep_level(q0, price, orig.id, r0, now);
                let s1 = sweep_level(level@, price, orig.id, incoming.qty, now);
                assert(q0.drop_first() =~= level@);
                assert(s0.fills =~= seq![fill] + s1.fills);
                assert(fills@ + s1.fills =~= (fills@.drop_last() + s0.fills));
                assert(filled_ids@ + s1.done =~= filled_ids@.drop_last() + s0.done);
            }
        } else {
            level.push_front(
                Order {
                    id: maker.id,
                    side: maker.side,
                    price: maker.price,
                    qty: maker.qty - fill_qty,
                    timestamp: maker.timestamp,
                },
            );
            proof {
                let s0 = sweep_level(q0, price, orig.id, r0, now);
                let s1 = sweep_level(level@, price, orig.id, incoming.qty, now);
                assert(level@ =~= q0.update(0, with_qty(maker, (maker.qty - fill_qty) as u64)));
                assert(fills@ + s1.fills =~= fills@.drop_last() + s0.fills);
                assert(filled_ids@ + s1.done =~= filled_ids@ + s0.done);
            }
        }
    }
    proof {
        let s = sweep_level(level@, price, orig.id, incoming.qty, now);
        assert(fills@ =~= fills@ + s.fills);
        assert(filled_ids@ =~= filled_ids@ + s.done);
    }
}

/// The taker sweeps the resting side, best level first, while its limit allows.
fn match_against(incoming: &mut Order, book: &mut OrderBook, fills: &mut Vec<Fill>, now: u64)
    ensures
        ({
            let s = sweep_side(
                contra_levels(old(book)@, old(incoming).side),
                old(incoming).side,
                old(incoming).price,
                old(incoming).id,
                old(incoming).qty,
                now,
            );
            &&& final(fills)@ == old(fills)@ + s.fills
            &&& *final(incoming) == with_qty(*old(incoming), s.remaining)
            &&& final(book)@ == apply_sweep(old(book)@, old(incoming).side, s)
        }),
{
    let ghost orig = *incoming;
    let ghost m0 = book@;
    let ghost f0 = fills@;
    let ghost target = sweep_side(
        contra_levels(m0, orig.side),
        orig.side,
        orig.price,
        orig.id,
        orig.qty,
        now,
    );
    let ghost mut done: Seq<u64> = Seq::empty();
    proof {
        book.lemma_view();
        assert(m0.index.remove_keys(done.to_set()) =~= m0.index);
        assert(book@ =~= apply_sweep(
            m0,
            orig.side,
            SideSweep { fills: Seq::empty(), levels: contra_levels(book@, orig.side), remaining: 0, done },
        ));
    }

    loop
        invariant
            *incoming == with_qty(orig, incoming.qty),
            contra_levels(book@, orig.side).dom().finite(),
            book@ == apply_sweep(
                m0,
                orig.side,
                SideSweep {
                    fills: Seq::empty(),
                    levels: contra_levels(book@, orig.side),
                    remaining: 0,
                    done,
                },
            ),
            ({
                let s = sweep_side(
                    contra_levels(book@, orig.side),
                    orig.side,
                    orig.price,
                    orig.id,
                    incoming.qty,
                    now,
                );
                &&& fills@ + s.fills == f0 + target.fills
                &&& done + s.done == target.done
                &&& s.levels == target.levels
                &&& s.remaining == target.remaining
            }),
        ensures
            fills@ == f0 + target.fills,
            done == target.done,
            contra_levels(book@, orig.side) == target.levels,
            incoming.qty == target.remaining,
            *incoming == with_qty(orig, incoming.qty),
            book@ == apply_sweep(
                m0,
                orig.side,
                SideSweep {
                    fills: Seq::empty(),
                    levels: contra_levels(book@, orig.side),
                    remaining: 0,
                    done,
                },
            ),
        decreases contra_levels(book@, orig.side).dom().len() + (if incoming.qty > 0 {
            1int
        } else {
            0int
        }),
    {
        let ghost levels0 = contra_levels(book@, orig.side);
        if incoming.qty == 0 {
            break;
        }
        let best = match incoming.side {
            Side::Buy => book.best_ask(),
            Side::Sell => book.best_bid(),
        };
        let price = match best {
            Some(p) => p,
            None => {
                break;
            },
        };
        proof {
            lemma_ascending_ends(levels0.dom());
            lemma_best_price_is(levels0, orig.side, price);
        }
        proof {
            book.lemma_view();
            match orig.side {
                Side::Buy => assert(book.ask_queues().contains_key(price)),
                Side::Sell => assert(book.bid_queues().contains_key(price)),
            }
        }
        let ghost book_before = *book;
        let acceptable = match incoming.side {
            Side::Buy => price <= incoming.price,
            Side::Sell => incoming.price <= price,
        };
        if !acceptable {
            break;
        }
        let taken = match incoming.side {
            Side::Buy => book.asks_mut().remove(&price),
            Side::Sell => book.bids_mut().remove(&price),
        };
        proof {
            match orig.side {
                Side::Buy => assert(taken is Some && taken->0 == book_before.ask_queues()[price]),
                Side::Sell => assert(taken is Some && taken->0 == book_before.bid_queues()[price]),
            }
        }
        let mut level = taken.unwrap();
        proof {
            book.lemma_view();
            assert(level@ == levels0[price]);
            assert(contra_levels(book@, orig.side) =~= levels0.remove(price));
        }
        let ghost r0 = incoming.qty;
        let mut filled_ids: Vec<u64> = Vec::new();
        match_level(&mut level, price, incoming, fills, &mut filled_ids, now);
        proof {
            lemma_sweep_level_rest(levels0[price], price, orig.id, r0, now);
        }

        let n = filled_ids.len();
        let mut i: usize = 0;
        while i < n
            invariant
                n == filled_ids@.len(),
                0 <= i <= n,
                contra_levels(book@, orig.side) == levels0.remove(price),
                book@ == apply_sweep(
                    m0,
                    orig.side,
                    SideSweep {
                        fills: Seq::empty(),
                        levels: contra_levels(book@, orig.side),
                        remaining: 0,
                        done: done + filled_ids@.take(i as int),
                    },
                ),
            decreases n - i,
        {
            book.remove_from_index(filled_ids[i]);
            proof {
                assert(done + filled_ids@.take(i + 1) =~= (done + filled_ids@.take(i as int)).push(
                    filled_ids@[i as int],
                ));
                (done + filled_ids@.take(i as int)).lemma_push_to_set_commute(filled_ids@[i as int]);
                assert(m0.index.remove_keys((done + filled_ids@.take(i + 1)).to_set()) =~= m0.index.remove_keys(
                    (done + filled_ids@.take(i as int)).to_set(),
                ).remove(filled_ids@[i as int]));
            }
            i = i + 1;
        }
        proof {
            assert(filled_ids@.take(n as int) =~= filled_ids@);
            done = done + filled_ids@;
        }

        if level.len() > 0 {
            let ghost lv = level@;
            let ghost before_insert = *book;
            proof {
                before_insert.lemma_view();
            }
            match incoming.side {
                Side::Buy => {
                    book.asks_mut().insert(price, level);
                },
                Side::Sell => {
                    book.bids_mut().insert(price, level);
                },
            }
            proof {
                book.lemma_view();
                match orig.side {
                    Side::Buy => {
                        assert(book.ask_queues() == before_insert.ask_queues().insert(price, level));
                        assert(book@.asks =~= before_insert@.asks.insert(price, lv));
                    },
                    Side::Sell => {
                        assert(book.bid_queues() == before_insert.bid_queues().insert(price, level));
                        assert(book@.bids =~= before_insert@.bids.insert(price, lv));
                    },
                }
                assert(contra_levels(book@, orig.side) =~= levels0.insert(price, lv));
            }
        }
        proof {
            book.lemma_view();
        }
    }
    proof {
        assert(fills@ =~= f0 + target.fills);
    }
}

/// Process an incoming order against the book at time `now`: it trades against the
/// resting side by price-time priority, an unfilled remainder rests on the book, and the
/// sequence number grows by one. Returns the fills, in the order they happened.
pub fn match_order_at(incoming: Order, book: &mut OrderBook, now: u64) -> (fills: Vec<Fill>)
    requires
        old(book)@.sequence < u64::MAX,
    ensures
        final(book)@ == book_after_match(old(book)@, incoming, now),
        fills@ == fills_of_match(old(book)@, incoming, now),
        forall|i: int|
            0 <= i < fills.len() ==> {
                &&& incoming.side == Side::Buy ==> (#[trigger] fills@[i]).price <= incoming.price
                &&& incoming.side == Side::Sell ==> fills@[i].price >= incoming.price
                &&& fills@[i].taker_order_id == incoming.id
                &&& fills@[i].timestamp == now
            },
{
    let ghost m0 = book@;
    proof {
        book.lemma_view();
        law_fills_within_limit(m0, incoming, now);
        crate::laws::law_fills_at_maker_price(m0, incoming, now);
    }
    let ghost orig = incoming;
    let mut incoming = incoming;
    let mut fills: Vec<Fill> = Vec::new();

    match_against(&mut incoming, book, &mut fills, now);

    // If any qty remains unfilled, rest it on the book
    if incoming.qty > 0 {
        book.add_resting_order(incoming);
    }
    let ghost before = *book;
    proof {
        before.lemma_view_def();
    }
    book.sequence = book.sequence + 1;
    proof {
        book.lemma_view_def();
        assert(fills@ =~= fills_of_match(m0, orig, now));
        assert(book@ =~= book_after_match(m0, orig, now));
    }
    fills
}

/// Process an incoming order against the book at the current time. The book and the fills
/// are those of `match_order_at` for some time stamp, the same for every fill.
pub fn match_order(incoming: Order, book: &mut OrderBook) -> (fills: Vec<Fill>)
    requires
        old(book)@.sequence < u64::MAX,
    ensures
        exists|now: u64|
            {
                &&& final(book)@ == book_after_match(old(book)@, incoming, now)
                &&& fills@ == fills_of_match(old(book)@, incoming, now)
                &&& forall|i: int| 0 <= i < fills.len() ==> (#[trigger] fills@[i]).timestamp == now
            },
        forall|i: int|
            0 <= i < fills.len() ==> {
                &&& incoming.side == Side::Buy ==> (#[trigger] fills@[i]).price <= incoming.price
                &&& incoming.side == Side::Sell ==> fills@[i].price >= incoming.price
                &&& fills@[i].taker_order_id == incoming.id
            },
{
    let now = now_nanos();
    match_order_at(incoming, book, now)
}

} // verus!
