//! What holds of every match: quantities, prices, priorities and the shape of the book.
use vstd::prelude::*;

use crate::book::{best_ask_of, best_bid_of, rest_order, BookModel};
use crate::levels::{
    ascending_keys, lemma_ascending_ends, lemma_ascending_keys, lemma_sorted_keys_unique, level_total,
    push_order, queue_at, sorted_keys_of, strictly_ascending, top_levels,
};
use crate::matcher::{
    best_price, book_after_match, contra_levels, crosses, fills_of_match, is_best_price,
    lemma_best_price, min_qty, sweep_book, sweep_level, sweep_side, with_qty,
};
use crate::models::{Fill, Order, Side};

verus! {

/// Sum of the quantities of a sequence of fills.
pub open spec fn filled_qty(fills: Seq<Fill>) -> int
    decreases fills.len(),
{
    if fills.len() == 0 {
        0
    } else {
        fills[0].qty + filled_qty(fills.drop_first())
    }
}

/// Price `a` is at least as good as price `b` for the resting side a taker on `taker`
/// side trades against: not higher for a buyer, not lower for a seller.
pub open spec fn at_least_as_good(taker: Side, a: u64, b: u64) -> bool {
    match taker {
        Side::Buy => a <= b,
        Side::Sell => b <= a,
    }
}

/// The highest bid is below the lowest ask.
pub open spec fn uncrossed(m: BookModel) -> bool {
    forall|b: u64, a: u64| m.bids.contains_key(b) && m.asks.contains_key(a) ==> b < a
}

/// Every level of a side is nonempty and holds live orders of that side at its price.
pub open spec fn side_well_formed(levels: Map<u64, Seq<Order>>, side: Side) -> bool {
    forall|p: u64|
        #![trigger levels[p]]
        levels.contains_key(p) ==> {
            &&& levels[p].len() > 0
            &&& forall|i: int|
                0 <= i < levels[p].len() ==> {
                    &&& (#[trigger] levels[p][i]).price == p
                    &&& levels[p][i].side == side
                    &&& levels[p][i].qty > 0
                }
        }
}

/// Both sides of the book are well formed and finite.
pub open spec fn book_well_formed(m: BookModel) -> bool {
    &&& m.bids.dom().finite()
    &&& m.asks.dom().finite()
    &&& side_well_formed(m.bids, Side::Buy)
    &&& side_well_formed(m.asks, Side::Sell)
}

/// The other side.
pub open spec fn opposite(side: Side) -> Side {
    match side {
        Side::Buy => Side::Sell,
        Side::Sell => Side::Buy,
    }
}

proof fn lemma_filled_qty_nonneg(fills: Seq<Fill>)
    ensures
        filled_qty(fills) >= 0,
    decreases fills.len(),
{
    if fills.len() > 0 {
        lemma_filled_qty_nonneg(fills.drop_first());
    }
}

proof fn lemma_filled_qty_concat(a: Seq<Fill>, b: Seq<Fill>)
    ensures
        filled_qty(a + b) == filled_qty(a) + filled_qty(b),
    decreases a.len(),
{
    if a.len() == 0 {
        assert(a + b =~= b);
    } else {
        assert((a + b).drop_first() =~= a.drop_first() + b);
        lemma_filled_qty_concat(a.drop_first(), b);
    }
}

/// Sweeping one level: what is filled plus what remains is what the taker brought; every
/// fill is at the level's price, for the taker, at `now`; the makers are taken in queue
/// order; the used-up makers are the head of the queue and the rest of the queue is left
/// as it was, but for a partly filled head.
pub proof fn law_level_sweep(
    queue: Seq<Order>,
    price: u64,
    taker_id: u64,
    remaining: u64,
    now: u64,
)
    ensures
        ({
            let s = sweep_level(queue, price, taker_id, remaining, now);
            let k = s.done.len() as int;
            &&& filled_qty(s.fills) + s.remaining == remaining
            &&& s.fills.len() <= queue.len()
            &&& k <= s.fills.len()
            &&& forall|i: int|
                0 <= i < s.fills.len() ==> {
                    &&& (#[trigger] s.fills[i]).maker_order_id == queue[i].id
                    &&& s.fills[i].taker_order_id == taker_id
                    &&& s.fills[i].price == price
                    &&& s.fills[i].timestamp == now
                    &&& s.fills[i].qty <= queue[i].qty
                    &&& (s.fills[i].qty == queue[i].qty <==> i < k)
                    &&& (queue[i].qty > 0 ==> s.fills[i].qty > 0)
                }
            &&& forall|i: int| 0 <= i < k ==> #[trigger] s.done[i] == queue[i].id
            &&& (s.queue == queue.skip(k) || (k < queue.len() && s.queue == queue.skip(k).update(
                0,
                with_qty(queue[k], s.queue[0].qty),
            ) && 0 < s.queue[0].qty < queue[k].qty && s.fills.len() == k + 1 && s.queue[0].qty
                + s.fills[k].qty == queue[k].qty))
            &&& s.queue.len() > 0 ==> s.remaining == 0
        }),
    decreases queue.len(),
{
    let s = sweep_level(queue, price, taker_id, remaining, now);
    if remaining == 0 || queue.len() == 0 {
        assert(queue.skip(0) =~= queue);
    } else {
        let maker = queue[0];
        let q = min_qty(remaining, maker.qty);
        if q == maker.qty {
            let t = queue.drop_first();
            law_level_sweep(t, price, taker_id, (remaining - q) as u64, now);
            let r = sweep_level(t, price, taker_id, (remaining - q) as u64, now);
            let kr = r.done.len() as int;
            assert(s.fills =~= seq![s.fills[0]] + r.fills);
            lemma_filled_qty_concat(seq![s.fills[0]], r.fills);
            assert(filled_qty(seq![s.fills[0]]) == q) by {
                assert(seq![s.fills[0]].drop_first() =~= Seq::<Fill>::empty());
                assert(filled_qty(Seq::<Fill>::empty()) == 0);
            }
            assert forall|i: int| 0 <= i < s.fills.len() implies {
                &&& (#[trigger] s.fills[i]).maker_order_id == queue[i].id
                &&& s.fills[i].taker_order_id == taker_id
                &&& s.fills[i].price == price
                &&& s.fills[i].timestamp == now
                &&& s.fills[i].qty <= queue[i].qty
                &&& (s.fills[i].qty == queue[i].qty <==> i < kr + 1)
                &&& (queue[i].qty > 0 ==> s.fills[i].qty > 0)
            } by {
                if i > 0 {
                    assert(s.fills[i] == r.fills[i - 1]);
                    assert(queue[i] == t[i - 1]);
                }
            }
            assert forall|i: int| 0 <= i < kr + 1 implies #[trigger] s.done[i] == queue[i].id by {
                if i > 0 {
                    assert(s.done[i] == r.done[i - 1]);
                }
            }
            assert(t.skip(kr) =~= queue.skip(kr + 1));
        } else {
            assert(q == remaining);
            assert(s.fills.len() == 1);
            assert(filled_qty(s.fills) == q) by {
                assert(s.fills.drop_first() =~= Seq::<Fill>::empty());
                assert(filled_qty(Seq::<Fill>::empty()) == 0);
            }
            assert(queue.skip(0) =~= queue);
            assert(s.queue == queue.skip(0).update(0, with_qty(queue[0], s.queue[0].qty)));
        }
    }
}

/// Facts about one step of a side sweep that the induction needs.
proof fn lemma_side_sweep(
    levels: Map<u64, Seq<Order>>,
    taker: Side,
    limit: u64,
    taker_id: u64,
    remaining: u64,
    now: u64,
)
    requires
        levels.dom().finite(),
    ensures
        ({
            let s = sweep_side(levels, taker, limit, taker_id, remaining, now);
            &&& filled_qty(s.fills) + s.remaining == remaining
            &&& s.levels.dom().finite()
            &&& s.levels.dom().subset_of(levels.dom())
            &&& forall|p: u64|
                #![trigger s.levels[p]]
                s.levels.contains_key(p) ==> (s.levels[p] == levels[p] || s.levels[p].len() <= levels[p].len())
            &&& s.remaining > 0 ==> forall|p: u64|
                s.levels.contains_key(p) ==> !crosses(taker, limit, p)
            &&& forall|i: int|
                0 <= i < s.fills.len() ==> {
                    &&& levels.contains_key((#[trigger] s.fills[i]).price)
                    &&& crosses(taker, limit, s.fills[i].price)
                    &&& s.fills[i].taker_order_id == taker_id
                    &&& s.fills[i].timestamp == now
                    &&& exists|j: int|
                        0 <= j < levels[s.fills[i].price].len()
                            && levels[s.fills[i].price][j].id == s.fills[i].maker_order_id
                    &&& forall|p: u64|
                        s.levels.contains_key(p) ==> at_least_as_good(taker, s.fills[i].price, p)
                }
            &&& forall|i: int, j: int|
                0 <= i < j < s.fills.len() ==> at_least_as_good(
                    taker,
                    #[trigger] s.fills[i].price,
                    #[trigger] s.fills[j].price,
                )
        }),
    decreases levels.dom().len(),
{
    let s = sweep_side(levels, taker, limit, taker_id, remaining, now);
    if remaining == 0 || levels.dom().is_empty() {
    } else {
        lemma_best_price(levels, taker);
        let p = best_price(levels, taker);
        if !crosses(taker, limit, p) {
            assert forall|x: u64| s.levels.contains_key(x) implies !crosses(taker, limit, x) by {
                assert(is_best_price(levels, taker, p));
            }
        } else {
            let l = sweep_level(levels[p], p, taker_id, remaining, now);
            law_level_sweep(levels[p], p, taker_id, remaining, now);
            assert forall|i: int| 0 <= i < l.fills.len() implies exists|j: int|
                0 <= j < levels[p].len() && levels[p][j].id == (#[trigger] l.fills[i]).maker_order_id by {
                assert(l.fills[i].maker_order_id == levels[p][i].id);
            }
            if l.queue.len() == 0 {
                let rest_levels = levels.remove(p);
                lemma_side_sweep(rest_levels, taker, limit, taker_id, l.remaining, now);
                let r = sweep_side(rest_levels, taker, limit, taker_id, l.remaining, now);
                lemma_filled_qty_concat(l.fills, r.fills);
                assert forall|x: u64| r.levels.contains_key(x) implies at_least_as_good(taker, p, x) by {
                    assert(rest_levels.contains_key(x));
                }
                assert forall|i: int| 0 <= i < s.fills.len() implies {
                    &&& levels.contains_key((#[trigger] s.fills[i]).price)
                    &&& crosses(taker, limit, s.fills[i].price)
                    &&& s.fills[i].taker_order_id == taker_id
                    &&& s.fills[i].timestamp == now
                    &&& exists|j: int|
                        0 <= j < levels[s.fills[i].price].len()
                            && levels[s.fills[i].price][j].id == s.fills[i].maker_order_id
                    &&& forall|x: u64|
                        s.levels.contains_key(x) ==> at_least_as_good(taker, s.fills[i].price, x)
                } by {
                    if i < l.fills.len() {
                        assert(s.fills[i] == l.fills[i]);
                    } else {
                        assert(s.fills[i] == r.fills[i - l.fills.len()]);
                        assert(rest_levels[s.fills[i].price] == levels[s.fills[i].price]);
                    }
                }
                assert forall|i: int, j: int| 0 <= i < j < s.fills.len() implies at_least_as_good(
                    taker,
                    #[trigger] s.fills[i].price,
                    #[trigger] s.fills[j].price,
                ) by {
                    if j < l.fills.len() {
                        assert(s.fills[i] == l.fills[i]);
                        assert(s.fills[j] == l.fills[j]);
                    } else if i < l.fills.len() {
                        assert(s.fills[i] == l.fills[i]);
                        assert(s.fills[j] == r.fills[j - l.fills.len()]);
                        assert(rest_levels.contains_key(s.fills[j].price));
                    } else {
                        assert(s.fills[i] == r.fills[i - l.fills.len()]);
                        assert(s.fills[j] == r.fills[j - l.fills.len()]);
                    }
                }
                assert forall|x: u64| #[trigger] s.levels.contains_key(x) implies (s.levels[x]
                    == levels[x] || s.levels[x].len() <= levels[x].len()) by {
                    assert(rest_levels[x] == levels[x]);
                }
            } else {
                assert forall|x: u64| s.levels.contains_key(x) implies at_least_as_good(taker, p, x) by {
                    assert(levels.contains_key(x));
                }
                assert(l.queue.len() <= levels[p].len());
            }
        }
    }
}

/// Quantity is conserved: the fills of a match add up to the incoming quantity less the
/// part that is left unfilled.
pub proof fn law_fills_add_up(m: BookModel, incoming: Order, now: u64)
    requires
        m.bids.dom().finite(),
        m.asks.dom().finite(),
    ensures
        filled_qty(fills_of_match(m, incoming, now)) + sweep_book(m, incoming, now).remaining
            == incoming.qty,
        filled_qty(fills_of_match(m, incoming, now)) <= incoming.qty,
{
    lemma_side_sweep(
        contra_levels(m, incoming.side),
        incoming.side,
        incoming.price,
        incoming.id,
        incoming.qty,
        now,
    );
}

/// Every fill of a match is against a maker resting on the other side, at the maker's
/// level price, a price within the incoming order's limit; the taker is the incoming order
/// and all fills carry the same time stamp.
pub proof fn law_fills_at_maker_price(m: BookModel, incoming: Order, now: u64)
    requires
        m.bids.dom().finite(),
        m.asks.dom().finite(),
    ensures
        forall|i: int|
            0 <= i < fills_of_match(m, incoming, now).len() ==> {
                let f = #[trigger] fills_of_match(m, incoming, now)[i];
                let side = contra_levels(m, incoming.side);
                &&& side.contains_key(f.price)
                &&& exists|j: int|
                    0 <= j < side[f.price].len() && side[f.price][j].id == f.maker_order_id
                &&& crosses(incoming.side, incoming.price, f.price)
                &&& f.taker_order_id == incoming.id
                &&& f.timestamp == now
            },
{
    lemma_side_sweep(
        contra_levels(m, incoming.side),
        incoming.side,
        incoming.price,
        incoming.id,
        incoming.qty,
        now,
    );
}

/// Price priority: a buyer is filled at rising ask prices, a seller at falling bid prices,
/// and no resting level at a better price than any fill is left on the book.
pub proof fn law_price_priority(m: BookModel, incoming: Order, now: u64)
    requires
        m.bids.dom().finite(),
        m.asks.dom().finite(),
    ensures
        ({
            let fills = fills_of_match(m, incoming, now);
            let after = contra_levels(book_after_match(m, incoming, now), incoming.side);
            &&& forall|i: int, j: int|
                0 <= i < j < fills.len() ==> at_least_as_good(
                    incoming.side,
                    #[trigger] fills[i].price,
                    #[trigger] fills[j].price,
                )
            &&& forall|i: int, p: u64|
                0 <= i < fills.len() && #[trigger] after.contains_key(p) ==> at_least_as_good(
                    incoming.side,
                    #[trigger] fills[i].price,
                    p,
                )
        }),
{
    lemma_side_sweep(
        contra_levels(m, incoming.side),
        incoming.side,
        incoming.price,
        incoming.id,
        incoming.qty,
        now,
    );
}

/// A book whose highest bid is below its lowest ask keeps that property after a match.
pub proof fn law_stays_uncrossed(m: BookModel, incoming: Order, now: u64)
    requires
        m.bids.dom().finite(),
        m.asks.dom().finite(),
        uncrossed(m),
    ensures
        uncrossed(book_after_match(m, incoming, now)),
{
    let s = sweep_book(m, incoming, now);
    lemma_side_sweep(
        contra_levels(m, incoming.side),
        incoming.side,
        incoming.price,
        incoming.id,
        incoming.qty,
        now,
    );
    let after = book_after_match(m, incoming, now);
    assert forall|b: u64, a: u64| after.bids.contains_key(b) && after.asks.contains_key(a) implies b
        < a by {
        match incoming.side {
            Side::Buy => {
                assert(m.asks.contains_key(a));
                if !m.bids.contains_key(b) {
                    assert(b == incoming.price);
                    assert(s.remaining > 0);
                    assert(!crosses(Side::Buy, incoming.price, a));
                }
            },
            Side::Sell => {
                assert(m.bids.contains_key(b));
                if !m.asks.contains_key(a) {
                    assert(a == incoming.price);
                    assert(s.remaining > 0);
                    assert(!crosses(Side::Sell, incoming.price, b));
                }
            },
        }
    }
}

/// A side sweep keeps the resting side well formed, and against a well-formed side every
/// fill is for a positive quantity.
proof fn lemma_side_sweep_well_formed(
    levels: Map<u64, Seq<Order>>,
    taker: Side,
    limit: u64,
    taker_id: u64,
    remaining: u64,
    now: u64,
)
    requires
        levels.dom().finite(),
        side_well_formed(levels, opposite(taker)),
    ensures
        ({
            let s = sweep_side(levels, taker, limit, taker_id, remaining, now);
            &&& side_well_formed(s.levels, opposite(taker))
            &&& forall|i: int| 0 <= i < s.fills.len() ==> (#[trigger] s.fills[i]).qty > 0
        }),
    decreases levels.dom().len(),
{
    let s = sweep_side(levels, taker, limit, taker_id, remaining, now);
    if remaining == 0 || levels.dom().is_empty() {
    } else {
        lemma_best_price(levels, taker);
        let p = best_price(levels, taker);
        if crosses(taker, limit, p) {
            let q = levels[p];
            let l = sweep_level(q, p, taker_id, remaining, now);
            law_level_sweep(q, p, taker_id, remaining, now);
            let k = l.done.len() as int;
            assert forall|i: int| 0 <= i < l.fills.len() implies (#[trigger] l.fills[i]).qty > 0 by {
                assert(q[i].qty > 0);
            }
            if l.queue.len() == 0 {
                let rest_levels = levels.remove(p);
                assert(side_well_formed(rest_levels, opposite(taker))) by {
                    assert forall|x: u64| #[trigger] rest_levels.contains_key(x) implies rest_levels[x]
                        == levels[x] by {}
                }
                lemma_side_sweep_well_formed(rest_levels, taker, limit, taker_id, l.remaining, now);
                let r = sweep_side(rest_levels, taker, limit, taker_id, l.remaining, now);
                assert forall|i: int| 0 <= i < s.fills.len() implies (#[trigger] s.fills[i]).qty > 0 by {
                    if i < l.fills.len() {
                        assert(s.fills[i] == l.fills[i]);
                    } else {
                        assert(s.fills[i] == r.fills[i - l.fills.len()]);
                    }
                }
            } else {
                assert forall|i: int| 0 <= i < l.queue.len() implies {
                    &&& (#[trigger] l.queue[i]).price == p
                    &&& l.queue[i].side == opposite(taker)
                    &&& l.queue[i].qty > 0
                } by {
                    if l.queue == q.skip(k) {
                        assert(l.queue[i] == q[i + k]);
                    } else if i > 0 {
                        assert(l.queue[i] == q[i + k]);
                    }
                }
                assert forall|x: u64| #[trigger] s.levels.contains_key(x) && x != p implies s.levels[x]
                    == levels[x] by {}
            }
        }
    }
}

/// A well-formed book stays well formed after a match: levels are never empty, and each
/// holds live orders of its side at its price. Against a well-formed book, every fill is
/// for a positive quantity.
pub proof fn law_stays_well_formed(m: BookModel, incoming: Order, now: u64)
    requires
        book_well_formed(m),
    ensures
        book_well_formed(book_after_match(m, incoming, now)),
        forall|i: int|
            0 <= i < fills_of_match(m, incoming, now).len() ==> (#[trigger] fills_of_match(
                m,
                incoming,
                now,
            )[i]).qty > 0,
{
    let side = incoming.side;
    let contra = contra_levels(m, side);
    assert(side_well_formed(contra, opposite(side)));
    lemma_side_sweep_well_formed(contra, side, incoming.price, incoming.id, incoming.qty, now);
    lemma_side_sweep(contra, side, incoming.price, incoming.id, incoming.qty, now);
    let s = sweep_book(m, incoming, now);
    let after = book_after_match(m, incoming, now);
    if s.remaining > 0 {
        let o = with_qty(incoming, s.remaining);
        let own = match side {
            Side::Buy => m.bids,
            Side::Sell => m.asks,
        };
        let own_after = match side {
            Side::Buy => after.bids,
            Side::Sell => after.asks,
        };
        assert(own_after == own.insert(o.price, queue_at(own, o.price).push(o)));
        assert forall|x: u64| #[trigger] own_after.contains_key(x) implies {
            &&& own_after[x].len() > 0
            &&& forall|i: int|
                0 <= i < own_after[x].len() ==> {
                    &&& (#[trigger] own_after[x][i]).price == x
                    &&& own_after[x][i].side == side
                    &&& own_after[x][i].qty > 0
                }
        } by {
            if x == o.price {
                assert forall|i: int| 0 <= i < own_after[x].len() implies {
                    &&& (#[trigger] own_after[x][i]).price == x
                    &&& own_after[x][i].side == side
                    &&& own_after[x][i].qty > 0
                } by {
                    if i < queue_at(own, o.price).len() {
                        assert(own.contains_key(x));
                        assert(own_after[x][i] == own[x][i]);
                    }
                }
            } else {
                assert(own_after[x] == own[x]);
            }
        }
    }
}

/// A snapshot lists bid levels from the highest price down and ask levels from the lowest
/// price up, one entry per price of the book, and no more than `depth` of them per side;
/// the first entry of each side is that side's best price.
pub proof fn law_snapshot_order(m: BookModel, depth: usize)
    requires
        m.bids.dom().finite(),
        m.asks.dom().finite(),
    ensures
        ({
            let bids = top_levels(m.bids, ascending_keys(m.bids.dom()).reverse(), depth);
            let asks = top_levels(m.asks, ascending_keys(m.asks.dom()), depth);
            &&& bids.len() == if depth < m.bids.dom().len() {
                depth as int
            } else {
                m.bids.dom().len() as int
            }
            &&& asks.len() == if depth < m.asks.dom().len() {
                depth as int
            } else {
                m.asks.dom().len() as int
            }
            &&& forall|i: int, j: int|
                0 <= i < j < bids.len() ==> #[trigger] bids[i].price > #[trigger] bids[j].price
            &&& forall|i: int, j: int|
                0 <= i < j < asks.len() ==> #[trigger] asks[i].price < #[trigger] asks[j].price
            &&& forall|i: int|
                0 <= i < bids.len() ==> m.bids.contains_key(#[trigger] bids[i].price) && bids[i].qty
                    == level_total(m.bids[bids[i].price]) as u64
            &&& forall|i: int|
                0 <= i < asks.len() ==> m.asks.contains_key(#[trigger] asks[i].price) && asks[i].qty
                    == level_total(m.asks[asks[i].price]) as u64
            &&& bids.len() > 0 ==> best_bid_of(m) == Some(bids[0].price)
            &&& asks.len() > 0 ==> best_ask_of(m) == Some(asks[0].price)
        }),
{
    lemma_ascending_keys(m.bids.dom());
    lemma_ascending_keys(m.asks.dom());
    let kb = ascending_keys(m.bids.dom());
    let ka = ascending_keys(m.asks.dom());
    let bids = top_levels(m.bids, kb.reverse(), depth);
    let asks = top_levels(m.asks, ka, depth);
    assert forall|i: int| 0 <= i < bids.len() implies m.bids.contains_key(#[trigger] bids[i].price) by {
        assert(bids[i].price == kb[kb.len() - 1 - i]);
        assert(kb.contains(kb[kb.len() - 1 - i]));
    }
    assert forall|i: int| 0 <= i < asks.len() implies m.asks.contains_key(#[trigger] asks[i].price) by {
        assert(asks[i].price == ka[i]);
        assert(ka.contains(ka[i]));
    }
    assert forall|i: int, j: int| 0 <= i < j < bids.len() implies #[trigger] bids[i].price
        > #[trigger] bids[j].price by {
        assert(bids[i].price == kb[kb.len() - 1 - i]);
        assert(bids[j].price == kb[kb.len() - 1 - j]);
    }
    if bids.len() > 0 {
        assert(!m.bids.dom().is_empty()) by {
            assert(m.bids.dom().contains(kb[0]));
        }
        assert(bids[0].price == kb.last());
    }
    if asks.len() > 0 {
        assert(!m.asks.dom().is_empty()) by {
            assert(m.asks.dom().contains(ka[0]));
        }
        assert(asks[0].price == ka.first());
    }
}

/// An order that finds nothing within its limit on the other side rests on the book whole,
/// exactly as `add_resting_order` would place it, and trades nothing.
pub proof fn law_no_cross_rests(m: BookModel, incoming: Order, now: u64)
    requires
        m.bids.dom().finite(),
        m.asks.dom().finite(),
        incoming.qty > 0,
        forall|p: u64|
            #[trigger] contra_levels(m, incoming.side).contains_key(p) ==> !crosses(
                incoming.side,
                incoming.price,
                p,
            ),
    ensures
        fills_of_match(m, incoming, now) == Seq::<Fill>::empty(),
        book_after_match(m, incoming, now) == (BookModel {
            sequence: (m.sequence + 1) as u64,
            ..rest_order(m, incoming)
        }),
{
    let contra = contra_levels(m, incoming.side);
    if !contra.dom().is_empty() {
        lemma_best_price(contra, incoming.side);
    }
    let s = sweep_book(m, incoming, now);
    assert(s.levels == contra);
    assert(s.done =~= Seq::<u64>::empty());
    assert(m.index.remove_keys(s.done.to_set()) =~= m.index);
    assert(with_qty(incoming, incoming.qty) == incoming);
}

/// The ids of the orders in a queue.
pub open spec fn queue_ids(q: Seq<Order>) -> Set<u64> {
    Set::new(|id: u64| exists|i: int| 0 <= i < q.len() && q[i].id == id)
}

/// The ids of the orders resting on a side.
pub open spec fn side_ids(levels: Map<u64, Seq<Order>>) -> Set<u64> {
    Set::new(|id: u64| exists|p: u64| levels.contains_key(p) && queue_ids(levels[p]).contains(id))
}

/// No id occurs twice in a queue.
pub open spec fn queue_unique(q: Seq<Order>) -> bool {
    forall|i: int, j: int| 0 <= i < j < q.len() ==> (#[trigger] q[i]).id != (#[trigger] q[j]).id
}

/// No id occurs twice on a side.
pub open spec fn side_unique(levels: Map<u64, Seq<Order>>) -> bool {
    &&& forall|p: u64| #[trigger] levels.contains_key(p) ==> queue_unique(levels[p])
    &&& forall|p: u64, r: u64|
        #[trigger] levels.contains_key(p) && #[trigger] levels.contains_key(r) && p != r
            ==> queue_ids(levels[p]).disjoint(queue_ids(levels[r]))
}

/// The index records exactly the resting orders, each with its side, and no id rests twice.
pub open spec fn index_tracks_orders(m: BookModel) -> bool {
    &&& side_unique(m.bids)
    &&& side_unique(m.asks)
    &&& side_ids(m.bids).disjoint(side_ids(m.asks))
    &&& forall|id: u64|
        #[trigger] m.index.contains_key(id) <==> (side_ids(m.bids).contains(id) || side_ids(
            m.asks,
        ).contains(id))
    &&& forall|id: u64| #[trigger] side_ids(m.bids).contains(id) ==> m.index[id] == Side::Buy
    &&& forall|id: u64| #[trigger] side_ids(m.asks).contains(id) ==> m.index[id] == Side::Sell
}

proof fn lemma_level_ids(q: Seq<Order>, price: u64, taker_id: u64, remaining: u64, now: u64)
    requires
        queue_unique(q),
    ensures
        ({
            let s = sweep_level(q, price, taker_id, remaining, now);
            &&& queue_unique(s.queue)
            &&& queue_ids(s.queue) == queue_ids(q).difference(s.done.to_set())
            &&& s.done.to_set().subset_of(queue_ids(q))
        }),
{
    law_level_sweep(q, price, taker_id, remaining, now);
    let s = sweep_level(q, price, taker_id, remaining, now);
    let k = s.done.len() as int;
    assert(k <= q.len());
    assert(s.queue.len() == q.len() - k);
    assert forall|i: int| 0 <= i < s.queue.len() implies (#[trigger] s.queue[i]).id == q[i + k].id by {
        if s.queue == q.skip(k) {
        } else {
            if i == 0 {
            } else {
            }
        }
    }
    assert forall|i: int, j: int| 0 <= i < j < s.queue.len() implies (#[trigger] s.queue[i]).id
        != (#[trigger] s.queue[j]).id by {
        assert(s.queue[i].id == q[i + k].id);
        assert(s.queue[j].id == q[j + k].id);
    }
    assert forall|id: u64| #[trigger] s.done.to_set().contains(id) implies queue_ids(q).contains(id) by {
        let i = choose|i: int| 0 <= i < s.done.len() && s.done[i] == id;
        assert(q[i].id == id);
    }
    assert forall|id: u64| queue_ids(s.queue).contains(id) <==> queue_ids(q).difference(
        s.done.to_set(),
    ).contains(id) by {
        if queue_ids(s.queue).contains(id) {
            let i = choose|i: int| 0 <= i < s.queue.len() && s.queue[i].id == id;
            assert(q[i + k].id == id);
            assert(queue_ids(q).contains(id));
            if s.done.to_set().contains(id) {
                let j = choose|j: int| 0 <= j < s.done.len() && s.done[j] == id;
                assert(q[j].id == id);
                assert(q[j].id != q[i + k].id);
            }
        }
        if queue_ids(q).difference(s.done.to_set()).contains(id) {
            let i = choose|i: int| 0 <= i < q.len() && q[i].id == id;
            if i < k {
                assert(s.done[i] == id);
                assert(s.done.to_set().contains(id));
            } else {
                assert(s.queue[i - k].id == id);
            }
        }
    }
    assert(queue_ids(s.queue) =~= queue_ids(q).difference(s.done.to_set()));
}

proof fn lemma_side_ids_remove(levels: Map<u64, Seq<Order>>, p: u64)
    requires
        side_unique(levels),
        levels.contains_key(p),
    ensures
        side_unique(levels.remove(p)),
        side_ids(levels) == side_ids(levels.remove(p)).union(queue_ids(levels[p])),
        side_ids(levels.remove(p)).disjoint(queue_ids(levels[p])),
{
    let r = levels.remove(p);
    assert forall|id: u64| side_ids(levels).contains(id) <==> side_ids(r).union(
        queue_ids(levels[p]),
    ).contains(id) by {
        if side_ids(levels).contains(id) {
            let x = choose|x: u64| levels.contains_key(x) && queue_ids(levels[x]).contains(id);
            if x != p {
                assert(r.contains_key(x) && queue_ids(r[x]).contains(id));
            }
        }
        if side_ids(r).contains(id) {
            let x = choose|x: u64| r.contains_key(x) && queue_ids(r[x]).contains(id);
            assert(levels.contains_key(x) && queue_ids(levels[x]).contains(id));
        }
    }
    assert(side_ids(levels) =~= side_ids(r).union(queue_ids(levels[p])));
    assert forall|id: u64| side_ids(r).contains(id) implies !queue_ids(levels[p]).contains(id) by {
        let x = choose|x: u64| r.contains_key(x) && queue_ids(r[x]).contains(id);
        assert(levels.contains_key(x) && levels.contains_key(p) && x != p);
        assert(queue_ids(levels[x]).disjoint(queue_ids(levels[p])));
    }
    assert forall|x: u64, y: u64| #[trigger] r.contains_key(x) && #[trigger] r.contains_key(y) && x
        != y implies queue_ids(r[x]).disjoint(queue_ids(r[y])) by {
        assert(levels.contains_key(x) && levels.contains_key(y));
    }
}

proof fn lemma_side_sweep_ids(
    levels: Map<u64, Seq<Order>>,
    taker: Side,
    limit: u64,
    taker_id: u64,
    remaining: u64,
    now: u64,
)
    requires
        levels.dom().finite(),
        side_unique(levels),
    ensures
        ({
            let s = sweep_side(levels, taker, limit, taker_id, remaining, now);
            &&& side_unique(s.levels)
            &&& side_ids(s.levels) == side_ids(levels).difference(s.done.to_set())
            &&& s.done.to_set().subset_of(side_ids(levels))
        }),
    decreases levels.dom().len(),
{
    let s = sweep_side(levels, taker, limit, taker_id, remaining, now);
    if remaining == 0 || levels.dom().is_empty() {
        assert(s.done.to_set() =~= Set::<u64>::empty());
        assert(side_ids(levels).difference(s.done.to_set()) =~= side_ids(levels));
    } else {
        lemma_best_price(levels, taker);
        let p = best_price(levels, taker);
        if !crosses(taker, limit, p) {
            assert(s.done.to_set() =~= Set::<u64>::empty());
            assert(side_ids(levels).difference(s.done.to_set()) =~= side_ids(levels));
        } else {
            let q = levels[p];
            let l = sweep_level(q, p, taker_id, remaining, now);
            lemma_level_ids(q, p, taker_id, remaining, now);
            let rest = levels.remove(p);
            lemma_side_ids_remove(levels, p);
            if l.queue.len() == 0 {
                lemma_side_sweep_ids(rest, taker, limit, taker_id, l.remaining, now);
                let r = sweep_side(rest, taker, limit, taker_id, l.remaining, now);
                assert(queue_ids(l.queue) =~= Set::<u64>::empty());
                assert((l.done + r.done).to_set() =~= l.done.to_set().union(r.done.to_set())) by {
                    assert forall|id: u64| (l.done + r.done).to_set().contains(id) <==> l.done.to_set().union(
                        r.done.to_set(),
                    ).contains(id) by {
                        if (l.done + r.done).contains(id) {
                            let i = choose|i: int| 0 <= i < (l.done + r.done).len() && (l.done
                                + r.done)[i] == id;
                            if i < l.done.len() {
                                assert(l.done[i] == id);
                            } else {
                                assert(r.done[i - l.done.len()] == id);
                            }
                        }
                        if l.done.contains(id) {
                            let i = choose|i: int| 0 <= i < l.done.len() && l.done[i] == id;
                            assert((l.done + r.done)[i] == id);
                        }
                        if r.done.contains(id) {
                            let i = choose|i: int| 0 <= i < r.done.len() && r.done[i] == id;
                            assert((l.done + r.done)[i + l.done.len()] == id);
                        }
                    }
                }
                assert forall|id: u64| side_ids(s.levels).contains(id) <==> side_ids(
                    levels,
                ).difference(s.done.to_set()).contains(id) by {
                    if queue_ids(q).contains(id) {
                        assert(!queue_ids(l.queue).contains(id));
                        assert(l.done.to_set().contains(id));
                        assert(!side_ids(rest).contains(id));
                    }
                    if l.done.to_set().contains(id) {
                        assert(queue_ids(q).contains(id));
                    }
                }
                assert(side_ids(s.levels) =~= side_ids(levels).difference(s.done.to_set()));
            } else {
                let nl = levels.insert(p, l.queue);
                assert(nl.remove(p) =~= rest);
                assert forall|id: u64| side_ids(nl).contains(id) <==> side_ids(rest).union(
                    queue_ids(l.queue),
                ).contains(id) by {
                    if side_ids(nl).contains(id) {
                        let x = choose|x: u64| nl.contains_key(x) && queue_ids(nl[x]).contains(id);
                        if x != p {
                            assert(rest.contains_key(x) && queue_ids(rest[x]).contains(id));
                        }
                    }
                    if side_ids(rest).contains(id) {
                        let x = choose|x: u64| rest.contains_key(x) && queue_ids(rest[x]).contains(
                            id,
                        );
                        assert(nl.contains_key(x) && queue_ids(nl[x]).contains(id));
                    }
                    if queue_ids(l.queue).contains(id) {
                        assert(nl.contains_key(p) && queue_ids(nl[p]).contains(id));
                    }
                }
                assert(side_ids(nl) =~= side_ids(levels).difference(s.done.to_set()));
                assert forall|x: u64, y: u64| #[trigger] nl.contains_key(x) && #[trigger] nl.contains_key(
                    y,
                ) && x != y implies queue_ids(nl[x]).disjoint(queue_ids(nl[y])) by {
                    assert(levels.contains_key(x) && levels.contains_key(y));
                    assert(queue_ids(levels[x]).disjoint(queue_ids(levels[y])));
                    if x == p {
                        assert(queue_ids(nl[x]).subset_of(queue_ids(levels[x])));
                    }
                    if y == p {
                        assert(queue_ids(nl[y]).subset_of(queue_ids(levels[y])));
                    }
                }
            }
        }
    }
}

proof fn lemma_push_ids(levels: Map<u64, Seq<Order>>, o: Order)
    requires
        side_unique(levels),
        !side_ids(levels).contains(o.id),
    ensures
        side_unique(push_order(levels, o)),
        side_ids(push_order(levels, o)) == side_ids(levels).insert(o.id),
{
    let nl = push_order(levels, o);
    let old_q = queue_at(levels, o.price);
    let new_q = old_q.push(o);
    assert(queue_ids(new_q) =~= queue_ids(old_q).insert(o.id)) by {
        assert forall|id: u64| queue_ids(new_q).contains(id) <==> queue_ids(old_q).insert(o.id).contains(
            id,
        ) by {
            if queue_ids(new_q).contains(id) {
                let i = choose|i: int| 0 <= i < new_q.len() && new_q[i].id == id;
                if i < old_q.len() {
                    assert(old_q[i].id == id);
                }
            }
            if queue_ids(old_q).contains(id) {
                let i = choose|i: int| 0 <= i < old_q.len() && old_q[i].id == id;
                assert(new_q[i].id == id);
            }
            if id == o.id {
                assert(new_q[old_q.len() as int].id == id);
            }
        }
    }
    assert forall|id: u64| queue_ids(old_q).contains(id) implies side_ids(levels).contains(id) by {
        assert(levels.contains_key(o.price));
    }
    assert forall|id: u64| side_ids(nl).contains(id) <==> side_ids(levels).insert(o.id).contains(id) by {
        if side_ids(nl).contains(id) {
            let x = choose|x: u64| nl.contains_key(x) && queue_ids(nl[x]).contains(id);
            if x != o.price {
                assert(levels.contains_key(x) && queue_ids(levels[x]).contains(id));
            }
        }
        if side_ids(levels).contains(id) {
            let x = choose|x: u64| levels.contains_key(x) && queue_ids(levels[x]).contains(id);
            if x != o.price {
                assert(nl.contains_key(x) && queue_ids(nl[x]).contains(id));
            } else {
                assert(nl.contains_key(x) && queue_ids(nl[x]).contains(id));
            }
        }
        if id == o.id {
            assert(nl.contains_key(o.price) && queue_ids(nl[o.price]).contains(id));
        }
    }
    assert(side_ids(nl) =~= side_ids(levels).insert(o.id));
    assert(queue_unique(new_q)) by {
        assert forall|i: int, j: int| 0 <= i < j < new_q.len() implies (#[trigger] new_q[i]).id
            != (#[trigger] new_q[j]).id by {
            if j == old_q.len() {
                assert(queue_ids(old_q).contains(old_q[i].id));
            } else {
                assert(levels.contains_key(o.price));
            }
        }
    }
    assert forall|x: u64, y: u64| #[trigger] nl.contains_key(x) && #[trigger] nl.contains_key(y) && x
        != y implies queue_ids(nl[x]).disjoint(queue_ids(nl[y])) by {
        if x == o.price {
            assert forall|id: u64| queue_ids(nl[y]).contains(id) implies !queue_ids(nl[x]).contains(
                id,
            ) by {
                assert(levels.contains_key(y));
                if id == o.id {
                    assert(side_ids(levels).contains(id));
                }
                if levels.contains_key(x) {
                    assert(queue_ids(levels[x]).disjoint(queue_ids(levels[y])));
                }
            }
        } else if y == o.price {
            assert forall|id: u64| queue_ids(nl[x]).contains(id) implies !queue_ids(nl[y]).contains(
                id,
            ) by {
                assert(levels.contains_key(x));
                if id == o.id {
                    assert(side_ids(levels).contains(id));
                }
                if levels.contains_key(y) {
                    assert(queue_ids(levels[x]).disjoint(queue_ids(levels[y])));
                }
            }
        } else {
            assert(levels.contains_key(x) && levels.contains_key(y));
        }
    }
}

/// The index keeps recording exactly the resting orders with their sides through a match,
/// provided the incoming order's id is not already resting: used-up makers leave it, and
/// an unfilled remainder joins it.
pub proof fn law_index_tracks_orders(m: BookModel, incoming: Order, now: u64)
    requires
        m.bids.dom().finite(),
        m.asks.dom().finite(),
        index_tracks_orders(m),
        !side_ids(m.bids).contains(incoming.id),
        !side_ids(m.asks).contains(incoming.id),
    ensures
        index_tracks_orders(book_after_match(m, incoming, now)),
{
    let side = incoming.side;
    let contra = contra_levels(m, side);
    lemma_side_sweep_ids(contra, side, incoming.price, incoming.id, incoming.qty, now);
    let s = sweep_book(m, incoming, now);
    let after = book_after_match(m, incoming, now);
    let d = s.done.to_set();
    let o = with_qty(incoming, s.remaining);
    match side {
        Side::Buy => {
            assert(after.asks == s.levels);
            if s.remaining > 0 {
                lemma_push_ids(m.bids, o);
                assert(after.bids == push_order(m.bids, o));
            }
        },
        Side::Sell => {
            assert(after.bids == s.levels);
            if s.remaining > 0 {
                lemma_push_ids(m.asks, o);
                assert(after.asks == push_order(m.asks, o));
            }
        },
    }
}

/// Adding a resting order whose id is not already resting keeps the index recording
/// exactly the resting orders with their sides.
pub proof fn law_rest_tracks_orders(m: BookModel, order: Order)
    requires
        index_tracks_orders(m),
        !side_ids(m.bids).contains(order.id),
        !side_ids(m.asks).contains(order.id),
    ensures
        index_tracks_orders(rest_order(m, order)),
{
    match order.side {
        Side::Buy => lemma_push_ids(m.bids, order),
        Side::Sell => lemma_push_ids(m.asks, order),
    }
}

/// Adding a resting buy at price `p` makes the best bid `p` or a higher bid already there,
/// and leaves the best ask alone; adding a resting sell makes the best ask `p` or a lower
/// ask already there, and leaves the best bid alone.
pub proof fn law_best_after_rest(m: BookModel, order: Order)
    requires
        m.bids.dom().finite(),
        m.asks.dom().finite(),
    ensures
        order.side == Side::Buy ==> best_bid_of(rest_order(m, order)) == Some(
            match best_bid_of(m) {
                Some(b) => if b < order.price {
                    order.price
                } else {
                    b
                },
                None => order.price,
            },
        ),
        order.side == Side::Buy ==> best_ask_of(rest_order(m, order)) == best_ask_of(m),
        order.side == Side::Sell ==> best_ask_of(rest_order(m, order)) == Some(
            match best_ask_of(m) {
                Some(a) => if order.price < a {
                    order.price
                } else {
                    a
                },
                None => order.price,
            },
        ),
        order.side == Side::Sell ==> best_bid_of(rest_order(m, order)) == best_bid_of(m),
{
    let after = rest_order(m, order);
    let p = order.price;
    match order.side {
        Side::Buy => {
            let d = m.bids.dom();
            let d2 = after.bids.dom();
            assert(d2 =~= d.insert(p));
            assert(d2.contains(p));
            lemma_ascending_ends(d2);
            let top = ascending_keys(d2).last();
            if !d.is_empty() {
                lemma_ascending_ends(d);
                let b = ascending_keys(d).last();
                assert(d2.contains(b));
                if b < p {
                    assert(top >= p);
                } else {
                    assert(top >= b);
                    if top != b {
                        assert(top == p || d.contains(top));
                    }
                }
            } else {
                assert forall|x: u64| d2.contains(x) implies x == p by {}
            }
            assert(after.asks == m.asks);
        },
        Side::Sell => {
            let d = m.asks.dom();
            let d2 = after.asks.dom();
            assert(d2 =~= d.insert(p));
            assert(d2.contains(p));
            lemma_ascending_ends(d2);
            let low = ascending_keys(d2).first();
            if !d.is_empty() {
                lemma_ascending_ends(d);
                let a = ascending_keys(d).first();
                assert(d2.contains(a));
                if p < a {
                    assert(low <= p);
                } else {
                    assert(low <= a);
                    if low != a {
                        assert(low == p || d.contains(low));
                    }
                }
            } else {
                assert forall|x: u64| d2.contains(x) implies x == p by {}
            }
            assert(after.bids == m.bids);
        },
    }
}

/// Total quantity of the levels at `keys`.
pub open spec fn keys_total(levels: Map<u64, Seq<Order>>, keys: Seq<u64>) -> int
    decreases keys.len(),
{
    if keys.len() == 0 {
        0
    } else {
        level_total(levels[keys[0]]) + keys_total(levels, keys.drop_first())
    }
}

/// Total quantity resting on a side.
pub open spec fn side_total(levels: Map<u64, Seq<Order>>) -> int {
    keys_total(levels, ascending_keys(levels.dom()))
}

proof fn lemma_level_total_front(q: Seq<Order>)
    requires
        q.len() > 0,
    ensures
        level_total(q) == q[0].qty + level_total(q.drop_first()),
    decreases q.len(),
{
    if q.len() > 1 {
        lemma_level_total_front(q.drop_last());
        assert(q.drop_last().drop_first() =~= q.drop_first().drop_last());
    } else {
        assert(q.drop_first() =~= Seq::<Order>::empty());
        assert(q.drop_last() =~= Seq::<Order>::empty());
    }
}

proof fn lemma_level_sweep_total(q: Seq<Order>, price: u64, taker_id: u64, remaining: u64, now: u64)
    ensures
        level_total(q) == level_total(sweep_level(q, price, taker_id, remaining, now).queue)
            + filled_qty(sweep_level(q, price, taker_id, remaining, now).fills),
    decreases q.len(),
{
    let s = sweep_level(q, price, taker_id, remaining, now);
    if remaining == 0 || q.len() == 0 {
        assert(filled_qty(s.fills) == 0);
    } else {
        let maker = q[0];
        let x = min_qty(remaining, maker.qty);
        lemma_level_total_front(q);
        if x == maker.qty {
            lemma_level_sweep_total(q.drop_first(), price, taker_id, (remaining - x) as u64, now);
            let r = sweep_level(q.drop_first(), price, taker_id, (remaining - x) as u64, now);
            assert(s.fills =~= seq![s.fills[0]] + r.fills);
            lemma_filled_qty_concat(seq![s.fills[0]], r.fills);
            assert(seq![s.fills[0]].drop_first() =~= Seq::<Fill>::empty());
            assert(filled_qty(Seq::<Fill>::empty()) == 0);
        } else {
            lemma_level_total_front(s.queue);
            assert(s.queue.drop_first() =~= q.drop_first());
            assert(s.fills.drop_first() =~= Seq::<Fill>::empty());
            assert(filled_qty(Seq::<Fill>::empty()) == 0);
        }
    }
}

proof fn lemma_keys_total_back(levels: Map<u64, Seq<Order>>, keys: Seq<u64>)
    requires
        keys.len() > 0,
    ensures
        keys_total(levels, keys) == keys_total(levels, keys.drop_last()) + level_total(
            levels[keys.last()],
        ),
    decreases keys.len(),
{
    if keys.len() > 1 {
        lemma_keys_total_back(levels, keys.drop_first());
        assert(keys.drop_first().drop_last() =~= keys.drop_last().drop_first());
    } else {
        assert(keys.drop_first() =~= Seq::<u64>::empty());
        assert(keys.drop_last() =~= Seq::<u64>::empty());
    }
}

proof fn lemma_keys_total_same(a: Map<u64, Seq<Order>>, b: Map<u64, Seq<Order>>, keys: Seq<u64>)
    requires
        forall|i: int| 0 <= i < keys.len() ==> a[keys[i]] == b[keys[i]],
    ensures
        keys_total(a, keys) == keys_total(b, keys),
    decreases keys.len(),
{
    if keys.len() > 0 {
        assert(a[keys[0]] == b[keys[0]]);
        assert forall|i: int| 0 <= i < keys.drop_first().len() implies a[keys.drop_first()[i]]
            == b[keys.drop_first()[i]] by {
            assert(keys.drop_first()[i] == keys[i + 1]);
        }
        lemma_keys_total_same(a, b, keys.drop_first());
    }
}

proof fn lemma_keys_total_update(
    levels: Map<u64, Seq<Order>>,
    keys: Seq<u64>,
    p: u64,
    v: Seq<Order>,
    at: int,
)
    requires
        strictly_ascending(keys),
        0 <= at < keys.len(),
        keys[at] == p,
    ensures
        keys_total(levels.insert(p, v), keys) == keys_total(levels, keys) - level_total(levels[p])
            + level_total(v),
    decreases keys.len(),
{
    let nl = levels.insert(p, v);
    if at == 0 {
        assert forall|i: int| 0 <= i < keys.drop_first().len() implies nl[keys.drop_first()[i]]
            == levels[keys.drop_first()[i]] by {
            assert(keys.drop_first()[i] == keys[i + 1]);
            assert(keys[0] < keys[i + 1]);
        }
        lemma_keys_total_same(nl, levels, keys.drop_first());
    } else {
        assert(keys[0] < keys[at]);
        assert(strictly_ascending(keys.drop_first()));
        assert(keys.drop_first()[at - 1] == p);
        lemma_keys_total_update(levels, keys.drop_first(), p, v, at - 1);
    }
}

proof fn lemma_side_sweep_total(
    levels: Map<u64, Seq<Order>>,
    taker: Side,
    limit: u64,
    taker_id: u64,
    remaining: u64,
    now: u64,
)
    requires
        levels.dom().finite(),
    ensures
        side_total(levels) == side_total(
            sweep_side(levels, taker, limit, taker_id, remaining, now).levels,
        ) + filled_qty(sweep_side(levels, taker, limit, taker_id, remaining, now).fills),
    decreases levels.dom().len(),
{
    let s = sweep_side(levels, taker, limit, taker_id, remaining, now);
    if remaining == 0 || levels.dom().is_empty() {
        assert(filled_qty(s.fills) == 0);
    } else {
        lemma_best_price(levels, taker);
        let p = best_price(levels, taker);
        if !crosses(taker, limit, p) {
            assert(filled_qty(s.fills) == 0);
        } else {
            let d = levels.dom();
            let ks = ascending_keys(d);
            lemma_ascending_keys(d);
            lemma_ascending_ends(d);
            let l = sweep_level(levels[p], p, taker_id, remaining, now);
            lemma_level_sweep_total(levels[p], p, taker_id, remaining, now);
            let at: int = match taker {
                Side::Buy => 0,
                Side::Sell => ks.len() - 1,
            };
            assert(ks[at] == p) by {
                assert(is_best_price(levels, taker, p));
                assert(d.contains(ks[at]));
                match taker {
                    Side::Buy => {
                        assert(ks.first() <= p);
                    },
                    Side::Sell => {
                        assert(p <= ks.last());
                    },
                }
            }
            if l.queue.len() == 0 {
                let rest = levels.remove(p);
                lemma_side_sweep_total(rest, taker, limit, taker_id, l.remaining, now);
                let r = sweep_side(rest, taker, limit, taker_id, l.remaining, now);
                lemma_filled_qty_concat(l.fills, r.fills);
                assert(level_total(l.queue) == 0);
                let rk = match taker {
                    Side::Buy => ks.drop_first(),
                    Side::Sell => ks.drop_last(),
                };
                assert(sorted_keys_of(rk, rest.dom())) by {
                    assert forall|k: u64| rest.dom().contains(k) <==> rk.contains(k) by {
                        if rest.dom().contains(k) {
                            assert(ks.contains(k));
                            let j = choose|j: int| 0 <= j < ks.len() && ks[j] == k;
                            assert(j != at);
                            match taker {
                                Side::Buy => assert(rk[j - 1] == k),
                                Side::Sell => assert(rk[j] == k),
                            }
                        }
                        if rk.contains(k) {
                            let j = choose|j: int| 0 <= j < rk.len() && rk[j] == k;
                            match taker {
                                Side::Buy => {
                                    assert(ks[j + 1] == k);
                                    assert(ks[0] < ks[j + 1]);
                                    assert(ks.contains(k));
                                },
                                Side::Sell => {
                                    assert(ks[j] == k);
                                    assert(ks[j] < ks[ks.len() - 1]);
                                    assert(ks.contains(k));
                                },
                            }
                        }
                    }
                }
                lemma_ascending_keys(rest.dom());
                lemma_sorted_keys_unique(rk, ascending_keys(rest.dom()), rest.dom());
                assert forall|i: int| 0 <= i < rk.len() implies rest[rk[i]] == levels[rk[i]] by {
                    match taker {
                        Side::Buy => {
                            assert(rk[i] == ks[i + 1]);
                            assert(ks[0] < ks[i + 1]);
                        },
                        Side::Sell => {
                            assert(rk[i] == ks[i]);
                            assert(ks[i] < ks[ks.len() - 1]);
                        },
                    }
                }
                lemma_keys_total_same(rest, levels, rk);
                match taker {
                    Side::Buy => {
                        assert(keys_total(levels, ks) == level_total(levels[p]) + keys_total(
                            levels,
                            rk,
                        ));
                    },
                    Side::Sell => {
                        lemma_keys_total_back(levels, ks);
                    },
                }
            } else {
                let nl = levels.insert(p, l.queue);
                assert(nl.dom() =~= d);
                lemma_keys_total_update(levels, ks, p, l.queue, at);
            }
        }
    }
}

/// Quantity is conserved on the book: a match takes from the resting side exactly the
/// quantity it fills.
pub proof fn law_resting_quantity_conserved(m: BookModel, incoming: Order, now: u64)
    requires
        m.bids.dom().finite(),
        m.asks.dom().finite(),
    ensures
        side_total(contra_levels(book_after_match(m, incoming, now), incoming.side))
            + filled_qty(fills_of_match(m, incoming, now)) == side_total(
            contra_levels(m, incoming.side),
        ),
{
    lemma_side_sweep_total(
        contra_levels(m, incoming.side),
        incoming.side,
        incoming.price,
        incoming.id,
        incoming.qty,
        now,
    );
}

/// Every level of a side is nonempty and holds orders of positive quantity keyed by their
/// own price.
pub open spec fn side_keyed(levels: Map<u64, Seq<Order>>) -> bool {
    forall|p: u64|
        #![trigger levels[p]]
        levels.contains_key(p) ==> {
            &&& levels[p].len() > 0
            &&& forall|i: int|
                0 <= i < levels[p].len() ==> {
                    &&& (#[trigger] levels[p][i]).price == p
                    &&& levels[p][i].qty > 0
                }
        }
}

/// Both sides are finite, without empty levels, and hold live orders keyed by their price.
pub open spec fn book_keyed(m: BookModel) -> bool {
    &&& m.bids.dom().finite()
    &&& m.asks.dom().finite()
    &&& side_keyed(m.bids)
    &&& side_keyed(m.asks)
}

proof fn lemma_side_sweep_keyed(
    levels: Map<u64, Seq<Order>>,
    taker: Side,
    limit: u64,
    taker_id: u64,
    remaining: u64,
    now: u64,
)
    requires
        levels.dom().finite(),
        side_keyed(levels),
    ensures
        ({
            let s = sweep_side(levels, taker, limit, taker_id, remaining, now);
            &&& side_keyed(s.levels)
            &&& forall|i: int| 0 <= i < s.fills.len() ==> (#[trigger] s.fills[i]).qty > 0
        }),
    decreases levels.dom().len(),
{
    let s = sweep_side(levels, taker, limit, taker_id, remaining, now);
    if remaining == 0 || levels.dom().is_empty() {
    } else {
        lemma_best_price(levels, taker);
        let p = best_price(levels, taker);
        if crosses(taker, limit, p) {
            let q = levels[p];
            let l = sweep_level(q, p, taker_id, remaining, now);
            law_level_sweep(q, p, taker_id, remaining, now);
            let k = l.done.len() as int;
            assert forall|i: int| 0 <= i < l.fills.len() implies (#[trigger] l.fills[i]).qty > 0 by {
                assert(q[i].qty > 0);
            }
            if l.queue.len() == 0 {
                let rest_levels = levels.remove(p);
                assert(side_keyed(rest_levels)) by {
                    assert forall|x: u64| #[trigger] rest_levels.contains_key(x) implies rest_levels[x]
                        == levels[x] by {}
                }
                lemma_side_sweep_keyed(rest_levels, taker, limit, taker_id, l.remaining, now);
                let r = sweep_side(rest_levels, taker, limit, taker_id, l.remaining, now);
                assert forall|i: int| 0 <= i < s.fills.len() implies (#[trigger] s.fills[i]).qty > 0 by {
                    if i < l.fills.len() {
                        assert(s.fills[i] == l.fills[i]);
                    } else {
                        assert(s.fills[i] == r.fills[i - l.fills.len()]);
                    }
                }
            } else {
                assert forall|i: int| 0 <= i < l.queue.len() implies {
                    &&& (#[trigger] l.queue[i]).price == p
                    &&& l.queue[i].qty > 0
                } by {
                    if l.queue == q.skip(k) {
                        assert(l.queue[i] == q[i + k]);
                    } else if i > 0 {
                        assert(l.queue[i] == q[i + k]);
                    }
                }
                assert forall|x: u64| #[trigger] s.levels.contains_key(x) && x != p implies s.levels[x]
                    == levels[x] by {}
            }
        }
    }
}

/// A book without empty levels, whose orders have positive quantity and are keyed by
/// their price, stays so after a match, and every fill against it has positive quantity.
pub proof fn law_stays_keyed(m: BookModel, incoming: Order, now: u64)
    requires
        book_keyed(m),
    ensures
        book_keyed(book_after_match(m, incoming, now)),
        forall|i: int|
            0 <= i < fills_of_match(m, incoming, now).len() ==> (#[trigger] fills_of_match(
                m,
                incoming,
                now,
            )[i]).qty > 0,
{
    let side = incoming.side;
    let contra = contra_levels(m, side);
    lemma_side_sweep_keyed(contra, side, incoming.price, incoming.id, incoming.qty, now);
    lemma_side_sweep(contra, side, incoming.price, incoming.id, incoming.qty, now);
    let s = sweep_book(m, incoming, now);
    let after = book_after_match(m, incoming, now);
    if s.remaining > 0 {
        let o = with_qty(incoming, s.remaining);
        let own = match side {
            Side::Buy => m.bids,
            Side::Sell => m.asks,
        };
        let own_after = match side {
            Side::Buy => after.bids,
            Side::Sell => after.asks,
        };
        assert(own_after == own.insert(o.price, queue_at(own, o.price).push(o)));
        assert forall|x: u64| #[trigger] own_after.contains_key(x) implies {
            &&& own_after[x].len() > 0
            &&& forall|i: int|
                0 <= i < own_after[x].len() ==> {
                    &&& (#[trigger] own_after[x][i]).price == x
                    &&& own_after[x][i].qty > 0
                }
        } by {
            if x == o.price {
                assert forall|i: int| 0 <= i < own_after[x].len() implies {
                    &&& (#[trigger] own_after[x][i]).price == x
                    &&& own_after[x][i].qty > 0
                } by {
                    if i < queue_at(own, o.price).len() {
                        assert(own.contains_key(x));
                        assert(own_after[x][i] == own[x][i]);
                    }
                }
            } else {
                assert(own_after[x] == own[x]);
            }
        }
    }
}

/// A side sweep leaves every level outside the taker's limit as it was.
proof fn lemma_side_sweep_untouched(
    levels: Map<u64, Seq<Order>>,
    taker: Side,
    limit: u64,
    taker_id: u64,
    remaining: u64,
    now: u64,
)
    requires
        levels.dom().finite(),
    ensures
        forall|p: u64|
            !crosses(taker, limit, p) ==> {
                &&& (#[trigger] sweep_side(
                    levels,
                    taker,
                    limit,
                    taker_id,
                    remaining,
                    now,
                ).levels.contains_key(p)) == levels.contains_key(p)
                &&& levels.contains_key(p) ==> sweep_side(
                    levels,
                    taker,
                    limit,
                    taker_id,
                    remaining,
                    now,
                ).levels[p] == levels[p]
            },
    decreases levels.dom().len(),
{
    let s = sweep_side(levels, taker, limit, taker_id, remaining, now);
    if remaining == 0 || levels.dom().is_empty() {
    } else {
        lemma_best_price(levels, taker);
        let p = best_price(levels, taker);
        if crosses(taker, limit, p) {
            let l = sweep_level(levels[p], p, taker_id, remaining, now);
            if l.queue.len() == 0 {
                let rest = levels.remove(p);
                lemma_side_sweep_untouched(rest, taker, limit, taker_id, l.remaining, now);
                let r = sweep_side(rest, taker, limit, taker_id, l.remaining, now);
                assert forall|x: u64| !crosses(taker, limit, x) implies {
                    &&& (#[trigger] s.levels.contains_key(x)) == levels.contains_key(x)
                    &&& levels.contains_key(x) ==> s.levels[x] == levels[x]
                } by {
                    assert(x != p);
                    assert(r.levels.contains_key(x) == rest.contains_key(x));
                }
            } else {
                assert forall|x: u64| !crosses(taker, limit, x) implies {
                    &&& (#[trigger] s.levels.contains_key(x)) == levels.contains_key(x)
                    &&& levels.contains_key(x) ==> s.levels[x] == levels[x]
                } by {
                    assert(x != p);
                }
            }
        }
    }
}

/// The unfilled part of the incoming order that goes to its own side.
pub open spec fn unfilled(m: BookModel, incoming: Order, now: u64) -> int {
    incoming.qty - filled_qty(fills_of_match(m, incoming, now))
}

/// The incoming order's own side.
pub open spec fn own_levels(m: BookModel, side: Side) -> Map<u64, Seq<Order>> {
    match side {
        Side::Buy => m.bids,
        Side::Sell => m.asks,
    }
}

/// A sweep stops only when the incoming order is filled or no resting level within its
/// limit is left: for a buyer no ask at or below its price, for a seller no bid at or
/// above it.
pub proof fn law_sweep_stops(m: BookModel, incoming: Order, now: u64)
    requires
        m.bids.dom().finite(),
        m.asks.dom().finite(),
    ensures
        unfilled(m, incoming, now) == 0 || forall|p: u64|
            #[trigger] contra_levels(book_after_match(m, incoming, now), incoming.side).contains_key(
                p,
            ) ==> !crosses(incoming.side, incoming.price, p),
{
    lemma_side_sweep(
        contra_levels(m, incoming.side),
        incoming.side,
        incoming.price,
        incoming.id,
        incoming.qty,
        now,
    );
}

/// What a match leaves alone: the resting levels outside the incoming order's limit are as
/// they were; its own side is as it was when it was filled completely, and otherwise has
/// the unfilled part appended at the back of the queue at the incoming price; the sequence
/// number grows by one.
pub proof fn law_untouched_parts(m: BookModel, incoming: Order, now: u64)
    requires
        m.bids.dom().finite(),
        m.asks.dom().finite(),
    ensures
        forall|p: u64|
            !crosses(incoming.side, incoming.price, p) ==> {
                &&& (#[trigger] contra_levels(
                    book_after_match(m, incoming, now),
                    incoming.side,
                ).contains_key(p)) == contra_levels(m, incoming.side).contains_key(p)
                &&& contra_levels(m, incoming.side).contains_key(p) ==> contra_levels(
                    book_after_match(m, incoming, now),
                    incoming.side,
                )[p] == contra_levels(m, incoming.side)[p]
            },
        0 <= unfilled(m, incoming, now) <= incoming.qty,
        unfilled(m, incoming, now) == 0 ==> own_levels(book_after_match(m, incoming, now), incoming.side)
            == own_levels(m, incoming.side),
        unfilled(m, incoming, now) > 0 ==> own_levels(book_after_match(m, incoming, now), incoming.side)
            == push_order(
            own_levels(m, incoming.side),
            with_qty(incoming, unfilled(m, incoming, now) as u64),
        ),
        m.sequence < u64::MAX ==> book_after_match(m, incoming, now).sequence == m.sequence + 1,
{
    let contra = contra_levels(m, incoming.side);
    lemma_side_sweep(contra, incoming.side, incoming.price, incoming.id, incoming.qty, now);
    lemma_side_sweep_untouched(contra, incoming.side, incoming.price, incoming.id, incoming.qty, now);
    let s = sweep_book(m, incoming, now);
    assert(unfilled(m, incoming, now) == s.remaining);
    lemma_filled_qty_nonneg(s.fills);
    let after = book_after_match(m, incoming, now);
    let contra_after = contra_levels(after, incoming.side);
    assert(contra_after == s.levels);
    if s.remaining == 0 {
        assert(own_levels(after, incoming.side) == own_levels(m, incoming.side));
    } else {
        assert(own_levels(after, incoming.side) == push_order(
            own_levels(m, incoming.side),
            with_qty(incoming, s.remaining),
        ));
    }
}

/// Sum of `f` over the levels at `keys`, in that order.
pub open spec fn keys_sum(
    levels: Map<u64, Seq<Order>>,
    keys: Seq<u64>,
    f: spec_fn(u64, Seq<Order>) -> int,
) -> int
    decreases keys.len(),
{
    if keys.len() == 0 {
        0
    } else {
        f(keys[0], levels[keys[0]]) + keys_sum(levels, keys.drop_first(), f)
    }
}

/// Number of resting orders at prices within the limit of a taker on `taker` side.
pub open spec fn crossing_orders(levels: Map<u64, Seq<Order>>, taker: Side, limit: u64) -> int {
    keys_sum(
        levels,
        ascending_keys(levels.dom()),
        |p: u64, q: Seq<Order>|
            if crosses(taker, limit, p) {
                q.len() as int
            } else {
                0
            },
    )
}

proof fn lemma_keys_sum_remove(
    levels: Map<u64, Seq<Order>>,
    keys: Seq<u64>,
    f: spec_fn(u64, Seq<Order>) -> int,
    j: int,
)
    requires
        0 <= j < keys.len(),
    ensures
        keys_sum(levels, keys, f) == f(keys[j], levels[keys[j]]) + keys_sum(levels, keys.remove(j), f),
    decreases keys.len(),
{
    if j > 0 {
        lemma_keys_sum_remove(levels, keys.drop_first(), f, j - 1);
        assert(keys.drop_first().remove(j - 1) =~= keys.remove(j).drop_first());
    } else {
        assert(keys.remove(0) =~= keys.drop_first());
    }
}

proof fn lemma_keys_sum_same(
    a: Map<u64, Seq<Order>>,
    b: Map<u64, Seq<Order>>,
    keys: Seq<u64>,
    f: spec_fn(u64, Seq<Order>) -> int,
)
    requires
        forall|i: int| 0 <= i < keys.len() ==> a[keys[i]] == b[keys[i]],
    ensures
        keys_sum(a, keys, f) == keys_sum(b, keys, f),
    decreases keys.len(),
{
    if keys.len() > 0 {
        assert(a[keys[0]] == b[keys[0]]);
        assert forall|i: int| 0 <= i < keys.drop_first().len() implies a[keys.drop_first()[i]]
            == b[keys.drop_first()[i]] by {
            assert(keys.drop_first()[i] == keys[i + 1]);
        }
        lemma_keys_sum_same(a, b, keys.drop_first(), f);
    }
}

proof fn lemma_keys_sum_nonneg(
    levels: Map<u64, Seq<Order>>,
    keys: Seq<u64>,
    f: spec_fn(u64, Seq<Order>) -> int,
)
    requires
        forall|p: u64, q: Seq<Order>| #[trigger] f(p, q) >= 0,
    ensures
        keys_sum(levels, keys, f) >= 0,
    decreases keys.len(),
{
    if keys.len() > 0 {
        assert(f(keys[0], levels[keys[0]]) >= 0);
        lemma_keys_sum_nonneg(levels, keys.drop_first(), f);
    }
}

proof fn lemma_keys_total_is_sum(levels: Map<u64, Seq<Order>>, keys: Seq<u64>)
    ensures
        keys_total(levels, keys) == keys_sum(levels, keys, |p: u64, q: Seq<Order>| level_total(q)),
    decreases keys.len(),
{
    if keys.len() > 0 {
        lemma_keys_total_is_sum(levels, keys.drop_first());
    }
}

/// Removing one price from an ascending listing lists the set without that price.
proof fn lemma_sorted_remove(ks: Seq<u64>, d: Set<u64>, j: int)
    requires
        sorted_keys_of(ks, d),
        0 <= j < ks.len(),
    ensures
        sorted_keys_of(ks.remove(j), d.remove(ks[j])),
{
    let r = ks.remove(j);
    assert forall|k: u64| d.remove(ks[j]).contains(k) <==> r.contains(k) by {
        if d.remove(ks[j]).contains(k) {
            assert(ks.contains(k));
            let x = choose|x: int| 0 <= x < ks.len() && ks[x] == k;
            assert(x != j);
            if x < j {
                assert(r[x] == k);
            } else {
                assert(r[x - 1] == k);
            }
        }
        if r.contains(k) {
            let x = choose|x: int| 0 <= x < r.len() && r[x] == k;
            if x < j {
                assert(ks[x] == k);
                assert(ks[x] < ks[j]);
            } else {
                assert(ks[x + 1] == k);
                assert(ks[j] < ks[x + 1]);
            }
            assert(ks.contains(k));
        }
    }
    assert forall|a: int, b: int| 0 <= a < b < r.len() implies r[a] < r[b] by {
        let oa = if a < j {
            a
        } else {
            a + 1
        };
        let ob = if b < j {
            b
        } else {
            b + 1
        };
        assert(r[a] == ks[oa]);
        assert(r[b] == ks[ob]);
    }
}

/// A side sweep fills at most as many times as there are resting orders within the limit.
proof fn lemma_side_sweep_count(
    levels: Map<u64, Seq<Order>>,
    taker: Side,
    limit: u64,
    taker_id: u64,
    remaining: u64,
    now: u64,
)
    requires
        levels.dom().finite(),
    ensures
        sweep_side(levels, taker, limit, taker_id, remaining, now).fills.len() <= crossing_orders(
            levels,
            taker,
            limit,
        ),
    decreases levels.dom().len(),
{
    let f = |p: u64, q: Seq<Order>|
        if crosses(taker, limit, p) {
            q.len() as int
        } else {
            0
        };
    let s = sweep_side(levels, taker, limit, taker_id, remaining, now);
    let d = levels.dom();
    let ks = ascending_keys(d);
    lemma_keys_sum_nonneg(levels, ks, f);
    if remaining == 0 || d.is_empty() {
    } else {
        lemma_best_price(levels, taker);
        let p = best_price(levels, taker);
        if crosses(taker, limit, p) {
            lemma_ascending_keys(d);
            assert(ks.contains(p));
            let j = choose|j: int| 0 <= j < ks.len() && ks[j] == p;
            lemma_keys_sum_remove(levels, ks, f, j);
            let l = sweep_level(levels[p], p, taker_id, remaining, now);
            law_level_sweep(levels[p], p, taker_id, remaining, now);
            assert(f(p, levels[p]) == levels[p].len());
            lemma_keys_sum_nonneg(levels, ks.remove(j), f);
            if l.queue.len() == 0 {
                let rest = levels.remove(p);
                lemma_side_sweep_count(rest, taker, limit, taker_id, l.remaining, now);
                lemma_sorted_remove(ks, d, j);
                lemma_ascending_keys(rest.dom());
                assert(rest.dom() == d.remove(p));
                lemma_sorted_keys_unique(ks.remove(j), ascending_keys(rest.dom()), rest.dom());
                assert forall|i: int| 0 <= i < ks.remove(j).len() implies rest[ks.remove(j)[i]]
                    == levels[ks.remove(j)[i]] by {
                    assert(ks.remove(j).contains(ks.remove(j)[i]));
                    assert(rest.dom().contains(ks.remove(j)[i]));
                }
                lemma_keys_sum_same(rest, levels, ks.remove(j), f);
            }
        }
    }
}

/// A match makes no more fills than there are resting orders within the incoming order's
/// limit on the other side.
pub proof fn law_fill_count_bound(m: BookModel, incoming: Order, now: u64)
    requires
        m.bids.dom().finite(),
        m.asks.dom().finite(),
    ensures
        fills_of_match(m, incoming, now).len() <= crossing_orders(
            contra_levels(m, incoming.side),
            incoming.side,
            incoming.price,
        ),
{
    lemma_side_sweep_count(
        contra_levels(m, incoming.side),
        incoming.side,
        incoming.price,
        incoming.id,
        incoming.qty,
        now,
    );
}

/// Adding an order to a side adds its quantity to the side's total.
proof fn lemma_push_total(levels: Map<u64, Seq<Order>>, o: Order)
    requires
        levels.dom().finite(),
    ensures
        side_total(push_order(levels, o)) == side_total(levels) + o.qty,
{
    let f = |p: u64, q: Seq<Order>| level_total(q);
    let p = o.price;
    let d = levels.dom();
    let nl = push_order(levels, o);
    let d2 = nl.dom();
    assert(d2 =~= d.insert(p));
    let ks = ascending_keys(d);
    let ks2 = ascending_keys(d2);
    lemma_ascending_keys(d);
    lemma_ascending_keys(d2);
    lemma_keys_total_is_sum(levels, ks);
    lemma_keys_total_is_sum(nl, ks2);
    let old_q = queue_at(levels, p);
    assert(old_q.push(o).drop_last() =~= old_q);
    assert(level_total(old_q.push(o)) == level_total(old_q) + o.qty);
    assert(ks2.contains(p));
    let j = choose|j: int| 0 <= j < ks2.len() && ks2[j] == p;
    lemma_keys_sum_remove(nl, ks2, f, j);
    lemma_sorted_remove(ks2, d2, j);
    let rk = ks2.remove(j);
    assert forall|i: int| 0 <= i < rk.len() implies nl[rk[i]] == levels[rk[i]] by {
        assert(rk.contains(rk[i]));
    }
    lemma_keys_sum_same(nl, levels, rk, f);
    if d.contains(p) {
        assert(d2.remove(p) =~= d.remove(p));
        assert(ks.contains(p));
        let jj = choose|x: int| 0 <= x < ks.len() && ks[x] == p;
        lemma_sorted_remove(ks, d, jj);
        lemma_sorted_keys_unique(rk, ks.remove(jj), d.remove(p));
        lemma_keys_sum_remove(levels, ks, f, jj);
        assert(old_q == levels[p]);
    } else {
        assert(d2.remove(p) =~= d);
        lemma_sorted_keys_unique(rk, ks, d);
        assert(level_total(Seq::<Order>::empty()) == 0);
    }
}

/// Quantity is conserved on the incoming order's own side: it grows by exactly the part of
/// the incoming order that was not filled.
pub proof fn law_own_side_gains_remainder(m: BookModel, incoming: Order, now: u64)
    requires
        m.bids.dom().finite(),
        m.asks.dom().finite(),
    ensures
        side_total(own_levels(book_after_match(m, incoming, now), incoming.side)) == side_total(
            own_levels(m, incoming.side),
        ) + unfilled(m, incoming, now),
{
    law_untouched_parts(m, incoming, now);
    if unfilled(m, incoming, now) > 0 {
        lemma_push_total(
            own_levels(m, incoming.side),
            with_qty(incoming, unfilled(m, incoming, now) as u64),
        );
    }
}

/// The prices of a side in the order a taker on `taker` side meets them: ascending for a
/// buyer, descending for a seller.
pub open spec fn priority_keys(levels: Map<u64, Seq<Order>>, taker: Side) -> Seq<u64> {
    match taker {
        Side::Buy => ascending_keys(levels.dom()),
        Side::Sell => ascending_keys(levels.dom()).reverse(),
    }
}

/// The orders of the levels at `keys`, each with its level price, queue after queue, up to
/// the first price outside the limit.
pub open spec fn crossing_queue(
    levels: Map<u64, Seq<Order>>,
    keys: Seq<u64>,
    taker: Side,
    limit: u64,
) -> Seq<(u64, Order)>
    decreases keys.len(),
{
    if keys.len() == 0 || !crosses(taker, limit, keys[0]) {
        Seq::empty()
    } else {
        tagged(levels[keys[0]], keys[0]) + crossing_queue(levels, keys.drop_first(), taker, limit)
    }
}

/// The orders of a queue, each with the level price `price`.
pub open spec fn tagged(q: Seq<Order>, price: u64) -> Seq<(u64, Order)> {
    q.map_values(|o: Order| (price, o))
}

/// The resting orders a taker on `taker` side with limit `limit` can trade against, in
/// priority order (price first, then time), each with its level price.
pub open spec fn priority_queue(levels: Map<u64, Seq<Order>>, taker: Side, limit: u64) -> Seq<
    (u64, Order),
> {
    crossing_queue(levels, priority_keys(levels, taker), taker, limit)
}

/// Total quantity of the first `i` entries.
pub open spec fn prefix_qty(entries: Seq<(u64, Order)>, i: int) -> int
    decreases i,
{
    if i <= 0 {
        0
    } else {
        prefix_qty(entries, i - 1) + entries[i - 1].1.qty
    }
}

/// The smaller of two integers.
pub open spec fn min_int(a: int, b: int) -> int {
    if a <= b {
        a
    } else {
        b
    }
}

proof fn lemma_prefix_concat(a: Seq<(u64, Order)>, b: Seq<(u64, Order)>, i: int)
    requires
        0 <= i <= a.len() + b.len(),
    ensures
        prefix_qty(a + b, i) == if i <= a.len() {
            prefix_qty(a, i)
        } else {
            prefix_qty(a, a.len() as int) + prefix_qty(b, i - a.len())
        },
    decreases i,
{
    if i > 0 {
        lemma_prefix_concat(a, b, i - 1);
        assert(prefix_qty(a + b, i) == prefix_qty(a + b, i - 1) + (a + b)[i - 1].1.qty);
        if i <= a.len() {
            assert((a + b)[i - 1] == a[i - 1]);
        } else {
            assert((a + b)[i - 1] == b[i - 1 - a.len()]);
            assert(prefix_qty(b, i - a.len()) == prefix_qty(b, i - 1 - a.len()) + b[i - 1
                - a.len()].1.qty);
        }
    }
}

proof fn lemma_prefix_nonneg(a: Seq<(u64, Order)>, i: int)
    ensures
        prefix_qty(a, i) >= 0,
    decreases i,
{
    if i > 0 {
        lemma_prefix_nonneg(a, i - 1);
    }
}

proof fn lemma_prefix_monotone(a: Seq<(u64, Order)>, i: int, j: int)
    requires
        i <= j,
    ensures
        prefix_qty(a, i) <= prefix_qty(a, j),
    decreases j - i,
{
    if i < j {
        lemma_prefix_monotone(a, i, j - 1);
    }
}

/// Closed form of a level sweep: the i-th fill is against the i-th maker, for the smaller of
/// its quantity and what the taker still needs; the sweep goes on while the taker needs more
/// and makers are left.
proof fn lemma_level_closed(q: Seq<Order>, price: u64, taker_id: u64, remaining: u64, now: u64)
    ensures
        ({
            let s = sweep_level(q, price, taker_id, remaining, now);
            let t = tagged(q, price);
            &&& s.fills.len() <= q.len()
            &&& forall|i: int|
                #![trigger s.fills[i]]
                0 <= i < s.fills.len() ==> {
                    &&& prefix_qty(t, i) < remaining
                    &&& s.fills[i] == Fill {
                        maker_order_id: q[i].id,
                        taker_order_id: taker_id,
                        price,
                        qty: min_int(q[i].qty as int, remaining - prefix_qty(t, i)) as u64,
                        timestamp: now,
                    }
                }
            &&& s.fills.len() == q.len() || prefix_qty(t, s.fills.len() as int) >= remaining
            &&& s.remaining == if prefix_qty(t, s.fills.len() as int) >= remaining {
                0
            } else {
                remaining - prefix_qty(t, s.fills.len() as int)
            }
            &&& s.queue.len() == 0 <==> (s.fills.len() == q.len() && prefix_qty(t, q.len() as int)
                <= remaining)
        }),
    decreases q.len(),
{
    let s = sweep_level(q, price, taker_id, remaining, now);
    let t = tagged(q, price);
    if remaining == 0 || q.len() == 0 {
        if q.len() > 0 {
            assert(prefix_qty(t, 1) == prefix_qty(t, 0) + t[0].1.qty);
            assert(prefix_qty(t, 0) == 0);
        }
        assert(s.fills.len() == 0);
    } else {
        let maker = q[0];
        let x = min_qty(remaining, maker.qty);
        assert(prefix_qty(t, 0) == 0);
        assert(prefix_qty(t, 1) == maker.qty) by {
            assert(t[0].1 == maker);
        }
        let q2 = q.drop_first();
        let t2 = tagged(q2, price);
        assert(t =~= seq![t[0]] + t2);
        if x == maker.qty {
            let r2 = (remaining - x) as u64;
            lemma_level_closed(q2, price, taker_id, r2, now);
            let r = sweep_level(q2, price, taker_id, r2, now);
            assert forall|j: int| 0 <= j <= t2.len() implies prefix_qty(t, j + 1) == maker.qty
                + prefix_qty(t2, j) by {
                lemma_prefix_concat(seq![t[0]], t2, j + 1);
                assert(prefix_qty(seq![t[0]], 1) == maker.qty) by {
                    assert(prefix_qty(seq![t[0]], 0) == 0);
                }
            }
            assert forall|i: int| #![trigger s.fills[i]] 0 <= i < s.fills.len() implies {
                &&& prefix_qty(t, i) < remaining
                &&& s.fills[i] == Fill {
                    maker_order_id: q[i].id,
                    taker_order_id: taker_id,
                    price,
                    qty: min_int(q[i].qty as int, remaining - prefix_qty(t, i)) as u64,
                    timestamp: now,
                }
            } by {
                if i > 0 {
                    assert(s.fills[i] == r.fills[i - 1]);
                    assert(q[i] == q2[i - 1]);
                    assert(prefix_qty(t, i) == maker.qty + prefix_qty(t2, i - 1));
                    assert(prefix_qty(t2, i - 1) < r2);
                } else {
                    assert(prefix_qty(t, 0) == 0);
                    assert(s.fills[0].qty == x);
                }
            }
            assert(prefix_qty(t, s.fills.len() as int) == maker.qty + prefix_qty(
                t2,
                r.fills.len() as int,
            ));
            assert(prefix_qty(t, q.len() as int) == maker.qty + prefix_qty(t2, q2.len() as int));
            assert forall|i: int| 0 <= i < s.fills.len() implies #[trigger] prefix_qty(t, i)
                < remaining by {
                if i > 0 {
                    assert(s.fills[i] == r.fills[i - 1]);
                    assert(prefix_qty(t, i) == maker.qty + prefix_qty(t2, i - 1));
                    assert(prefix_qty(t2, i - 1) < r2);
                } else {
                    assert(prefix_qty(t, 0) == 0);
                }
            }
        } else {
            assert(s.fills.len() == 1);
            assert(prefix_qty(t, 1) >= remaining);
            assert(s.queue.len() == q.len());
            assert forall|i: int| #![trigger s.fills[i]] 0 <= i < s.fills.len() implies {
                &&& prefix_qty(t, i) < remaining
                &&& s.fills[i] == Fill {
                    maker_order_id: q[i].id,
                    taker_order_id: taker_id,
                    price,
                    qty: min_int(q[i].qty as int, remaining - prefix_qty(t, i)) as u64,
                    timestamp: now,
                }
            } by {
                assert(i == 0);
            }
            assert forall|i: int| 0 <= i < s.fills.len() implies #[trigger] prefix_qty(t, i)
                < remaining by {
                assert(i == 0);
                assert(prefix_qty(t, 0) == 0);
            }
        }
    }
}

proof fn lemma_crossing_queue_same(
    a: Map<u64, Seq<Order>>,
    b: Map<u64, Seq<Order>>,
    keys: Seq<u64>,
    taker: Side,
    limit: u64,
)
    requires
        forall|i: int| 0 <= i < keys.len() ==> a[keys[i]] == b[keys[i]],
    ensures
        crossing_queue(a, keys, taker, limit) == crossing_queue(b, keys, taker, limit),
    decreases keys.len(),
{
    if keys.len() > 0 {
        assert(a[keys[0]] == b[keys[0]]);
        assert forall|i: int| 0 <= i < keys.drop_first().len() implies a[keys.drop_first()[i]]
            == b[keys.drop_first()[i]] by {
            assert(keys.drop_first()[i] == keys[i + 1]);
        }
        lemma_crossing_queue_same(a, b, keys.drop_first(), taker, limit);
    }
}

/// The best level comes first in priority order, and the rest of the order is the priority
/// order of the side without it.
proof fn lemma_priority_keys_step(levels: Map<u64, Seq<Order>>, taker: Side)
    requires
        levels.dom().finite(),
        !levels.dom().is_empty(),
    ensures
        priority_keys(levels, taker).len() > 0,
        priority_keys(levels, taker)[0] == best_price(levels, taker),
        priority_keys(levels, taker).drop_first() == priority_keys(
            levels.remove(best_price(levels, taker)),
            taker,
        ),
        forall|k: u64|
            priority_keys(levels, taker).drop_first().contains(k) ==> k != best_price(levels, taker)
                && levels.contains_key(k),
{
    let d = levels.dom();
    let ks = ascending_keys(d);
    lemma_ascending_keys(d);
    lemma_ascending_ends(d);
    lemma_best_price(levels, taker);
    let p = best_price(levels, taker);
    let rest = levels.remove(p);
    lemma_ascending_keys(rest.dom());
    let n = ks.len() as int;
    match taker {
        Side::Buy => {
            assert(ks[0] == p) by {
                assert(d.contains(ks[0]));
            }
            lemma_sorted_remove(ks, d, 0);
            assert(ks.remove(0) =~= ks.drop_first());
            assert(rest.dom() == d.remove(p));
            lemma_sorted_keys_unique(ks.drop_first(), ascending_keys(rest.dom()), rest.dom());
            assert forall|k: u64| ks.drop_first().contains(k) implies k != p && levels.contains_key(k) by {
                let j = choose|j: int| 0 <= j < ks.drop_first().len() && ks.drop_first()[j] == k;
                assert(ks[j + 1] == k);
                assert(ks[0] < ks[j + 1]);
                assert(ks.contains(k));
            }
        },
        Side::Sell => {
            assert(ks[n - 1] == p) by {
                assert(d.contains(ks[n - 1]));
            }
            lemma_sorted_remove(ks, d, n - 1);
            assert(ks.remove(n - 1) =~= ks.drop_last());
            assert(rest.dom() == d.remove(p));
            lemma_sorted_keys_unique(ks.drop_last(), ascending_keys(rest.dom()), rest.dom());
            assert(ks.reverse().drop_first() =~= ks.drop_last().reverse());
            assert forall|k: u64| ks.reverse().drop_first().contains(k) implies k != p
                && levels.contains_key(k) by {
                let j = choose|j: int|
                    0 <= j < ks.reverse().drop_first().len() && ks.reverse().drop_first()[j] == k;
                assert(ks.reverse().drop_first()[j] == ks[n - 2 - j]);
                assert(ks[n - 2 - j] < ks[n - 1]);
                assert(ks.contains(k));
            }
        },
    }
}

/// Closed form of a side sweep over the priority queue of crossing resting orders.
proof fn lemma_side_closed(
    levels: Map<u64, Seq<Order>>,
    taker: Side,
    limit: u64,
    taker_id: u64,
    remaining: u64,
    now: u64,
)
    requires
        levels.dom().finite(),
    ensures
        ({
            let s = sweep_side(levels, taker, limit, taker_id, remaining, now);
            let l = priority_queue(levels, taker, limit);
            &&& s.fills.len() <= l.len()
            &&& forall|i: int|
                #![trigger s.fills[i]]
                0 <= i < s.fills.len() ==> {
                    &&& prefix_qty(l, i) < remaining
                    &&& s.fills[i] == Fill {
                        maker_order_id: l[i].1.id,
                        taker_order_id: taker_id,
                        price: l[i].0,
                        qty: min_int(l[i].1.qty as int, remaining - prefix_qty(l, i)) as u64,
                        timestamp: now,
                    }
                }
            &&& s.fills.len() == l.len() || prefix_qty(l, s.fills.len() as int) >= remaining
        }),
    decreases levels.dom().len(),
{
    let s = sweep_side(levels, taker, limit, taker_id, remaining, now);
    let l = priority_queue(levels, taker, limit);
    if remaining == 0 || levels.dom().is_empty() {
        assert(prefix_qty(l, 0) == 0);
        if levels.dom().is_empty() {
            lemma_ascending_keys(levels.dom());
            assert(levels.dom().len() == 0);
            assert(priority_keys(levels, taker).len() == 0);
            assert(l.len() == 0);
        }
        assert(s.fills.len() == 0);
    } else {
        lemma_best_price(levels, taker);
        lemma_priority_keys_step(levels, taker);
        let p = best_price(levels, taker);
        let pk = priority_keys(levels, taker);
        if !crosses(taker, limit, p) {
            assert(prefix_qty(l, 0) == 0);
            assert(l.len() == 0);
            assert(s.fills.len() == 0);
        } else {
            let q = levels[p];
            let t = tagged(q, p);
            let rest = levels.remove(p);
            let l2 = priority_queue(rest, taker, limit);
            assert forall|i: int| 0 <= i < pk.drop_first().len() implies levels[pk.drop_first()[i]]
                == rest[pk.drop_first()[i]] by {
                assert(pk.drop_first().contains(pk.drop_first()[i]));
            }
            lemma_crossing_queue_same(levels, rest, pk.drop_first(), taker, limit);
            assert(l == t + l2);
            let lv = sweep_level(q, p, taker_id, remaining, now);
            lemma_level_closed(q, p, taker_id, remaining, now);
            law_level_sweep(q, p, taker_id, remaining, now);
            assert forall|i: int| 0 <= i <= t.len() implies prefix_qty(l, i) == prefix_qty(t, i) by {
                lemma_prefix_concat(t, l2, i);
            }
            if lv.queue.len() == 0 {
                lemma_side_closed(rest, taker, limit, taker_id, lv.remaining, now);
                let r = sweep_side(rest, taker, limit, taker_id, lv.remaining, now);
                let n = q.len() as int;
                assert(lv.fills.len() == n);
                assert(lv.remaining == remaining - prefix_qty(t, n));
                assert forall|j: int| 0 <= j <= l2.len() implies prefix_qty(l, n + j) == prefix_qty(
                    t,
                    n,
                ) + prefix_qty(l2, j) by {
                    lemma_prefix_concat(t, l2, n + j);
                }
                assert forall|i: int| #![trigger s.fills[i]] 0 <= i < s.fills.len() implies {
                    &&& prefix_qty(l, i) < remaining
                    &&& s.fills[i] == Fill {
                        maker_order_id: l[i].1.id,
                        taker_order_id: taker_id,
                        price: l[i].0,
                        qty: min_int(l[i].1.qty as int, remaining - prefix_qty(l, i)) as u64,
                        timestamp: now,
                    }
                } by {
                    if i < n {
                        assert(s.fills[i] == lv.fills[i]);
                        assert(l[i] == t[i]);
                    } else {
                        assert(s.fills[i] == r.fills[i - n]);
                        assert(l[i] == l2[i - n]);
                        assert(prefix_qty(l, i) == prefix_qty(t, n) + prefix_qty(l2, i - n));
                    }
                }
                assert(prefix_qty(l, s.fills.len() as int) == prefix_qty(t, n) + prefix_qty(
                    l2,
                    r.fills.len() as int,
                ));
                assert forall|i: int| 0 <= i < s.fills.len() implies #[trigger] prefix_qty(l, i)
                    < remaining by {
                    if i < n {
                        assert(s.fills[i] == lv.fills[i]);
                    } else {
                        assert(s.fills[i] == r.fills[i - n]);
                        assert(prefix_qty(l, i) == prefix_qty(t, n) + prefix_qty(l2, i - n));
                    }
                }
            } else {
                assert forall|i: int| #![trigger s.fills[i]] 0 <= i < s.fills.len() implies {
                    &&& prefix_qty(l, i) < remaining
                    &&& s.fills[i] == Fill {
                        maker_order_id: l[i].1.id,
                        taker_order_id: taker_id,
                        price: l[i].0,
                        qty: min_int(l[i].1.qty as int, remaining - prefix_qty(l, i)) as u64,
                        timestamp: now,
                    }
                } by {
                    assert(s.fills[i] == lv.fills[i]);
                    assert(l[i] == t[i]);
                }
                assert forall|i: int| 0 <= i < s.fills.len() implies #[trigger] prefix_qty(l, i)
                    < remaining by {
                    assert(s.fills[i] == lv.fills[i]);
                }
                assert(lv.remaining == 0);
                assert(prefix_qty(t, lv.fills.len() as int) >= remaining);
                assert(lv.fills.len() <= t.len());
            }
        }
    }
}

/// The fills of a match in closed form. Let `L` be the resting orders within the incoming
/// order's limit in priority order (best price first, oldest first within a price), each with
/// its level price, and `Q` the incoming quantity. The match makes `k` fills, where `k` is the
/// least count that uses up `L` or whose makers hold at least `Q`; the i-th fill is against
/// `L[i]`, at its level price, for the smaller of its quantity and what is still unfilled.
pub proof fn law_fills_closed_form(m: BookModel, incoming: Order, now: u64)
    requires
        m.bids.dom().finite(),
        m.asks.dom().finite(),
    ensures
        ({
            let f = fills_of_match(m, incoming, now);
            let l = priority_queue(contra_levels(m, incoming.side), incoming.side, incoming.price);
            let q = incoming.qty as int;
            &&& f.len() <= l.len()
            &&& forall|i: int|
                #![trigger f[i]]
                0 <= i < f.len() ==> {
                    &&& prefix_qty(l, i) < q
                    &&& f[i] == Fill {
                        maker_order_id: l[i].1.id,
                        taker_order_id: incoming.id,
                        price: l[i].0,
                        qty: min_int(l[i].1.qty as int, q - prefix_qty(l, i)) as u64,
                        timestamp: now,
                    }
                }
            &&& f.len() == l.len() || prefix_qty(l, f.len() as int) >= q
        }),
{
    lemma_side_closed(
        contra_levels(m, incoming.side),
        incoming.side,
        incoming.price,
        incoming.id,
        incoming.qty,
        now,
    );
    let f = fills_of_match(m, incoming, now);
    let s = sweep_book(m, incoming, now);
    assert(f == s.fills);
    let l = priority_queue(contra_levels(m, incoming.side), incoming.side, incoming.price);
    assert forall|i: int| 0 <= i < f.len() implies #[trigger] prefix_qty(l, i)
        < incoming.qty as int by {
        assert(f[i] == s.fills[i]);
    }
}


/// A queue after the fills `f` against its front orders: the makers of all fills but the
/// last are gone; the last maker is gone too when its fill took all of it, and otherwise
/// stays at the front with its quantity reduced by that fill.
pub open spec fn queue_after_fills(q: Seq<Order>, f: Seq<Fill>) -> Seq<Order> {
    let k = f.len() as int;
    if k == 0 {
        q
    } else if f[k - 1].qty == q[k - 1].qty {
        q.skip(k)
    } else {
        q.skip(k - 1).update(0, with_qty(q[k - 1], (q[k - 1].qty - f[k - 1].qty) as u64))
    }
}

/// `queue_after_fills` for orders tagged with their level price.
pub open spec fn entries_after_fills(l: Seq<(u64, Order)>, f: Seq<Fill>) -> Seq<(u64, Order)> {
    let k = f.len() as int;
    if k == 0 {
        l
    } else if f[k - 1].qty == l[k - 1].1.qty {
        l.skip(k)
    } else {
        l.skip(k - 1).update(
            0,
            (l[k - 1].0, with_qty(l[k - 1].1, (l[k - 1].1.qty - f[k - 1].qty) as u64)),
        )
    }
}

proof fn lemma_level_queue(q: Seq<Order>, price: u64, taker_id: u64, remaining: u64, now: u64)
    ensures
        sweep_level(q, price, taker_id, remaining, now).queue == queue_after_fills(
            q,
            sweep_level(q, price, taker_id, remaining, now).fills,
        ),
    decreases q.len(),
{
    let s = sweep_level(q, price, taker_id, remaining, now);
    if remaining == 0 || q.len() == 0 {
    } else {
        let maker = q[0];
        let x = min_qty(remaining, maker.qty);
        if x == maker.qty {
            let q2 = q.drop_first();
            let r2 = (remaining - x) as u64;
            lemma_level_queue(q2, price, taker_id, r2, now);
            lemma_level_closed(q2, price, taker_id, r2, now);
            let r = sweep_level(q2, price, taker_id, r2, now);
            let k2 = r.fills.len() as int;
            if k2 == 0 {
                assert(s.fills.len() == 1);
                assert(s.fills[0].qty == maker.qty);
                assert(q.skip(1) =~= q2);
            } else {
                assert(s.fills[k2] == r.fills[k2 - 1]);
                assert(q[k2] == q2[k2 - 1]);
                assert(q.skip(k2 + 1) =~= q2.skip(k2));
                assert(q.skip(k2) =~= q2.skip(k2 - 1));
            }
        } else {
            assert(s.fills.len() == 1);
            assert(q.skip(0) =~= q);
        }
    }
}

/// The tags of a queue after fills are those of its entries after the same fills.
proof fn lemma_tagged_after_fills(q: Seq<Order>, price: u64, f: Seq<Fill>, l2: Seq<(u64, Order)>)
    requires
        f.len() <= q.len(),
    ensures
        tagged(queue_after_fills(q, f), price) + l2 == entries_after_fills(tagged(q, price) + l2, f),
{
    let t = tagged(q, price);
    let l = t + l2;
    let k = f.len() as int;
    if k == 0 {
    } else {
        assert(l[k - 1] == t[k - 1]);
        if f[k - 1].qty == q[k - 1].qty {
            assert(tagged(q.skip(k), price) + l2 =~= l.skip(k));
        } else {
            let c = with_qty(q[k - 1], (q[k - 1].qty - f[k - 1].qty) as u64);
            assert(tagged(q.skip(k - 1).update(0, c), price) + l2 =~= l.skip(k - 1).update(
                0,
                (price, c),
            ));
        }
    }
}

proof fn lemma_side_after_fills(
    levels: Map<u64, Seq<Order>>,
    taker: Side,
    limit: u64,
    taker_id: u64,
    remaining: u64,
    now: u64,
)
    requires
        levels.dom().finite(),
    ensures
        ({
            let s = sweep_side(levels, taker, limit, taker_id, remaining, now);
            priority_queue(s.levels, taker, limit) == entries_after_fills(
                priority_queue(levels, taker, limit),
                s.fills,
            )
        }),
    decreases levels.dom().len(),
{
    let s = sweep_side(levels, taker, limit, taker_id, remaining, now);
    let l = priority_queue(levels, taker, limit);
    if remaining == 0 || levels.dom().is_empty() {
    } else {
        lemma_best_price(levels, taker);
        lemma_priority_keys_step(levels, taker);
        let p = best_price(levels, taker);
        let pk = priority_keys(levels, taker);
        if crosses(taker, limit, p) {
            let q = levels[p];
            let t = tagged(q, p);
            let rest = levels.remove(p);
            let l2 = priority_queue(rest, taker, limit);
            assert forall|i: int| 0 <= i < pk.drop_first().len() implies levels[pk.drop_first()[i]]
                == rest[pk.drop_first()[i]] by {
                assert(pk.drop_first().contains(pk.drop_first()[i]));
            }
            lemma_crossing_queue_same(levels, rest, pk.drop_first(), taker, limit);
            assert(l == t + l2);
            let lv = sweep_level(q, p, taker_id, remaining, now);
            lemma_level_closed(q, p, taker_id, remaining, now);
            lemma_level_queue(q, p, taker_id, remaining, now);
            let k = lv.fills.len() as int;
            if lv.queue.len() == 0 {
                lemma_side_after_fills(rest, taker, limit, taker_id, lv.remaining, now);
                lemma_side_closed(rest, taker, limit, taker_id, lv.remaining, now);
                let r = sweep_side(rest, taker, limit, taker_id, lv.remaining, now);
                let n = q.len() as int;
                assert(k == n && (k == 0 || lv.fills[k - 1].qty == q[k - 1].qty)) by {
                    if k > 0 && lv.fills[k - 1].qty != q[k - 1].qty {
                        assert(lv.queue.len() == q.len() - k + 1);
                    }
                    if k < n && k > 0 && lv.fills[k - 1].qty == q[k - 1].qty {
                        assert(lv.queue.len() == q.len() - k);
                    }
                }
                let k2 = r.fills.len() as int;
                assert(s.fills == lv.fills + r.fills);
                if k2 == 0 {
                    if n > 0 {
                        assert(s.fills[n - 1] == lv.fills[n - 1]);
                        assert(l[n - 1] == t[n - 1]);
                        assert(l.skip(n) =~= l2);
                    } else {
                        assert(t.len() == 0);
                        assert(l =~= l2);
                    }
                } else {
                    assert(s.fills[n + k2 - 1] == r.fills[k2 - 1]);
                    assert(l[n + k2 - 1] == l2[k2 - 1]);
                    assert(l.skip(n + k2) =~= l2.skip(k2));
                    assert(l.skip(n + k2 - 1) =~= l2.skip(k2 - 1));
                }
            } else {
                let nl = levels.insert(p, lv.queue);
                assert(nl.dom() =~= levels.dom());
                assert(priority_keys(nl, taker) == pk);
                assert forall|i: int| 0 <= i < pk.drop_first().len() implies nl[pk.drop_first()[i]]
                    == levels[pk.drop_first()[i]] by {
                    assert(pk.drop_first().contains(pk.drop_first()[i]));
                }
                lemma_crossing_queue_same(nl, levels, pk.drop_first(), taker, limit);
                assert(priority_queue(nl, taker, limit) == tagged(lv.queue, p) + l2);
                lemma_tagged_after_fills(q, p, lv.fills, l2);
            }
        }
    }
}

/// Per-maker accounting of a match. The resting orders within the incoming order's limit
/// afterwards, in priority order with their level prices, are those before it less the
/// makers used up: every maker of a fill is gone, except that the maker of the last fill
/// stays at the front, its quantity reduced by that fill, when the fill took only part of
/// it. Nothing is added to that side, and the orders that stay keep their order.
pub proof fn law_makers_after_match(m: BookModel, incoming: Order, now: u64)
    requires
        m.bids.dom().finite(),
        m.asks.dom().finite(),
    ensures
        priority_queue(
            contra_levels(book_after_match(m, incoming, now), incoming.side),
            incoming.side,
            incoming.price,
        ) == entries_after_fills(
            priority_queue(contra_levels(m, incoming.side), incoming.side, incoming.price),
            fills_of_match(m, incoming, now),
        ),
{
    let contra = contra_levels(m, incoming.side);
    lemma_side_after_fills(contra, incoming.side, incoming.price, incoming.id, incoming.qty, now);
    lemma_side_sweep(contra, incoming.side, incoming.price, incoming.id, incoming.qty, now);
    let s = sweep_book(m, incoming, now);
    assert(contra_levels(book_after_match(m, incoming, now), incoming.side) == s.levels);
}


/// A match never trades outside the incoming order's limit: a buyer pays at most its
/// price, and a seller receives at least its price.
pub proof fn law_fills_within_limit(m: BookModel, incoming: Order, now: u64)
    requires
        m.bids.dom().finite(),
        m.asks.dom().finite(),
    ensures
        forall|i: int|
            0 <= i < fills_of_match(m, incoming, now).len() ==> {
                &&& incoming.side == Side::Buy ==> (#[trigger] fills_of_match(m, incoming, now)[i]).price
                    <= incoming.price
                &&& incoming.side == Side::Sell ==> fills_of_match(m, incoming, now)[i].price
                    >= incoming.price
            },
{
    law_fills_at_maker_price(m, incoming, now);
}

/// The unfilled part of an incoming order joins the back of the queue at its price, behind
/// every order already resting there, which keep their places; the other prices of its side
/// are untouched. A completely filled order leaves its side as it was.
pub proof fn law_remainder_rests_at_back(m: BookModel, incoming: Order, now: u64)
    requires
        m.bids.dom().finite(),
        m.asks.dom().finite(),
    ensures
        ({
            let own = own_levels(m, incoming.side);
            let after = own_levels(book_after_match(m, incoming, now), incoming.side);
            let u = unfilled(m, incoming, now);
            let n = queue_at(own, incoming.price).len() as int;
            &&& u == 0 ==> after == own
            &&& u > 0 ==> {
                &&& after.remove(incoming.price) == own.remove(incoming.price)
                &&& after.contains_key(incoming.price)
                &&& after[incoming.price].len() == n + 1
                &&& forall|i: int|
                    0 <= i < n ==> after[incoming.price][i] == queue_at(own, incoming.price)[i]
                &&& after[incoming.price][n].id == incoming.id
                &&& after[incoming.price][n].side == incoming.side
                &&& after[incoming.price][n].price == incoming.price
                &&& after[incoming.price][n].timestamp == incoming.timestamp
                &&& after[incoming.price][n].qty == u
            }
        }),
{
    law_untouched_parts(m, incoming, now);
    let own = own_levels(m, incoming.side);
    let u = unfilled(m, incoming, now);
    if u > 0 {
        let o = with_qty(incoming, u as u64);
        assert(push_order(own, o).remove(incoming.price) =~= own.remove(incoming.price));
    }
}

} // verus!
