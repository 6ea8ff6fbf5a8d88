use std::collections::{BTreeMap, HashMap, VecDeque};

use vstd::prelude::*;

use crate::levels::{
    ascending_keys, lemma_ascending_ends, lemma_ascending_keys, lemma_level_total_prefix,
    lemma_sorted_keys_unique, level_total, levels_view, push_order, queue_at, shown, sorted_keys_of, strictly_ascending,
    top_levels, top_levels_fit,
};
use crate::models::{Order, OrderBookSnapshot, PriceLevel, Side};
use vstd::std_specs::btree::increasing_seq;
use vstd::std_specs::cmp::OrdSpec;
use vstd::std_specs::iter::IteratorSpec;

verus! {

broadcast use {
    vstd::std_specs::btree::group_btree_axioms,
    vstd::std_specs::vecdeque::group_vec_dequeue_axioms,
};

/// A limit order book: one price-keyed map of FIFO queues per side.
pub struct OrderBook {
    /// Key: price (ascending). Best bid = last entry.
    pub(crate) bids: BTreeMap<u64, VecDeque<Order>>,
    /// Key: price (ascending). Best ask = first entry.
    pub(crate) asks: BTreeMap<u64, VecDeque<Order>>,
    /// Lookup: order id -> side.
    pub(crate) order_index: HashMap<u64, Side>,
    /// Number of orders processed by the matcher.
    pub sequence: u64,
}

/// The mathematical state of an order book.
#[verifier::ext_equal]
pub struct BookModel {
    /// Bid queues by price, each queue oldest first.
    pub bids: Map<u64, Seq<Order>>,
    /// Ask queues by price, each queue oldest first.
    pub asks: Map<u64, Seq<Order>>,
    /// The side recorded for each indexed order id.
    pub index: Map<u64, Side>,
    /// Number of orders processed.
    pub sequence: u64,
}

/// The book after `order` was added as a resting order.
pub open spec fn rest_order(m: BookModel, order: Order) -> BookModel {
    match order.side {
        Side::Buy => BookModel {
            bids: push_order(m.bids, order),
            asks: m.asks,
            index: m.index.insert(order.id, order.side),
            sequence: m.sequence,
        },
        Side::Sell => BookModel {
            bids: m.bids,
            asks: push_order(m.asks, order),
            index: m.index.insert(order.id, order.side),
            sequence: m.sequence,
        },
    }
}

/// The highest bid price, if there is a bid level.
pub open spec fn best_bid_of(m: BookModel) -> Option<u64> {
    if m.bids.dom().is_empty() {
        None
    } else {
        Some(ascending_keys(m.bids.dom()).last())
    }
}

/// The lowest ask price, if there is an ask level.
pub open spec fn best_ask_of(m: BookModel) -> Option<u64> {
    if m.asks.dom().is_empty() {
        None
    } else {
        Some(ascending_keys(m.asks.dom()).first())
    }
}

/// Calls `BTreeMap::first_key_value` and keeps its key. The standard library documents
/// that key as the minimum key of the map, and `None` exactly for an empty map.
#[verifier::external_body]
fn first_key(m: &BTreeMap<u64, VecDeque<Order>>) -> (r: Option<u64>)
    ensures
        match r {
            None => m@.dom().is_empty(),
            Some(k) => m@.contains_key(k) && forall|j: u64| m@.contains_key(j) ==> k <= j,
        },
{
    match m.first_key_value() {
        Some((k, _)) => Some(*k),
        None => None,
    }
}

/// Calls `BTreeMap::last_key_value` and keeps its key. The standard library documents
/// that key as the maximum key of the map, and `None` exactly for an empty map.
#[verifier::external_body]
fn last_key(m: &BTreeMap<u64, VecDeque<Order>>) -> (r: Option<u64>)
    ensures
        match r {
            None => m@.dom().is_empty(),
            Some(k) => m@.contains_key(k) && forall|j: u64| m@.contains_key(j) ==> j <= k,
        },
{
    match m.last_key_value() {
        Some((k, _)) => Some(*k),
        None => None,
    }
}

impl View for OrderBook {
    type V = BookModel;

    closed spec fn view(&self) -> BookModel {
        BookModel {
            bids: levels_view(self.bids@),
            asks: levels_view(self.asks@),
            index: self.order_index@,
            sequence: self.sequence,
        }
    }
}

impl OrderBook {
    /// The bid queues as the standard collections hold them.
    pub closed spec fn bid_queues(&self) -> Map<u64, VecDeque<Order>> {
        self.bids@
    }

    /// The ask queues as the standard collections hold them.
    pub closed spec fn ask_queues(&self) -> Map<u64, VecDeque<Order>> {
        self.asks@
    }

    /// The view is made of the fields.
    pub(crate) proof fn lemma_view_def(&self)
        ensures
            self@ == (BookModel {
                bids: levels_view(self.bids@),
                asks: levels_view(self.asks@),
                index: self.order_index@,
                sequence: self.sequence,
            }),
    {
    }

    /// The view's bids and asks are the queues seen as sequences, and all maps are finite.
    pub proof fn lemma_view(&self)
        ensures
            self@.bids == levels_view(self.bid_queues()),
            self@.asks == levels_view(self.ask_queues()),
            self@.bids.dom().finite(),
            self@.asks.dom().finite(),
            self@.index.dom().finite(),
    {
        broadcast use vstd::std_specs::hash::group_hash_axioms;

        assert(self.bids@.dom().finite());
        assert(self.asks@.dom().finite());
        assert(self@.bids.dom() =~= self.bids@.dom());
        assert(self@.asks.dom() =~= self.asks@.dom());
    }

    pub fn new() -> (book: Self)
        ensures
            book@.bids == Map::<u64, Seq<Order>>::empty(),
            book@.asks == Map::<u64, Seq<Order>>::empty(),
            book@.index == Map::<u64, Side>::empty(),
            book@.sequence == 0,
    {
        let b = OrderBook {
            bids: BTreeMap::new(),
            asks: BTreeMap::new(),
            order_index: HashMap::new(),
            sequence: 0,
        };
        assert(levels_view(b.bids@) =~= Map::<u64, Seq<Order>>::empty());
        assert(levels_view(b.asks@) =~= Map::<u64, Seq<Order>>::empty());
        b
    }
}

/// The prices of a side of the book, lowest first.
fn sorted_prices(m: &BTreeMap<u64, VecDeque<Order>>) -> (keys: Vec<u64>)
    ensures
        keys@ == ascending_keys(m@.dom()),
{
    let mut keys: Vec<u64> = Vec::new();
    let iter = m.iter();
    let ghost kvs = iter.remaining();
    let ghost all = kvs.map_values(|kv: (&u64, &VecDeque<Order>)| *kv.0);
    proof {
        broadcast use vstd::laws_cmp::group_laws_cmp;

        assert(increasing_seq(all));
        assert forall|i: int, j: int| 0 <= i < j < all.len() implies all[i] < all[j] by {
            assert(all[i].cmp_spec(&all[j]) is Less);
        }
        assert(strictly_ascending(all));
        assert forall|k: u64| m@.dom().contains(k) <==> all.contains(k) by {
            if m@.dom().contains(k) {
                assert(kvs.contains((&k, &m@[k])));
                let j = choose|j: int| 0 <= j < kvs.len() && kvs[j] == (&k, &m@[k]);
                assert(all[j] == k);
            }
            if all.contains(k) {
                let j = choose|j: int| 0 <= j < all.len() && all[j] == k;
                assert(m@.contains_key(*kvs[j].0));
            }
        }
        lemma_ascending_keys(m@.dom());
        lemma_sorted_keys_unique(all, ascending_keys(m@.dom()), m@.dom());
    }
    for kv in it: iter
        invariant
            it.seq() == kvs,
            all == kvs.map_values(|kv: (&u64, &VecDeque<Order>)| *kv.0),
            keys@ == all.take(it.index()),
    {
        keys.push(*kv.0);
        proof {
            assert(all.take(it.index() + 1) =~= all.take(it.index()).push(*kv.0));
        }
    }
    assert(keys@ =~= all);
    keys
}

/// Total quantity of a queue, or `None` where it does not fit in a `u64`.
fn queue_qty(q: &VecDeque<Order>) -> (total: Option<u64>)
    ensures
        total is Some <==> level_total(q@) <= u64::MAX,
        total matches Some(t) ==> t == level_total(q@),
{
    let mut total: u64 = 0;
    let n = q.len();
    let mut i: usize = 0;
    while i < n
        invariant
            n == q@.len(),
            0 <= i <= n,
            total == level_total(q@.take(i as int)),
        decreases n - i,
    {
        proof {
            lemma_level_total_prefix(q@, i as int);
        }
        match total.checked_add(q[i].qty) {
            Some(t) => {
                total = t;
            },
            None => {
                return None;
            },
        }
        i = i + 1;
    }
    assert(q@.take(n as int) =~= q@);
    Some(total)
}

/// The first `depth` levels of `m` in the order of `keys` (reversed when `descending`),
/// each with its total quantity; `None` where one of those totals does not fit in a `u64`.
fn level_summaries(
    m: &BTreeMap<u64, VecDeque<Order>>,
    keys: &Vec<u64>,
    descending: bool,
    depth: usize,
) -> (r: Option<Vec<PriceLevel>>)
    requires
        keys@ == ascending_keys(m@.dom()),
    ensures
        ({
            let order = if descending {
                keys@.reverse()
            } else {
                keys@
            };
            &&& r is Some <==> top_levels_fit(levels_view(m@), order, depth)
            &&& r matches Some(v) ==> v@ == top_levels(levels_view(m@), order, depth)
        }),
{
    let ghost order = if descending {
        keys@.reverse()
    } else {
        keys@
    };
    let ghost levels = levels_view(m@);
    proof {
        lemma_ascending_keys(m@.dom());
    }
    let mut out: Vec<PriceLevel> = Vec::new();
    let n = keys.len();
    let mut i: usize = 0;
    while i < n && i < depth
        invariant
            n == keys@.len(),
            keys@ == ascending_keys(m@.dom()),
            sorted_keys_of(keys@, m@.dom()),
            order == (if descending {
                keys@.reverse()
            } else {
                keys@
            }),
            levels == levels_view(m@),
            0 <= i <= n,
            i <= depth,
            out@ == top_levels(levels, order, i),
            forall|j: int| 0 <= j < i ==> level_total(#[trigger] levels[order[j]]) <= u64::MAX,
        decreases n - i,
    {
        let price = if descending {
            keys[n - 1 - i]
        } else {
            keys[i]
        };
        assert(order[i as int] == price);
        assert(keys@.contains(price));
        let q = m.get(&price).unwrap();
        assert(levels[price] == q@);
        match queue_qty(q) {
            Some(qty) => {
                out.push(PriceLevel { price, qty });
                proof {
                    assert(out@ =~= top_levels(levels, order, (i + 1) as usize));
                }
            },
            None => {
                assert(!top_levels_fit(levels, order, depth));
                return None;
            },
        }
        i = i + 1;
    }
    assert(order.len() == n);
    assert(shown(order, i) == shown(order, depth));
    assert(out@ =~= top_levels(levels, order, depth));
    Some(out)
}

impl OrderBook {
    /// Add a resting order to the back of the queue at its price, and index it.
    pub fn add_resting_order(&mut self, order: Order)
        ensures
            final(self)@ == rest_order(old(self)@, order),
            order.side == Side::Buy ==> {
                &&& final(self)@.asks == old(self)@.asks
                &&& final(self)@.bids.remove(order.price) == old(self)@.bids.remove(order.price)
                &&& final(self)@.bids.contains_key(order.price)
                &&& final(self)@.bids[order.price].len() == queue_at(old(self)@.bids, order.price).len()
                    + 1
                &&& final(self)@.bids[order.price][queue_at(old(self)@.bids, order.price).len() as int]
                    == order
                &&& forall|i: int|
                    0 <= i < queue_at(old(self)@.bids, order.price).len() ==> final(self)@.bids[order.price][i]
                        == queue_at(old(self)@.bids, order.price)[i]
            },
            order.side == Side::Sell ==> {
                &&& final(self)@.bids == old(self)@.bids
                &&& final(self)@.asks.remove(order.price) == old(self)@.asks.remove(order.price)
                &&& final(self)@.asks.contains_key(order.price)
                &&& final(self)@.asks[order.price].len() == queue_at(old(self)@.asks, order.price).len()
                    + 1
                &&& final(self)@.asks[order.price][queue_at(old(self)@.asks, order.price).len() as int]
                    == order
                &&& forall|i: int|
                    0 <= i < queue_at(old(self)@.asks, order.price).len() ==> final(self)@.asks[order.price][i]
                        == queue_at(old(self)@.asks, order.price)[i]
            },
            final(self)@.index == old(self)@.index.insert(order.id, order.side),
            final(self)@.sequence == old(self)@.sequence,
    {
        let side = order.side;
        let price = order.price;
        let id = order.id;

        match side {
            Side::Buy => {
                let mut q = match self.bids.remove(&price) {
                    Some(q) => q,
                    None => VecDeque::new(),
                };
                q.push_back(order);
                self.bids.insert(price, q);
            },
            Side::Sell => {
                let mut q = match self.asks.remove(&price) {
                    Some(q) => q,
                    None => VecDeque::new(),
                };
                q.push_back(order);
                self.asks.insert(price, q);
            },
        }

        self.order_index.insert(id, side);
        proof {
            assert(levels_view(self.bids@) =~= rest_order(old(self)@, order).bids);
            assert(levels_view(self.asks@) =~= rest_order(old(self)@, order).asks);
            let m0 = old(self)@;
            assert(push_order(m0.bids, order).remove(order.price) =~= m0.bids.remove(order.price));
            assert(push_order(m0.asks, order).remove(order.price) =~= m0.asks.remove(order.price));
        }
    }

    /// Best (highest) bid price, if any.
    pub fn best_bid(&self) -> (r: Option<u64>)
        ensures
            r == best_bid_of(self@),
    {
        let r = last_key(&self.bids);
        proof {
            assert(self@.bids.dom() =~= self.bids@.dom());
            if !self@.bids.dom().is_empty() {
                self.lemma_view();
                lemma_ascending_ends(self@.bids.dom());
            }
        }
        r
    }

    /// Best (lowest) ask price, if any.
    pub fn best_ask(&self) -> (r: Option<u64>)
        ensures
            r == best_ask_of(self@),
    {
        let r = first_key(&self.asks);
        proof {
            assert(self@.asks.dom() =~= self.asks@.dom());
            if !self@.asks.dom().is_empty() {
                self.lemma_view();
                lemma_ascending_ends(self@.asks.dom());
            }
        }
        r
    }

    pub fn has_bids(&self) -> (r: bool)
        ensures
            r == !self@.bids.dom().is_empty(),
    {
        assert(self@.bids.dom() =~= self.bids@.dom());
        !self.bids.is_empty()
    }

    pub fn has_asks(&self) -> (r: bool)
        ensures
            r == !self@.asks.dom().is_empty(),
    {
        assert(self@.asks.dom() =~= self.asks@.dom());
        !self.asks.is_empty()
    }

    /// Produce a snapshot: at most `depth` levels per side, best first, each with its
    /// total quantity.
    pub fn snapshot(&self, depth: usize) -> (snap: OrderBookSnapshot)
        requires
            top_levels_fit(self@.bids, ascending_keys(self@.bids.dom()).reverse(), depth),
            top_levels_fit(self@.asks, ascending_keys(self@.asks.dom()), depth),
        ensures
            snap.bids@ == top_levels(self@.bids, ascending_keys(self@.bids.dom()).reverse(), depth),
            snap.asks@ == top_levels(self@.asks, ascending_keys(self@.asks.dom()), depth),
            snap.sequence == self@.sequence,
    {
        proof {
            assert(self@.bids.dom() =~= self.bids@.dom());
            assert(self@.asks.dom() =~= self.asks@.dom());
        }
        // Bids: descending price order (best first)
        let bid_keys = sorted_prices(&self.bids);
        let bids = level_summaries(&self.bids, &bid_keys, true, depth).unwrap();
        // Asks: ascending price order (best first)
        let ask_keys = sorted_prices(&self.asks);
        let asks = level_summaries(&self.asks, &ask_keys, false, depth).unwrap();
        OrderBookSnapshot { bids, asks, sequence: self.sequence }
    }

    /// The snapshot of `snapshot`, or `None` where the total quantity of a level it would
    /// show does not fit in a `u64`.
    pub fn try_snapshot(&self, depth: usize) -> (r: Option<OrderBookSnapshot>)
        ensures
            r is Some <==> (top_levels_fit(
                self@.bids,
                ascending_keys(self@.bids.dom()).reverse(),
                depth,
            ) && top_levels_fit(self@.asks, ascending_keys(self@.asks.dom()), depth)),
            r matches Some(snap) ==> {
                &&& snap.bids@ == top_levels(
                    self@.bids,
                    ascending_keys(self@.bids.dom()).reverse(),
                    depth,
                )
                &&& snap.asks@ == top_levels(self@.asks, ascending_keys(self@.asks.dom()), depth)
                &&& snap.sequence == self@.sequence
            },
    {
        proof {
            assert(self@.bids.dom() =~= self.bids@.dom());
            assert(self@.asks.dom() =~= self.asks@.dom());
        }
        let bid_keys = sorted_prices(&self.bids);
        let ask_keys = sorted_prices(&self.asks);
        match level_summaries(&self.bids, &bid_keys, true, depth) {
            Some(bids) => match level_summaries(&self.asks, &ask_keys, false, depth) {
                Some(asks) => Some(OrderBookSnapshot { bids, asks, sequence: self.sequence }),
                None => None,
            },
            None => None,
        }
    }

    /// Mutable access to the bid queues.
    pub fn bids_mut(&mut self) -> (r: &mut BTreeMap<u64, VecDeque<Order>>)
        ensures
            r@ == old(self).bid_queues(),
            final(self).bid_queues() == final(r)@,
            final(self)@.asks == old(self)@.asks,
            final(self)@.index == old(self)@.index,
            final(self)@.sequence == old(self)@.sequence,
    {
        &mut self.bids
    }

    /// Mutable access to the ask queues.
    pub fn asks_mut(&mut self) -> (r: &mut BTreeMap<u64, VecDeque<Order>>)
        ensures
            r@ == old(self).ask_queues(),
            final(self).ask_queues() == final(r)@,
            final(self)@.bids == old(self)@.bids,
            final(self)@.index == old(self)@.index,
            final(self)@.sequence == old(self)@.sequence,
    {
        &mut self.asks
    }

    /// Remove an order from the index.
    pub fn remove_from_index(&mut self, order_id: u64)
        ensures
            final(self)@.index == old(self)@.index.remove(order_id),
            final(self)@.bids == old(self)@.bids,
            final(self)@.asks == old(self)@.asks,
            final(self)@.sequence == old(self)@.sequence,
    {
        self.order_index.remove(&order_id);
    }
}

impl Default for OrderBook {
    fn default() -> (book: Self)
        ensures
            book@.bids == Map::<u64, Seq<Order>>::empty(),
            book@.asks == Map::<u64, Seq<Order>>::empty(),
            book@.index == Map::<u64, Side>::empty(),
            book@.sequence == 0,
    {
        Self::new()
    }
}

} // verus!
