//! Mathematical model of one side of the book: a finite map from price to a FIFO queue.
use std::collections::VecDeque;

use vstd::prelude::*;

use crate::models::{Order, PriceLevel};

verus! {

/// The queues of one side of the book as sequences, keyed by price.
pub open spec fn levels_view(m: Map<u64, VecDeque<Order>>) -> Map<u64, Seq<Order>> {
    m.map_values(|q: VecDeque<Order>| q@)
}

/// The queue at `price`, empty where there is no level.
pub open spec fn queue_at(levels: Map<u64, Seq<Order>>, price: u64) -> Seq<Order> {
    if levels.contains_key(price) {
        levels[price]
    } else {
        Seq::empty()
    }
}

/// The side after `order` joined the back of the queue at its price.
pub open spec fn push_order(levels: Map<u64, Seq<Order>>, order: Order) -> Map<u64, Seq<Order>> {
    levels.insert(order.price, queue_at(levels, order.price).push(order))
}

/// Each price comes strictly after the one before it.
pub open spec fn strictly_ascending(s: Seq<u64>) -> bool {
    forall|i: int, j: int| 0 <= i < j < s.len() ==> s[i] < s[j]
}

/// `s` lists the prices of `d` from lowest to highest.
pub open spec fn sorted_keys_of(s: Seq<u64>, d: Set<u64>) -> bool {
    &&& strictly_ascending(s)
    &&& forall|k: u64| d.contains(k) <==> s.contains(k)
}

/// The prices of `d`, lowest first.
pub open spec fn ascending_keys(d: Set<u64>) -> Seq<u64> {
    choose|s: Seq<u64>| sorted_keys_of(s, d)
}

/// Total quantity resting in a queue.
pub open spec fn level_total(q: Seq<Order>) -> int
    decreases q.len(),
{
    if q.len() == 0 {
        0
    } else {
        level_total(q.drop_last()) + q.last().qty
    }
}

/// The number of levels that a snapshot of depth `depth` shows from `keys`.
pub open spec fn shown(keys: Seq<u64>, depth: usize) -> int {
    if depth < keys.len() {
        depth as int
    } else {
        keys.len() as int
    }
}

/// The first `depth` levels of `keys` (in the order given), each with its total quantity.
pub open spec fn top_levels(levels: Map<u64, Seq<Order>>, keys: Seq<u64>, depth: usize) -> Seq<
    PriceLevel,
> {
    keys.take(shown(keys, depth)).map_values(
        |p: u64| PriceLevel { price: p, qty: level_total(levels[p]) as u64 },
    )
}

/// Every level among the first `depth` of `keys` has a total that fits in a `u64`.
pub open spec fn top_levels_fit(levels: Map<u64, Seq<Order>>, keys: Seq<u64>, depth: usize) -> bool {
    forall|i: int| 0 <= i < shown(keys, depth) ==> level_total(#[trigger] levels[keys[i]]) <= u64::MAX
}

/// Two ascending listings of one set are the same sequence.
pub proof fn lemma_sorted_keys_unique(s1: Seq<u64>, s2: Seq<u64>, d: Set<u64>)
    requires
        sorted_keys_of(s1, d),
        sorted_keys_of(s2, d),
    ensures
        s1 == s2,
    decreases s1.len(),
{
    if s1.len() == 0 {
        if s2.len() > 0 {
            assert(s2.contains(s2[0]));
            assert(d.contains(s2[0]));
        }
        assert(s1 =~= s2);
    } else {
        if s2.len() == 0 {
            assert(s1.contains(s1[0]));
            assert(d.contains(s1[0]));
        }
        let a = s1[0];
        let b = s2[0];
        assert(s1.contains(a));
        assert(s2.contains(b));
        assert(s2.contains(a));
        assert(s1.contains(b));
        let ja = choose|j: int| 0 <= j < s2.len() && s2[j] == a;
        let jb = choose|j: int| 0 <= j < s1.len() && s1[j] == b;
        assert(b <= a) by {
            if ja > 0 {
                assert(s2[0] < s2[ja]);
            }
        }
        assert(a <= b) by {
            if jb > 0 {
                assert(s1[0] < s1[jb]);
            }
        }
        let t1 = s1.drop_first();
        let t2 = s2.drop_first();
        let d2 = d.remove(a);
        assert forall|k: u64| d2.contains(k) <==> t1.contains(k) by {
            if d2.contains(k) {
                assert(s1.contains(k));
                let j = choose|j: int| 0 <= j < s1.len() && s1[j] == k;
                assert(j != 0);
                assert(t1[j - 1] == k);
            }
            if t1.contains(k) {
                let j = choose|j: int| 0 <= j < t1.len() && t1[j] == k;
                assert(s1[j + 1] == k);
                assert(s1[0] < s1[j + 1]);
                assert(s1.contains(k));
            }
        }
        assert forall|k: u64| d2.contains(k) <==> t2.contains(k) by {
            if d2.contains(k) {
                assert(s2.contains(k));
                let j = choose|j: int| 0 <= j < s2.len() && s2[j] == k;
                assert(j != 0);
                assert(t2[j - 1] == k);
            }
            if t2.contains(k) {
                let j = choose|j: int| 0 <= j < t2.len() && t2[j] == k;
                assert(s2[j + 1] == k);
                assert(s2[0] < s2[j + 1]);
                assert(s2.contains(k));
            }
        }
        assert(sorted_keys_of(t1, d2));
        assert(sorted_keys_of(t2, d2));
        lemma_sorted_keys_unique(t1, t2, d2);
        assert(s1 =~= seq![a] + t1);
        assert(s2 =~= seq![b] + t2);
    }
}

/// A finite set of prices has an ascending listing, and `ascending_keys` is it.
pub proof fn lemma_ascending_keys(d: Set<u64>)
    requires
        d.finite(),
    ensures
        sorted_keys_of(ascending_keys(d), d),
        ascending_keys(d).len() == d.len(),
    decreases d.len(),
{
    if d.len() == 0 {
        let s = Seq::<u64>::empty();
        assert(d =~= Set::<u64>::empty());
        assert(sorted_keys_of(s, d));
        lemma_sorted_keys_unique(ascending_keys(d), s, d);
    } else {
        let m = lemma_max_exists(d);
        let d2 = d.remove(m);
        lemma_ascending_keys(d2);
        let t = ascending_keys(d2);
        let s = t.push(m);
        assert forall|k: u64| d.contains(k) <==> s.contains(k) by {
            if d.contains(k) && k != m {
                assert(t.contains(k));
                let j = choose|j: int| 0 <= j < t.len() && t[j] == k;
                assert(s[j] == k);
            }
            if d.contains(k) && k == m {
                assert(s[s.len() - 1] == k);
            }
            if s.contains(k) {
                let j = choose|j: int| 0 <= j < s.len() && s[j] == k;
                if j < t.len() {
                    assert(t[j] == k);
                    assert(t.contains(k));
                }
            }
        }
        assert forall|i: int, j: int| 0 <= i < j < s.len() implies s[i] < s[j] by {
            if j == s.len() - 1 {
                assert(t.contains(t[i]));
                assert(d2.contains(t[i]));
            }
        }
        assert(sorted_keys_of(s, d));
        assert(s.no_duplicates()) by {
            assert forall|i: int, j: int| 0 <= i < s.len() && 0 <= j < s.len() && i != j implies s[i]
                != s[j] by {
                if i < j {
                    assert(s[i] < s[j]);
                } else {
                    assert(s[j] < s[i]);
                }
            }
        }
        lemma_sorted_keys_unique(ascending_keys(d), s, d);
        assert(d2.len() == d.len() - 1);
    }
}

/// In the ascending listing of a finite nonempty set, the first price is the least and the
/// last the greatest.
pub proof fn lemma_ascending_ends(d: Set<u64>)
    requires
        d.finite(),
        !d.is_empty(),
    ensures
        ascending_keys(d).len() > 0,
        d.contains(ascending_keys(d).first()),
        d.contains(ascending_keys(d).last()),
        forall|k: u64| d.contains(k) ==> ascending_keys(d).first() <= k <= ascending_keys(d).last(),
{
    lemma_ascending_keys(d);
    let s = ascending_keys(d);
    let x = d.choose();
    assert(d.contains(x));
    assert(s.contains(x));
    assert(s.contains(s.first()));
    assert(s.contains(s.last()));
    assert forall|k: u64| d.contains(k) implies s.first() <= k <= s.last() by {
        assert(s.contains(k));
        let j = choose|j: int| 0 <= j < s.len() && s[j] == k;
        if j > 0 {
            assert(s[0] < s[j]);
        }
        if j < s.len() - 1 {
            assert(s[j] < s[s.len() - 1]);
        }
    }
}

/// The total of a prefix of a queue is the total of the shorter prefix plus one order, and
/// never exceeds the total of the queue.
pub proof fn lemma_level_total_prefix(q: Seq<Order>, i: int)
    requires
        0 <= i < q.len(),
    ensures
        level_total(q.take(i + 1)) == level_total(q.take(i)) + q[i].qty,
        level_total(q.take(i + 1)) <= level_total(q),
    decreases q.len() - i,
{
    assert(q.take(i + 1).drop_last() =~= q.take(i));
    if i + 1 < q.len() {
        lemma_level_total_prefix(q, i + 1);
    } else {
        assert(q.take(i + 1) =~= q);
    }
}

/// A finite nonempty set of prices has a greatest element.
pub proof fn lemma_max_exists(d: Set<u64>) -> (m: u64)
    requires
        d.finite(),
        d.len() > 0,
    ensures
        d.contains(m),
        forall|k: u64| d.contains(k) ==> k <= m,
    decreases d.len(),
{
    let x = d.choose();
    assert(d.contains(x));
    let d2 = d.remove(x);
    if d2.len() == 0 {
        assert forall|k: u64| d.contains(k) implies k <= x by {
            if k != x {
                assert(d2.contains(k));
            }
        }
        x
    } else {
        let y = lemma_max_exists(d2);
        if x <= y {
            y
        } else {
            x
        }
    }
}

/// A finite nonempty set of prices has a least element.
pub proof fn lemma_min_exists(d: Set<u64>) -> (m: u64)
    requires
        d.finite(),
        d.len() > 0,
    ensures
        d.contains(m),
        forall|k: u64| d.contains(k) ==> m <= k,
    decreases d.len(),
{
    let x = d.choose();
    assert(d.contains(x));
    let d2 = d.remove(x);
    if d2.len() == 0 {
        assert forall|k: u64| d.contains(k) implies x <= k by {
            if k != x {
                assert(d2.contains(k));
            }
        }
        x
    } else {
        let y = lemma_min_exists(d2);
        if y <= x {
            y
        } else {
            x
        }
    }
}

} // verus!
