//! The cache: an index from keys to value records, and a ledger of frequency
//! buckets that orders the keys for eviction.
use vstd::prelude::*;

use std::collections::HashMap;

use linked_vector::HNode;

use crate::linked::{
    handles_unique, holds_handle, ledger_freq, ledger_front_node, ledger_insert_after,
    ledger_items, ledger_new, ledger_next_node, ledger_push_front, ledger_remove,
    ledger_swap_queue, queue_is_empty, queue_items, queue_new, queue_pop_front, queue_push_back,
    queue_remove, KeyQueue, Ledger,
};

verus! {

broadcast use vstd::std_specs::hash::group_hash_axioms;

/// What the cache holds for one key: its value, how many times it was used
/// since it was inserted (the insertion counts as one), and the tick of the
/// cache's clock at its last use.
pub struct KeyState<V> {
    pub value: V,
    pub freq: nat,
    pub last_use: nat,
}

/// Eviction takes `a` before `b`: `a` was used less often, or as often and
/// less recently.
pub open spec fn evicted_before<V>(a: KeyState<V>, b: KeyState<V>) -> bool {
    a.freq < b.freq || (a.freq == b.freq && a.last_use < b.last_use)
}

/// `k` is the key that eviction removes from `m`: the least frequently used
/// one, and among those the least recently used.
pub open spec fn is_lfu_victim<V>(m: Map<i32, KeyState<V>>, k: i32) -> bool {
    &&& m.contains_key(k)
    &&& forall|j: i32| #[trigger] m.contains_key(j) && j != k ==> evicted_before(m[k], m[j])
}

/// At most one key is the one that eviction removes.
pub proof fn lemma_victim_unique<V>(m: Map<i32, KeyState<V>>, a: i32, b: i32)
    requires
        is_lfu_victim(m, a),
        is_lfu_victim(m, b),
    ensures
        a == b,
{
}

/// The record kept for a key: its value, the handle of its frequency bucket
/// and the handle of its node in that bucket's key queue.
struct Value<V> {
    value: V,
    hfreq: HNode,
    hpos: HNode,
}

/// A least-frequently-used cache from `i32` keys to values of type `V`.
pub struct LfuCache<V> {
    map: HashMap<i32, Value<V>>,
    frequencies: Ledger,
    capacity: usize,
    freqs: Ghost<Map<i32, nat>>,
    stamps: Ghost<Map<i32, nat>>,
    clock: Ghost<nat>,
}

type Buckets = Seq<(HNode, (usize, Seq<(HNode, i32)>))>;

/// Buckets have distinct handles, positive strictly increasing frequencies,
/// and queues with distinct handles; only bucket `skip` may have an empty one.
spec fn ledger_ok_but(l: Buckets, skip: int) -> bool {
    &&& handles_unique(l)
    &&& forall|i: int|
        0 <= i < l.len() ==> #[trigger] l[i].1.0 >= 1 && (l[i].1.1.len() > 0 || i == skip)
            && handles_unique(l[i].1.1)
    &&& forall|i: int, j: int| 0 <= i < j < l.len() ==> #[trigger] l[i].1.0 < #[trigger] l[j].1.0
}

/// The key `k`, whose record is `e`, sits at node `p` of bucket `i`.
spec fn placed<V>(l: Buckets, i: int, p: int, k: i32, e: Value<V>) -> bool {
    &&& 0 <= i < l.len()
    &&& 0 <= p < l[i].1.1.len()
    &&& l[i].0 == e.hfreq
    &&& l[i].1.1[p] == (e.hpos, k)
}

/// The ledger and the index agree: every node of a queue points to a record
/// that points back to it, every record is reached that way, and within a
/// queue the keys come in the order of their last use.
spec fn parts_ok_but<V>(
    l: Buckets,
    m: Map<i32, Value<V>>,
    freqs: Map<i32, nat>,
    stamps: Map<i32, nat>,
    clock: nat,
    skip: int,
) -> bool {
    &&& ledger_ok_but(l, skip)
    &&& forall|i: int, p: int|
        0 <= i < l.len() && 0 <= p < l[i].1.1.len() ==> {
            let k = #[trigger] l[i].1.1[p].1;
            &&& m.contains_key(k)
            &&& m[k].hfreq == l[i].0
            &&& m[k].hpos == l[i].1.1[p].0
            &&& freqs[k] == l[i].1.0
        }
    &&& forall|k: i32| #[trigger] m.contains_key(k) ==> stamps[k] < clock
    &&& forall|k: i32| #[trigger]
        m.contains_key(k) ==> exists|i: int, p: int| #[trigger] placed(l, i, p, k, m[k])
    &&& forall|i: int, p: int, q: int|
        0 <= i < l.len() && 0 <= p < q < l[i].1.1.len() ==> stamps[#[trigger] l[i].1.1[p].1]
            < stamps[#[trigger] l[i].1.1[q].1]
}

spec fn parts_ok<V>(
    l: Buckets,
    m: Map<i32, Value<V>>,
    freqs: Map<i32, nat>,
    stamps: Map<i32, nat>,
    clock: nat,
) -> bool {
    parts_ok_but(l, m, freqs, stamps, clock, -1)
}

/// Dropping the one bucket whose queue is empty restores the invariant.
proof fn lemma_drop_empty_bucket<V>(
    l: Buckets,
    m: Map<i32, Value<V>>,
    freqs: Map<i32, nat>,
    stamps: Map<i32, nat>,
    clock: nat,
    i: int,
)
    requires
        parts_ok_but(l, m, freqs, stamps, clock, i),
        0 <= i < l.len(),
        l[i].1.1.len() == 0,
    ensures
        parts_ok(l.remove(i), m, freqs, stamps, clock),
{
    let l2 = l.remove(i);
    assert forall|a: int, b: int| 0 <= a < l2.len() && 0 <= b < l2.len() && a != b implies #[trigger] l2[a].0
        != #[trigger] l2[b].0 by {
        let a1 = if a < i { a } else { a + 1 };
        let b1 = if b < i { b } else { b + 1 };
        assert(l2[a] == l[a1] && l2[b] == l[b1]);
    }
    assert forall|a: int| 0 <= a < l2.len() implies #[trigger] l2[a].1.0 >= 1 && (l2[a].1.1.len()
        > 0 || a == -1) && handles_unique(l2[a].1.1) by {
        let a1 = if a < i { a } else { a + 1 };
        assert(l2[a] == l[a1]);
    }
    assert forall|a: int, b: int| 0 <= a < b < l2.len() implies #[trigger] l2[a].1.0
        < #[trigger] l2[b].1.0 by {
        let a1 = if a < i { a } else { a + 1 };
        let b1 = if b < i { b } else { b + 1 };
        assert(l2[a] == l[a1] && l2[b] == l[b1]);
    }
    assert forall|a: int, r: int| 0 <= a < l2.len() && 0 <= r < l2[a].1.1.len() implies {
        let k = #[trigger] l2[a].1.1[r].1;
        &&& m.contains_key(k)
        &&& m[k].hfreq == l2[a].0
        &&& m[k].hpos == l2[a].1.1[r].0
        &&& freqs[k] == l2[a].1.0
    } by {
        let a1 = if a < i { a } else { a + 1 };
        assert(l2[a] == l[a1]);
        assert(l[a1].1.1[r].1 == l2[a].1.1[r].1);
    }
    assert forall|k: i32| #[trigger] m.contains_key(k) implies exists|a: int, r: int|
        #[trigger] placed(l2, a, r, k, m[k]) by {
        let (a1, r) = choose|a1: int, r: int| placed(l, a1, r, k, m[k]);
        assert(a1 != i);
        let a = if a1 < i { a1 } else { a1 - 1 };
        assert(l2[a] == l[a1]);
        assert(placed(l2, a, r, k, m[k]));
    }
    assert forall|a: int, p: int, q: int| 0 <= a < l2.len() && 0 <= p < q < l2[a].1.1.len() implies stamps[#[trigger] l2[a].1.1[p].1]
        < stamps[#[trigger] l2[a].1.1[q].1] by {
        let a1 = if a < i { a } else { a + 1 };
        assert(l2[a] == l[a1]);
        assert(l[a1].1.1[p].1 == l2[a].1.1[p].1);
        assert(l[a1].1.1[q].1 == l2[a].1.1[q].1);
    }
}

/// A bucket that was allowed to be empty but is not leaves the invariant whole.
proof fn lemma_full_bucket<V>(
    l: Buckets,
    m: Map<i32, Value<V>>,
    freqs: Map<i32, nat>,
    stamps: Map<i32, nat>,
    clock: nat,
    i: int,
)
    requires
        parts_ok_but(l, m, freqs, stamps, clock, i),
        0 <= i < l.len(),
        l[i].1.1.len() > 0,
    ensures
        parts_ok(l, m, freqs, stamps, clock),
{
    assert forall|a: int| 0 <= a < l.len() implies #[trigger] l[a].1.0 >= 1 && (l[a].1.1.len() > 0
        || a == -1) && handles_unique(l[a].1.1) by {}
}

/// The ledger after `key` left node `p` of bucket `i` for the back of the
/// bucket of the next frequency: either the bucket right after `i`
/// (`joined`), or a new one placed right after `i`.
spec fn promoted(l: Buckets, i: int, p: int, key: i32, hf2: HNode, hp2: HNode, joined: bool) -> Buckets {
    let f = l[i].1.0;
    let stay = l.update(i, (l[i].0, (f, l[i].1.1.remove(p))));
    if joined {
        stay.update(i + 1, (hf2, (l[i + 1].1.0, l[i + 1].1.1.push((hp2, key)))))
    } else {
        stay.insert(i + 1, (hf2, ((f + 1) as usize, seq![(hp2, key)])))
    }
}

/// Promoting a key keeps the ledger and the index in agreement, except that
/// the bucket it left may now be empty.
#[verifier::rlimit(50)]
proof fn lemma_promoted<V>(
    l: Buckets,
    m: Map<i32, Value<V>>,
    freqs: Map<i32, nat>,
    stamps: Map<i32, nat>,
    clock: nat,
    i: int,
    p: int,
    key: i32,
    hf2: HNode,
    hp2: HNode,
    joined: bool,
)
    requires
        parts_ok(l, m, freqs, stamps, clock),
        placed(l, i, p, key, m[key]),
        l[i].1.0 < usize::MAX,
        joined ==> i + 1 < l.len() && l[i + 1].1.0 == l[i].1.0 + 1 && hf2 == l[i + 1].0
            && !holds_handle(l[i + 1].1.1, hp2),
        !joined ==> !holds_handle(l, hf2) && (i + 1 < l.len() ==> l[i + 1].1.0 != l[i].1.0 + 1),
    ensures
        parts_ok_but(
            promoted(l, i, p, key, hf2, hp2, joined),
            m.insert(key, Value { value: m[key].value, hfreq: hf2, hpos: hp2 }),
            freqs.insert(key, (l[i].1.0 + 1) as nat),
            stamps.insert(key, clock),
            clock + 1,
            i,
        ),
        promoted(l, i, p, key, hf2, hp2, joined)[i].1.1 == l[i].1.1.remove(p),
{
    let x = promoted(l, i, p, key, hf2, hp2, joined);
    let m3 = m.insert(key, Value { value: m[key].value, hfreq: hf2, hpos: hp2 });
    let freqs3 = freqs.insert(key, (l[i].1.0 + 1) as nat);
    let stamps3 = stamps.insert(key, clock);
    let f = l[i].1.0;
    let q = l[i].1.1;
    let rest = q.remove(p);
    assert(x.len() == if joined { l.len() } else { l.len() + 1 });
    // Where bucket `a` of `x` came from in `l`; the new bucket maps nowhere.
    let src = |a: int| if joined || a <= i { a } else { a - 1 };
    assert(l[i].1.1[p].1 == key);
    // A node other than the moved one holds another key.
    assert forall|a: int, r: int|
        0 <= a < l.len() && 0 <= r < l[a].1.1.len() && (a != i || r != p) implies #[trigger] l[a].1.1[r].1
        != key by {
        if l[a].1.1[r].1 == key {
            assert(l[a].0 == l[i].0);
            assert(a == i);
            assert(l[a].1.1[r].0 == q[p].0);
        }
    }
    assert forall|a: int| 0 <= a < x.len() && !(!joined && a == i + 1) implies #[trigger] x[a].0 == l[src(a)].0
        && x[a].1.0 == l[src(a)].1.0 by {}
    assert forall|a: int, b: int| 0 <= a < x.len() && 0 <= b < x.len() && a != b implies #[trigger] x[a].0
        != #[trigger] x[b].0 by {
        if !joined && a == i + 1 {
            assert(l[src(b)].0 == x[b].0);
        } else if !joined && b == i + 1 {
            assert(l[src(a)].0 == x[a].0);
        } else {
            assert(x[a].0 == l[src(a)].0);
            assert(x[b].0 == l[src(b)].0);
        }
    }
    assert forall|r1: int, r2: int|
        0 <= r1 < rest.len() && 0 <= r2 < rest.len() && r1 != r2 implies #[trigger] rest[r1].0
        != #[trigger] rest[r2].0 by {
        let s1 = if r1 < p { r1 } else { r1 + 1 };
        let s2 = if r2 < p { r2 } else { r2 + 1 };
        assert(rest[r1] == q[s1] && rest[r2] == q[s2]);
    }
    if joined {
        let nq = l[i + 1].1.1;
        assert forall|r1: int, r2: int|
            0 <= r1 < nq.len() + 1 && 0 <= r2 < nq.len() + 1 && r1 != r2 implies #[trigger] nq.push(
            (hp2, key),
        )[r1].0 != #[trigger] nq.push((hp2, key))[r2].0 by {
            if r1 == nq.len() {
                assert(nq[r2].0 != hp2);
            } else if r2 == nq.len() {
                assert(nq[r1].0 != hp2);
            }
        }
    }
    assert forall|a: int| 0 <= a < x.len() implies #[trigger] x[a].1.0 >= 1 && (x[a].1.1.len() > 0
        || a == i) && handles_unique(x[a].1.1) by {
        if a == i {
            assert(x[a].1.1 == rest);
        } else if a == i + 1 {
        } else {
            assert(x[a] == l[src(a)]);
        }
    }
    assert forall|a: int, b: int| 0 <= a < b < x.len() implies #[trigger] x[a].1.0 < #[trigger] x[b].1.0 by {
        if !joined && a == i + 1 {
            assert(l[src(b)].1.0 == x[b].1.0);
            if b > i + 1 {
                assert(l[i].1.0 < l[i + 1].1.0);
                assert(i + 1 == src(b) || l[i + 1].1.0 < l[src(b)].1.0);
            }
        } else if !joined && b == i + 1 {
            assert(l[src(a)].1.0 == x[a].1.0);
            assert(src(a) == i || l[src(a)].1.0 < l[i].1.0);
        } else {
            assert(x[a].1.0 == l[src(a)].1.0);
            assert(x[b].1.0 == l[src(b)].1.0);
        }
    }
    assert(ledger_ok_but(x, i));
    // The node of `x` at `(a, r)` other than the moved one, and where it was in `l`.
    assert forall|a: int, r: int| 0 <= a < x.len() && 0 <= r < x[a].1.1.len() implies {
        let k = #[trigger] x[a].1.1[r].1;
        &&& m3.contains_key(k)
        &&& m3[k].hfreq == x[a].0
        &&& m3[k].hpos == x[a].1.1[r].0
        &&& freqs3[k] == x[a].1.0
    } by {
        if a == i + 1 && ((joined && r == l[i + 1].1.1.len()) || !joined) {
            assert(x[a].1.1[r] == (hp2, key));
        } else {
            let a1 = src(a);
            let r1 = if a == i && r >= p { r + 1 } else { r };
            assert(x[a].1.1[r] == l[a1].1.1[r1]);
            assert(l[a1].1.1[r1].1 != key);
        }
    }
    assert forall|k: i32| #[trigger] m3.contains_key(k) implies stamps3[k] < clock + 1 by {}
    assert forall|k: i32| #[trigger] m3.contains_key(k) implies exists|a: int, r: int|
        #[trigger] placed(x, a, r, k, m3[k]) by {
        if k == key {
            if joined {
                assert(placed(x, i + 1, l[i + 1].1.1.len() as int, k, m3[k]));
            } else {
                assert(placed(x, i + 1, 0, k, m3[k]));
            }
        } else {
            let (a1, r1) = choose|a1: int, r1: int| placed(l, a1, r1, k, m[k]);
            assert(l[a1].1.1[r1].1 == k);
            let a = if joined || a1 <= i { a1 } else { a1 + 1 };
            let r = if a1 == i && r1 > p { r1 - 1 } else { r1 };
            assert(a1 != i || r1 != p);
            assert(x[a].1.1[r] == l[a1].1.1[r1]);
            assert(placed(x, a, r, k, m3[k]));
        }
    }
    assert forall|a: int, r1: int, r2: int| 0 <= a < x.len() && 0 <= r1 < r2 < x[a].1.1.len() implies stamps3[#[trigger] x[a].1.1[r1].1]
        < stamps3[#[trigger] x[a].1.1[r2].1] by {
        if a == i + 1 && !joined {
        } else if a == i + 1 && r2 == l[i + 1].1.1.len() {
            assert(x[a].1.1[r1] == l[i + 1].1.1[r1]);
            assert(l[i + 1].1.1[r1].1 != key);
            assert(m.contains_key(l[i + 1].1.1[r1].1));
        } else {
            let a1 = src(a);
            let s1 = if a == i && r1 >= p { r1 + 1 } else { r1 };
            let s2 = if a == i && r2 >= p { r2 + 1 } else { r2 };
            assert(x[a].1.1[r1] == l[a1].1.1[s1]);
            assert(x[a].1.1[r2] == l[a1].1.1[s2]);
            assert(l[a1].1.1[s1].1 != key);
            assert(l[a1].1.1[s2].1 != key);
        }
    }
}

/// The ledger after a new key joined the back of the frequency-one bucket,
/// which is the first bucket if there is one (`reused`), or a new first one.
spec fn added(l: Buckets, key: i32, hb: HNode, hpos: HNode, reused: bool) -> Buckets {
    if reused {
        l.update(0, (hb, (1usize, l[0].1.1.push((hpos, key)))))
    } else {
        seq![(hb, (1usize, seq![(hpos, key)]))] + l
    }
}

/// Adding a key that the index lacks keeps the ledger and the index in agreement.
#[verifier::rlimit(50)]
proof fn lemma_added<V>(
    l: Buckets,
    m: Map<i32, Value<V>>,
    freqs: Map<i32, nat>,
    stamps: Map<i32, nat>,
    clock: nat,
    key: i32,
    value: V,
    hb: HNode,
    hpos: HNode,
    reused: bool,
)
    requires
        parts_ok(l, m, freqs, stamps, clock),
        !m.contains_key(key),
        reused ==> l.len() > 0 && l[0].0 == hb && l[0].1.0 == 1 && !holds_handle(l[0].1.1, hpos),
        !reused ==> !holds_handle(l, hb) && (l.len() > 0 ==> l[0].1.0 != 1),
    ensures
        parts_ok(
            added(l, key, hb, hpos, reused),
            m.insert(key, Value { value, hfreq: hb, hpos }),
            freqs.insert(key, 1),
            stamps.insert(key, clock),
            clock + 1,
        ),
{
    let x = added(l, key, hb, hpos, reused);
    let m3 = m.insert(key, Value { value, hfreq: hb, hpos });
    let freqs3 = freqs.insert(key, 1);
    let stamps3 = stamps.insert(key, clock);
    let src = |a: int| if reused { a } else { a - 1 };
    // The new node of `x` is the last one of its first bucket.
    let last = if reused { l[0].1.1.len() as int } else { 0 };
    assert(x[0].1.1[last] == (hpos, key));
    assert(x[0].1.1.len() == last + 1);
    assert forall|a: int| 0 <= a < x.len() && (reused || a > 0) implies #[trigger] x[a].0 == l[src(
        a,
    )].0 && x[a].1.0 == l[src(a)].1.0 by {}
    assert forall|a: int, b: int| 0 <= a < x.len() && 0 <= b < x.len() && a != b implies #[trigger] x[a].0
        != #[trigger] x[b].0 by {
        if !reused && a == 0 {
            assert(x[b].0 == l[src(b)].0);
        } else if !reused && b == 0 {
            assert(x[a].0 == l[src(a)].0);
        } else {
            assert(x[a].0 == l[src(a)].0);
            assert(x[b].0 == l[src(b)].0);
        }
    }
    assert forall|a: int| 0 <= a < x.len() implies #[trigger] x[a].1.0 >= 1 && (x[a].1.1.len() > 0
        || a == -1) && handles_unique(x[a].1.1) by {
        if a == 0 {
            if reused {
                let nq = l[0].1.1;
                assert forall|r1: int, r2: int|
                    0 <= r1 < nq.len() + 1 && 0 <= r2 < nq.len() + 1 && r1 != r2 implies #[trigger] nq.push(
                    (hpos, key),
                )[r1].0 != #[trigger] nq.push((hpos, key))[r2].0 by {
                    if r1 == nq.len() {
                        assert(nq[r2].0 != hpos);
                    } else if r2 == nq.len() {
                        assert(nq[r1].0 != hpos);
                    }
                }
            }
        } else {
            assert(x[a] == l[src(a)]);
        }
    }
    assert forall|a: int, b: int| 0 <= a < b < x.len() implies #[trigger] x[a].1.0 < #[trigger] x[b].1.0 by {
        if !reused && a == 0 {
            assert(x[b].1.0 == l[b - 1].1.0);
            assert(l[0].1.0 >= 1);
            assert(b - 1 == 0 || l[0].1.0 < l[b - 1].1.0);
        } else {
            assert(x[a].1.0 == l[src(a)].1.0);
            assert(x[b].1.0 == l[src(b)].1.0);
        }
    }
    assert forall|a: int, r: int| 0 <= a < x.len() && 0 <= r < x[a].1.1.len() implies {
        let k = #[trigger] x[a].1.1[r].1;
        &&& m3.contains_key(k)
        &&& m3[k].hfreq == x[a].0
        &&& m3[k].hpos == x[a].1.1[r].0
        &&& freqs3[k] == x[a].1.0
    } by {
        if a == 0 && r == last {
        } else {
            assert(x[a].1.1[r] == l[src(a)].1.1[r]);
            assert(m.contains_key(l[src(a)].1.1[r].1));
        }
    }
    assert forall|k: i32| #[trigger] m3.contains_key(k) implies stamps3[k] < clock + 1 by {}
    assert forall|k: i32| #[trigger] m3.contains_key(k) implies exists|a: int, r: int|
        #[trigger] placed(x, a, r, k, m3[k]) by {
        if k == key {
            assert(placed(x, 0, last, k, m3[k]));
        } else {
            let (a1, r1) = choose|a1: int, r1: int| placed(l, a1, r1, k, m[k]);
            let a = if reused { a1 } else { a1 + 1 };
            assert(x[a].1.1[r1] == l[a1].1.1[r1]);
            assert(placed(x, a, r1, k, m3[k]));
        }
    }
    assert forall|a: int, r1: int, r2: int| 0 <= a < x.len() && 0 <= r1 < r2 < x[a].1.1.len() implies stamps3[#[trigger] x[a].1.1[r1].1]
        < stamps3[#[trigger] x[a].1.1[r2].1] by {
        if a == 0 && r2 == last {
            assert(x[a].1.1[r1] == l[src(a)].1.1[r1]);
            assert(m.contains_key(l[src(a)].1.1[r1].1));
        } else {
            assert(x[a].1.1[r1] == l[src(a)].1.1[r1]);
            assert(x[a].1.1[r2] == l[src(a)].1.1[r2]);
            assert(m.contains_key(l[src(a)].1.1[r1].1));
            assert(m.contains_key(l[src(a)].1.1[r2].1));
        }
    }
}

/// Replacing the value of a record, its handles kept, keeps the ledger and
/// the index in agreement.
proof fn lemma_new_value<V>(
    l: Buckets,
    m: Map<i32, Value<V>>,
    freqs: Map<i32, nat>,
    stamps: Map<i32, nat>,
    clock: nat,
    key: i32,
    value: V,
)
    requires
        parts_ok(l, m, freqs, stamps, clock),
        m.contains_key(key),
    ensures
        parts_ok(
            l,
            m.insert(key, Value { value, hfreq: m[key].hfreq, hpos: m[key].hpos }),
            freqs,
            stamps,
            clock,
        ),
{
    let m2 = m.insert(key, Value { value, hfreq: m[key].hfreq, hpos: m[key].hpos });
    assert forall|k: i32| #[trigger] m2.contains_key(k) implies exists|a: int, r: int|
        #[trigger] placed(l, a, r, k, m2[k]) by {
        let (a, r) = choose|a: int, r: int| placed(l, a, r, k, m[k]);
        assert(placed(l, a, r, k, m2[k]));
    }
}

impl<V> View for LfuCache<V> {
    type V = Map<i32, KeyState<V>>;

    closed spec fn view(&self) -> Map<i32, KeyState<V>> {
        Map::new(
            |k: i32| self.map@.contains_key(k),
            |k: i32|
                KeyState {
                    value: self.map@[k].value,
                    freq: self.freqs@[k],
                    last_use: self.stamps@[k],
                },
        )
    }
}

impl<V> LfuCache<V> {
    /// The number of keys the cache can hold.
    pub closed spec fn cap(&self) -> nat {
        self.capacity as nat
    }

    /// The tick that the next use of a key will be stamped with.
    pub closed spec fn clock(&self) -> nat {
        self.clock@
    }

    /// The cache's internal structure is consistent.
    pub closed spec fn wf(&self) -> bool {
        &&& self.map@.len() <= self.capacity
        &&& parts_ok(
            ledger_items(self.frequencies),
            self.map@,
            self.freqs@,
            self.stamps@,
            self.clock@,
        )
    }

    /// A cache never holds more keys than its capacity.
    pub proof fn lemma_within_capacity(&self)
        requires
            self.wf(),
        ensures
            self@.dom().finite(),
            self@.len() <= self.cap(),
    {
        self.lemma_view_dom();
    }

    /// A cache of capacity zero holds no key, so every lookup misses.
    pub proof fn lemma_zero_capacity_holds_nothing(&self)
        requires
            self.wf(),
            self.cap() == 0,
        ensures
            forall|k: i32| !#[trigger] self@.contains_key(k),
    {
        self.lemma_view_dom();
        assert forall|k: i32| !#[trigger] self@.contains_key(k) by {
            if self@.contains_key(k) {
                vstd::set_lib::lemma_set_empty_equivalency_len(self@.dom());
            }
        }
    }

    /// Every key a cache holds has been used at least once, and last at a
    /// tick before its clock.
    pub proof fn lemma_uses_counted(&self)
        requires
            self.wf(),
        ensures
            forall|k: i32| #[trigger]
                self@.contains_key(k) ==> self@[k].freq >= 1 && self@[k].last_use < self.clock(),
    {
        let l = ledger_items(self.frequencies);
        assert forall|k: i32| #[trigger]
            self@.contains_key(k) implies self@[k].freq >= 1 && self@[k].last_use < self.clock() by {
            let (a, r) = choose|a: int, r: int| placed(l, a, r, k, self.map@[k]);
            assert(l[a].1.1[r].1 == k);
        }
    }

    proof fn lemma_view_dom(&self)
        ensures
            self@.dom() == self.map@.dom(),
            self@.dom().finite(),
    {
        assert(self@.dom() =~= self.map@.dom());
    }

    /// Creates an empty cache that holds at most `capacity` keys.
    pub fn new(capacity: usize) -> (r: Self)
        ensures
            r.wf(),
            r@ == Map::<i32, KeyState<V>>::empty(),
            r.cap() == capacity,
    {
        let r = LfuCache {
            map: HashMap::with_capacity(capacity),
            frequencies: ledger_new(),
            capacity,
            freqs: Ghost(Map::empty()),
            stamps: Ghost(Map::empty()),
            clock: Ghost(0),
        };
        assert(r@ =~= Map::<i32, KeyState<V>>::empty());
        r
    }

    /// Stores `value` under `key`. A key already present gets the new value
    /// and counts as used once more. A new key starts with one use; when the
    /// cache is full, the least frequently used key, the least recently used
    /// among equals, is evicted first. A cache of capacity zero stays empty.
    pub fn insert(&mut self, key: i32, value: V)
        requires
            old(self).wf(),
            old(self)@.contains_key(key) ==> old(self)@[key].freq < usize::MAX,
        ensures
            final(self).wf(),
            final(self).cap() == old(self).cap(),
            old(self).cap() == 0 ==> final(self)@ == old(self)@ && final(self).clock() == old(
                self,
            ).clock(),
            old(self).cap() > 0 ==> final(self).clock() == old(self).clock() + 1,
            old(self).cap() > 0 && old(self)@.contains_key(key) ==> final(self)@ == old(
                self,
            )@.insert(
                key,
                KeyState { value, freq: old(self)@[key].freq + 1, last_use: old(self).clock() },
            ),
            old(self).cap() > 0 && !old(self)@.contains_key(key) && old(self)@.len() < old(
                self,
            ).cap() ==> final(self)@ == old(self)@.insert(
                key,
                KeyState { value, freq: 1, last_use: old(self).clock() },
            ),
            old(self).cap() > 0 && !old(self)@.contains_key(key) && old(self)@.len() >= old(
                self,
            ).cap() ==> exists|v: i32|
                is_lfu_victim(old(self)@, v) && final(self)@ == old(self)@.remove(v).insert(
                    key,
                    KeyState { value, freq: 1, last_use: old(self).clock() },
                ),
    {
        proof {
            self.lemma_view_dom();
        }
        let ghost new_value = value;
        if self.capacity == 0 {
            return ;
        }
        if self.map.contains_key(&key) {
            self.incr_freq(key);
            proof {
                self.lemma_view_dom();
            }
            let ghost promoted_view = self@;
            let ghost m = self.map@;
            let mut vrec = match self.map.remove(&key) {
                Some(v) => v,
                None => {
                    return ;
                },
            };
            vrec.value = value;
            self.map.insert(key, vrec);
            proof {
                lemma_new_value(
                    ledger_items(self.frequencies),
                    m,
                    self.freqs@,
                    self.stamps@,
                    self.clock@,
                    key,
                    new_value,
                );
                assert(self.map@ =~= m.insert(
                    key,
                    Value { value: new_value, hfreq: m[key].hfreq, hpos: m[key].hpos },
                ));
                assert(self.map@.dom() =~= m.dom());
                assert(self@ =~= promoted_view.insert(
                    key,
                    KeyState {
                        value: new_value,
                        freq: promoted_view[key].freq,
                        last_use: promoted_view[key].last_use,
                    },
                ));
            }
            return ;
        }
        if self.map.len() >= self.capacity {
            self.remove_lfu();
        }
        let ghost evicted = self@;
        proof {
            self.lemma_view_dom();
        }
        let ghost l = ledger_items(self.frequencies);
        let ghost m = self.map@;
        let mut head: Option<HNode> = None;
        if let Some(h) = ledger_front_node(&self.frequencies) {
            assert(l[0].0 == h);
            if ledger_freq(&self.frequencies, h) == Some(1) {
                head = Some(h);
            }
        }
        let reused = head.is_some();
        let hfreq_1 = match head {
            Some(h) => h,
            None => ledger_push_front(&mut self.frequencies, 1, queue_new()),
        };
        let ghost l1 = ledger_items(self.frequencies);
        assert(l1[0].0 == hfreq_1);
        let mut queue = queue_new();
        ledger_swap_queue(&mut self.frequencies, hfreq_1, &mut queue);
        let ghost l2 = ledger_items(self.frequencies);
        assert(l2[0].0 == hfreq_1);
        let hpos = queue_push_back(&mut queue, key);
        ledger_swap_queue(&mut self.frequencies, hfreq_1, &mut queue);
        self.map.insert(key, Value { value, hfreq: hfreq_1, hpos });
        proof {
            let x = added(l, key, hfreq_1, hpos, reused);
            assert(Seq::<(HNode, i32)>::empty().push((hpos, key)) =~= seq![(hpos, key)]);
            assert(ledger_items(self.frequencies) =~= x);
            lemma_added(
                l,
                m,
                self.freqs@,
                self.stamps@,
                self.clock@,
                key,
                new_value,
                hfreq_1,
                hpos,
                reused,
            );
            let freqs3 = self.freqs@.insert(key, 1);
            let stamps3 = self.stamps@.insert(key, self.clock@);
            self.freqs@ = freqs3;
            self.stamps@ = stamps3;
            self.clock@ = self.clock@ + 1;
            assert(self.map@ =~= m.insert(key, Value { value: new_value, hfreq: hfreq_1, hpos }));
            assert(self@ =~= evicted.insert(
                key,
                KeyState { value: new_value, freq: 1, last_use: old(self).clock() },
            ));
        }
    }

    /// The value stored under `key`, or `None` when the cache does not hold
    /// it. A hit counts as a use of the key; a miss changes nothing.
    pub fn get(&mut self, key: &i32) -> (r: Option<&V>)
        requires
            old(self).wf(),
            old(self)@.contains_key(*key) ==> old(self)@[*key].freq < usize::MAX,
        ensures
            final(self).wf(),
            final(self).cap() == old(self).cap(),
            r.is_some() == old(self)@.contains_key(*key),
            r.is_none() ==> *final(self) == *old(self),
            r.is_some() ==> {
                &&& *r.unwrap() == old(self)@[*key].value
                &&& final(self).clock() == old(self).clock() + 1
                &&& final(self)@ == old(self)@.insert(
                    *key,
                    KeyState {
                        value: old(self)@[*key].value,
                        freq: old(self)@[*key].freq + 1,
                        last_use: old(self).clock(),
                    },
                )
            },
    {
        if !self.map.contains_key(key) {
            return None;
        }
        self.incr_freq(*key);
        proof {
            self.lemma_view_dom();
        }
        assert(self.map@[*key].value == self@[*key].value);
        match self.map.get(key) {
            Some(vrec) => Some(&vrec.value),
            None => None,
        }
    }

    /// Evicts the least frequently used key, the least recently used among
    /// equals: the first key of the first bucket.
    fn remove_lfu(&mut self)
        requires
            old(self).wf(),
            old(self)@.len() > 0,
        ensures
            final(self).wf(),
            final(self).cap() == old(self).cap(),
            final(self).clock() == old(self).clock(),
            exists|v: i32| is_lfu_victim(old(self)@, v) && final(self)@ == old(self)@.remove(v),
    {
        let ghost l = ledger_items(self.frequencies);
        let ghost m = self.map@;
        proof {
            self.lemma_view_dom();
            if !(exists|k: i32| m.contains_key(k)) {
                assert(m.dom() =~= Set::empty());
            }
            let k = choose|k: i32| m.contains_key(k);
            let (i, p) = choose|i: int, p: int| placed(l, i, p, k, m[k]);
            assert(l[i].1.1[p].1 == k);
        }
        let hqueue = match ledger_front_node(&self.frequencies) {
            Some(h) => h,
            None => {
                return ;
            },
        };
        assert(l[0].0 == hqueue);
        let mut queue = queue_new();
        ledger_swap_queue(&mut self.frequencies, hqueue, &mut queue);
        let ghost q = l[0].1.1;
        let ghost l1 = ledger_items(self.frequencies);
        assert(l1 == l.update(0, (hqueue, (l[0].1.0, Seq::empty()))));
        assert(l1[0].0 == hqueue);
        let ghost victim = q[0].1;
        let key = match queue_pop_front(&mut queue) {
            Some(k) => k,
            None => {
                return ;
            },
        };
        assert(key == victim);
        self.map.remove(&key);
        proof {
            assert(is_lfu_victim(old(self)@, victim)) by {
                assert forall|j: i32| #[trigger]
                    old(self)@.contains_key(j) && j != victim implies evicted_before(
                    old(self)@[victim],
                    old(self)@[j],
                ) by {
                    let (i, p) = choose|i: int, p: int| placed(l, i, p, j, m[j]);
                    assert(l[0].1.1[0].1 == victim);
                    assert(l[i].1.1[p].1 == j);
                    assert(self.freqs@[j] == l[i].1.0);
                    assert(self.freqs@[victim] == l[0].1.0);
                    if i == 0 {
                        assert(p != 0);
                        assert(self.stamps@[victim] < self.stamps@[j]);
                    } else {
                        assert(l[0].1.0 < l[i].1.0);
                    }
                }
            }
        }
        if queue_is_empty(&queue) {
            ledger_remove(&mut self.frequencies, hqueue);
            proof {
                let l2 = ledger_items(self.frequencies);
                assert(l2 =~= l.remove(0));
                assert forall|j: i32| #[trigger]
                    self.map@.contains_key(j) implies exists|i: int, p: int|
                    #[trigger] placed(l2, i, p, j, self.map@[j]) by {
                    let (i, p) = choose|i: int, p: int| placed(l, i, p, j, m[j]);
                    assert(placed(l2, i - 1, p, j, self.map@[j]));
                }
            }
        } else {
            ledger_swap_queue(&mut self.frequencies, hqueue, &mut queue);
            proof {
                let l2 = ledger_items(self.frequencies);
                assert(l2 =~= l.update(0, (hqueue, (l[0].1.0, q.drop_first()))));
                assert forall|j: i32| #[trigger]
                    self.map@.contains_key(j) implies exists|i: int, p: int|
                    #[trigger] placed(l2, i, p, j, self.map@[j]) by {
                    let (i, p) = choose|i: int, p: int| placed(l, i, p, j, m[j]);
                    if i == 0 {
                        assert(placed(l2, 0, p - 1, j, self.map@[j]));
                    } else {
                        assert(placed(l2, i, p, j, self.map@[j]));
                    }
                }
            }
        }
        proof {
            assert(self@ =~= old(self)@.remove(victim));
        }
    }
    /// Moves `key` from its bucket to the back of the bucket of the next
    /// frequency, creating that bucket right after its own if needed, and
    /// drops its old bucket if that is left empty.
    fn incr_freq(&mut self, key: i32)
        requires
            old(self).wf(),
            old(self)@.contains_key(key),
            old(self)@[key].freq < usize::MAX,
        ensures
            final(self).wf(),
            final(self).cap() == old(self).cap(),
            final(self).clock() == old(self).clock() + 1,
            final(self)@ == old(self)@.insert(
                key,
                KeyState {
                    value: old(self)@[key].value,
                    freq: old(self)@[key].freq + 1,
                    last_use: old(self).clock(),
                },
            ),
    {
        let ghost l = ledger_items(self.frequencies);
        let ghost m = self.map@;
        let ghost (i, p) = choose|i: int, p: int| placed(l, i, p, key, m[key]);
        let (hfreq, hpos) = match self.map.get(&key) {
            Some(vrec) => (vrec.hfreq, vrec.hpos),
            None => {
                return ;
            },
        };
        assert(l[i].0 == hfreq && l[i].1.1[p].0 == hpos);
        assert(l[i].1.1[p].1 == key);
        let freq = match ledger_freq(&self.frequencies, hfreq) {
            Some(f) => f,
            None => {
                return ;
            },
        };
        let mut queue = queue_new();
        ledger_swap_queue(&mut self.frequencies, hfreq, &mut queue);
        let ghost l1 = ledger_items(self.frequencies);
        assert(l1 == l.update(i, (hfreq, (freq, Seq::empty()))));
        assert(l1[i].0 == hfreq);
        assert(queue_items(queue) == l[i].1.1);
        assert(queue_items(queue)[p].0 == hpos);
        let moved = match queue_remove(&mut queue, hpos) {
            Some(k) => k,
            None => {
                return ;
            },
        };
        assert(queue_items(queue) == l[i].1.1.remove(p));
        assert forall|h: HNode| holds_handle(l, h) implies holds_handle(l1, h) by {
            let j = choose|j: int| 0 <= j < l.len() && #[trigger] l[j].0 == h;
            assert(l1[j].0 == h);
        }
        let mut joined = false;
        let mut hf2 = hfreq;
        let mut hp2 = hpos;
        let next = ledger_next_node(&self.frequencies, hfreq);
        if let Some(hnext) = next {
            assert(l1[i + 1].0 == hnext);
            let next_freq = ledger_freq(&self.frequencies, hnext);
            assert(next_freq == Some(l[i + 1].1.0));
            if next_freq == Some(freq + 1) {
                let mut next_queue = queue_new();
                ledger_swap_queue(&mut self.frequencies, hnext, &mut next_queue);
                let ghost l2 = ledger_items(self.frequencies);
                assert(l2[i + 1].0 == hnext);
                hp2 = queue_push_back(&mut next_queue, moved);
                ledger_swap_queue(&mut self.frequencies, hnext, &mut next_queue);
                hf2 = hnext;
                joined = true;
            }
        } else {
            assert(i + 1 >= l.len());
        }
        if !joined {
            let mut new_queue = queue_new();
            hp2 = queue_push_back(&mut new_queue, moved);
            hf2 = ledger_insert_after(&mut self.frequencies, hfreq, freq + 1, new_queue);
        }
        let ghost x = promoted(l, i, p, key, hf2, hp2, joined);
        let ghost l3 = ledger_items(self.frequencies);
        assert(l3 == x.update(i, (hfreq, (freq, Seq::empty()))));
        assert(l3[i].0 == hfreq);
        proof {
            lemma_promoted(
                l,
                m,
                self.freqs@,
                self.stamps@,
                self.clock@,
                i,
                p,
                key,
                hf2,
                hp2,
                joined,
            );
        }
        let ghost emptied = queue_items(queue).len() == 0;
        assert(x[i].1.1 == queue_items(queue));
        if queue_is_empty(&queue) {
            ledger_remove(&mut self.frequencies, hfreq);
            proof {
                assert(ledger_items(self.frequencies) =~= x.remove(i));
            }
        } else {
            ledger_swap_queue(&mut self.frequencies, hfreq, &mut queue);
            assert(ledger_items(self.frequencies) =~= x);
        }
        let mut vrec = match self.map.remove(&key) {
            Some(v) => v,
            None => {
                return ;
            },
        };
        vrec.hfreq = hf2;
        vrec.hpos = hp2;
        self.map.insert(key, vrec);
        proof {
            let freqs3 = self.freqs@.insert(key, (freq + 1) as nat);
            let stamps3 = self.stamps@.insert(key, self.clock@);
            let clock3 = self.clock@ + 1;
            assert(self.map@ =~= m.insert(key, Value { value: m[key].value, hfreq: hf2, hpos: hp2 }));
            if emptied {
                lemma_drop_empty_bucket(x, self.map@, freqs3, stamps3, clock3, i);
            } else {
                lemma_full_bucket(x, self.map@, freqs3, stamps3, clock3, i);
            }
            self.freqs@ = freqs3;
            self.stamps@ = stamps3;
            self.clock@ = clock3;
            assert(self.map@.len() == m.len());
            assert(self@ =~= old(self)@.insert(
                key,
                KeyState {
                    value: old(self)@[key].value,
                    freq: old(self)@[key].freq + 1,
                    last_use: old(self).clock(),
                },
            ));
        }
    }
}

} // verus!
