//! The order in which a dependency walk visits resources, and what it records and reports
//! in that order.
//!
//! The walk is breadth first: each visit queues the references it follows, in reference
//! order, and the next visit is of the first queued resource not visited yet. A walk order
//! is unique for given partitions, rules and start.
use vstd::prelude::*;
use crate::package::package_scan::MountedParts;
use crate::package::resource_ids::{hex16, normalized_rrid};
use crate::package::resource_graph::{WalkPolicy, lookup, counted, refs_of, edge, reachable, aloc_of, has_aloc, prim_of};

verus! {

/// An event in plain values: whether it reports an ALOC, the owner, the owner's data
/// type, a package file name, the ALOC or PRIM, and the ALOC's package file name.
pub type EventView = (bool, u64, Seq<char>, Seq<char>, u64, Seq<char>);

/// The ALOC events of a visit of `y`, having visited `found`, over the references `refs`,
/// in order.
pub open spec fn aloc_events(parts: MountedParts, rules: WalkPolicy, found: Set<u64>, y: u64, refs: Seq<u64>) -> Seq<EventView>
    decreases refs.len(),
{
    if refs.len() == 0 {
        Seq::empty()
    } else {
        let rest = aloc_events(parts, rules, found, y, refs.drop_last());
        let d = refs.last();
        if aloc_of(parts, rules, found, y, d) {
            rest.push((true, y, lookup(parts, y).unwrap().1, lookup(parts, y).unwrap().0, d, lookup(parts, d).unwrap().0))
        } else {
            rest
        }
    }
}

/// The events of a visit of `y`, having visited `found`: one per counted ALOC reference, in
/// reference order, then the PRIM recorded for `y`, if any.
pub open spec fn visit_events(parts: MountedParts, rules: WalkPolicy, found: Set<u64>, y: u64) -> Seq<EventView> {
    if lookup(parts, y) is Some {
        aloc_events(parts, rules, found, y, refs_of(parts, y)) + match prim_of(parts, rules, found, y) {
            Some(p) => seq![(false, y, Seq::<char>::empty(), lookup(parts, p).unwrap().0, p, Seq::<char>::empty())],
            None => Seq::empty(),
        }
    } else {
        Seq::empty()
    }
}

/// The resources visited up to and including position `k` of a visit order.
pub open spec fn visited_upto(order: Seq<u64>, k: int) -> Set<u64> {
    order.take(k + 1).to_set()
}

/// A visit order of the walk from `start`: every resource reachable from `start`, each
/// once, `start` first.
pub open spec fn is_visit_order(parts: MountedParts, rules: WalkPolicy, start: u64, order: Seq<u64>) -> bool {
    &&& order.len() > 0
    &&& order[0] == start
    &&& order.no_duplicates()
    &&& forall|y: u64| #[trigger] order.contains(y) <==> reachable(parts, rules, start, y)
}

/// The resources that visiting `order` records as owners of ALOCs: each one that, when it
/// is visited, references an ALOC the walk counts.
pub open spec fn ordered_owners(parts: MountedParts, rules: WalkPolicy, order: Seq<u64>) -> Set<u64> {
    Set::new(|y: u64| exists|k: int| 0 <= k < order.len() && #[trigger] order[k] == y && lookup(parts, y) is Some
        && has_aloc(parts, rules, visited_upto(order, k), y))
}

/// The PRIMs that visiting `order` records: for each visited resource, the PRIM the walk
/// records when it is visited.
pub open spec fn ordered_prims(parts: MountedParts, rules: WalkPolicy, order: Seq<u64>) -> Set<u64> {
    Set::new(|x: u64| exists|k: int| 0 <= k < order.len() && prim_of(parts, rules, visited_upto(order, k), #[trigger] order[k]) == Some(x))
}

/// What one more visit adds to the records of a visit order.
pub(crate) proof fn lemma_ordered_push(parts: MountedParts, rules: WalkPolicy, order: Seq<u64>, y: u64)
    ensures
        ordered_owners(parts, rules, order.push(y)) == if lookup(parts, y) is Some && has_aloc(parts, rules, order.push(y).to_set(), y) {
            ordered_owners(parts, rules, order).insert(y)
        } else {
            ordered_owners(parts, rules, order)
        },
        ordered_prims(parts, rules, order.push(y)) == match prim_of(parts, rules, order.push(y).to_set(), y) {
            Some(x) => ordered_prims(parts, rules, order).insert(x),
            None => ordered_prims(parts, rules, order),
        },
{
    let o2 = order.push(y);
    let n = order.len() as int;
    assert(o2.take(n as int + 1) =~= o2);
    assert forall|k: int| 0 <= k < n implies #[trigger] visited_upto(o2, k) == visited_upto(order, k) && o2[k] == order[k] by {
        assert(o2.take(k + 1) =~= order.take(k + 1));
    }
    assert(visited_upto(o2, n) == o2.to_set());
    assert(o2[n] == y);
    let owners2 = ordered_owners(parts, rules, o2);
    let owners1 = ordered_owners(parts, rules, order);
    let c = lookup(parts, y) is Some && has_aloc(parts, rules, o2.to_set(), y);
    assert forall|x: u64| owners2.contains(x) <==> (if c { owners1.insert(y) } else { owners1 }).contains(x) by {
        if owners2.contains(x) {
            let k = choose|k: int| 0 <= k < o2.len() && #[trigger] o2[k] == x && lookup(parts, x) is Some
                && has_aloc(parts, rules, visited_upto(o2, k), x);
            if k < n {
                assert(visited_upto(o2, k) == visited_upto(order, k) && o2[k] == order[k]);
                assert(owners1.contains(x));
            }
        }
        if owners1.contains(x) {
            let k = choose|k: int| 0 <= k < order.len() && #[trigger] order[k] == x && lookup(parts, x) is Some
                && has_aloc(parts, rules, visited_upto(order, k), x);
            assert(visited_upto(o2, k) == visited_upto(order, k) && o2[k] == order[k]);
        }
    }
    assert(owners2 =~= if c { owners1.insert(y) } else { owners1 });
    let prims2 = ordered_prims(parts, rules, o2);
    let prims1 = ordered_prims(parts, rules, order);
    let r = match prim_of(parts, rules, o2.to_set(), y) {
        Some(x) => prims1.insert(x),
        None => prims1,
    };
    assert forall|x: u64| prims2.contains(x) <==> r.contains(x) by {
        if prims2.contains(x) {
            let k = choose|k: int| 0 <= k < o2.len() && prim_of(parts, rules, visited_upto(o2, k), #[trigger] o2[k]) == Some(x);
            if k < n {
                assert(visited_upto(o2, k) == visited_upto(order, k) && o2[k] == order[k]);
                assert(prims1.contains(x));
            }
        }
        if prims1.contains(x) {
            let k = choose|k: int| 0 <= k < order.len() && prim_of(parts, rules, visited_upto(order, k), #[trigger] order[k]) == Some(x);
            assert(visited_upto(o2, k) == visited_upto(order, k) && o2[k] == order[k]);
        }
        if prim_of(parts, rules, o2.to_set(), y) == Some(x) {
            assert(prim_of(parts, rules, visited_upto(o2, n), o2[n]) == Some(x));
        }
    }
    assert(prims2 =~= r);
}

/// The resources that visiting `y` queues, in the order of its references, having
/// visited `found`: each reference of a followed type that the walk counts.
pub open spec fn pushes(parts: MountedParts, rules: WalkPolicy, found: Set<u64>, y: u64, refs: Seq<u64>) -> Seq<u64>
    decreases refs.len(),
{
    if refs.len() == 0 {
        Seq::empty()
    } else {
        let rest = pushes(parts, rules, found, y, refs.drop_last());
        if edge(parts, rules, y, refs.last()) && counted(parts, rules, found, refs.last()) {
            rest.push(normalized_rrid(refs.last()))
        } else {
            rest
        }
    }
}

/// What a visit of `y` queues, having visited `found`: nothing when `y` is not live.
pub open spec fn visit_queue(parts: MountedParts, rules: WalkPolicy, found: Set<u64>, y: u64) -> Seq<u64> {
    if lookup(parts, y) is Some {
        pushes(parts, rules, found, y, refs_of(parts, y))
    } else {
        Seq::empty()
    }
}

/// Everything the first `n` visits of `order` queue, in order.
pub open spec fn walk_stream(parts: MountedParts, rules: WalkPolicy, order: Seq<u64>, n: nat) -> Seq<u64>
    decreases n,
{
    if n == 0 {
        Seq::empty()
    } else {
        walk_stream(parts, rules, order, (n - 1) as nat)
            + visit_queue(parts, rules, visited_upto(order, n - 1), order[n - 1])
    }
}

/// The events of the first `n` visits of `order`, in order.
pub open spec fn walk_event_stream(parts: MountedParts, rules: WalkPolicy, order: Seq<u64>, n: nat) -> Seq<EventView>
    decreases n,
{
    if n == 0 {
        Seq::empty()
    } else {
        walk_event_stream(parts, rules, order, (n - 1) as nat)
            + visit_events(parts, rules, visited_upto(order, n - 1), order[n - 1])
    }
}

/// The first element of `s` that is not in `seen`.
pub open spec fn first_new(s: Seq<u64>, seen: Set<u64>) -> Option<u64>
    decreases s.len(),
{
    if s.len() == 0 {
        None
    } else if !seen.contains(s[0]) {
        Some(s[0])
    } else {
        first_new(s.drop_first(), seen)
    }
}

/// The `k`-th visit of `order` is of the first queued resource not visited before it.
pub open spec fn walk_step(parts: MountedParts, rules: WalkPolicy, order: Seq<u64>, k: int) -> bool {
    first_new(walk_stream(parts, rules, order, k as nat), order.take(k).to_set()) == Some(order[k])
}

/// `order` is the order in which the walk from `start` visits resources: `start` first,
/// then, each time, the first queued resource not visited yet, until every queued
/// resource has been visited.
pub open spec fn is_walk_order(parts: MountedParts, rules: WalkPolicy, start: u64, order: Seq<u64>) -> bool {
    &&& order.len() > 0
    &&& order[0] == start
    &&& forall|k: int| 1 <= k < order.len() ==> #[trigger] walk_step(parts, rules, order, k)
    &&& first_new(walk_stream(parts, rules, order, order.len()), order.to_set()) is None
}

/// How many references the first `n` visits of `order` look at: the references of each
/// visited resource that is live.
pub open spec fn refs_total(parts: MountedParts, order: Seq<u64>, n: nat) -> nat
    decreases n,
{
    if n == 0 {
        0
    } else {
        refs_total(parts, order, (n - 1) as nat) + if lookup(parts, order[n - 1]) is Some {
            refs_of(parts, order[n - 1]).len()
        } else {
            0
        }
    }
}

proof fn lemma_pushes_len(parts: MountedParts, rules: WalkPolicy, found: Set<u64>, y: u64, refs: Seq<u64>)
    ensures
        pushes(parts, rules, found, y, refs).len() <= refs.len(),
    decreases refs.len(),
{
    if refs.len() > 0 {
        lemma_pushes_len(parts, rules, found, y, refs.drop_last());
    }
}

/// The walk queues at most one hash per reference it looks at: what the first `n` visits
/// of an order queue is no longer than the references of the live resources they visit.
pub proof fn law_walk_queue_bound(parts: MountedParts, rules: WalkPolicy, order: Seq<u64>, n: nat)
    requires
        n <= order.len(),
    ensures
        walk_stream(parts, rules, order, n).len() <= refs_total(parts, order, n),
    decreases n,
{
    if n > 0 {
        law_walk_queue_bound(parts, rules, order, (n - 1) as nat);
        let y = order[n - 1];
        if lookup(parts, y) is Some {
            lemma_pushes_len(parts, rules, visited_upto(order, n - 1), y, refs_of(parts, y));
        }
    }
}

/// The first `n` visits queue the same whatever follows them in the order.
pub(crate) proof fn lemma_stream_prefix(parts: MountedParts, rules: WalkPolicy, o1: Seq<u64>, o2: Seq<u64>, n: nat)
    requires
        n <= o1.len(),
        n <= o2.len(),
        o1.take(n as int) == o2.take(n as int),
    ensures
        walk_stream(parts, rules, o1, n) == walk_stream(parts, rules, o2, n),
        walk_event_stream(parts, rules, o1, n) == walk_event_stream(parts, rules, o2, n),
    decreases n,
{
    if n > 0 {
        let m = (n - 1) as nat;
        assert(o1.take(m as int) =~= o1.take(n as int).take(m as int));
        assert(o2.take(m as int) =~= o2.take(n as int).take(m as int));
        lemma_stream_prefix(parts, rules, o1, o2, m);
        assert(o1.take(n as int) =~= o1.take(m as int + 1));
        assert(o1[m as int] == o1.take(n as int)[m as int]);
        assert(o2[m as int] == o2.take(n as int)[m as int]);
    }
}

/// When every element of `s` before position `c` is in `seen` and the one at `c` is not,
/// it is the first new one.
pub(crate) proof fn lemma_first_new_at(s: Seq<u64>, seen: Set<u64>, c: int)
    requires
        0 <= c < s.len(),
        forall|i: int| 0 <= i < c ==> seen.contains(#[trigger] s[i]),
        !seen.contains(s[c]),
    ensures
        first_new(s, seen) == Some(s[c]),
    decreases c,
{
    if c > 0 {
        assert(seen.contains(s[0]));
        let t = s.drop_first();
        assert forall|i: int| 0 <= i < c - 1 implies seen.contains(#[trigger] t[i]) by {
            assert(t[i] == s[i + 1]);
        }
        lemma_first_new_at(t, seen, c - 1);
    }
}

/// When every element of `s` is in `seen`, there is no new one.
pub(crate) proof fn lemma_first_new_none(s: Seq<u64>, seen: Set<u64>)
    requires
        forall|i: int| 0 <= i < s.len() ==> seen.contains(#[trigger] s[i]),
    ensures
        first_new(s, seen) is None,
    decreases s.len(),
{
    if s.len() > 0 {
        assert(seen.contains(s[0]));
        let t = s.drop_first();
        assert forall|i: int| 0 <= i < t.len() implies seen.contains(#[trigger] t[i]) by {
            assert(t[i] == s[i + 1]);
        }
        lemma_first_new_none(t, seen);
    }
}

pub(crate) proof fn lemma_walk_orders_agree(parts: MountedParts, rules: WalkPolicy, start: u64, o1: Seq<u64>, o2: Seq<u64>, k: int)
    requires
        is_walk_order(parts, rules, start, o1),
        is_walk_order(parts, rules, start, o2),
        1 <= k <= o1.len(),
        k <= o2.len(),
    ensures
        o1.take(k) == o2.take(k),
    decreases k,
{
    if k == 1 {
        assert(o1.take(1) =~= o2.take(1)) by {
            assert(o1.take(1)[0] == o1[0]);
            assert(o2.take(1)[0] == o2[0]);
        }
    } else {
        lemma_walk_orders_agree(parts, rules, start, o1, o2, k - 1);
        lemma_stream_prefix(parts, rules, o1, o2, (k - 1) as nat);
        assert(o1[k - 1] == o2[k - 1]) by {
            assert(walk_step(parts, rules, o1, k - 1));
            assert(walk_step(parts, rules, o2, k - 1));
        }
        assert(o1.take(k) =~= o2.take(k)) by {
            assert forall|i: int| 0 <= i < k implies o1.take(k)[i] == o2.take(k)[i] by {
                if i < k - 1 {
                    assert(o1.take(k)[i] == o1.take(k - 1)[i]);
                    assert(o2.take(k)[i] == o2.take(k - 1)[i]);
                }
            }
        }
    }
}

pub(crate) proof fn lemma_walk_order_not_shorter(parts: MountedParts, rules: WalkPolicy, start: u64, o1: Seq<u64>, o2: Seq<u64>)
    requires
        is_walk_order(parts, rules, start, o1),
        is_walk_order(parts, rules, start, o2),
        o1.len() <= o2.len(),
    ensures
        o1.len() == o2.len(),
{
    let n = o1.len() as int;
    if n < o2.len() {
        lemma_walk_orders_agree(parts, rules, start, o1, o2, n);
        assert(o1.take(n) =~= o1);
        lemma_stream_prefix(parts, rules, o1, o2, n as nat);
        assert(walk_step(parts, rules, o2, n));
        assert(first_new(walk_stream(parts, rules, o1, o1.len()), o1.to_set()) is None);
        assert(false);
    }
}

/// The walk from a start visits the resources in one order only: any two walk orders for
/// the same partitions, rules and start are equal.
pub proof fn law_walk_order_unique(parts: MountedParts, rules: WalkPolicy, start: u64, o1: Seq<u64>, o2: Seq<u64>)
    requires
        is_walk_order(parts, rules, start, o1),
        is_walk_order(parts, rules, start, o2),
    ensures
        o1 == o2,
{
    if o1.len() <= o2.len() {
        lemma_walk_order_not_shorter(parts, rules, start, o1, o2);
    } else {
        lemma_walk_order_not_shorter(parts, rules, start, o2, o1);
    }
    lemma_walk_orders_agree(parts, rules, start, o1, o2, o1.len() as int);
    assert(o1.take(o1.len() as int) =~= o1);
    assert(o2.take(o2.len() as int) =~= o2);
}

/// After the walk visits the first queued resource not visited yet, the queue still holds
/// what the visits queued past the consumed part, and the order is still a walk order.
pub(crate) proof fn lemma_stream_after_visit(
    parts: MountedParts,
    rules: WalkPolicy,
    order: Seq<u64>,
    y: u64,
    c: int,
    qb: Seq<String>,
    qm: Seq<String>,
    qf: Seq<String>,
)
    requires
        0 <= c < walk_stream(parts, rules, order, order.len()).len(),
        walk_stream(parts, rules, order, order.len())[c] == y,
        !order.contains(y),
        forall|i: int| 0 <= i < c ==> order.contains(#[trigger] walk_stream(parts, rules, order, order.len())[i]),
        forall|k: int| 1 <= k < order.len() ==> #[trigger] walk_step(parts, rules, order, k),
        qb.len() == walk_stream(parts, rules, order, order.len()).len() - c,
        forall|i: int| 0 <= i < qb.len() ==> #[trigger] qb[i]@ == hex16(walk_stream(parts, rules, order, order.len())[c + i]),
        qm == qb.subrange(1, qb.len() as int),
        qf.len() == qm.len() + visit_queue(parts, rules, order.push(y).to_set(), y).len(),
        qf.subrange(0, qm.len() as int) == qm,
        forall|i: int| qm.len() <= i < qf.len() ==>
            #[trigger] qf[i]@ == hex16(visit_queue(parts, rules, order.push(y).to_set(), y)[i - qm.len()]),
    ensures
        ({
            let o2 = order.push(y);
            let s2 = walk_stream(parts, rules, o2, o2.len());
            &&& c + 1 <= s2.len()
            &&& qf.len() == s2.len() - (c + 1)
            &&& forall|i: int| 0 <= i < qf.len() ==> #[trigger] qf[i]@ == hex16(s2[c + 1 + i])
            &&& forall|i: int| 0 <= i < c + 1 ==> o2.contains(#[trigger] s2[i])
            &&& forall|k: int| 1 <= k < o2.len() ==> #[trigger] walk_step(parts, rules, o2, k)
        }),
{
    let n = order.len();
    let o2 = order.push(y);
    let s = walk_stream(parts, rules, order, n);
    let v = visit_queue(parts, rules, o2.to_set(), y);
    assert(o2.take(n as int) =~= order);
    assert(order.take(n as int) =~= order);
    lemma_stream_prefix(parts, rules, o2, order, n);
    assert(o2.take(n as int + 1) =~= o2);
    assert(visited_upto(o2, n as int) == o2.to_set());
    assert(o2[n as int] == y);
    let s2 = walk_stream(parts, rules, o2, o2.len());
    assert(s2 == s + v);
    assert forall|i: int| 0 <= i < qf.len() implies #[trigger] qf[i]@ == hex16(s2[c + 1 + i]) by {
        if i < qm.len() {
            assert(qf[i] == qf.subrange(0, qm.len() as int)[i]);
            assert(qm[i] == qb[i + 1]);
            assert(qb[i + 1]@ == hex16(s[c + i + 1]));
        }
    }
    assert forall|i: int| 0 <= i < c + 1 implies o2.contains(#[trigger] s2[i]) by {
        assert(s2[i] == s[i]);
        if i < c {
            assert(order.contains(s[i]));
            let j = choose|j: int| 0 <= j < order.len() && order[j] == s[i];
            assert(o2[j] == order[j]);
        } else {
            assert(o2[n as int] == s[i]);
        }
    }
    assert forall|k: int| 1 <= k < o2.len() implies #[trigger] walk_step(parts, rules, o2, k) by {
        if k < n {
            assert(walk_step(parts, rules, order, k));
            assert(o2.take(k) =~= order.take(k));
            lemma_stream_prefix(parts, rules, o2, order, k as nat);
            assert(o2[k] == order[k]);
        } else {
            assert(o2.take(k).to_set() =~= order.to_set());
            assert forall|i: int| 0 <= i < c implies order.to_set().contains(#[trigger] s[i]) by {
                assert(order.contains(s[i]));
            }
            lemma_first_new_at(s, order.to_set(), c);
        }
    }
}

} // verus!
