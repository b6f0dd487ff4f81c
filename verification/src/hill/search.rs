//! Breadth-first search over a terrain, from a set of starting points to the
//! end node.
use crate::hill::vec2::Vec2;
use crate::hill::{adjacent, leaving_height, HillError, NodeType, Terrain};
use std::collections::VecDeque;
use vstd::prelude::*;

verus! {

pub fn in_list(v: &Vec<Vec2>, p: Vec2) -> (r: bool)
    ensures
        r == v@.contains(p),
{
    let mut i: usize = 0;
    while i < v.len()
        invariant
            i <= v.len(),
            forall|j: int| 0 <= j < i ==> v@[j] != p,
        decreases v.len() - i,
    {
        if v[i] == p {
            return true;
        }
        i += 1;
    }
    false
}

pub fn in_queue(q: &VecDeque<Vec2>, p: Vec2) -> (r: bool)
    ensures
        r == q@.contains(p),
{
    let mut i: usize = 0;
    while i < q.len()
        invariant
            i <= q.len(),
            forall|j: int| 0 <= j < i ==> q@[j] != p,
        decreases q.len() - i,
    {
        if q[i] == p {
            return true;
        }
        i += 1;
    }
    false
}

/// How many entries of `s` are still empty.
pub open spec fn unset(s: Seq<Option<Vec2>>) -> nat
    decreases s.len(),
{
    if s.len() == 0 {
        0
    } else {
        unset(s.drop_last()) + if s.last() is None {
            1nat
        } else {
            0nat
        }
    }
}

proof fn lemma_unset_update(s: Seq<Option<Vec2>>, k: int, v: Vec2)
    requires
        0 <= k < s.len(),
        s[k] is None,
    ensures
        unset(s.update(k, Some(v))) + 1 == unset(s),
    decreases s.len(),
{
    if k == s.len() - 1 {
        assert(s.update(k, Some(v)).drop_last() =~= s.drop_last());
    } else {
        lemma_unset_update(s.drop_last(), k, v);
        assert(s.update(k, Some(v)).drop_last() =~= s.drop_last().update(k, Some(v)));
    }
}

/// A point is labelled when the search began with it or has recorded from
/// where it was reached.
pub open spec fn labelled(
    map: &Terrain,
    initial: Seq<Vec2>,
    came_from: Seq<Option<Vec2>>,
    p: Vec2,
) -> bool {
    initial.contains(p) || (map.inside(p) && came_from[map.index_of(p)] is Some)
}

/// What the search has recorded is a forest rooted in the initial points:
/// each recorded predecessor was visited, may step to its successor, and was
/// labelled earlier.
pub open spec fn forest(
    map: &Terrain,
    initial: Seq<Vec2>,
    visited: Seq<bool>,
    came_from: Seq<Option<Vec2>>,
    rank: Seq<nat>,
) -> bool {
    &&& map.well_formed()
    &&& visited.len() == map.nodes.len()
    &&& came_from.len() == map.nodes.len()
    &&& rank.len() == map.nodes.len()
    &&& forall|p: Vec2|
        map.inside(p) && #[trigger] visited[map.index_of(p)] ==> labelled(
            map,
            initial,
            came_from,
            p,
        )
    &&& forall|p: Vec2|
        map.inside(p) && (#[trigger] came_from[map.index_of(p)]) is Some ==> {
            let from = came_from[map.index_of(p)].unwrap();
            &&& map.inside(from)
            &&& visited[map.index_of(from)]
            &&& map.can_step(from, p)
            &&& rank[map.index_of(from)] + 1 == rank[map.index_of(p)]
        }
    &&& forall|p: Vec2|
        map.inside(p) && #[trigger] visited[map.index_of(p)] ==> leaving_height(
            map.nodes@[map.index_of(p)],
        ) is Some
}

/// The rank of a point: the number of steps in which the search came to it.
pub open spec fn rank_of(map: &Terrain, rank: Seq<nat>, p: Vec2) -> nat {
    if map.inside(p) {
        rank[map.index_of(p)]
    } else {
        0
    }
}

/// The search goes level by level. The queue begins with the initial points
/// that were not yet taken from it, `popped` of them were; the points after
/// them were reached from others. Initial points have rank 0 and are not
/// reached from others. The visited points have rank `cur` at most, the
/// queued ones `cur` or one more, in rising order.
pub open spec fn levels(
    map: &Terrain,
    initial: Seq<Vec2>,
    visited: Seq<bool>,
    came_from: Seq<Option<Vec2>>,
    queue: Seq<Vec2>,
    rank: Seq<nat>,
    cur: nat,
    popped: int,
) -> bool {
    &&& 0 <= popped <= initial.len()
    &&& initial.len() - popped <= queue.len()
    &&& forall|i: int| 0 <= i < initial.len() - popped ==> #[trigger] queue[i] == initial[popped + i]
    &&& forall|i: int|
        initial.len() - popped <= i < queue.len() ==> map.inside(#[trigger] queue[i])
            && came_from[map.index_of(queue[i])] is Some
    &&& forall|j: int|
        0 <= j < popped ==> map.inside(#[trigger] initial[j]) && visited[map.index_of(initial[j])]
    &&& forall|j: int|
        0 <= j < initial.len() && map.inside(#[trigger] initial[j]) ==> rank[map.index_of(
            initial[j],
        )] == 0 && came_from[map.index_of(initial[j])] is None
    &&& forall|p: Vec2| map.inside(p) && #[trigger] visited[map.index_of(p)] ==> rank[map.index_of(p)] <= cur
    &&& forall|i: int| 0 <= i < queue.len() ==> cur <= rank_of(map, rank, #[trigger] queue[i]) <= cur + 1
    &&& forall|i: int, j: int|
        0 <= i <= j < queue.len() ==> rank_of(map, rank, #[trigger] queue[i]) <= rank_of(
            map,
            rank,
            #[trigger] queue[j],
        )
    &&& popped < initial.len() ==> cur == 0
}

/// Every step from `v` leads to a labelled point of a rank at most one
/// higher.
pub open spec fn closed_at(
    map: &Terrain,
    initial: Seq<Vec2>,
    came_from: Seq<Option<Vec2>>,
    rank: Seq<nat>,
    v: Vec2,
) -> bool {
    forall|b: Vec2| #[trigger]
        map.can_step(v, b) ==> labelled(map, initial, came_from, b) && rank[map.index_of(b)]
            <= rank[map.index_of(v)] + 1
}

/// Every visited point but the one in work is closed.
pub open spec fn closed(
    map: &Terrain,
    initial: Seq<Vec2>,
    visited: Seq<bool>,
    came_from: Seq<Option<Vec2>>,
    rank: Seq<nat>,
    pending: Option<Vec2>,
) -> bool {
    forall|v: Vec2|
        map.inside(v) && #[trigger] visited[map.index_of(v)] && Some(v) != pending ==> closed_at(
            map,
            initial,
            came_from,
            rank,
            v,
        )
}

/// A walk: each of its points may step to the next.
pub open spec fn is_walk(map: &Terrain, w: Seq<Vec2>) -> bool {
    &&& w.len() > 0
    &&& forall|i: int| 0 <= i < w.len() - 1 ==> map.can_step(#[trigger] w[i], w[i + 1])
}

/// A walk from one of the initial points to `target`.
pub open spec fn leads_to(map: &Terrain, initial: Seq<Vec2>, w: Seq<Vec2>, target: Vec2) -> bool {
    is_walk(map, w) && initial.contains(w[0]) && w.last() == target
}

/// Among the initial points, one that is off the map comes before any that
/// is an end node.
pub open spec fn falls_off(map: &Terrain, initial: Seq<Vec2>) -> bool {
    exists|j: int|
        0 <= j < initial.len() && !map.inside(#[trigger] initial[j]) && forall|i: int|
            0 <= i < j ==> map.inside(#[trigger] initial[i]) && map.nodes@[map.index_of(initial[i])]
                != NodeType::End
}

/// What holds when the search stops at the end node `e1` of rank `k`: each
/// labelled point was visited, waits in the queue, or is `e1`; and no
/// labelled point has a rank above `k + 1`.
pub open spec fn stopped(
    map: &Terrain,
    initial: Seq<Vec2>,
    visited: Seq<bool>,
    came_from: Seq<Option<Vec2>>,
    queue: Seq<Vec2>,
    rank: Seq<nat>,
    e1: Vec2,
    k: nat,
) -> bool {
    &&& map.inside(e1)
    &&& map.nodes@[map.index_of(e1)] == NodeType::End
    &&& rank[map.index_of(e1)] == k
    &&& labelled(map, initial, came_from, e1)
    &&& forall|j: int|
        0 <= j < initial.len() && map.inside(#[trigger] initial[j]) ==> rank[map.index_of(
            initial[j],
        )] == 0
    &&& forall|p: Vec2|
        #![trigger labelled(map, initial, came_from, p)]
        labelled(map, initial, came_from, p) && map.inside(p) ==> p == e1 || (visited[map.index_of(
            p,
        )] && rank[map.index_of(p)] <= k) || (k <= rank[map.index_of(p)] <= k + 1)
    &&& closed(map, initial, visited, came_from, rank, None)
}

/// Every point in the queue is labelled, and every point reached from
/// another was visited or waits in the queue.
pub open spec fn frontier(
    map: &Terrain,
    initial: Seq<Vec2>,
    visited: Seq<bool>,
    came_from: Seq<Option<Vec2>>,
    queue: Seq<Vec2>,
) -> bool {
    &&& forall|i: int| 0 <= i < queue.len() ==> labelled(map, initial, came_from, #[trigger] queue[i])
    &&& forall|p: Vec2|
        map.inside(p) && (#[trigger] came_from[map.index_of(p)]) is Some ==> visited[map.index_of(
            p,
        )] || queue.contains(p)
}

fn filled<T: Copy>(value: T, n: usize) -> (v: Vec<T>)
    ensures
        v@.len() == n,
        forall|i: int| 0 <= i < n ==> v@[i] == value,
{
    let mut v: Vec<T> = Vec::new();
    while v.len() < n
        invariant
            v@.len() <= n,
            forall|i: int| 0 <= i < v@.len() ==> v@[i] == value,
        decreases n - v@.len(),
    {
        v.push(value);
    }
    v
}

/// An initial point was visited or waits in the queue.
proof fn lemma_initial_waits(
    map: &Terrain,
    initial: Seq<Vec2>,
    visited: Seq<bool>,
    came_from: Seq<Option<Vec2>>,
    queue: Seq<Vec2>,
    rank: Seq<nat>,
    cur: nat,
    popped: int,
    p: Vec2,
)
    requires
        levels(map, initial, visited, came_from, queue, rank, cur, popped),
        initial.contains(p),
    ensures
        queue.contains(p) || (map.inside(p) && visited[map.index_of(p)]),
{
    let j = choose|j: int| 0 <= j < initial.len() && initial[j] == p;
    if j >= popped {
        assert(queue[j - popped] == initial[popped + (j - popped)]);
    } else {
        assert(map.inside(initial[j]));
    }
}

/// Looks at the neighbour `p` of the point being visited and, where the
/// search may go there and has not yet, records the step and queues `p`.
fn consider(
    map: &Terrain,
    initial: &Vec<Vec2>,
    visited: &Vec<bool>,
    came_from: &mut Vec<Option<Vec2>>,
    to_visit: &mut VecDeque<Vec2>,
    rank: Ghost<Seq<nat>>,
    Ghost(cur): Ghost<nat>,
    Ghost(popped): Ghost<int>,
    visiting: Vec2,
    h: usize,
    p: Vec2,
) -> (ranked: Ghost<Seq<nat>>)
    requires
        forest(map, initial@, visited@, old(came_from)@, rank@),
        frontier(map, initial@, visited@, old(came_from)@, old(to_visit)@),
        levels(map, initial@, visited@, old(came_from)@, old(to_visit)@, rank@, cur, popped),
        closed(map, initial@, visited@, old(came_from)@, rank@, Some(visiting)),
        map.inside(visiting),
        visited@[map.index_of(visiting)],
        rank@[map.index_of(visiting)] == cur,
        leaving_height(map.nodes@[map.index_of(visiting)]) == Some(h as int),
        adjacent(visiting, p),
    ensures
        forest(map, initial@, visited@, final(came_from)@, ranked@),
        frontier(map, initial@, visited@, final(came_from)@, final(to_visit)@),
        levels(map, initial@, visited@, final(came_from)@, final(to_visit)@, ranked@, cur, popped),
        closed(map, initial@, visited@, final(came_from)@, ranked@, Some(visiting)),
        unset(final(came_from)@) + final(to_visit)@.len() == unset(old(came_from)@) + old(
            to_visit,
        )@.len(),
        ranked@[map.index_of(visiting)] == cur,
        map.can_step(visiting, p) ==> labelled(map, initial@, final(came_from)@, p)
            && ranked@[map.index_of(p)] <= cur + 1,
        forall|q: Vec2| #[trigger]
            labelled(map, initial@, old(came_from)@, q) ==> labelled(
                map,
                initial@,
                final(came_from)@,
                q,
            ) && rank_of(map, ranked@, q) == rank_of(map, rank@, q),
{
    let k = match map.offset(p) {
        Some(k) => k,
        None => {
            return rank;
        },
    };
    if visited[k] {
        return rank;
    }
    if in_queue(to_visit, p) {
        proof {
            let i = choose|i: int| 0 <= i < to_visit@.len() && to_visit@[i] == p;
            assert(labelled(map, initial@, came_from@, to_visit@[i]));
            assert(rank_of(map, rank@, to_visit@[i]) <= cur + 1);
        }
        return rank;
    }
    let open = match map.nodes[k] {
        NodeType::Start => false,
        NodeType::End => h >= 24,
        NodeType::Step(height) => height <= h || height - 1 == h,
    };
    if !open {
        return rank;
    }
    let ghost before = came_from@;
    let ghost queue_before = to_visit@;
    proof {
        map.lemma_index(visiting, visiting);
        assert(before[k as int] is None);
        if initial@.contains(p) {
            lemma_initial_waits(
                map,
                initial@,
                visited@,
                before,
                queue_before,
                rank@,
                cur,
                popped,
                p,
            );
        }
        assert(!labelled(map, initial@, before, p));
        lemma_unset_update(before, k as int, visiting);
    }
    came_from[k] = Some(visiting);
    to_visit.push_back(p);
    let ghost ranked = rank@.update(k as int, cur + 1);
    proof {
        assert(came_from@ == before.update(k as int, Some(visiting)));
        assert(to_visit@.last() == p);
        assert forall|q: Vec2| map.inside(q) implies (map.index_of(q) == k <==> q == p) && 0
            <= map.index_of(q) < map.nodes.len() by {
            map.lemma_index(q, p);
        }
        assert forall|q: Vec2| #[trigger]
            labelled(map, initial@, before, q) implies labelled(map, initial@, came_from@, q)
            && rank_of(map, ranked, q) == rank_of(map, rank@, q) by {}
        // the forest
        assert forall|q: Vec2|
            map.inside(q) && (#[trigger] came_from@[map.index_of(q)]) is Some implies {
            let from = came_from@[map.index_of(q)].unwrap();
            &&& map.inside(from)
            &&& visited@[map.index_of(from)]
            &&& map.can_step(from, q)
            &&& ranked[map.index_of(from)] + 1 == ranked[map.index_of(q)]
        } by {
            if q == p {
            } else {
                assert(before[map.index_of(q)] is Some);
                let from = before[map.index_of(q)].unwrap();
                map.lemma_index(from, from);
            }
        }
        assert forall|q: Vec2| map.inside(q) && #[trigger] visited@[map.index_of(q)] implies labelled(
            map,
            initial@,
            came_from@,
            q,
        ) by {
            assert(labelled(map, initial@, before, q));
        }
        // the frontier
        assert forall|i: int| 0 <= i < to_visit@.len() implies labelled(
            map,
            initial@,
            came_from@,
            #[trigger] to_visit@[i],
        ) by {
            if i < queue_before.len() {
                assert(labelled(map, initial@, before, queue_before[i]));
            }
        }
        assert forall|q: Vec2|
            map.inside(q) && (#[trigger] came_from@[map.index_of(q)]) is Some implies visited@[map.index_of(
            q,
        )] || to_visit@.contains(q) by {
            if q == p {
                assert(to_visit@[to_visit@.len() - 1] == p);
            } else {
                assert(before[map.index_of(q)] is Some);
                if queue_before.contains(q) {
                    let i = choose|i: int| 0 <= i < queue_before.len() && queue_before[i] == q;
                    assert(to_visit@[i] == q);
                }
            }
        }
        // the levels
        assert forall|i: int| 0 <= i < to_visit@.len() implies cur <= rank_of(
            map,
            ranked,
            #[trigger] to_visit@[i],
        ) <= cur + 1 by {
            if i < queue_before.len() {
                assert(rank_of(map, rank@, queue_before[i]) <= cur + 1);
                assert(labelled(map, initial@, before, queue_before[i]));
            }
        }
        assert forall|i: int, j: int| 0 <= i <= j < to_visit@.len() implies rank_of(
            map,
            ranked,
            #[trigger] to_visit@[i],
        ) <= rank_of(map, ranked, #[trigger] to_visit@[j]) by {
            if i < queue_before.len() {
                assert(labelled(map, initial@, before, queue_before[i]));
            }
            if j < queue_before.len() {
                assert(labelled(map, initial@, before, queue_before[j]));
                assert(rank_of(map, rank@, queue_before[i]) <= rank_of(
                    map,
                    rank@,
                    queue_before[j],
                ));
            }
        }
        assert forall|j: int| 0 <= j < initial@.len() && map.inside(
            #[trigger] initial@[j],
        ) implies ranked[map.index_of(initial@[j])] == 0 && came_from@[map.index_of(initial@[j])]
            is None by {
            assert(initial@.contains(initial@[j]));
        }
        assert forall|i: int| initial@.len() - popped <= i < to_visit@.len() implies map.inside(
            #[trigger] to_visit@[i],
        ) && came_from@[map.index_of(to_visit@[i])] is Some by {
            if i < queue_before.len() {
                assert(map.inside(queue_before[i]));
            }
        }
        assert forall|i: int| 0 <= i < initial@.len() - popped implies #[trigger] to_visit@[i]
            == initial@[popped + i] by {
            assert(queue_before[i] == initial@[popped + i]);
        }
        // closure
        assert forall|v: Vec2|
            map.inside(v) && #[trigger] visited@[map.index_of(v)] && Some(v) != Some(
                visiting,
            ) implies closed_at(map, initial@, came_from@, ranked, v) by {
            assert(closed_at(map, initial@, before, rank@, v));
            assert forall|b: Vec2| #[trigger] map.can_step(v, b) implies labelled(
                map,
                initial@,
                came_from@,
                b,
            ) && ranked[map.index_of(b)] <= ranked[map.index_of(v)] + 1 by {
                assert(labelled(map, initial@, before, b));
                assert(labelled(map, initial@, before, v));
            }
        }
    }
    Ghost(ranked)
}

/// While the search lasts, a walk stays among the visited points.
proof fn lemma_walk_is_visited(
    map: &Terrain,
    initial: Seq<Vec2>,
    visited: Seq<bool>,
    came_from: Seq<Option<Vec2>>,
    rank: Seq<nat>,
    cur: nat,
    w: Seq<Vec2>,
    i: int,
)
    requires
        forest(map, initial, visited, came_from, rank),
        frontier(map, initial, visited, came_from, seq![]),
        levels(map, initial, visited, came_from, seq![], rank, cur, initial.len() as int),
        closed(map, initial, visited, came_from, rank, None),
        is_walk(map, w),
        initial.contains(w[0]),
        0 <= i < w.len(),
    ensures
        map.inside(w[i]),
        visited[map.index_of(w[i])],
    decreases i,
{
    if i == 0 {
        let j = choose|j: int| 0 <= j < initial.len() && initial[j] == w[0];
        assert(map.inside(initial[j]));
    } else {
        lemma_walk_is_visited(map, initial, visited, came_from, rank, cur, w, i - 1);
        assert(map.can_step(w[i - 1], w[i]));
        assert(closed_at(map, initial, came_from, rank, w[i - 1]));
        assert(labelled(map, initial, came_from, w[i]));
        if initial.contains(w[i]) {
            let j = choose|j: int| 0 <= j < initial.len() && initial[j] == w[i];
            assert(map.inside(initial[j]));
        } else {
            assert(!Seq::<Vec2>::empty().contains(w[i]));
        }
    }
}

/// Once the search has stopped at an end node of rank `k`, the point that a
/// walk comes to after `i` steps is labelled with a rank of `i` at most,
/// unless the walk is longer than `k` steps.
proof fn lemma_no_shorter_walk(
    map: &Terrain,
    initial: Seq<Vec2>,
    visited: Seq<bool>,
    came_from: Seq<Option<Vec2>>,
    queue: Seq<Vec2>,
    rank: Seq<nat>,
    e1: Vec2,
    k: nat,
    w: Seq<Vec2>,
    i: int,
)
    requires
        forest(map, initial, visited, came_from, rank),
        stopped(map, initial, visited, came_from, queue, rank, e1, k),
        is_walk(map, w),
        initial.contains(w[0]),
        0 <= i < w.len(),
    ensures
        i > k || (labelled(map, initial, came_from, w[i]) && rank_of(map, rank, w[i]) <= i),
    decreases i,
{
    if i == 0 {
        let j = choose|j: int| 0 <= j < initial.len() && initial[j] == w[0];
        assert(initial[j] == w[0]);
    } else {
        lemma_no_shorter_walk(map, initial, visited, came_from, queue, rank, e1, k, w, i - 1);
        if i - 1 <= k {
            let v = w[i - 1];
            assert(map.can_step(v, w[i]));
            assert(labelled(map, initial, came_from, v));
            if v == e1 {
                assert(false);
            } else if visited[map.index_of(v)] {
                assert(closed_at(map, initial, came_from, rank, v));
            } else {
                assert(rank[map.index_of(v)] >= k);
            }
        }
    }
}

/// Searches breadth first from the points of `initial_set`, in their order,
/// until an end node is taken from the queue, and follows the recorded steps
/// back from the marked end of the map. The path leads back from the end to
/// the point after an initial one, and no walk from an initial point to the
/// end is shorter.
pub fn solve(map: &Terrain, initial_set: Vec<Vec2>) -> (r: Result<Vec<Vec2>, HillError>)
    requires
        map.well_formed(),
    ensures
        match r {
            Ok(path) => {
                &&& exists|src: Vec2| initial_set@.contains(src) && map.is_route(src, path@)
                &&& forall|w: Seq<Vec2>| #[trigger]
                    leads_to(map, initial_set@, w, map.end) ==> path@.len() < w.len()
            },
            Err(HillError::OffMap) => falls_off(map, initial_set@),
            Err(HillError::NoRoute) => {
                &&& !falls_off(map, initial_set@)
                &&& forall|w: Seq<Vec2>, t: Vec2| #[trigger]
                    leads_to(map, initial_set@, w, t) ==> map.node_at(t) != Some(NodeType::End)
            },
            Err(HillError::EndNotReached) => {
                &&& !falls_off(map, initial_set@)
                &&& exists|p: Vec2|
                    map.inside(p) && #[trigger] map.node_at(p) == Some(NodeType::End) && p
                        != map.end
            },
            Err(HillError::InvalidNode(_)) => false,
        },
{
    let n = map.nodes.len();
    let mut visited: Vec<bool> = filled(false, n);
    let mut came_from: Vec<Option<Vec2>> = filled(None, n);
    let mut to_visit: VecDeque<Vec2> = VecDeque::new();
    let ghost mut rank: Seq<nat> = Seq::new(n as nat, |i: int| 0nat);
    let ghost mut cur: nat = 0;
    let ghost mut popped: int = 0;
    let ghost mut e1: Vec2 = map.end;
    let mut i: usize = 0;
    while i < initial_set.len()
        invariant
            i <= initial_set.len(),
            to_visit@ == initial_set@.take(i as int),
        decreases initial_set.len() - i,
    {
        to_visit.push_back(initial_set[i]);
        assert(initial_set@.take(i + 1) =~= initial_set@.take(i as int).push(initial_set@[i as int]));
        i += 1;
    }
    assert(to_visit@ =~= initial_set@);
    proof {
        assert forall|p: Vec2| map.inside(p) implies !(#[trigger] visited@[map.index_of(p)])
            && rank[map.index_of(p)] == 0 by {
            map.lemma_index(p, p);
        }
        assert forall|p: Vec2| map.inside(p) implies (#[trigger] came_from@[map.index_of(p)])
            is None by {
            map.lemma_index(p, p);
        }
        assert forall|i: int| 0 <= i < to_visit@.len() implies labelled(
            map,
            initial_set@,
            came_from@,
            #[trigger] to_visit@[i],
        ) by {
            assert(initial_set@[i] == to_visit@[i]);
        }
        assert forall|i: int| 0 <= i < to_visit@.len() implies rank_of(
            map,
            rank,
            #[trigger] to_visit@[i],
        ) == 0 by {
            if map.inside(to_visit@[i]) {
                map.lemma_index(to_visit@[i], to_visit@[i]);
            }
        }
    }
    loop
        invariant_except_break
            frontier(map, initial_set@, visited@, came_from@, to_visit@),
            levels(map, initial_set@, visited@, came_from@, to_visit@, rank, cur, popped),
            closed(map, initial_set@, visited@, came_from@, rank, None),
        invariant
            forest(map, initial_set@, visited@, came_from@, rank),
        ensures
            forest(map, initial_set@, visited@, came_from@, rank),
            stopped(map, initial_set@, visited@, came_from@, to_visit@, rank, e1, cur),
            !falls_off(map, initial_set@),
        decreases unset(came_from@) + to_visit@.len(),
    {
        let ghost queue_before = to_visit@;
        let visiting = match to_visit.pop_front() {
            Some(v) => v,
            None => {
                proof {
                    assert(popped == initial_set@.len());
                    assert(to_visit@ =~= seq![]);
                    assert(!falls_off(map, initial_set@));
                    assert forall|w: Seq<Vec2>, t: Vec2| #[trigger]
                        leads_to(map, initial_set@, w, t) implies map.node_at(t) != Some(
                        NodeType::End,
                    ) by {
                        lemma_walk_is_visited(
                            map,
                            initial_set@,
                            visited@,
                            came_from@,
                            rank,
                            cur,
                            w,
                            w.len() - 1,
                        );
                    }
                }
                return Err(HillError::NoRoute);
            },
        };
        let ghost was_initial = popped < initial_set@.len();
        proof {
            assert(visiting == queue_before[0]);
            assert(labelled(map, initial_set@, came_from@, queue_before[0]));
            if was_initial {
                assert(queue_before[0] == initial_set@[popped + 0]);
            }
        }
        let k = match map.offset(visiting) {
            Some(k) => k,
            None => {
                proof {
                    if !was_initial {
                        assert(map.inside(queue_before[0]));
                    }
                    assert forall|i: int| 0 <= i < popped implies map.inside(
                        #[trigger] initial_set@[i],
                    ) && map.nodes@[map.index_of(initial_set@[i])] != NodeType::End by {
                        assert(visited@[map.index_of(initial_set@[i])]);
                    }
                    assert(!map.inside(initial_set@[popped]));
                }
                return Err(HillError::OffMap);
            },
        };
        proof {
            assert forall|i: int| 0 <= i < popped implies map.inside(#[trigger] initial_set@[i])
                && map.nodes@[map.index_of(initial_set@[i])] != NodeType::End by {
                assert(visited@[map.index_of(initial_set@[i])]);
            }
            assert forall|q: Vec2| map.inside(q) implies (map.index_of(q) == k <==> q == visiting)
                && 0 <= map.index_of(q) < map.nodes.len() by {
                map.lemma_index(q, visiting);
            }
        }
        let h: usize = match map.nodes[k] {
            NodeType::Start => 0,
            NodeType::End => {
                proof {
                    let level = rank[k as int];
                    assert(cur <= rank_of(map, rank, queue_before[0]) <= cur + 1);
                    assert forall|p: Vec2|
                        #![trigger labelled(map, initial_set@, came_from@, p)]
                        labelled(map, initial_set@, came_from@, p) && map.inside(p) implies p
                        == visiting || (visited@[map.index_of(p)] && rank[map.index_of(p)] <= level)
                        || (level <= rank[map.index_of(p)] <= level + 1) by {
                        if p != visiting && !visited@[map.index_of(p)] {
                            if initial_set@.contains(p) {
                                lemma_initial_waits(
                                    map,
                                    initial_set@,
                                    visited@,
                                    came_from@,
                                    queue_before,
                                    rank,
                                    cur,
                                    popped,
                                    p,
                                );
                            }
                            assert(queue_before.contains(p));
                            let i = choose|i: int| 0 <= i < queue_before.len() && queue_before[i] == p;
                            assert(rank_of(map, rank, queue_before[0]) <= rank_of(
                                map,
                                rank,
                                queue_before[i],
                            ));
                            assert(rank_of(map, rank, queue_before[i]) <= cur + 1);
                        }
                    }
                    assert(!falls_off(map, initial_set@)) by {
                        if falls_off(map, initial_set@) {
                            let j = choose|j: int|
                                0 <= j < initial_set@.len() && !map.inside(
                                    #[trigger] initial_set@[j],
                                ) && forall|i: int|
                                    0 <= i < j ==> map.inside(#[trigger] initial_set@[i])
                                        && map.nodes@[map.index_of(initial_set@[i])]
                                        != NodeType::End;
                            if j < popped {
                                assert(map.inside(initial_set@[j]));
                            } else {
                                assert(was_initial);
                                if j > popped {
                                    assert(map.nodes@[map.index_of(initial_set@[popped])]
                                        != NodeType::End);
                                }
                            }
                        }
                    }
                    e1 = visiting;
                    cur = level;
                }
                break ;
            },
            NodeType::Step(h) => h,
        };
        let ghost visited_before = visited@;
        let ghost level = rank[k as int];
        let ghost cur_before = cur;
        visited[k] = true;
        proof {
            assert(cur_before <= rank_of(map, rank, queue_before[0]) <= cur_before + 1);
            if was_initial {
                popped = popped + 1;
            }
            cur = level;
            // the forest
            assert forall|q: Vec2|
                map.inside(q) && (#[trigger] came_from@[map.index_of(q)]) is Some implies {
                let from = came_from@[map.index_of(q)].unwrap();
                &&& map.inside(from)
                &&& visited@[map.index_of(from)]
                &&& map.can_step(from, q)
                &&& rank[map.index_of(from)] + 1 == rank[map.index_of(q)]
            } by {
                let from = came_from@[map.index_of(q)].unwrap();
                assert(visited_before[map.index_of(from)]);
            }
            assert forall|q: Vec2| map.inside(q) && #[trigger] visited@[map.index_of(q)] implies labelled(
                map,
                initial_set@,
                came_from@,
                q,
            ) && leaving_height(map.nodes@[map.index_of(q)]) is Some by {
                if q != visiting {
                    assert(visited_before[map.index_of(q)]);
                }
            }
            // the frontier
            assert forall|i: int| 0 <= i < to_visit@.len() implies labelled(
                map,
                initial_set@,
                came_from@,
                #[trigger] to_visit@[i],
            ) by {
                assert(to_visit@[i] == queue_before[i + 1]);
            }
            assert forall|q: Vec2|
                map.inside(q) && (#[trigger] came_from@[map.index_of(q)]) is Some implies visited@[map.index_of(
                q,
            )] || to_visit@.contains(q) by {
                if q != visiting && !visited_before[map.index_of(q)] {
                    let i = choose|i: int| 0 <= i < queue_before.len() && queue_before[i] == q;
                    assert(to_visit@[i - 1] == q);
                }
            }
            // the levels
            assert forall|i: int| 0 <= i < initial_set@.len() - popped implies #[trigger] to_visit@[i]
                == initial_set@[popped + i] by {
                assert(to_visit@[i] == queue_before[i + 1]);
            }
            assert forall|i: int| initial_set@.len() - popped <= i < to_visit@.len() implies map.inside(
                #[trigger] to_visit@[i],
            ) && came_from@[map.index_of(to_visit@[i])] is Some by {
                assert(to_visit@[i] == queue_before[i + 1]);
            }
            assert forall|j: int| 0 <= j < popped implies map.inside(#[trigger] initial_set@[j])
                && visited@[map.index_of(initial_set@[j])] by {
                if was_initial && j == popped - 1 {
                } else {
                    assert(visited_before[map.index_of(initial_set@[j])]);
                }
            }
            assert forall|q: Vec2| map.inside(q) && #[trigger] visited@[map.index_of(q)] implies rank[map.index_of(
                q,
            )] <= cur by {
                if q != visiting {
                    assert(visited_before[map.index_of(q)]);
                }
            }
            assert forall|i: int| 0 <= i < to_visit@.len() implies cur <= rank_of(
                map,
                rank,
                #[trigger] to_visit@[i],
            ) <= cur + 1 by {
                assert(to_visit@[i] == queue_before[i + 1]);
                assert(rank_of(map, rank, queue_before[0]) <= rank_of(
                    map,
                    rank,
                    queue_before[i + 1],
                ));
                assert(rank_of(map, rank, queue_before[i + 1]) <= cur_before + 1);
            }
            assert forall|i: int, j: int| 0 <= i <= j < to_visit@.len() implies rank_of(
                map,
                rank,
                #[trigger] to_visit@[i],
            ) <= rank_of(map, rank, #[trigger] to_visit@[j]) by {
                assert(to_visit@[i] == queue_before[i + 1]);
                assert(to_visit@[j] == queue_before[j + 1]);
                assert(rank_of(map, rank, queue_before[i + 1]) <= rank_of(
                    map,
                    rank,
                    queue_before[j + 1],
                ));
            }
            if popped < initial_set@.len() {
                assert(was_initial);
                assert(initial_set@.contains(visiting));
            }
            // closure
            assert forall|v: Vec2|
                map.inside(v) && #[trigger] visited@[map.index_of(v)] && Some(v) != Some(
                    visiting,
                ) implies closed_at(map, initial_set@, came_from@, rank, v) by {
                assert(visited_before[map.index_of(v)]);
            }
        }
        let right = Vec2::new(visiting.x + 1, visiting.y);
        let down = Vec2::new(visiting.x, visiting.y - 1);
        let up = Vec2::new(visiting.x, visiting.y + 1);
        let left = Vec2::new(visiting.x - 1, visiting.y);
        let ghost c0 = came_from@;
        let r1 = consider(
            map,
            &initial_set,
            &visited,
            &mut came_from,
            &mut to_visit,
            Ghost(rank),
            Ghost(cur),
            Ghost(popped),
            visiting,
            h,
            right,
        );
        let ghost c1 = came_from@;
        let r2 = consider(
            map,
            &initial_set,
            &visited,
            &mut came_from,
            &mut to_visit,
            r1,
            Ghost(cur),
            Ghost(popped),
            visiting,
            h,
            down,
        );
        let ghost c2 = came_from@;
        let r3 = consider(
            map,
            &initial_set,
            &visited,
            &mut came_from,
            &mut to_visit,
            r2,
            Ghost(cur),
            Ghost(popped),
            visiting,
            h,
            up,
        );
        let ghost c3 = came_from@;
        let r4 = consider(
            map,
            &initial_set,
            &visited,
            &mut came_from,
            &mut to_visit,
            r3,
            Ghost(cur),
            Ghost(popped),
            visiting,
            h,
            left,
        );
        proof {
            rank = r4@;
            assert(closed_at(map, initial_set@, came_from@, rank, visiting)) by {
                assert forall|b: Vec2| #[trigger] map.can_step(visiting, b) implies labelled(
                    map,
                    initial_set@,
                    came_from@,
                    b,
                ) && rank[map.index_of(b)] <= rank[map.index_of(visiting)] + 1 by {
                    assert(b == right || b == down || b == up || b == left);
                    if b == right {
                        assert(labelled(map, initial_set@, c1, b));
                        assert(labelled(map, initial_set@, c2, b));
                        assert(labelled(map, initial_set@, c3, b));
                    } else if b == down {
                        assert(labelled(map, initial_set@, c2, b));
                        assert(labelled(map, initial_set@, c3, b));
                    } else if b == up {
                        assert(labelled(map, initial_set@, c3, b));
                    }
                }
            }
        }
    }
    let ghost queue = to_visit@;
    let mut path: Vec<Vec2> = Vec::new();
    let mut p = map.end;
    loop
        invariant
            forest(map, initial_set@, visited@, came_from@, rank),
            stopped(map, initial_set@, visited@, came_from@, queue, rank, e1, cur),
            !falls_off(map, initial_set@),
            path@.len() == 0 ==> p == map.end,
            path@.len() > 0 ==> path@[0] == map.end && map.can_step(p, path@.last())
                && map.inside(p) && visited@[map.index_of(p)] && labelled(
                map,
                initial_set@,
                came_from@,
                map.end,
            ),
            forall|i: int| 0 <= i < path@.len() - 1 ==> map.can_step(#[trigger] path@[i + 1], path@[i]),
            path@.len() + rank_of(map, rank, p) == rank_of(map, rank, map.end),
        decreases
            (if map.inside(p) {
                rank[map.index_of(p)]
            } else {
                0
            }),
    {
        if in_list(&initial_set, p) {
            proof {
                assert(map.is_route(p, path@));
                assert(labelled(map, initial_set@, came_from@, map.end));
                assert(rank_of(map, rank, map.end) <= cur + 1);
                assert forall|w: Seq<Vec2>| #[trigger]
                    leads_to(map, initial_set@, w, map.end) implies path@.len() < w.len() by {
                    lemma_no_shorter_walk(
                        map,
                        initial_set@,
                        visited@,
                        came_from@,
                        queue,
                        rank,
                        e1,
                        cur,
                        w,
                        w.len() - 1,
                    );
                }
            }
            return Ok(path);
        }
        let k = match map.offset(p) {
            Some(k) => k,
            None => {
                proof {
                    assert(path@.len() == 0);
                    assert(map.node_at(e1) == Some(NodeType::End));
                }
                return Err(HillError::EndNotReached);
            },
        };
        match came_from[k] {
            Some(from) => {
                proof {
                    map.lemma_index(from, from);
                }
                path.push(p);
                p = from;
            },
            None => {
                proof {
                    if path@.len() > 0 {
                        assert(labelled(map, initial_set@, came_from@, p));
                    }
                    assert(!labelled(map, initial_set@, came_from@, p));
                    assert(map.node_at(e1) == Some(NodeType::End));
                }
                return Err(HillError::EndNotReached);
            },
        }
    }
}

} // verus!
