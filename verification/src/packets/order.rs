//! The order of packets, and its computation on the nodes of an arena.
use crate::packets::{arena_view, places, promote, Arena, Index, Node, NodeData, PacketError};
use std::cmp::Ordering;
use vstd::prelude::*;

verus! {

/// A packet: an integer, or a list of packets.
pub enum Packet {
    Int(i32),
    List(Seq<Packet>),
}

#[derive(Clone, Copy, Debug, PartialEq, Eq, Structural)]
pub enum Order {
    Less,
    Equal,
    Greater,
}

pub open spec fn order_of_ints(a: int, b: int) -> Order {
    if a < b {
        Order::Less
    } else if a == b {
        Order::Equal
    } else {
        Order::Greater
    }
}

/// The order of two packets. Integers go by their value. Lists go by their
/// first members that differ, and a list that runs out first comes first.
/// An integer beside a list counts as the list of that one integer.
pub open spec fn order(l: Packet, r: Packet) -> Order
    decreases l, r,
{
    match (l, r) {
        (Packet::Int(a), Packet::Int(b)) => order_of_ints(a as int, b as int),
        (Packet::List(a), Packet::List(b)) => order_of_lists(a, b, 0),
        (Packet::Int(_), Packet::List(b)) => if b.len() == 0 {
            Order::Greater
        } else {
            match order(l, b[0]) {
                Order::Equal => order_of_ints(1, b.len() as int),
                o => o,
            }
        },
        (Packet::List(a), Packet::Int(_)) => if a.len() == 0 {
            Order::Less
        } else {
            match order(a[0], r) {
                Order::Equal => order_of_ints(a.len() as int, 1),
                o => o,
            }
        },
    }
}

/// The order of two lists whose members before `i` are equal.
pub open spec fn order_of_lists(a: Seq<Packet>, b: Seq<Packet>, i: int) -> Order
    decreases a, b, a.len() - i,
{
    if i < 0 || i >= a.len() || i >= b.len() {
        order_of_ints(a.len() as int, b.len() as int)
    } else {
        match order(a[i], b[i]) {
            Order::Equal => order_of_lists(a, b, i + 1),
            o => o,
        }
    }
}

/// The order seen from the other side.
pub open spec fn flipped(o: Order) -> Order {
    match o {
        Order::Less => Order::Greater,
        Order::Equal => Order::Equal,
        Order::Greater => Order::Less,
    }
}

/// Two packets taken the other way round are in the opposite order.
pub proof fn lemma_order_flips(l: Packet, r: Packet)
    ensures
        order(r, l) == flipped(order(l, r)),
    decreases l, r,
{
    match (l, r) {
        (Packet::Int(_), Packet::Int(_)) => {},
        (Packet::List(a), Packet::List(b)) => {
            lemma_lists_flip(a, b, 0);
        },
        (Packet::Int(_), Packet::List(b)) => {
            if b.len() > 0 {
                lemma_order_flips(l, b[0]);
            }
        },
        (Packet::List(a), Packet::Int(_)) => {
            if a.len() > 0 {
                lemma_order_flips(a[0], r);
            }
        },
    }
}

proof fn lemma_lists_flip(a: Seq<Packet>, b: Seq<Packet>, i: int)
    requires
        0 <= i,
    ensures
        order_of_lists(b, a, i) == flipped(order_of_lists(a, b, i)),
    decreases a, b, a.len() - i,
{
    if i < a.len() && i < b.len() {
        lemma_order_flips(a[i], b[i]);
        lemma_lists_flip(a, b, i + 1);
    }
}

/// A packet is equal to itself.
pub proof fn lemma_order_self(p: Packet)
    ensures
        order(p, p) == Order::Equal,
    decreases p,
{
    match p {
        Packet::Int(_) => {},
        Packet::List(a) => {
            lemma_list_self(a, 0);
        },
    }
}

proof fn lemma_list_self(a: Seq<Packet>, i: int)
    requires
        0 <= i,
    ensures
        order_of_lists(a, a, i) == Order::Equal,
    decreases a, a.len() - i,
{
    if i < a.len() {
        lemma_order_self(a[i]);
        lemma_list_self(a, i + 1);
    }
}

/// The greatest depth of nesting among the first `n` packets of `ps`.
pub open spec fn deepest(ps: Seq<Packet>, n: int) -> nat
    decreases ps, n,
{
    if n <= 0 || n > ps.len() {
        0
    } else {
        let rest = deepest(ps, n - 1);
        let this = depth(ps[n - 1]);
        if this > rest {
            this
        } else {
            rest
        }
    }
}

/// How deep a packet is nested: 0 for an integer, one more than its deepest
/// member for a list.
pub open spec fn depth(p: Packet) -> nat
    decreases p,
{
    match p {
        Packet::Int(_) => 0,
        Packet::List(ps) => 1 + deepest(ps, ps.len() as int),
    }
}

proof fn lemma_deepest(ps: Seq<Packet>, n: int, i: int)
    requires
        0 <= i < n <= ps.len(),
    ensures
        depth(ps[i]) <= deepest(ps, n),
    decreases n,
{
    if i < n - 1 {
        lemma_deepest(ps, n - 1, i);
    }
}

/// The node at `idx` and what hangs below it spell out the packet `p`.
pub open spec fn denotes(arena: Seq<NodeData>, idx: int, p: Packet) -> bool
    decreases p,
{
    &&& 0 <= idx < arena.len()
    &&& match p {
        Packet::Int(v) => arena[idx] == NodeData::Int(v),
        Packet::List(ps) => match arena[idx] {
            NodeData::List(members) => members.len() == ps.len() && forall|i: int|
                0 <= i < ps.len() ==> denotes(arena, #[trigger] members[i], ps[i]),
            NodeData::Int(_) => false,
        },
    }
}

/// What a node spells out stays the same when nodes are added to the arena.
pub proof fn lemma_denotes_extends(arena: Seq<NodeData>, longer: Seq<NodeData>, idx: int, p: Packet)
    requires
        denotes(arena, idx, p),
        arena.len() <= longer.len(),
        forall|i: int| 0 <= i < arena.len() ==> arena[i] == longer[i],
    ensures
        denotes(longer, idx, p),
    decreases p,
{
    match p {
        Packet::Int(_) => {},
        Packet::List(ps) => {
            let members = arena[idx]->List_0;
            assert forall|i: int| 0 <= i < ps.len() implies denotes(
                longer,
                #[trigger] members[i],
                ps[i],
            ) by {
                lemma_denotes_extends(arena, longer, members[i], ps[i]);
            }
        },
    }
}

/// A node spells out at most one packet.
pub proof fn lemma_denotes_unique(arena: Seq<NodeData>, idx: int, p: Packet, q: Packet)
    requires
        denotes(arena, idx, p),
        denotes(arena, idx, q),
    ensures
        p == q,
    decreases p,
{
    match (p, q) {
        (Packet::List(ps), Packet::List(qs)) => {
            let members = arena[idx]->List_0;
            assert forall|i: int| 0 <= i < ps.len() implies ps[i] == qs[i] by {
                assert(denotes(arena, members[i], ps[i]));
                assert(denotes(arena, members[i], qs[i]));
                lemma_denotes_unique(arena, members[i], ps[i], qs[i]);
            }
            assert(ps =~= qs);
        },
        _ => {},
    }
}

/// An integer beside a list is ordered as the list of that one integer.
pub proof fn lemma_promoted(l: Packet, r: Packet)
    ensures
        l is Int && r is List ==> order(Packet::List(seq![l]), r) == order(l, r),
        l is List && r is Int ==> order(l, Packet::List(seq![r])) == order(l, r),
{
    if l is Int && r is List {
        let a = seq![l];
        let b = r->List_0;
        assert(order(Packet::List(a), r) == order_of_lists(a, b, 0));
        if b.len() > 0 {
            assert(a[0] == l);
            assert(order_of_lists(a, b, 1) == order_of_ints(1, b.len() as int));
        }
    }
    if l is List && r is Int {
        let a = l->List_0;
        let b = seq![r];
        assert(order(l, Packet::List(b)) == order_of_lists(a, b, 0));
        if a.len() > 0 {
            assert(b[0] == r);
            assert(order_of_lists(a, b, 1) == order_of_ints(a.len() as int, 1));
        }
    }
}

pub open spec fn bigger(a: nat, b: nat) -> nat {
    if a > b {
        a
    } else {
        b
    }
}

pub open spec fn mixed(l: Packet, r: Packet) -> nat {
    if (l is Int) != (r is Int) {
        1
    } else {
        0
    }
}

fn copy_of(l: &Vec<Index>) -> (out: Vec<Index>)
    ensures
        out@ == l@,
{
    let mut out: Vec<Index> = Vec::new();
    let mut i: usize = 0;
    while i < l.len()
        invariant
            i <= l.len(),
            out@ == l@.take(i as int),
        decreases l.len() - i,
    {
        out.push(l[i]);
        assert(l@.take(i + 1) =~= l@.take(i as int).push(l@[i as int]));
        i += 1;
    }
    assert(l@.take(l@.len() as int) =~= l@);
    out
}

/// Orders the packets at `root1` and `root2`. An integer that meets a list
/// gets a list of its own in the arena.
pub(crate) fn order_nodes(
    root1: Index,
    root2: Index,
    arena: &mut Arena<Node>,
    Ghost(p1): Ghost<Packet>,
    Ghost(p2): Ghost<Packet>,
) -> (r: Order)
    requires
        denotes(arena_view(old(arena).items@), root1.i as int, p1),
        denotes(arena_view(old(arena).items@), root2.i as int, p2),
    ensures
        r == order(p1, p2),
        old(arena).items@.len() <= final(arena).items@.len(),
        forall|i: int|
            0 <= i < old(arena).items@.len() ==> arena_view(old(arena).items@)[i] == arena_view(
                final(arena).items@,
            )[i],
    decreases bigger(depth(p1), depth(p2)), mixed(p1, p2),
{
    let ghost start = arena_view(arena.items@);
    let left: Option<i32> = match arena.get(root1) {
        Node::Int(v) => Some(*v),
        Node::List(_) => None,
    };
    let right: Option<i32> = match arena.get(root2) {
        Node::Int(v) => Some(*v),
        Node::List(_) => None,
    };
    match (left, right) {
        (Some(lhs), Some(rhs)) => {
            if lhs < rhs {
                Order::Less
            } else if lhs == rhs {
                Order::Equal
            } else {
                Order::Greater
            }
        },
        (Some(_), None) => {
            let promoted = promote(root1, arena);
            proof {
                let now = arena_view(arena.items@);
                lemma_denotes_extends(start, now, root1.i as int, p1);
                lemma_denotes_extends(start, now, root2.i as int, p2);
                assert(denotes(now, promoted.i as int, Packet::List(seq![p1])));
                lemma_promoted(p1, p2);
                assert(seq![p1][0] == p1);
                assert(deepest(seq![p1], 0) == 0);
                assert(deepest(seq![p1], 1) == 0);
            }
            order_nodes(promoted, root2, arena, Ghost(Packet::List(seq![p1])), Ghost(p2))
        },
        (None, Some(_)) => {
            let promoted = promote(root2, arena);
            proof {
                let now = arena_view(arena.items@);
                lemma_denotes_extends(start, now, root1.i as int, p1);
                lemma_denotes_extends(start, now, root2.i as int, p2);
                assert(denotes(now, promoted.i as int, Packet::List(seq![p2])));
                lemma_promoted(p1, p2);
                assert(seq![p2][0] == p2);
                assert(deepest(seq![p2], 0) == 0);
                assert(deepest(seq![p2], 1) == 0);
            }
            order_nodes(root1, promoted, arena, Ghost(p1), Ghost(Packet::List(seq![p2])))
        },
        (None, None) => {
            let lhs: Vec<Index> = match arena.get(root1) {
                Node::List(l) => copy_of(l),
                Node::Int(_) => Vec::new(),
            };
            let rhs: Vec<Index> = match arena.get(root2) {
                Node::List(l) => copy_of(l),
                Node::Int(_) => Vec::new(),
            };
            let ghost a = p1->List_0;
            let ghost b = p2->List_0;
            assert(places(lhs@) == start[root1.i as int]->List_0);
            assert(places(rhs@) == start[root2.i as int]->List_0);
            assert forall|k: int| 0 <= k < a.len() implies denotes(
                start,
                (#[trigger] lhs@[k]).i as int,
                a[k],
            ) by {
                assert(places(lhs@)[k] == lhs@[k].i);
            }
            assert forall|k: int| 0 <= k < b.len() implies denotes(
                start,
                (#[trigger] rhs@[k]).i as int,
                b[k],
            ) by {
                assert(places(rhs@)[k] == rhs@[k].i);
            }
            let mut i: usize = 0;
            while i < lhs.len() && i < rhs.len()
                invariant
                    start == arena_view(old(arena).items@),
                    p1 == Packet::List(a),
                    p2 == Packet::List(b),
                    lhs@.len() == a.len(),
                    rhs@.len() == b.len(),
                    start.len() <= arena.items@.len(),
                    forall|k: int| 0 <= k < start.len() ==> start[k] == arena_view(arena.items@)[k],
                    forall|k: int|
                        0 <= k < a.len() ==> denotes(start, (#[trigger] lhs@[k]).i as int, a[k]),
                    forall|k: int|
                        0 <= k < b.len() ==> denotes(start, (#[trigger] rhs@[k]).i as int, b[k]),
                    order(p1, p2) == order_of_lists(a, b, i as int),
                decreases lhs.len() - i,
            {
                proof {
                    let now = arena_view(arena.items@);
                    lemma_denotes_extends(start, now, lhs@[i as int].i as int, a[i as int]);
                    lemma_denotes_extends(start, now, rhs@[i as int].i as int, b[i as int]);
                    lemma_deepest(a, a.len() as int, i as int);
                    lemma_deepest(b, b.len() as int, i as int);
                }
                let result = order_nodes(lhs[i], rhs[i], arena, Ghost(a[i as int]), Ghost(b[i as int]));
                match result {
                    Order::Equal => {},
                    _ => {
                        return result;
                    },
                }
                i += 1;
            }
            let lhs_len = lhs.len();
            let rhs_len = rhs.len();
            if lhs_len < rhs_len {
                Order::Less
            } else if lhs_len == rhs_len {
                Order::Equal
            } else {
                Order::Greater
            }
        },
    }
}

/// The node at `idx` of the arena spells out the packet `p`.
pub open spec fn spells(arena: &Arena<Node>, idx: Index, p: Packet) -> bool {
    denotes(arena_view(arena.items@), idx.i as int, p)
}

/// The standard ordering that an order stands for.
pub open spec fn ordering_of(o: Order) -> Ordering {
    match o {
        Order::Less => Ordering::Less,
        Order::Equal => Ordering::Equal,
        Order::Greater => Ordering::Greater,
    }
}

/// Compares the packets at `root1` and `root2`.
pub fn compare(root1: Index, root2: Index, arena: &mut Arena<Node>) -> (r: Result<
    Ordering,
    PacketError,
>)
    requires
        exists|p1: Packet, p2: Packet|
            #[trigger] spells(old(arena), root1, p1) && #[trigger] spells(old(arena), root2, p2),
    ensures
        forall|p1: Packet, p2: Packet|
            #[trigger] spells(old(arena), root1, p1) && #[trigger] spells(old(arena), root2, p2)
                ==> r == Ok::<Ordering, PacketError>(ordering_of(order(p1, p2))),
        old(arena).items@.len() <= final(arena).items@.len(),
        forall|i: int|
            0 <= i < old(arena).items@.len() ==> arena_view(old(arena).items@)[i] == arena_view(
                final(arena).items@,
            )[i],
{
    let ghost start = *arena;
    let ghost (p1, p2) = choose|p1: Packet, p2: Packet|
        #[trigger] spells(&start, root1, p1) && #[trigger] spells(&start, root2, p2);
    let result = order_nodes(root1, root2, arena, Ghost(p1), Ghost(p2));
    proof {
        assert forall|q1: Packet, q2: Packet|
            #[trigger] spells(&start, root1, q1) && #[trigger] spells(
                &start,
                root2,
                q2,
            ) implies q1 == p1 && q2 == p2 by {
            lemma_spells_unique(&start, root1, p1, q1);
            lemma_spells_unique(&start, root2, p2, q2);
        }
    }
    match result {
        Order::Less => Ok(Ordering::Less),
        Order::Equal => Ok(Ordering::Equal),
        Order::Greater => Ok(Ordering::Greater),
    }
}

/// A node of an arena spells out at most one packet.
pub proof fn lemma_spells_unique(arena: &Arena<Node>, idx: Index, p: Packet, q: Packet)
    requires
        spells(arena, idx, p),
        spells(arena, idx, q),
    ensures
        p == q,
{
    lemma_denotes_unique(arena_view(arena.items@), idx.i as int, p, q);
}

} // verus!
