//! Reading packets from text into an arena.
use crate::number::{i32_of, is_digit, is_digit_char, parse_i32};
use crate::packets::order::{
    denotes, lemma_denotes_extends, order, order_nodes, ordering_of, spells, Order, Packet,
};
use crate::packets::{append_to, arena_view, places, Arena, Index, Node, NodeData, PacketError};
use crate::text::{chars_of, is_numeric_char, numeric, slice_of, str_views};
use std::cmp::Ordering;
use vstd::prelude::*;

verus! {

/// The index at or after `idx` of the first character that is no digit.
pub open spec fn digits_end(chars: Seq<char>, idx: int) -> int
    decreases chars.len() - idx,
{
    if 0 <= idx < chars.len() && is_digit(chars[idx]) {
        digits_end(chars, idx + 1)
    } else {
        idx
    }
}

/// The number whose digits begin at `idx`, and the index after it. A number
/// must be followed by something.
pub open spec fn number_at(chars: Seq<char>, idx: int) -> Result<(i32, usize), PacketError> {
    let end = digits_end(chars, idx);
    if end >= chars.len() || end < idx {
        Err(PacketError::Unterminated)
    } else {
        match i32_of(chars.subrange(idx, end)) {
            Some(v) => Ok((v, end as usize)),
            None => Err(PacketError::BadNumber),
        }
    }
}

proof fn lemma_digits_end(chars: Seq<char>, idx: int)
    requires
        0 <= idx,
    ensures
        idx <= digits_end(chars, idx),
        digits_end(chars, idx) <= chars.len() || digits_end(chars, idx) == idx,
        0 <= idx < chars.len() && is_digit(chars[idx]) ==> idx < digits_end(chars, idx),
    decreases chars.len() - idx,
{
    if 0 <= idx < chars.len() && is_digit(chars[idx]) {
        lemma_digits_end(chars, idx + 1);
    }
}

pub fn get_number(chars: &Vec<char>, idx: usize) -> (r: Result<(i32, usize), PacketError>)
    ensures
        r == number_at(chars@, idx as int),
{
    let mut next: usize = idx;
    loop
        invariant
            idx <= next,
            digits_end(chars@, idx as int) == digits_end(chars@, next as int),
        ensures
            idx <= next < chars.len(),
            digits_end(chars@, idx as int) == next,
        decreases chars.len() - next,
    {
        if next >= chars.len() {
            return Err(PacketError::Unterminated);
        }
        if is_digit_char(chars[next]) {
            next += 1;
        } else {
            break ;
        }
    }
    let digits = slice_of(chars, idx, next);
    match parse_i32(&digits) {
        Some(v) => Ok((v, next)),
        None => Err(PacketError::BadNumber),
    }
}

/// Where a reader stands: the nodes made so far, the lists that are open,
/// innermost last, and the first list that was opened.
pub struct Reading {
    pub arena: Seq<NodeData>,
    pub stack: Seq<int>,
    pub root: Option<int>,
}

/// The arena in which the list at `list` has `member` as a further member.
pub open spec fn with_member(arena: Seq<NodeData>, list: int, member: int) -> Option<
    Seq<NodeData>,
> {
    if 0 <= list < arena.len() {
        match arena[list] {
            NodeData::List(ms) => Some(arena.update(list, NodeData::List(ms.push(member)))),
            NodeData::Int(_) => None,
        }
    } else {
        None
    }
}

/// The arena with `node` added as a member of the innermost open list, or on
/// its own where no list is open.
pub open spec fn with_node(s: Reading, node: NodeData) -> Option<Seq<NodeData>> {
    if s.stack.len() > 0 {
        with_member(s.arena.push(node), s.stack.last(), s.arena.len() as int)
    } else {
        Some(s.arena.push(node))
    }
}

/// Reads the characters from `idx` on. `[` opens a list inside the innermost
/// open list, `]` closes the innermost open list, a number becomes a member
/// of it, and every other character is passed over.
pub open spec fn read_from(chars: Seq<char>, idx: int, s: Reading) -> Result<Reading, PacketError>
    decreases chars.len() - idx,
{
    if idx < 0 || idx >= chars.len() {
        Ok(s)
    } else if chars[idx] == '[' {
        match with_node(s, NodeData::List(seq![])) {
            None => Err(PacketError::NotAList),
            Some(arena) => read_from(
                chars,
                idx + 1,
                Reading {
                    arena,
                    stack: s.stack.push(s.arena.len() as int),
                    root: if s.root is None {
                        Some(s.arena.len() as int)
                    } else {
                        s.root
                    },
                },
            ),
        }
    } else if chars[idx] == ']' {
        read_from(
            chars,
            idx + 1,
            Reading {
                arena: s.arena,
                stack: if s.stack.len() > 0 {
                    s.stack.drop_last()
                } else {
                    s.stack
                },
                root: s.root,
            },
        )
    } else if numeric(chars[idx]) {
        match number_at(chars, idx) {
            Err(e) => Err(e),
            Ok((v, end)) => if s.stack.len() == 0 {
                Err(PacketError::NumberOutsideList)
            } else {
                match with_node(s, NodeData::Int(v)) {
                    None => Err(PacketError::NotAList),
                    Some(arena) => if end <= idx {
                        Err(PacketError::BadNumber)
                    } else {
                        read_from(chars, end as int, Reading { arena, stack: s.stack, root: s.root })
                    },
                }
            },
        }
    } else {
        read_from(chars, idx + 1, s)
    }
}

/// What reading a line into an arena gives: the arena with the line's nodes
/// added, and the place of the line's first list.
pub open spec fn read(line: Seq<char>, arena: Seq<NodeData>) -> Result<
    (Seq<NodeData>, int),
    PacketError,
> {
    match read_from(line, 0, Reading { arena, stack: seq![], root: None }) {
        Err(e) => Err(e),
        Ok(s) => match s.root {
            Some(root) => Ok((s.arena, root)),
            None => Err(PacketError::NoRootList),
        },
    }
}

/// From `base` on, the members of each list stand after the list itself.
pub open spec fn forward_from(arena: Seq<NodeData>, base: int) -> bool {
    forall|idx: int, i: int|
        base <= idx < arena.len() && arena[idx] is List && 0 <= i < arena[idx]->List_0.len() ==> idx
            < #[trigger] arena[idx]->List_0[i] < arena.len()
}

/// The packet that the node at `idx` spells out, where members stand after
/// their lists.
pub open spec fn packet_of(arena: Seq<NodeData>, idx: int) -> Packet
    decreases arena.len() - idx,
{
    if idx < 0 || idx >= arena.len() {
        Packet::Int(0)
    } else {
        match arena[idx] {
            NodeData::Int(v) => Packet::Int(v),
            NodeData::List(ms) => Packet::List(
                Seq::new(
                    ms.len(),
                    |i: int|
                        if idx < ms[i] < arena.len() {
                            packet_of(arena, ms[i])
                        } else {
                            Packet::Int(0)
                        },
                ),
            ),
        }
    }
}

pub proof fn lemma_forward_denotes(arena: Seq<NodeData>, base: int, idx: int)
    requires
        forward_from(arena, base),
        0 <= base <= idx < arena.len(),
    ensures
        denotes(arena, idx, packet_of(arena, idx)),
    decreases arena.len() - idx,
{
    match arena[idx] {
        NodeData::Int(_) => {},
        NodeData::List(ms) => {
            let ps = packet_of(arena, idx)->List_0;
            assert forall|i: int| 0 <= i < ps.len() implies denotes(
                arena,
                #[trigger] ms[i],
                ps[i],
            ) by {
                assert(idx < arena[idx]->List_0[i] < arena.len());
                lemma_forward_denotes(arena, base, ms[i]);
            }
        },
    }
}

/// The state of the reader as a mathematical value.
pub open spec fn reading(arena: &Arena<Node>, stack: Seq<Index>, root: Option<Index>) -> Reading {
    Reading {
        arena: arena_view(arena.items@),
        stack: places(stack),
        root: match root {
            Some(r) => Some(r.i as int),
            None => None,
        },
    }
}

/// What holds of the reader between two characters: the nodes that were
/// there before are untouched, the new lists have their members after them,
/// and the open lists are new lists.
pub open spec fn steady(before: Seq<NodeData>, arena: Seq<NodeData>, stack: Seq<int>) -> bool {
    &&& before.len() <= arena.len()
    &&& forall|i: int| 0 <= i < before.len() ==> before[i] == arena[i]
    &&& forward_from(arena, before.len() as int)
    &&& forall|k: int|
        0 <= k < stack.len() ==> before.len() <= #[trigger] stack[k] < arena.len()
            && arena[stack[k]] is List
}

/// Adds `node` to the arena, as a member of the innermost open list where
/// one is open.
fn add_node(arena: &mut Arena<Node>, stack: &Vec<Index>, node: Node, Ghost(before): Ghost<
    Seq<NodeData>,
>) -> (r: Index)
    requires
        steady(before, arena_view(old(arena).items@), places(stack@)),
        node@ is List ==> node@->List_0.len() == 0,
    ensures
        r.i == old(arena).items@.len(),
        with_node(reading(old(arena), stack@, None), node@) == Some(arena_view(final(arena).items@)),
        steady(before, arena_view(final(arena).items@), places(stack@)),
        final(arena).items@.len() == old(arena).items@.len() + 1,
        arena_view(final(arena).items@)[r.i as int] is List == node@ is List,
{
    let ghost start = arena_view(arena.items@);
    let ghost data = node@;
    let new_idx = arena.insert(node);
    assert(arena_view(arena.items@) =~= start.push(data));
    if stack.len() > 0 {
        let top = stack[stack.len() - 1];
        assert(places(stack@).last() == top.i);
        assert(places(stack@)[stack.len() - 1] == top.i);
        let ghost grown = arena_view(arena.items@);
        let appended = append_to(new_idx, top, arena);
        assert(appended is Ok);
        proof {
            let now = arena_view(arena.items@);
            let ms = grown[top.i as int]->List_0;
            assert(now == grown.update(top.i as int, NodeData::List(ms.push(new_idx.i as int))));
            assert forall|idx: int, i: int|
                before.len() <= idx < now.len() && now[idx] is List && 0 <= i
                    < now[idx]->List_0.len() implies idx < #[trigger] now[idx]->List_0[i]
                < now.len() by {
                if idx == top.i {
                    if i < ms.len() {
                        assert(start[idx]->List_0[i] == ms[i]);
                    }
                } else if idx < start.len() {
                    assert(start[idx]->List_0[i] == now[idx]->List_0[i]);
                }
            }
        }
    } else {
        proof {
            let now = arena_view(arena.items@);
            assert forall|idx: int, i: int|
                before.len() <= idx < now.len() && now[idx] is List && 0 <= i
                    < now[idx]->List_0.len() implies idx < #[trigger] now[idx]->List_0[i]
                < now.len() by {
                if idx < start.len() {
                    assert(start[idx]->List_0[i] == now[idx]->List_0[i]);
                }
            }
        }
    }
    new_idx
}

/// Reads the packet that `line` writes into the arena, and returns the place
/// of its outermost list.
pub fn parse(line: &str, arena: &mut Arena<Node>) -> (r: Result<Index, PacketError>)
    ensures
        match r {
            Ok(root) => {
                &&& read(line@, arena_view(old(arena).items@)) == Ok::<
                    (Seq<NodeData>, int),
                    PacketError,
                >((arena_view(final(arena).items@), root.i as int))
                &&& spells(
                    final(arena),
                    root,
                    packet_of(arena_view(final(arena).items@), root.i as int),
                )
                &&& steady(arena_view(old(arena).items@), arena_view(final(arena).items@), seq![])
            },
            Err(e) => read(line@, arena_view(old(arena).items@)) == Err::<
                (Seq<NodeData>, int),
                PacketError,
            >(e),
        },
{
    let ghost before = arena_view(arena.items@);
    let chars = chars_of(line);
    let mut chars_idx: usize = 0;
    let mut list_stack: Vec<Index> = Vec::new();
    let mut root_index: Option<Index> = None;
    assert(places(list_stack@) =~= seq![]);
    while chars_idx < chars.len()
        invariant
            chars@ == line@,
            before == arena_view(old(arena).items@),
            steady(before, arena_view(arena.items@), places(list_stack@)),
            root_index matches Some(root) ==> before.len() <= root.i < arena.items@.len(),
            read_from(chars@, 0, Reading { arena: before, stack: seq![], root: None }) == read_from(
                chars@,
                chars_idx as int,
                reading(arena, list_stack@, root_index),
            ),
        decreases chars.len() - chars_idx,
    {
        let c = chars[chars_idx];
        let ghost now = reading(arena, list_stack@, root_index);
        if c == '[' {
            let list: Vec<Index> = Vec::new();
            assert(places(list@) =~= seq![]);
            let new_idx = add_node(arena, &list_stack, Node::List(list), Ghost(before));
            let ghost held = places(list_stack@);
            list_stack.push(new_idx);
            assert(places(list_stack@) =~= held.push(new_idx.i as int));
            if root_index.is_none() {
                root_index = Some(new_idx);
            }
            chars_idx += 1;
        } else if c == ']' {
            let ghost held = places(list_stack@);
            list_stack.pop();
            assert(places(list_stack@) =~= if held.len() > 0 {
                held.drop_last()
            } else {
                held
            });
            chars_idx += 1;
        } else if is_numeric_char(c) {
            proof {
                lemma_digits_end(chars@, chars_idx as int);
            }
            let (d, new_char_idx) = match get_number(&chars, chars_idx) {
                Ok(v) => v,
                Err(e) => {
                    return Err(e);
                },
            };
            if list_stack.len() == 0 {
                return Err(PacketError::NumberOutsideList);
            }
            if new_char_idx <= chars_idx {
                assert(with_node(now, NodeData::Int(d)) is Some);
                return Err(PacketError::BadNumber);
            }
            let new_idx = add_node(arena, &list_stack, Node::Int(d), Ghost(before));
            chars_idx = new_char_idx;
        } else {
            chars_idx += 1;
        }
    }
    match root_index {
        Some(i) => {
            proof {
                lemma_forward_denotes(arena_view(arena.items@), before.len() as int, i.i as int);
            }
            Ok(i)
        },
        None => Err(PacketError::NoRootList),
    }
}

/// The order of the packets that two lines write, the second read into the
/// arena that the first has left.
pub open spec fn order_of_lines(lhs: Seq<char>, rhs: Seq<char>) -> Result<Order, PacketError> {
    match read(lhs, seq![]) {
        Err(e) => Err(e),
        Ok((first, root1)) => match read(rhs, first) {
            Err(e) => Err(e),
            Ok((second, root2)) => Ok(order(packet_of(first, root1), packet_of(second, root2))),
        },
    }
}

pub fn order_lines(lhs: &str, rhs: &str) -> (r: Result<Order, PacketError>)
    ensures
        r == order_of_lines(lhs@, rhs@),
{
    let mut arena: Arena<Node> = Arena::new();
    assert(arena_view(arena.items@) =~= seq![]);
    let root1 = match parse(lhs, &mut arena) {
        Ok(v) => v,
        Err(e) => {
            return Err(e);
        },
    };
    let ghost first = arena_view(arena.items@);
    let ghost p1 = packet_of(first, root1.i as int);
    let root2 = match parse(rhs, &mut arena) {
        Ok(v) => v,
        Err(e) => {
            return Err(e);
        },
    };
    let ghost second = arena_view(arena.items@);
    let ghost p2 = packet_of(second, root2.i as int);
    proof {
        lemma_denotes_extends(first, second, root1.i as int, p1);
    }
    Ok(order_nodes(root1, root2, &mut arena, Ghost(p1), Ghost(p2)))
}

/// Compares the packets that two lines write.
pub fn compare_lines(lhs: &str, rhs: &str) -> (r: Result<Ordering, PacketError>)
    ensures
        r == match order_of_lines(lhs@, rhs@) {
            Ok(o) => Ok::<Ordering, PacketError>(ordering_of(o)),
            Err(e) => Err::<Ordering, PacketError>(e),
        },
{
    match order_lines(lhs, rhs) {
        Ok(Order::Less) => Ok(Ordering::Less),
        Ok(Order::Equal) => Ok(Ordering::Equal),
        Ok(Order::Greater) => Ok(Ordering::Greater),
        Err(e) => Err(e),
    }
}

/// `more` added to `sum`.
pub open spec fn plus(sum: int, more: Result<int, PacketError>) -> Result<int, PacketError> {
    match more {
        Ok(v) => Ok(sum + v),
        Err(e) => Err(e),
    }
}

/// The sum of the numbers of the pairs from line `i` on that are in the
/// right order, where `pair` is the number of the pair at line `i`. A pair
/// takes two lines and the line after them.
pub open spec fn score_from(lines: Seq<Seq<char>>, i: int, pair: int) -> Result<int, PacketError>
    decreases lines.len() + 2 - i,
{
    if i < 0 || i >= lines.len() {
        Ok(0)
    } else if i + 1 >= lines.len() {
        Err(PacketError::Incomplete)
    } else {
        match order_of_lines(lines[i], lines[i + 1]) {
            Err(e) => Err(e),
            Ok(Order::Less) => plus(pair, score_from(lines, i + 3, pair + 1)),
            Ok(Order::Equal) => Err(PacketError::NonOrdered),
            Ok(Order::Greater) => score_from(lines, i + 3, pair + 1),
        }
    }
}

/// Adds up the numbers of the pairs of lines that are in the right order.
pub fn score(lines: &[&str]) -> (r: Result<usize, PacketError>)
    requires
        lines@.len() * lines@.len() <= usize::MAX,
    ensures
        match r {
            Ok(v) => score_from(str_views(lines@), 0, 1) == Ok::<int, PacketError>(v as int),
            Err(e) => score_from(str_views(lines@), 0, 1) == Err::<int, PacketError>(e),
        },
{
    let ghost text = str_views(lines@);
    let mut pair: usize = 0;
    let mut score: usize = 0;
    let mut i: usize = 0;
    while i < lines.len()
        invariant
            text == str_views(lines@),
            lines@.len() * lines@.len() <= usize::MAX,
            i <= lines@.len() + 2,
            3 * pair == i,
            score <= pair * pair,
            score_from(text, 0, 1) == plus(score as int, score_from(text, i as int, pair + 1)),
        decreases lines@.len() + 2 - i,
    {
        let line1 = lines[i];
        assert((pair + 1) * (pair + 1) <= lines@.len() * lines@.len()) by (nonlinear_arith)
            requires
                3 * pair < lines@.len(),
        ;
        assert(pair * pair + pair + 1 <= (pair + 1) * (pair + 1)) by (nonlinear_arith);
        pair += 1;
        if i + 1 >= lines.len() {
            return Err(PacketError::Incomplete);
        }
        let line2 = lines[i + 1];
        assert(text[i as int] == line1@ && text[i + 1] == line2@);
        let result = match order_lines(line1, line2) {
            Ok(o) => o,
            Err(e) => {
                return Err(e);
            },
        };
        match result {
            Order::Less => {
                score += pair;
            },
            Order::Equal => {
                return Err(PacketError::NonOrdered);
            },
            Order::Greater => {
                assert((pair - 1) * (pair - 1) <= pair * pair) by (nonlinear_arith)
                    requires
                        pair >= 1,
                ;
            },
        }
        i += 3;
    }
    Ok(score)
}

/// How many of the first `n` lines that are not empty write a packet that
/// does not come after the packet of `divider`.
pub open spec fn not_after(lines: Seq<Seq<char>>, n: int, divider: Seq<char>) -> Result<
    int,
    PacketError,
>
    decreases n,
{
    if n <= 0 || n > lines.len() {
        Ok(0)
    } else {
        match not_after(lines, n - 1, divider) {
            Err(e) => Err(e),
            Ok(count) => if lines[n - 1].len() == 0 {
                Ok(count)
            } else {
                match order_of_lines(lines[n - 1], divider) {
                    Err(e) => Err(e),
                    Ok(Order::Greater) => Ok(count),
                    Ok(_) => Ok(count + 1),
                }
            },
        }
    }
}

proof fn lemma_not_after_fails(lines: Seq<Seq<char>>, k: int, n: int, divider: Seq<char>)
    requires
        0 <= k <= n <= lines.len(),
        not_after(lines, k, divider) is Err,
    ensures
        not_after(lines, n, divider) == not_after(lines, k, divider),
    decreases n - k,
{
    if k < n {
        lemma_not_after_fails(lines, k, n - 1, divider);
    }
}

proof fn lemma_not_after_bound(lines: Seq<Seq<char>>, n: int, divider: Seq<char>)
    requires
        0 <= n <= lines.len(),
    ensures
        not_after(lines, n, divider) matches Ok(count) ==> 0 <= count <= n,
    decreases n,
{
    if n > 0 {
        lemma_not_after_bound(lines, n - 1, divider);
    }
}

/// Counts the lines that are not empty and whose packet does not come after
/// that of `divider`.
pub fn count_not_after(lines: &[&str], divider: &str) -> (r: Result<usize, PacketError>)
    ensures
        match r {
            Ok(count) => not_after(str_views(lines@), lines@.len() as int, divider@) == Ok::<
                int,
                PacketError,
            >(count as int),
            Err(e) => not_after(str_views(lines@), lines@.len() as int, divider@) == Err::<
                int,
                PacketError,
            >(e),
        },
{
    let ghost text = str_views(lines@);
    let mut count: usize = 0;
    let mut i: usize = 0;
    while i < lines.len()
        invariant
            i <= lines@.len(),
            text == str_views(lines@),
            count <= i,
            not_after(text, i as int, divider@) == Ok::<int, PacketError>(count as int),
        decreases lines@.len() - i,
    {
        assert(text[i as int] == lines@[i as int]@);
        if !lines[i].is_empty() {
            match order_lines(lines[i], divider) {
                Err(e) => {
                    proof {
                        lemma_not_after_fails(text, i + 1, text.len() as int, divider@);
                    }
                    return Err(e);
                },
                Ok(Order::Greater) => {},
                Ok(_) => {
                    count += 1;
                },
            }
        }
        i += 1;
    }
    Ok(count)
}

/// The places that the two dividers `[[2]]` and `[[6]]` take among the
/// packets of `lines` when all are put in order: each stands after the
/// packets that do not come after it, and the second after the first too.
pub fn divider_places(lines: &[&str]) -> (r: Result<(usize, usize), PacketError>)
    requires
        lines@.len() < usize::MAX - 2,
    ensures
        match r {
            Ok((first, second)) => {
                &&& not_after(str_views(lines@), lines@.len() as int, "[[2]]"@) == Ok::<
                    int,
                    PacketError,
                >(first - 1)
                &&& not_after(str_views(lines@), lines@.len() as int, "[[6]]"@) == Ok::<
                    int,
                    PacketError,
                >(second - 2)
            },
            Err(e) => not_after(str_views(lines@), lines@.len() as int, "[[2]]"@) == Err::<
                int,
                PacketError,
            >(e) || not_after(str_views(lines@), lines@.len() as int, "[[6]]"@) == Err::<
                int,
                PacketError,
            >(e),
        },
{
    let first = match count_not_after(lines, "[[2]]") {
        Ok(count) => count,
        Err(e) => {
            return Err(e);
        },
    };
    let second = match count_not_after(lines, "[[6]]") {
        Ok(count) => count,
        Err(e) => {
            return Err(e);
        },
    };
    proof {
        lemma_not_after_bound(str_views(lines@), lines@.len() as int, "[[2]]"@);
        lemma_not_after_bound(str_views(lines@), lines@.len() as int, "[[6]]"@);
    }
    Ok((first + 1, second + 2))
}

} // verus!
