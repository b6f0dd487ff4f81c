//! Nested lists of integers: their nodes kept in an arena, read from text
//! and compared.
pub mod order;
pub mod reader;

use vstd::prelude::*;

verus! {

/// Flat storage for nodes, each found again by the index it was given.
pub struct Arena<T> {
    pub items: Vec<T>,
}

#[derive(Copy, Clone, Debug, PartialEq, Eq, Structural)]
pub struct Index {
    pub i: usize,
}

pub enum Node {
    Int(i32),
    List(Vec<Index>),
}

/// A node as a mathematical value: an integer, or the places of a list's
/// members.
pub enum NodeData {
    Int(i32),
    List(Seq<int>),
}

#[derive(Clone, Copy, Debug, PartialEq, Eq, Structural)]
pub enum PacketError {
    /// An item was to be appended to a node that is no list.
    NotAList,
    /// A number runs to the end of the line.
    Unterminated,
    /// A number cannot be read.
    BadNumber,
    /// A number stands outside every list.
    NumberOutsideList,
    /// The line opens no list.
    NoRootList,
    /// A pair lacks its second line.
    Incomplete,
    /// The two packets of a pair are equal.
    NonOrdered,
}

/// The places that a list of indices names.
pub open spec fn places(l: Seq<Index>) -> Seq<int> {
    Seq::new(l.len(), |i: int| l[i].i as int)
}

impl View for Node {
    type V = NodeData;

    open spec fn view(&self) -> NodeData {
        match self {
            Node::Int(v) => NodeData::Int(*v),
            Node::List(l) => NodeData::List(places(l@)),
        }
    }
}

/// The nodes of an arena as mathematical values.
pub open spec fn arena_view(nodes: Seq<Node>) -> Seq<NodeData> {
    Seq::new(nodes.len(), |i: int| nodes[i]@)
}

impl<T> Arena<T> {
    pub fn new() -> (a: Self)
        ensures
            a.items@.len() == 0,
    {
        Arena { items: Vec::new() }
    }

    pub fn get(&self, id: Index) -> (r: &T)
        requires
            id.i < self.items@.len(),
        ensures
            *r == self.items@[id.i as int],
    {
        &self.items[id.i]
    }

    pub fn get_mut(&mut self, id: Index) -> (r: &mut T)
        requires
            id.i < old(self).items@.len(),
        ensures
            *r == old(self).items@[id.i as int],
            final(self).items@ == old(self).items@.update(id.i as int, *final(r)),
    {
        &mut self.items[id.i]
    }

    pub fn insert(&mut self, item: T) -> (id: Index)
        ensures
            id.i == old(self).items@.len(),
            final(self).items@ == old(self).items@.push(item),
    {
        self.items.push(item);
        Index { i: self.items.len() - 1 }
    }
}

/// Appends the index `idx` to the list at `list_idx`.
pub fn append_to(idx: Index, list_idx: Index, arena: &mut Arena<Node>) -> (r: Result<
    (),
    PacketError,
>)
    requires
        list_idx.i < old(arena).items@.len(),
    ensures
        match old(arena).items@[list_idx.i as int] {
            Node::List(l) => r is Ok && final(arena).items@.len() == old(arena).items@.len()
                && arena_view(final(arena).items@) == arena_view(old(arena).items@).update(
                list_idx.i as int,
                NodeData::List(places(l@).push(idx.i as int)),
            ),
            Node::Int(_) => r == Err::<(), PacketError>(PacketError::NotAList)
                && final(arena).items@ == old(arena).items@,
        },
{
    let ghost before = arena.items@;
    let node = arena.get_mut(list_idx);
    match node {
        Node::List(l) => {
            let ghost held = l@;
            l.push(idx);
            proof {
                assert(places(l@) =~= places(held).push(idx.i as int));
            }
        },
        _ => {
            return Err(PacketError::NotAList);
        },
    }
    proof {
        assert(arena_view(arena.items@) =~= arena_view(before).update(
            list_idx.i as int,
            arena.items@[list_idx.i as int]@,
        ));
    }
    Ok(())
}

/// Wraps the node at `idx` in a new list of one member.
pub fn promote(idx: Index, arena: &mut Arena<Node>) -> (r: Index)
    ensures
        r.i == old(arena).items@.len(),
        arena_view(final(arena).items@) == arena_view(old(arena).items@).push(
            NodeData::List(seq![idx.i as int]),
        ),
{
    let ghost before = arena_view(arena.items@);
    let mut list: Vec<Index> = Vec::new();
    list.push(idx);
    assert(places(list@) =~= seq![idx.i as int]);
    let r = arena.insert(Node::List(list));
    assert(arena_view(arena.items@) =~= before.push(NodeData::List(seq![idx.i as int])));
    r
}

} // verus!
