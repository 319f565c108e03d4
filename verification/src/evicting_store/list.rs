//! A doubly linked list over nodes kept in an arena.
//!
//! A node is an index into a `Vec` of links; its own links tell where it
//! stands: a node with a `prev` link but no `next` link is the front of the
//! list, one with a `next` link but no `prev` link its back, one with both a
//! middle node, and one with neither is not in the list.

use vstd::prelude::*;

verus! {

/// Where a node stands in its list.
#[derive(Clone, Copy, Debug, PartialEq, Eq, Structural)]
pub enum NodeLocation {
    Front,
    Back,
    Middle,
    NotInList,
}

/// The links of a node.
#[derive(Clone, Copy, Debug, PartialEq, Eq, Structural)]
pub struct Links {
    pub prev: Option<usize>,
    pub next: Option<usize>,
}

/// Where the links of a node place it.
pub open spec fn location_of(l: Links) -> NodeLocation {
    match (l.prev, l.next) {
        (None, None) => NodeLocation::NotInList,
        (None, Some(_)) => NodeLocation::Back,
        (Some(_), None) => NodeLocation::Front,
        (Some(_), Some(_)) => NodeLocation::Middle,
    }
}

/// A node of a list.
pub trait Node {
    fn prev(&self) -> Option<usize>;
    fn set_prev(&mut self, v: Option<usize>);
    fn next(&self) -> Option<usize>;
    fn set_next(&mut self, v: Option<usize>);
    fn location(&self) -> NodeLocation;
}

impl Node for Links {
    fn prev(&self) -> (r: Option<usize>)
        ensures
            r == self.prev,
    {
        self.prev
    }

    fn set_prev(&mut self, v: Option<usize>)
        ensures
            *final(self) == (Links { prev: v, next: old(self).next }),
    {
        self.prev = v;
    }

    fn next(&self) -> (r: Option<usize>)
        ensures
            r == self.next,
    {
        self.next
    }

    fn set_next(&mut self, v: Option<usize>)
        ensures
            *final(self) == (Links { prev: old(self).prev, next: v }),
    {
        self.next = v;
    }

    fn location(&self) -> (r: NodeLocation)
        ensures
            r == location_of(*self),
    {
        match (self.prev, self.next) {
            (None, None) => NodeLocation::NotInList,
            (None, Some(_)) => NodeLocation::Back,
            (Some(_), None) => NodeLocation::Front,
            (Some(_), Some(_)) => NodeLocation::Middle,
        }
    }
}

/// A doubly linked list: its two ends, and the number of its nodes.
pub struct List {
    pub front: Option<usize>,
    pub back: Option<usize>,
    n: u64,
}

/// Whether each link of the node at `node` stays within `nodes`.
pub open spec fn links_in(nodes: Seq<Links>, node: int) -> bool {
    &&& 0 <= node < nodes.len()
    &&& (nodes[node].prev matches Some(p) ==> p < nodes.len())
    &&& (nodes[node].next matches Some(q) ==> q < nodes.len())
}

/// `nodes` with the `prev` link of node `i` set to `v`.
pub open spec fn with_prev(nodes: Seq<Links>, i: int, v: Option<usize>) -> Seq<Links> {
    nodes.update(i, Links { prev: v, next: nodes[i].next })
}

/// `nodes` with the `next` link of node `i` set to `v`.
pub open spec fn with_next(nodes: Seq<Links>, i: int, v: Option<usize>) -> Seq<Links> {
    nodes.update(i, Links { prev: nodes[i].prev, next: v })
}

/// The links after taking node `node` out of its list, by its location:
/// its neighbours are linked past it, in turn, and its own links cleared.
pub open spec fn unlinked(nodes: Seq<Links>, node: int) -> Seq<Links> {
    let l = nodes[node];
    match location_of(l) {
        NodeLocation::NotInList => nodes,
        NodeLocation::Back => {
            let s1 = match l.next { Some(q) => with_prev(nodes, q as int, None), None => nodes };
            with_next(s1, node, None)
        },
        NodeLocation::Front => {
            let s1 = match l.prev { Some(p) => with_next(nodes, p as int, None), None => nodes };
            with_prev(s1, node, None)
        },
        NodeLocation::Middle => {
            let s1 = match l.prev { Some(p) => with_next(nodes, p as int, l.next), None => nodes };
            let s2 = match l.next { Some(q) => with_prev(s1, q as int, l.prev), None => s1 };
            with_next(with_prev(s2, node, None), node, None)
        },
    }
}

impl List {
    /// The number of nodes.
    pub closed spec fn size(&self) -> nat {
        self.n as nat
    }

    /// The node at the front, if any.
    pub closed spec fn front_node(&self) -> Option<usize> {
        self.front
    }

    /// The node at the back, if any.
    pub closed spec fn back_node(&self) -> Option<usize> {
        self.back
    }

    pub fn new() -> (r: List)
        ensures
            r.front_node() is None,
            r.back_node() is None,
            r.size() == 0,
    {
        List { front: None, back: None, n: 0 }
    }

    pub fn len(&self) -> (r: u64)
        ensures
            r == self.size(),
    {
        self.n
    }

    /// Takes `node` out of the list: its neighbours are linked past it, the
    /// end it stood at moves to its neighbour, and its own links are cleared.
    pub fn remove(&mut self, nodes: &mut Vec<Links>, node: usize)
        requires
            links_in(old(nodes)@, node as int),
            location_of(old(nodes)@[node as int]) != NodeLocation::NotInList ==> old(self).size() > 0,
        ensures
            final(nodes)@ == unlinked(old(nodes)@, node as int),
            ({
                let l = old(nodes)@[node as int];
                match location_of(l) {
                    NodeLocation::NotInList => final(self).front_node() == old(self).front_node() && final(self).back_node() == old(self).back_node()
                        && final(self).size() == old(self).size(),
                    NodeLocation::Back => final(self).front_node() == old(self).front_node() && final(self).back_node() == l.next
                        && final(self).size() == old(self).size() - 1,
                    NodeLocation::Front => final(self).front_node() == l.prev && final(self).back_node() == old(self).back_node()
                        && final(self).size() == old(self).size() - 1,
                    NodeLocation::Middle => final(self).front_node() == old(self).front_node() && final(self).back_node() == old(self).back_node()
                        && final(self).size() == old(self).size() - 1,
                }
            }),
    {
        let l = nodes[node];
        match l.location() {
            NodeLocation::NotInList => {},
            NodeLocation::Back => {
                match l.next() {
                    Some(n) => {
                        let mut x = nodes[n];
                        x.set_prev(None);
                        nodes.set(n, x);
                    },
                    None => {},
                };
                self.back = l.next();
                let mut x = nodes[node];
                x.set_next(None);
                nodes.set(node, x);
                self.n = self.n - 1;
            },
            NodeLocation::Front => {
                match l.prev() {
                    Some(n) => {
                        let mut x = nodes[n];
                        x.set_next(None);
                        nodes.set(n, x);
                    },
                    None => {},
                };
                self.front = l.prev();
                let mut x = nodes[node];
                x.set_prev(None);
                nodes.set(node, x);
                self.n = self.n - 1;
            },
            NodeLocation::Middle => {
                match l.prev() {
                    Some(n) => {
                        let mut x = nodes[n];
                        x.set_next(l.next());
                        nodes.set(n, x);
                    },
                    None => {},
                };
                match l.next() {
                    Some(n) => {
                        let mut x = nodes[n];
                        x.set_prev(l.prev());
                        nodes.set(n, x);
                    },
                    None => {},
                };
                let mut x = nodes[node];
                x.set_prev(None);
                nodes.set(node, x);
                let mut x = nodes[node];
                x.set_next(None);
                nodes.set(node, x);
                self.n = self.n - 1;
            },
        }
    }

    /// Puts `node` at the front: the old front links back to it, it links
    /// on to the old front, and it becomes the front.
    pub fn push_front(&mut self, nodes: &mut Vec<Links>, node: usize)
        requires
            node < old(nodes)@.len(),
            old(self).front_node() matches Some(f) ==> f < old(nodes)@.len(),
            old(self).size() < u64::MAX,
        ensures
            final(nodes)@ == with_next(
                match old(self).front_node() { Some(f) => with_prev(old(nodes)@, f as int, Some(node)), None => old(nodes)@ },
                node as int,
                old(self).front_node(),
            ),
            final(self).front_node() == Some(node),
            final(self).back_node() == old(self).back_node(),
            final(self).size() == old(self).size() + 1,
    {
        match self.front {
            Some(f) => {
                let mut x = nodes[f];
                x.set_prev(Some(node));
                nodes.set(f, x);
            },
            None => {},
        };
        let mut x = nodes[node];
        x.set_next(self.front);
        nodes.set(node, x);
        self.front = Some(node);
        self.n = self.n + 1;
    }
}

} // verus!
