//! The nodes of a search and their order.
use std::cmp::Ordering;
use std::rc::Rc;
use vstd::prelude::*;
use crate::model::Waiting;
use crate::progress::{spare, sparse, weight};
use crate::terrain::{clamp, target_matches, Position, Target, Terrain};

verus! {

/// One discovered state of a search: a position, what it cost to get there,
/// that cost plus the estimate of what remains, and the node it was reached
/// from. A node is never changed once it is made.
#[derive(Eq, Debug)]
pub(crate) struct Node {
    pub(crate) position: (usize, usize),
    pub(crate) cost: usize,
    pub(crate) total_cost: usize,
    pub(crate) comes_from: Option<Rc<Node>>,
}

impl Node {
    /// The positions from this node back to the first node of its chain.
    pub(crate) open spec fn route(self) -> Seq<Position>
        decreases self,
    {
        match self.comes_from {
            Some(previous) => seq![self.position] + previous.route(),
            None => seq![self.position],
        }
    }

    /// The node without its links.
    pub(crate) open spec fn waiting(self) -> Waiting {
        Waiting { route: self.route(), cost: self.cost, total_cost: self.total_cost }
    }

    /// What this node counts for in the measure of the work that is left.
    pub(crate) open spec fn weight(self) -> nat {
        weight(spare(self.route().len()))
    }

    /// Whether the node's chain began at `start`, is sparse, and has every
    /// position behind the node's own among `done`.
    pub(crate) open spec fn settled(self, start: Position, done: Set<Position>) -> bool {
        &&& self.route().last() == start
        &&& sparse(self.route())
        &&& forall|j: int| 1 <= j < self.route().len() ==> done.contains(#[trigger] self.route()[j])
    }

    /// Whether the node records a walk through `terrain` from `start` that
    /// has not met `target` after its first position, with its cost and its
    /// estimated total cost.
    pub(crate) open spec fn fits(self, terrain: Terrain, start: Position, target: Target) -> bool {
        &&& terrain.is_route(self.route())
        &&& self.route().last() == start
        &&& self.cost == clamp(terrain.route_cost(self.route()))
        &&& self.total_cost == clamp(
            terrain.route_cost(self.route()) + (terrain.heuristic)(self.position, target),
        )
        &&& forall|i: int|
            0 <= i < self.route().len() - 1 ==> !target_matches(target, #[trigger] self.route()[i])
    }

    /// A node's route begins at its own position and goes on with the
    /// route of the node it was reached from.
    pub(crate) proof fn lemma_route_head(self)
        ensures
            self.route().len() >= 1,
            self.route()[0] == self.position,
            self.comes_from is None ==> self.route() == seq![self.position],
            self.comes_from matches Some(previous) ==> self.route() == seq![self.position]
                + previous.route(),
    {
    }

    /// The first node of a search: at `position`, reached from nowhere at no
    /// cost.
    pub(crate) fn new(position: (usize, usize), total_cost: usize) -> (node: Self)
        ensures
            node.position == position,
            node.cost == 0,
            node.total_cost == total_cost,
            node.comes_from is None,
            node.route() == seq![position],
    {
        Self { position, comes_from: None, cost: 0, total_cost }
    }
}

impl PartialEq for Node {
    fn eq(&self, other: &Self) -> (equal: bool) {
        self.total_cost == other.total_cost
    }
}

impl vstd::std_specs::cmp::PartialEqSpecImpl for Node {
    closed spec fn obeys_eq_spec() -> bool {
        true
    }

    closed spec fn eq_spec(&self, other: &Self) -> bool {
        self.total_cost == other.total_cost
    }
}

impl PartialOrd for Node {
    fn partial_cmp(&self, other: &Self) -> (order: Option<Ordering>) {
        if self.total_cost < other.total_cost {
            Some(Ordering::Less)
        } else if self.total_cost > other.total_cost {
            Some(Ordering::Greater)
        } else {
            Some(Ordering::Equal)
        }
    }

    fn ge(&self, other: &Self) -> (holds: bool) {
        self.total_cost >= other.total_cost
    }

    fn le(&self, other: &Self) -> (holds: bool) {
        self.total_cost <= other.total_cost
    }

    fn gt(&self, other: &Self) -> (holds: bool) {
        self.total_cost > other.total_cost
    }

    fn lt(&self, other: &Self) -> (holds: bool) {
        self.total_cost < other.total_cost
    }
}

impl vstd::std_specs::cmp::PartialOrdSpecImpl for Node {
    closed spec fn obeys_partial_cmp_spec() -> bool {
        true
    }

    closed spec fn partial_cmp_spec(&self, other: &Self) -> Option<Ordering> {
        if self.total_cost < other.total_cost {
            Some(Ordering::Less)
        } else if self.total_cost > other.total_cost {
            Some(Ordering::Greater)
        } else {
            Some(Ordering::Equal)
        }
    }
}

impl Node {
    /// Whether this node comes before `other` in the order of the frontier.
    /// Nodes are ordered by their total cost and by nothing else: two nodes at
    /// different positions are equal in this order when their total costs are.
    pub(crate) fn cheaper_than(&self, other: &Node) -> (cheaper: bool)
        ensures
            cheaper == (self.total_cost < other.total_cost),
    {
        self < other
    }
}

/// Another handle on the same node.
///
/// Wraps `Rc::clone`, which hands back a pointer to the same allocation: the
/// node behind the result is the node behind the argument.
#[verifier::external_body]
pub(crate) fn share(node: &Rc<Node>) -> (shared: Rc<Node>)
    ensures
        shared == *node,
{
    Rc::clone(node)
}

} // verus!
