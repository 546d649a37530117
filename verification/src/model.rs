//! The search, stated one expansion at a time over a terrain.
use vstd::prelude::*;
use crate::terrain::{clamp, target_matches, Position, Target, Terrain};

verus! {

/// A node as a search holds it: the route that it records, from its own
/// position back to the start, what that route cost, and that cost plus the
/// estimate of what remains. Costs that do not fit are held as the largest
/// `usize`.
pub struct Waiting {
    pub route: Seq<Position>,
    pub cost: usize,
    pub total_cost: usize,
}

/// How far a search has come.
pub enum Progress {
    /// Nodes may wait in the frontier, in the order in which they were made;
    /// the positions in `done` have been expanded.
    Searching { frontier: Seq<Waiting>, done: Set<Position> },
    /// A neighbour met the target; the route leads from it back to the start.
    Found(Seq<Position>),
    /// The frontier was empty.
    Exhausted,
}

/// The place of the node that is expanded next: the first of those with the
/// smallest total cost.
pub open spec fn first_best(frontier: Seq<Waiting>) -> int
    decreases frontier.len(),
{
    if frontier.len() <= 1 {
        0
    } else {
        let earlier = first_best(frontier.drop_last());
        if frontier.last().total_cost < frontier[earlier].total_cost {
            frontier.len() - 1
        } else {
            earlier
        }
    }
}

/// The first of the best is in the frontier, no node has a smaller total
/// cost, and every node before it has a larger one.
pub proof fn lemma_first_best(frontier: Seq<Waiting>)
    requires
        frontier.len() > 0,
    ensures
        0 <= first_best(frontier) < frontier.len(),
        forall|j: int|
            0 <= j < frontier.len() ==> frontier[first_best(frontier)].total_cost <= (
            #[trigger] frontier[j]).total_cost,
        forall|j: int|
            0 <= j < first_best(frontier) ==> frontier[first_best(frontier)].total_cost < (
            #[trigger] frontier[j]).total_cost,
    decreases frontier.len(),
{
    if frontier.len() > 1 {
        let shorter = frontier.drop_last();
        lemma_first_best(shorter);
        let earlier = first_best(shorter);
        assert(shorter[earlier] == frontier[earlier]);
        assert forall|j: int| 0 <= j < frontier.len() implies frontier[first_best(
            frontier,
        )].total_cost <= (#[trigger] frontier[j]).total_cost by {
            if j < shorter.len() {
                assert(shorter[j] == frontier[j]);
            }
        }
        assert forall|j: int| 0 <= j < first_best(frontier) implies frontier[first_best(
            frontier,
        )].total_cost < (#[trigger] frontier[j]).total_cost by {
            assert(shorter[j] == frontier[j]);
        }
    }
}

impl Terrain {
    /// The first state of a search from `start`: one node waits, at `start`,
    /// at no cost.
    pub open spec fn outset(self, start: Position, target: Target) -> Progress {
        Progress::Searching {
            frontier: seq![
                Waiting {
                    route: seq![start],
                    cost: 0,
                    total_cost: (self.heuristic)(start, target),
                },
            ],
            done: Set::empty(),
        }
    }

    /// The node that is made for the step from the node `top` to `next`.
    pub open spec fn child(self, target: Target, top: Waiting, next: Position) -> Waiting {
        let cost = clamp(top.cost + (self.step_cost)(top.route[0], next));
        Waiting {
            route: seq![next] + top.route,
            cost,
            total_cost: clamp(cost + (self.heuristic)(next, target)),
        }
    }

    /// What becomes of a search that has taken `top` from its frontier, so
    /// that `frontier` is left, and goes through the neighbours `offered`
    /// from place `from` on. A neighbour that is done is passed over; the
    /// first other one that meets the target ends the search; each other
    /// one gets a node at the end of the frontier. Then `top` is done.
    pub open spec fn offer(
        self,
        target: Target,
        top: Waiting,
        done: Set<Position>,
        offered: Seq<Position>,
        from: int,
        frontier: Seq<Waiting>,
    ) -> Progress
        decreases offered.len() - from,
    {
        if from < 0 || from >= offered.len() {
            Progress::Searching { frontier, done: done.insert(top.route[0]) }
        } else if done.contains(offered[from]) {
            self.offer(target, top, done, offered, from + 1, frontier)
        } else if target_matches(target, offered[from]) {
            Progress::Found(seq![offered[from]] + top.route)
        } else {
            self.offer(
                target,
                top,
                done,
                offered,
                from + 1,
                frontier.push(self.child(target, top, offered[from])),
            )
        }
    }

    /// One expansion: the first of the best nodes leaves the frontier and its
    /// neighbours are gone through. A search that has ended stays as it is.
    pub open spec fn advance(self, target: Target, progress: Progress) -> Progress {
        match progress {
            Progress::Searching { frontier, done } => {
                if frontier.len() == 0 {
                    Progress::Exhausted
                } else {
                    let top = frontier[first_best(frontier)];
                    self.offer(
                        target,
                        top,
                        done,
                        (self.neighbors)(top.route[0]),
                        0,
                        frontier.remove(first_best(frontier)),
                    )
                }
            },
            Progress::Found(route) => Progress::Found(route),
            Progress::Exhausted => Progress::Exhausted,
        }
    }

    /// How far a search from `start` for `target` has come after so many
    /// expansions.
    pub open spec fn after(self, start: Position, target: Target, expansions: nat) -> Progress
        decreases expansions,
    {
        if expansions == 0 {
            self.outset(start, target)
        } else {
            self.advance(target, self.after(start, target, (expansions - 1) as nat))
        }
    }

    /// A search that has ended after some expansions has ended in the same
    /// way after any more.
    pub proof fn lemma_ended_stays(self, start: Position, target: Target, sooner: nat, later: nat)
        requires
            sooner <= later,
            !(self.after(start, target, sooner) is Searching),
        ensures
            self.after(start, target, later) == self.after(start, target, sooner),
        decreases later,
    {
        if sooner < later {
            self.lemma_ended_stays(start, target, sooner, (later - 1) as nat);
        }
    }
}

impl Terrain {
    /// A search ends in one way only: two states in which it has ended are
    /// the same state.
    pub proof fn lemma_one_ending(self, start: Position, target: Target, one: nat, other: nat)
        requires
            !(self.after(start, target, one) is Searching),
            !(self.after(start, target, other) is Searching),
        ensures
            self.after(start, target, one) == self.after(start, target, other),
    {
        if one <= other {
            self.lemma_ended_stays(start, target, one, other);
        } else {
            self.lemma_ended_stays(start, target, other, one);
        }
    }
}

/// What a search hands out at its end.
pub open spec fn ending(found: Option<Vec<Position>>) -> Progress {
    match found {
        Some(path) => Progress::Found(path@),
        None => Progress::Exhausted,
    }
}

} // verus!
