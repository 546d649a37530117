//! When a search expands no position twice: when no node waits at a position
//! that is done, as in every terrain that is a tree.
use vstd::prelude::*;
use crate::model::{first_best, lemma_first_best, Progress, Waiting};
use crate::terrain::{target_matches, Position, Target, Terrain};

verus! {

/// Whether the node at place `k` of the frontier waits at a position that is
/// done.
pub open spec fn stale(progress: Progress, k: int) -> bool {
    match progress {
        Progress::Searching { frontier, done } => 0 <= k < frontier.len() && done.contains(
            frontier[k].route[0],
        ),
        _ => false,
    }
}

/// Whether `node` waits at a position that is not done and was entered from
/// one that is, or waits at `start` without having been entered.
spec fn entered(terrain: Terrain, start: Position, node: Waiting, done: Set<Position>) -> bool {
    &&& node.route.len() >= 1
    &&& !done.contains(node.route[0])
    &&& if node.route.len() == 1 {
        node.route[0] == start
    } else {
        done.contains(node.route[1]) && terrain.joins(node.route[1], node.route[0])
    }
}

/// Whether the nodes of the frontier wait at positions that are all
/// different and not done.
spec fn apart(
    terrain: Terrain,
    start: Position,
    frontier: Seq<Waiting>,
    done: Set<Position>,
) -> bool {
    &&& forall|k: int|
        0 <= k < frontier.len() ==> entered(terrain, start, #[trigger] frontier[k], done)
    &&& forall|k: int, l: int|
        0 <= k < l < frontier.len() ==> (#[trigger] frontier[k]).route[0] != (
        #[trigger] frontier[l]).route[0]
}

/// Whether every node of the frontier that was entered from `from` stands
/// for one of the first `count` neighbours offered.
spec fn counted(
    frontier: Seq<Waiting>,
    from: Position,
    offered: Seq<Position>,
    count: int,
) -> bool {
    forall|k: int|
        0 <= k < frontier.len() && (#[trigger] frontier[k]).route.len() >= 2 && frontier[k].route[1]
            == from ==> exists|j: int| 0 <= j < count && #[trigger] offered[j] == frontier[k].route[0]
}

impl Terrain {
    /// The neighbour at place `i` of those of `from`.
    pub open spec fn neighbor(self, from: Position, i: int) -> Position {
        (self.neighbors)(from)[i]
    }

    /// Whether the terrain is a tree below `start`: no position is offered
    /// twice, be it from two positions or twice from one, and `start` is
    /// offered from nowhere.
    pub open spec fn branches_apart(self, start: Position) -> bool {
        &&& forall|p: Position, q: Position, i: int, j: int|
            #![trigger self.neighbor(p, i), self.neighbor(q, j)]
            0 <= i < (self.neighbors)(p).len() && 0 <= j < (self.neighbors)(q).len()
                && self.neighbor(p, i) == self.neighbor(q, j) ==> p == q && i == j
        &&& forall|p: Position| !#[trigger] self.joins(p, start)
    }

    /// The position that is expanded next after so many expansions, if the
    /// search has not ended by then.
    pub open spec fn expanded(self, start: Position, target: Target, expansions: nat) -> Option<
        Position,
    > {
        match self.after(start, target, expansions) {
            Progress::Searching { frontier, done } => {
                if frontier.len() > 0 {
                    Some(frontier[first_best(frontier)].route[0])
                } else {
                    None
                }
            },
            _ => None,
        }
    }

    /// Going through the neighbours of a node puts its position among those
    /// that are done and takes none away.
    proof fn lemma_offer_done(
        self,
        target: Target,
        top: Waiting,
        done: Set<Position>,
        offered: Seq<Position>,
        from: int,
        frontier: Seq<Waiting>,
    )
        requires
            0 <= from,
        ensures
            self.offer(target, top, done, offered, from, frontier) matches Progress::Searching {
                done: more,
                ..
            } ==> more == done.insert(top.route[0]),
            !(self.offer(target, top, done, offered, from, frontier) is Exhausted),
        decreases offered.len() - from,
    {
        if from < offered.len() {
            if done.contains(offered[from]) {
                self.lemma_offer_done(target, top, done, offered, from + 1, frontier);
            } else if !target_matches(target, offered[from]) {
                self.lemma_offer_done(
                    target,
                    top,
                    done,
                    offered,
                    from + 1,
                    frontier.push(self.child(target, top, offered[from])),
                );
            }
        }
    }

    /// In a tree, going through the neighbours of a node keeps the nodes of
    /// the frontier apart.
    proof fn lemma_offer_apart(
        self,
        start: Position,
        target: Target,
        top: Waiting,
        done: Set<Position>,
        offered: Seq<Position>,
        from: int,
        frontier: Seq<Waiting>,
    )
        requires
            self.branches_apart(start),
            entered(self, start, top, done),
            offered == (self.neighbors)(top.route[0]),
            0 <= from <= offered.len(),
            apart(self, start, frontier, done.insert(top.route[0])),
            counted(frontier, top.route[0], offered, from),
        ensures
            self.offer(target, top, done, offered, from, frontier) matches Progress::Searching {
                frontier: grown,
                done: more,
            } ==> apart(self, start, grown, more),
        decreases offered.len() - from,
    {
        let here = top.route[0];
        let after = done.insert(here);
        if from < offered.len() {
            let next = offered[from];
            assert(next == self.neighbor(here, from));
            assert(self.joins(here, next));
            if done.contains(next) {
                assert(counted(frontier, here, offered, from + 1)) by {
                    assert forall|k: int|
                        0 <= k < frontier.len() && (#[trigger] frontier[k]).route.len() >= 2
                            && frontier[k].route[1] == here implies exists|j: int|
                        0 <= j < from + 1 && #[trigger] offered[j] == frontier[k].route[0] by {
                        let j = choose|j: int|
                            0 <= j < from && #[trigger] offered[j] == frontier[k].route[0];
                        assert(0 <= j < from + 1 && offered[j] == frontier[k].route[0]);
                    }
                }
                self.lemma_offer_apart(start, target, top, done, offered, from + 1, frontier);
            } else if !target_matches(target, next) {
                let child = self.child(target, top, next);
                let longer = frontier.push(child);
                assert(child.route[0] == next);
                assert(child.route[1] == here);
                assert(next != start);
                assert(next != here) by {
                    if next == here {
                        let back = top.route[1];
                        let list = (self.neighbors)(back);
                        let i = choose|i: int| 0 <= i < list.len() && list[i] == here;
                        assert(self.neighbor(back, i) == self.neighbor(here, from));
                    }
                }
                assert(entered(self, start, child, after));
                assert forall|k: int| 0 <= k < frontier.len() implies (#[trigger] frontier[k]).route[0]
                    != next by {
                    let node = frontier[k];
                    assert(entered(self, start, node, after));
                    if node.route[0] == next {
                        let back = node.route[1];
                        let list = (self.neighbors)(back);
                        let i = choose|i: int| 0 <= i < list.len() && list[i] == next;
                        assert(self.neighbor(back, i) == self.neighbor(here, from));
                        let j = choose|j: int|
                            0 <= j < from && #[trigger] offered[j] == frontier[k].route[0];
                        assert(self.neighbor(here, j) == self.neighbor(here, from));
                    }
                }
                assert(apart(self, start, longer, after)) by {
                    assert forall|k: int| 0 <= k < longer.len() implies entered(
                        self,
                        start,
                        #[trigger] longer[k],
                        after,
                    ) by {
                        if k < frontier.len() {
                            assert(longer[k] == frontier[k]);
                        }
                    }
                    assert forall|k: int, l: int| 0 <= k < l < longer.len() implies (
                    #[trigger] longer[k]).route[0] != (#[trigger] longer[l]).route[0] by {
                        assert(longer[k] == frontier[k]);
                        if l < frontier.len() {
                            assert(longer[l] == frontier[l]);
                        }
                    }
                }
                assert(counted(longer, here, offered, from + 1)) by {
                    assert forall|k: int|
                        0 <= k < longer.len() && (#[trigger] longer[k]).route.len() >= 2
                            && longer[k].route[1] == here implies exists|j: int|
                        0 <= j < from + 1 && #[trigger] offered[j] == longer[k].route[0] by {
                        if k < frontier.len() {
                            assert(longer[k] == frontier[k]);
                            let j = choose|j: int|
                                0 <= j < from && #[trigger] offered[j] == frontier[k].route[0];
                            assert(0 <= j < from + 1 && offered[j] == longer[k].route[0]);
                        } else {
                            assert(0 <= from < from + 1 && offered[from] == longer[k].route[0]);
                        }
                    }
                }
                self.lemma_offer_apart(start, target, top, done, offered, from + 1, longer);
            }
        }
    }

    /// In a tree, the nodes of the frontier are always apart.
    proof fn lemma_apart(self, start: Position, target: Target, expansions: nat)
        requires
            self.branches_apart(start),
        ensures
            self.after(start, target, expansions) matches Progress::Searching { frontier, done }
                ==> apart(self, start, frontier, done),
        decreases expansions,
    {
        if expansions > 0 {
            let sooner = (expansions - 1) as nat;
            self.lemma_apart(start, target, sooner);
            match self.after(start, target, sooner) {
                Progress::Searching { frontier, done } => {
                    if frontier.len() > 0 {
                        lemma_first_best(frontier);
                        let index = first_best(frontier);
                        let top = frontier[index];
                        let here = top.route[0];
                        let rest = frontier.remove(index);
                        let after = done.insert(here);
                        assert(entered(self, start, top, done));
                        assert forall|k: int| 0 <= k < rest.len() implies entered(
                            self,
                            start,
                            #[trigger] rest[k],
                            after,
                        ) && !(rest[k].route.len() >= 2 && rest[k].route[1] == here) by {
                            let old_k = if k < index { k } else { k + 1 };
                            assert(rest[k] == frontier[old_k]);
                            assert(entered(self, start, frontier[old_k], done));
                            if old_k < index {
                                assert(frontier[old_k].route[0] != frontier[index].route[0]);
                            } else {
                                assert(frontier[index].route[0] != frontier[old_k].route[0]);
                            }
                        }
                        assert forall|k: int, l: int| 0 <= k < l < rest.len() implies (
                        #[trigger] rest[k]).route[0] != (#[trigger] rest[l]).route[0] by {
                            let old_k = if k < index { k } else { k + 1 };
                            let old_l = if l < index { l } else { l + 1 };
                            assert(rest[k] == frontier[old_k]);
                            assert(rest[l] == frontier[old_l]);
                            assert(frontier[old_k].route[0] != frontier[old_l].route[0]);
                        }
                        assert(counted(rest, here, (self.neighbors)(here), 0));
                        self.lemma_offer_apart(
                            start,
                            target,
                            top,
                            done,
                            (self.neighbors)(here),
                            0,
                            rest,
                        );
                    }
                },
                _ => {},
            }
        }
    }

    /// A position that is done stays done for as long as the search goes on.
    proof fn lemma_done_stays(
        self,
        start: Position,
        target: Target,
        sooner: nat,
        later: nat,
        position: Position,
    )
        requires
            sooner <= later,
            self.after(start, target, sooner) matches Progress::Searching { done, .. }
                && done.contains(position),
            self.after(start, target, later) is Searching,
        ensures
            self.after(start, target, later)->done.contains(position),
        decreases later,
    {
        if sooner < later {
            let before = (later - 1) as nat;
            if !(self.after(start, target, before) is Searching) {
                self.lemma_ended_stays(start, target, before, later);
            }
            self.lemma_done_stays(start, target, sooner, before, position);
            self.lemma_step_done(start, target, before);
        }
    }

    /// An expansion puts the position that it expands among those that are
    /// done, and takes none away.
    proof fn lemma_step_done(self, start: Position, target: Target, expansions: nat)
        requires
            self.after(start, target, expansions) is Searching,
            self.after(start, target, expansions + 1) is Searching,
        ensures
            self.expanded(start, target, expansions) matches Some(position) && self.after(
                start,
                target,
                expansions + 1,
            )->done == self.after(start, target, expansions)->done.insert(position),
    {
        assert((expansions + 1 - 1) as nat == expansions);
        match self.after(start, target, expansions) {
            Progress::Searching { frontier, done } => {
                if frontier.len() > 0 {
                    let index = first_best(frontier);
                    let top = frontier[index];
                    self.lemma_offer_done(
                        target,
                        top,
                        done,
                        (self.neighbors)(top.route[0]),
                        0,
                        frontier.remove(index),
                    );
                }
            },
            _ => {},
        }
    }

    /// Whether, all through the search, every node that waits in the
    /// frontier waits at a position that is not done.
    pub open spec fn waits_fresh(self, start: Position, target: Target) -> bool {
        forall|expansions: nat, k: int|
            !#[trigger] stale(self.after(start, target, expansions), k)
    }

    /// A search in which no node waits at a position that is done expands
    /// no position more than once.
    pub proof fn lemma_expanded_once(self, start: Position, target: Target, sooner: nat, later: nat)
        requires
            self.waits_fresh(start, target),
            sooner < later,
            self.expanded(start, target, sooner) is Some,
        ensures
            self.expanded(start, target, later) != self.expanded(start, target, sooner),
    {
        if self.expanded(start, target, later) is Some {
            let position = self.expanded(start, target, sooner)->0;
            let next = (sooner + 1) as nat;
            if !(self.after(start, target, next) is Searching) {
                self.lemma_ended_stays(start, target, next, later);
            }
            self.lemma_step_done(start, target, sooner);
            self.lemma_done_stays(start, target, next, later, position);
            let frontier = self.after(start, target, later)->frontier;
            lemma_first_best(frontier);
            assert(!stale(self.after(start, target, later), first_best(frontier)));
        }
    }

    /// In a tree, no node ever waits at a position that is done.
    pub proof fn lemma_tree_waits_fresh(self, start: Position, target: Target)
        requires
            self.branches_apart(start),
        ensures
            self.waits_fresh(start, target),
    {
        assert forall|expansions: nat, k: int|
            !#[trigger] stale(self.after(start, target, expansions), k) by {
            self.lemma_apart(start, target, expansions);
            if stale(self.after(start, target, expansions), k) {
                let frontier = self.after(start, target, expansions)->frontier;
                let done = self.after(start, target, expansions)->done;
                assert(entered(self, start, frontier[k], done));
            }
        }
    }
}

} // verus!
