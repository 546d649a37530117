//! The search itself.
use std::rc::Rc;
use vstd::prelude::*;
use crate::covering::{
    closed_positions, lemma_closed_push, lemma_widen_add, lemma_widen_finish, lemma_widen_pass,
    lemma_widen_start, tidy, widened,
};
use crate::frontier::{best_index, load};
use crate::generator::{describes, lemma_walks_on, walks, PathGenerator};
use crate::model::ending;
use crate::node::{share, Node};
use crate::stages::{
    abreast, lemma_add, lemma_arrive, lemma_begin, lemma_empty, lemma_finish, lemma_pass,
    lemma_take, midway, settles,
};
use crate::terrain::{clamp, target_matches, Terrain};

verus! {

/// What making the node for a neighbour gave.
pub(crate) enum NextNodeResult<T> {
    Created(T),
    Finished,
}

/// The state of one search: the target, the frontier of nodes that wait to
/// be expanded, and the nodes that have been expanded.
pub struct AStar {
    target: (Option<usize>, Option<usize>),
    que: Vec<Node>,
    closed_nodes: Vec<Rc<Node>>,
}

/// Whether every node of the frontier records a walk of the generator.
pub(crate) open spec fn trodden<T: PathGenerator>(generator: &T, frontier: Seq<Node>) -> bool {
    forall|k: int| 0 <= k < frontier.len() ==> walks(generator, (#[trigger] frontier[k]).route())
}

impl AStar {
    fn new(target: (Option<usize>, Option<usize>)) -> (inst: Self)
        ensures
            inst.target == target,
            inst.que@ == Seq::<Node>::empty(),
            inst.closed_nodes@ == Seq::<Rc<Node>>::empty(),
    {
        Self { target, que: Vec::new(), closed_nodes: Vec::new() }
    }

    /// Searches for the cheapest way from `start` to a position that meets
    /// `target`, through what `from_struct` offers.
    ///
    /// The result lists the positions of the route found, from the arrival
    /// back to `start`, and is `None` when no route connects the two. The
    /// node with the smallest total cost is expanded first, the one that has
    /// waited longest among equals; a search ends with the first neighbour
    /// that it generates and that meets the target. `start` itself is never
    /// tested, so a route has at least one step.
    ///
    /// The first clause holds whatever the generator answers. The others
    /// hold of every terrain that describes the generator: the result is the
    /// one that the terrain's own search ends with; it is `None` exactly when
    /// nothing connects `start` with the target; a route handed out does
    /// connect them, and no other does so at a smaller cost where the
    /// estimate is consistent and arrivals are even.
    pub fn run<T: PathGenerator>(
        from_struct: &T,
        start: (usize, usize),
        target: (Option<usize>, Option<usize>),
    ) -> (found: Option<Vec<(usize, usize)>>)
        ensures
            found matches Some(path) ==> path@.len() >= 2 && path@.last() == start
                && target_matches(target, path@[0]) && walks(from_struct, path@),
            forall|terrain: Terrain| #[trigger]
                describes(terrain, from_struct) ==> exists|expansions: nat| #[trigger]
                    terrain.after(start, target, expansions) == ending(found),
            forall|terrain: Terrain| #[trigger]
                describes(terrain, from_struct) ==> (found is None <==> terrain.cut_off(
                    start,
                    target,
                )),
            forall|terrain: Terrain| #[trigger]
                describes(terrain, from_struct) ==> (found matches Some(path) ==> terrain.connects(
                    start,
                    target,
                    path@,
                )),
            forall|terrain: Terrain| #[trigger]
                describes(terrain, from_struct) && terrain.consistent(target)
                    && terrain.even_arrival(target) ==> (found matches Some(path)
                    ==> terrain.cheapest(start, target, path@)),
            forall|terrain: Terrain| #[trigger]
                describes(terrain, from_struct) && (terrain.neighbors)(start).len() == 0
                    ==> found is None,
    {
        let mut inst = Self::new(target);
        let estimate = from_struct.calculate_heuristic_cost(start, target);
        inst.que.push(Node::new(start, estimate));
        let ghost mut expansions: nat = 0;
        proof {
            let first = inst.que@[0];
            assert(inst.que@ =~= seq![first]);
            assert(closed_positions(inst.closed_nodes@) =~= Set::empty());
            assert(first.settled(start, Set::empty()));
            assert forall|terrain: Terrain| #[trigger]
                describes(terrain, from_struct) implies abreast(
                terrain,
                start,
                target,
                expansions,
                inst.que@,
                closed_positions(inst.closed_nodes@),
            ) by {
                lemma_begin(terrain, start, target, first);
            }
        }
        loop
            invariant
                inst.target == target,
                tidy(inst.que@, start, closed_positions(inst.closed_nodes@)),
                trodden(from_struct, inst.que@),
                forall|terrain: Terrain| #[trigger]
                    describes(terrain, from_struct) ==> abreast(
                        terrain,
                        start,
                        target,
                        expansions,
                        inst.que@,
                        closed_positions(inst.closed_nodes@),
                    ),
            decreases load(inst.que@),
        {
            let ghost before = inst.que@;
            let ghost done = closed_positions(inst.closed_nodes@);
            if inst.que.is_empty() {
                proof {
                    assert(before =~= Seq::empty());
                    assert forall|terrain: Terrain| #[trigger]
                        describes(terrain, from_struct) implies settles(
                        terrain,
                        start,
                        target,
                        None,
                    ) by {
                        lemma_empty(terrain, start, target, expansions, done);
                    }
                }
                return None;
            }
            let index = best_index(&inst.que);
            let top = Rc::new(inst.que.remove(index));
            let possible_paths = from_struct.generate_paths(top.position);
            let ghost expanded = before[index as int];
            let ghost answer = possible_paths;
            let ghost rest = before.remove(index as int);
            proof {
                lemma_widen_start(before, index as int, start, done);
                assert forall|k: int| 0 <= k < rest.len() implies walks(
                    from_struct,
                    (#[trigger] rest[k]).route(),
                ) by {
                    assert(rest[k] == before[if k < index { k } else { k + 1 }]);
                }
                assert forall|terrain: Terrain| #[trigger]
                    describes(terrain, from_struct) implies midway(
                    terrain,
                    start,
                    target,
                    expansions,
                    before,
                    index as int,
                    done,
                    possible_paths@,
                    0,
                    rest,
                ) by {
                    lemma_take(
                        terrain,
                        start,
                        target,
                        expansions,
                        before,
                        index as int,
                        done,
                        possible_paths@,
                    );
                }
            }
            let mut i: usize = 0;
            while i < possible_paths.len()
                invariant
                    i <= possible_paths@.len(),
                    inst.target == target,
                    closed_positions(inst.closed_nodes@) == done,
                    0 <= index < before.len(),
                    *top == expanded,
                    expanded == before[index as int],
                    rest == before.remove(index as int),
                    answer == possible_paths,
                    call_ensures(T::generate_paths, (from_struct, expanded.position), answer),
                    walks(from_struct, expanded.route()),
                    trodden(from_struct, inst.que@),
                    widened(expanded, start, done, rest, i as int, inst.que@),
                    forall|terrain: Terrain| #[trigger]
                        describes(terrain, from_struct) ==> midway(
                            terrain,
                            start,
                            target,
                            expansions,
                            before,
                            index as int,
                            done,
                            possible_paths@,
                            i as int,
                            inst.que@,
                        ),
                decreases possible_paths@.len() - i,
            {
                let possible_path = possible_paths[i];
                let ghost frontier = inst.que@;
                if inst.pull_from_closed_by_position(possible_path).is_some() {
                    proof {
                        lemma_widen_pass(expanded, start, done, rest, i as int, frontier);
                        assert forall|terrain: Terrain| #[trigger]
                            describes(terrain, from_struct) implies midway(
                            terrain,
                            start,
                            target,
                            expansions,
                            before,
                            index as int,
                            done,
                            possible_paths@,
                            i + 1,
                            frontier,
                        ) by {
                            lemma_pass(
                                terrain,
                                start,
                                target,
                                expansions,
                                before,
                                index as int,
                                done,
                                possible_paths@,
                                i as int,
                                frontier,
                            );
                        }
                    }
                    i = i + 1;
                    continue ;
                }
                proof {
                    expanded.lemma_route_head();
                    lemma_walks_on(from_struct, expanded.route(), answer, possible_path);
                }
                match inst.create_new_node(
                    share(&top),
                    possible_path,
                    from_struct.calculate_cost(top.position, possible_path),
                    from_struct.calculate_heuristic_cost(possible_path, inst.target),
                ) {
                    NextNodeResult::Created(node) => {
                        let ghost child = node;
                        proof {
                            child.lemma_route_head();
                            lemma_widen_add(expanded, start, done, rest, i as int, frontier, child);
                            assert forall|k: int| 0 <= k < frontier.push(child).len() implies walks(
                                from_struct,
                                (#[trigger] frontier.push(child)[k]).route(),
                            ) by {
                                if k < frontier.len() {
                                    assert(frontier.push(child)[k] == frontier[k]);
                                }
                            }
                            assert forall|terrain: Terrain| #[trigger]
                                describes(terrain, from_struct) implies midway(
                                terrain,
                                start,
                                target,
                                expansions,
                                before,
                                index as int,
                                done,
                                possible_paths@,
                                i + 1,
                                frontier.push(child),
                            ) by {
                                lemma_add(
                                    terrain,
                                    start,
                                    target,
                                    expansions,
                                    before,
                                    index as int,
                                    done,
                                    possible_paths@,
                                    i as int,
                                    frontier,
                                    child,
                                );
                            }
                        }
                        inst.que.push(node)
                    },
                    NextNodeResult::Finished => {
                        let mut path = inst.reconstruct_path(share(&top));
                        path.insert(0, possible_path);
                        proof {
                            assert(path@ =~= seq![possible_path] + top.route());
                            assert(path@.last() == top.route().last());
                            assert forall|terrain: Terrain| #[trigger]
                                describes(terrain, from_struct) implies settles(
                                terrain,
                                start,
                                target,
                                Some(path@),
                            ) && (terrain.neighbors)(start).len() > 0 by {
                                lemma_arrive(
                                    terrain,
                                    start,
                                    target,
                                    expansions,
                                    before,
                                    index as int,
                                    done,
                                    possible_paths@,
                                    i as int,
                                    frontier,
                                );
                                terrain.lemma_sets_out(start, target, path@);
                            }
                        }
                        return Some(path);
                    },
                }
                i = i + 1;
            }
            let ghost closed_before = inst.closed_nodes@;
            inst.closed_nodes.push(share(&top));
            proof {
                lemma_closed_push(closed_before, Rc::new(expanded));
                lemma_widen_finish(
                    before,
                    index as int,
                    start,
                    done,
                    possible_paths@.len(),
                    inst.que@,
                );
                assert forall|terrain: Terrain| #[trigger]
                    describes(terrain, from_struct) implies abreast(
                    terrain,
                    start,
                    target,
                    expansions + 1,
                    inst.que@,
                    closed_positions(inst.closed_nodes@),
                ) by {
                    lemma_finish(
                        terrain,
                        start,
                        target,
                        expansions,
                        before,
                        index as int,
                        done,
                        possible_paths@,
                        inst.que@,
                    );
                }
                expansions = expansions + 1;
            }
        }
    }

    /// Makes the node for the neighbour at `new_position` of `old_node`,
    /// unless that position meets the target. The step costs `cost`, and
    /// `heuristic_cost` is estimated to remain from the neighbour.
    fn create_new_node(
        &self,
        old_node: Rc<Node>,
        new_position: (usize, usize),
        cost: usize,
        heuristic_cost: usize,
    ) -> (next: NextNodeResult<Node>)
        ensures
            match next {
                NextNodeResult::Finished => target_matches(self.target, new_position),
                NextNodeResult::Created(node) => {
                    &&& !target_matches(self.target, new_position)
                    &&& node.position == new_position
                    &&& node.comes_from == Some(old_node)
                    &&& node.cost == clamp(old_node.cost + cost)
                    &&& node.total_cost == clamp(node.cost + heuristic_cost)
                },
            },
    {
        if self.target_is_reached(&new_position) {
            return NextNodeResult::Finished;
        }
        let new_cost = cost.saturating_add(old_node.cost);
        NextNodeResult::Created(
            Node {
                position: new_position,
                comes_from: Some(old_node),
                cost: new_cost,
                total_cost: heuristic_cost.saturating_add(new_cost),
            },
        )
    }

    /// Whether `position` meets the target of this search.
    fn target_is_reached(&self, position: &(usize, usize)) -> (reached: bool)
        ensures
            reached == target_matches(self.target, *position),
    {
        if self.target.0.is_some() && self.target.0.unwrap() != position.0 {
            return false;
        }
        if self.target.1.is_some() && self.target.1.unwrap() != position.1 {
            return false;
        }
        true
    }

    /// The positions from `opt` back to where its chain began.
    fn reconstruct_path(&self, opt: Rc<Node>) -> (fastest_path: Vec<(usize, usize)>)
        ensures
            fastest_path@ == opt.route(),
    {
        let mut fastest_path = vec![opt.position];
        let mut comes_from = opt.comes_from.as_ref();
        loop
            invariant
                opt.route() == fastest_path@ + (match comes_from {
                    Some(node) => node.route(),
                    None => Seq::empty(),
                }),
            decreases comes_from,
        {
            if let Some(node) = comes_from {
                fastest_path.push(node.position);
                comes_from = node.comes_from.as_ref();
            } else {
                return fastest_path;
            }
        }
    }

    /// The first expanded node at `position`, if that position has been
    /// expanded.
    fn pull_from_closed_by_position(&self, position: (usize, usize)) -> (hit: Option<&Rc<Node>>)
        ensures
            hit is Some <==> closed_positions(self.closed_nodes@).contains(position),
            hit matches Some(node) ==> exists|i: int|
                {
                    &&& 0 <= i < self.closed_nodes@.len()
                    &&& *node == #[trigger] self.closed_nodes@[i]
                    &&& node.position == position
                    &&& forall|j: int|
                        0 <= j < i ==> (#[trigger] self.closed_nodes@[j]).position != position
                },
    {
        let mut i: usize = 0;
        while i < self.closed_nodes.len()
            invariant
                i <= self.closed_nodes@.len(),
                forall|j: int| 0 <= j < i ==> (#[trigger] self.closed_nodes@[j]).position != position,
            decreases self.closed_nodes@.len() - i,
        {
            let closed_node = &self.closed_nodes[i];
            if closed_node.position.0 == position.0 && closed_node.position.1 == position.1 {
                return Some(closed_node);
            }
            i = i + 1;
        }
        None
    }
}

} // verus!
