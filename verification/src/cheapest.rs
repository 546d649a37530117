//! Why the route found is the cheapest where the estimate is consistent.
use vstd::prelude::*;
use crate::covering::{grown, grows_from, handled, sound};
use crate::frontier::is_best;
use crate::node::Node;
use crate::terrain::{clamp, target_matches, Position, Target, Terrain};

verus! {

/// Whether the frontier has a node at `position` that cost no more than `bound`.
pub(crate) open spec fn reached(frontier: Seq<Node>, position: Position, bound: int) -> bool {
    exists|k: int|
        0 <= k < frontier.len() && (#[trigger] frontier[k]).position == position
            && frontier[k].cost <= bound
}

/// Whether `route` sets out from `start`, takes its last step out of the
/// positions that are done, and stays below the largest cost that can be held.
pub(crate) open spec fn leaves(
    terrain: Terrain,
    start: Position,
    target: Target,
    done: Set<Position>,
    route: Seq<Position>,
) -> bool {
    &&& terrain.is_route(route)
    &&& route.last() == start
    &&& !done.contains(route[0])
    &&& (route.len() >= 2 ==> done.contains(route[1]))
    &&& terrain.route_cost(route) + (terrain.heuristic)(route[0], target) < usize::MAX
}

/// Whether the frontier holds, for every route that just leaves the
/// positions that are done, a node at its head that cost no more.
pub(crate) open spec fn bounded(
    terrain: Terrain,
    start: Position,
    target: Target,
    frontier: Seq<Node>,
    done: Set<Position>,
) -> bool {
    forall|route: Seq<Position>| #[trigger]
        leaves(terrain, start, target, done, route) ==> reached(
            frontier,
            route[0],
            terrain.route_cost(route),
        )
}

/// Whether `route` sets out from `start`, has a position that is not done,
/// and stays below the largest cost that can be held.
pub(crate) open spec fn strays(
    terrain: Terrain,
    start: Position,
    target: Target,
    done: Set<Position>,
    route: Seq<Position>,
) -> bool {
    &&& terrain.is_route(route)
    &&& route.last() == start
    &&& exists|i: int| 0 <= i < route.len() && !done.contains(#[trigger] route[i])
    &&& terrain.route_cost(route) + (terrain.heuristic)(route[0], target) < usize::MAX
}

/// Whether `total` is no more than cost plus estimate of any route that
/// has a position that is not done.
pub(crate) open spec fn floor(
    terrain: Terrain,
    start: Position,
    target: Target,
    done: Set<Position>,
    total: usize,
) -> bool {
    forall|route: Seq<Position>| #[trigger]
        strays(terrain, start, target, done, route) ==> total <= terrain.route_cost(route) + (
        terrain.heuristic)(route[0], target)
}

/// The first state of a search holds the one node that is owed: that of the
/// route which stays at `start`.
pub(crate) proof fn lemma_first_bounded(
    terrain: Terrain,
    start: Position,
    target: Target,
    first: Node,
)
    requires
        first.position == start,
        first.cost == 0,
    ensures
        bounded(terrain, start, target, seq![first], Set::empty()),
{
    let frontier = seq![first];
    assert forall|route: Seq<Position>| #[trigger]
        leaves(terrain, start, target, Set::empty(), route) implies reached(
        frontier,
        route[0],
        terrain.route_cost(route),
    ) by {
        terrain.lemma_cost_not_negative(route);
        assert(frontier[0].position == route[0]);
    }
}

/// The last place of `route`, from `from` on, whose position is not done.
proof fn lemma_last_open(route: Seq<Position>, done: Set<Position>, from: int) -> (place: int)
    requires
        0 <= from < route.len(),
        !done.contains(route[from]),
    ensures
        from <= place < route.len(),
        !done.contains(route[place]),
        forall|j: int| place < j < route.len() ==> done.contains(route[j]),
    decreases route.len() - from,
{
    if exists|j: int| from < j < route.len() && !done.contains(route[j]) {
        let j = choose|j: int| from < j < route.len() && !done.contains(route[j]);
        lemma_last_open(route, done, j)
    } else {
        from
    }
}

/// With a consistent estimate, the node that is taken from the frontier has
/// a total cost that no route with a position not yet done stays below.
pub(crate) proof fn lemma_floor(
    terrain: Terrain,
    start: Position,
    target: Target,
    before: Seq<Node>,
    index: int,
    done: Set<Position>,
)
    requires
        terrain.consistent(target),
        sound(terrain, start, target, before, done),
        bounded(terrain, start, target, before, done),
        is_best(before, index),
    ensures
        floor(terrain, start, target, done, before[index].total_cost),
{
    let top = before[index];
    assert forall|route: Seq<Position>| #[trigger]
        strays(terrain, start, target, done, route) implies top.total_cost <= terrain.route_cost(
        route,
    ) + (terrain.heuristic)(route[0], target) by {
        let some = choose|i: int| 0 <= i < route.len() && !done.contains(#[trigger] route[i]);
        let place = lemma_last_open(route, done, some);
        let rest = route.skip(place);
        terrain.lemma_rest_is_route(route, place);
        terrain.lemma_estimate_grows(target, route, place);
        if rest.len() >= 2 {
            assert(rest[1] == route[place + 1]);
        }
        assert(leaves(terrain, start, target, done, rest));
        let k = choose|k: int|
            0 <= k < before.len() && (#[trigger] before[k]).position == rest[0] && before[k].cost
                <= terrain.route_cost(rest);
        let node = before[k];
        assert(node.fits(terrain, start, target));
        terrain.lemma_cost_not_negative(node.route());
        assert(top.total_cost <= node.total_cost);
    }
}

/// With a consistent estimate, the frontier after an expansion again holds
/// a node for every route that just leaves the positions that are done.
pub(crate) proof fn lemma_close_bounded(
    terrain: Terrain,
    start: Position,
    target: Target,
    before: Seq<Node>,
    index: int,
    offered: Seq<Position>,
    done: Set<Position>,
    frontier: Seq<Node>,
)
    requires
        terrain.consistent(target),
        sound(terrain, start, target, before, done),
        bounded(terrain, start, target, before, done),
        0 <= index < before.len(),
        floor(terrain, start, target, done, before[index].total_cost),
        offered == (terrain.neighbors)(before[index].position),
        grown(terrain, start, target, before[index], offered, offered.len() as int, done, frontier),
        grows_from(frontier, before.remove(index)),
    ensures
        bounded(terrain, start, target, frontier, done.insert(before[index].position)),
{
    let top = before[index];
    let here = top.position;
    let rest = before.remove(index);
    let after = done.insert(here);
    assert forall|route: Seq<Position>| #[trigger]
        leaves(terrain, start, target, after, route) implies reached(
        frontier,
        route[0],
        terrain.route_cost(route),
    ) by {
        let head = route[0];
        if route.len() >= 2 && !done.contains(route[1]) {
            let behind = route.skip(1);
            terrain.lemma_rest_is_route(route, 1);
            assert(terrain.steps(route, 0));
            assert(terrain.joins(here, head));
            assert(!done.contains(behind[0]));
            assert(strays(terrain, start, target, done, behind));
            assert(top.fits(terrain, start, target));
            terrain.lemma_cost_not_negative(top.route());
            terrain.lemma_cost_not_negative(behind);
            let j = choose|j: int| 0 <= j < offered.len() && offered[j] == head;
            assert(handled(terrain, target, top, offered, j, done, frontier));
            let cost = clamp(top.cost + (terrain.step_cost)(here, head));
            let k = choose|k: int|
                0 <= k < frontier.len() && (#[trigger] frontier[k]).position == head
                    && frontier[k].cost == cost;
            assert(frontier[k].cost <= terrain.route_cost(route));
        } else {
            assert(leaves(terrain, start, target, done, route));
            let k = choose|k: int|
                0 <= k < before.len() && (#[trigger] before[k]).position == head && before[k].cost
                    <= terrain.route_cost(route);
            let new_k = if k < index { k } else { k - 1 };
            assert(rest[new_k] == before[k]);
            assert(frontier[new_k] == rest[new_k]);
        }
    }
}

/// With a consistent estimate and an even arrival, the route that a search
/// closes costs no more than any other that connects the start with the
/// target below the largest cost that can be held.
pub(crate) proof fn lemma_found_cheapest(
    terrain: Terrain,
    start: Position,
    target: Target,
    before: Seq<Node>,
    index: int,
    done: Set<Position>,
    arrival: Position,
    rival: Seq<Position>,
)
    requires
        terrain.consistent(target),
        terrain.even_arrival(target),
        sound(terrain, start, target, before, done),
        0 <= index < before.len(),
        floor(terrain, start, target, done, before[index].total_cost),
        terrain.joins(before[index].position, arrival),
        target_matches(target, arrival),
        !done.contains(arrival),
        terrain.connects(start, target, rival),
        terrain.route_cost(rival) < usize::MAX,
    ensures
        terrain.route_cost(seq![arrival] + before[index].route()) <= terrain.route_cost(rival),
{
    let top = before[index];
    let here = top.position;
    top.lemma_route_head();
    assert(top.fits(terrain, start, target));
    terrain.lemma_extend(top.route(), arrival);
    terrain.lemma_cost_not_negative(top.route());
    let behind = rival.skip(1);
    let last = rival[1];
    terrain.lemma_rest_is_route(rival, 1);
    terrain.lemma_cost_not_negative(behind);
    assert(terrain.steps(rival, 0));
    assert(terrain.joins(last, rival[0]));
    if exists|i: int| 0 <= i < behind.len() && !done.contains(#[trigger] behind[i]) {
        assert(strays(terrain, start, target, done, behind));
    } else {
        assert(done.contains(behind[0]));
        assert(rival[0] == start && last != start);
        assert(rival.len() == 2);
    }
}

} // verus!
