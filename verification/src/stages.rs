//! The stages of a search, each with all that holds of a terrain in it.
use vstd::prelude::*;
use crate::cheapest::{
    bounded, floor, lemma_close_bounded, lemma_first_bounded, lemma_floor, lemma_found_cheapest,
};
use crate::covering::{
    grown, grows_from, lemma_close, lemma_exhausted, lemma_first_sound, lemma_found,
    lemma_grown_push, lemma_grown_skip, lemma_grown_start, sound,
};
use crate::frontier::{
    is_best, lemma_advance_takes, lemma_offer_adds, lemma_offer_finds, lemma_offer_passes,
    lemma_one_more, lemma_sets_out, searching, views,
};
use crate::model::Progress;
use crate::node::Node;
use crate::terrain::{clamp, target_matches, Position, Target, Terrain};

verus! {

/// What holds of `terrain` between two expansions of a search that has made
/// `expansions` of them: the frontier and the positions that are done fit
/// the terrain, hold a node for every way on where the estimate is
/// consistent, and are what the terrain's own search has come to.
pub(crate) open spec fn abreast(
    terrain: Terrain,
    start: Position,
    target: Target,
    expansions: nat,
    frontier: Seq<Node>,
    done: Set<Position>,
) -> bool {
    &&& sound(terrain, start, target, frontier, done)
    &&& terrain.consistent(target) ==> bounded(terrain, start, target, frontier, done)
    &&& terrain.after(start, target, expansions) == searching(frontier, done)
}

/// What holds of `terrain` while the node at `index` of `before` is
/// expanded and the first `count` of its neighbours have been gone through.
pub(crate) open spec fn midway(
    terrain: Terrain,
    start: Position,
    target: Target,
    expansions: nat,
    before: Seq<Node>,
    index: int,
    done: Set<Position>,
    offered: Seq<Position>,
    count: int,
    frontier: Seq<Node>,
) -> bool {
    &&& sound(terrain, start, target, before, done)
    &&& offered == (terrain.neighbors)(before[index].position)
    &&& grown(terrain, start, target, before[index], offered, count, done, frontier)
    &&& terrain.consistent(target) ==> bounded(terrain, start, target, before, done) && floor(
        terrain,
        start,
        target,
        done,
        before[index].total_cost,
    )
    &&& terrain.after(start, target, expansions + 1) == terrain.offer(
        target,
        before[index].waiting(),
        done,
        offered,
        count,
        views(frontier),
    )
}

/// What a search that ends with `found` owes to `terrain`.
pub(crate) open spec fn settles(
    terrain: Terrain,
    start: Position,
    target: Target,
    found: Option<Seq<Position>>,
) -> bool {
    match found {
        Some(path) => {
            &&& exists|expansions: nat| #[trigger]
                terrain.after(start, target, expansions) == Progress::Found(path)
            &&& terrain.connects(start, target, path)
            &&& terrain.consistent(target) && terrain.even_arrival(target) ==> terrain.cheapest(
                start,
                target,
                path,
            )
        },
        None => {
            &&& exists|expansions: nat| #[trigger]
                terrain.after(start, target, expansions) == Progress::Exhausted
            &&& forall|route: Seq<Position>| !#[trigger] terrain.connects(start, target, route)
        },
    }
}

/// A search begins abreast of every terrain that gives the estimate held by
/// its first node.
pub(crate) proof fn lemma_begin(terrain: Terrain, start: Position, target: Target, first: Node)
    requires
        first.route() == seq![start],
        first.position == start,
        first.cost == 0,
        first.total_cost == (terrain.heuristic)(start, target),
    ensures
        abreast(terrain, start, target, 0, seq![first], Set::empty()),
{
    lemma_first_sound(terrain, start, target, first);
    lemma_first_bounded(terrain, start, target, first);
    lemma_sets_out(terrain, start, target, first);
}

/// With an empty frontier the search has ended without a route, and none
/// connects the start with the target.
pub(crate) proof fn lemma_empty(
    terrain: Terrain,
    start: Position,
    target: Target,
    expansions: nat,
    done: Set<Position>,
)
    requires
        abreast(terrain, start, target, expansions, Seq::empty(), done),
    ensures
        settles(terrain, start, target, None),
{
    lemma_one_more(terrain, start, target, expansions);
    assert(terrain.after(start, target, expansions + 1) == Progress::Exhausted);
    assert forall|route: Seq<Position>| !#[trigger] terrain.connects(start, target, route) by {
        lemma_exhausted(terrain, start, target, done, route);
    }
}

/// Taking the best node from the frontier begins its expansion.
pub(crate) proof fn lemma_take(
    terrain: Terrain,
    start: Position,
    target: Target,
    expansions: nat,
    before: Seq<Node>,
    index: int,
    done: Set<Position>,
    offered: Seq<Position>,
)
    requires
        abreast(terrain, start, target, expansions, before, done),
        is_best(before, index),
        offered == (terrain.neighbors)(before[index].position),
    ensures
        midway(
            terrain,
            start,
            target,
            expansions,
            before,
            index,
            done,
            offered,
            0,
            before.remove(index),
        ),
{
    lemma_one_more(terrain, start, target, expansions);
    lemma_advance_takes(terrain, target, before, index, done);
    lemma_grown_start(terrain, start, target, before, index, offered, done);
    if terrain.consistent(target) {
        lemma_floor(terrain, start, target, before, index, done);
    }
}

/// A neighbour that is done is passed over.
pub(crate) proof fn lemma_pass(
    terrain: Terrain,
    start: Position,
    target: Target,
    expansions: nat,
    before: Seq<Node>,
    index: int,
    done: Set<Position>,
    offered: Seq<Position>,
    count: int,
    frontier: Seq<Node>,
)
    requires
        midway(terrain, start, target, expansions, before, index, done, offered, count, frontier),
        0 <= index < before.len(),
        0 <= count < offered.len(),
        done.contains(offered[count]),
    ensures
        midway(
            terrain,
            start,
            target,
            expansions,
            before,
            index,
            done,
            offered,
            count + 1,
            frontier,
        ),
{
    lemma_grown_skip(terrain, start, target, before[index], offered, count, done, frontier);
    lemma_offer_passes(
        terrain,
        target,
        before[index].waiting(),
        done,
        offered,
        count,
        views(frontier),
    );
}

/// A neighbour that is not done and misses the target gets its node.
pub(crate) proof fn lemma_add(
    terrain: Terrain,
    start: Position,
    target: Target,
    expansions: nat,
    before: Seq<Node>,
    index: int,
    done: Set<Position>,
    offered: Seq<Position>,
    count: int,
    frontier: Seq<Node>,
    child: Node,
)
    requires
        midway(terrain, start, target, expansions, before, index, done, offered, count, frontier),
        0 <= index < before.len(),
        0 <= count < offered.len(),
        !done.contains(offered[count]),
        !target_matches(target, offered[count]),
        child.position == offered[count],
        child.route() == seq![child.position] + before[index].route(),
        child.cost == clamp(
            before[index].cost + (terrain.step_cost)(before[index].position, child.position),
        ),
        child.total_cost == clamp(child.cost + (terrain.heuristic)(child.position, target)),
    ensures
        midway(
            terrain,
            start,
            target,
            expansions,
            before,
            index,
            done,
            offered,
            count + 1,
            frontier.push(child),
        ),
{
    let top = before[index];
    top.lemma_route_head();
    assert(top.fits(terrain, start, target));
    lemma_grown_push(terrain, start, target, top, offered, count, done, frontier, child);
    lemma_offer_adds(terrain, target, top, done, offered, count, frontier, child);
}

/// A neighbour that is not done and meets the target ends the search with
/// the route to it.
pub(crate) proof fn lemma_arrive(
    terrain: Terrain,
    start: Position,
    target: Target,
    expansions: nat,
    before: Seq<Node>,
    index: int,
    done: Set<Position>,
    offered: Seq<Position>,
    count: int,
    frontier: Seq<Node>,
)
    requires
        midway(terrain, start, target, expansions, before, index, done, offered, count, frontier),
        0 <= index < before.len(),
        0 <= count < offered.len(),
        !done.contains(offered[count]),
        target_matches(target, offered[count]),
    ensures
        settles(terrain, start, target, Some(seq![offered[count]] + before[index].route())),
{
    let top = before[index];
    let arrival = offered[count];
    let path = seq![arrival] + top.route();
    lemma_offer_finds(terrain, target, top.waiting(), done, offered, count, views(frontier));
    assert(terrain.after(start, target, expansions + 1) == Progress::Found(path));
    assert(terrain.joins(top.position, arrival));
    lemma_found(terrain, start, target, before, index, done, arrival);
    if terrain.consistent(target) && terrain.even_arrival(target) {
        assert forall|rival: Seq<Position>| #[trigger]
            terrain.connects(start, target, rival) && terrain.route_cost(rival)
                < usize::MAX implies terrain.route_cost(path) <= terrain.route_cost(rival) by {
            lemma_found_cheapest(terrain, start, target, before, index, done, arrival, rival);
        }
    }
}

/// Once all neighbours have been gone through, the search is abreast of the
/// terrain again, one expansion on.
pub(crate) proof fn lemma_finish(
    terrain: Terrain,
    start: Position,
    target: Target,
    expansions: nat,
    before: Seq<Node>,
    index: int,
    done: Set<Position>,
    offered: Seq<Position>,
    frontier: Seq<Node>,
)
    requires
        midway(
            terrain,
            start,
            target,
            expansions,
            before,
            index,
            done,
            offered,
            offered.len() as int,
            frontier,
        ),
        0 <= index < before.len(),
        grows_from(frontier, before.remove(index)),
    ensures
        abreast(
            terrain,
            start,
            target,
            expansions + 1,
            frontier,
            done.insert(before[index].position),
        ),
{
    before[index].lemma_route_head();
    lemma_close(terrain, start, target, before, index, offered, done, frontier);
    if terrain.consistent(target) {
        lemma_close_bounded(terrain, start, target, before, index, offered, done, frontier);
    }
}

} // verus!
